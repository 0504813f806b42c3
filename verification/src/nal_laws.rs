//! What holds of packets as a whole: taking them apart loses nothing, and what was put together
//! is found again.
use crate::error::Error;
use crate::nal::{
    annex_b_from, be_bytes, be_number, code_len, flatten, lemma_next_code, length_limit,
    length_prefixed, long_code_at, nals_of, next_code, short_code_at, NalModel, PacketFormat,
};
use vstd::prelude::*;

verus! {

/// Law: a length is read as it was written.
pub proof fn law_length_round_trip(v: nat, n: nat)
    requires
        n <= 4,
        if n == 0 {
            v == 0
        } else {
            v < length_limit(n as int)
        },
    ensures
        be_number(be_bytes(v, n)) == v,
        be_bytes(v, n).len() == n,
    decreases n,
{
    if n > 0 {
        law_length_round_trip(v / 256, (n - 1) as nat);
        assert(be_bytes(v, n).drop_last() =~= be_bytes(v / 256, (n - 1) as nat));
        assert((v % 256) as u8 == v % 256);
        assert(v < 0x1_0000_0000 <= usize::MAX + 1);
    }
}

/// A NAL unit stands behind its length, in `n` bytes.
pub open spec fn framed(nal: NalModel, n: nat) -> bool {
    &&& nal.prefix.len() == n
    &&& be_number(nal.prefix) == nal.data.len()
    &&& nal.data.len() > 0
    &&& nal.format == (PacketFormat::LengthPrefixed { length_size: n as usize })
}

/// Every NAL unit stands behind its length, in `n` bytes.
pub open spec fn all_framed(nals: Seq<NalModel>, n: nat) -> bool {
    forall|i: int| 0 <= i < nals.len() ==> framed(#[trigger] nals[i], n)
}

/// Law: NAL units behind their lengths are found again, each of them and nothing else.
pub proof fn law_framed_read_back(nals: Seq<NalModel>, n: nat)
    requires
        all_framed(nals, n),
        n > 0,
    ensures
        length_prefixed(flatten(nals), n) == Ok::<Seq<NalModel>, Error>(nals),
    decreases nals.len(),
{
    let data = flatten(nals);
    if nals.len() == 0 {
        assert(nals =~= Seq::empty());
    } else {
        let first = nals[0];
        assert(framed(first, n));
        let rest = nals.skip(1);
        assert forall|i: int| 0 <= i < rest.len() implies framed(#[trigger] rest[i], n) by {
            assert(rest[i] == nals[i + 1]);
        }
        law_framed_read_back(rest, n);
        let len = first.data.len() as int;
        assert(data.take(n as int) =~= first.prefix);
        assert(data.subrange(n as int, n + len) =~= first.data);
        assert(data.skip(n + len) =~= flatten(rest));
        assert(seq![first] + rest =~= nals);
    }
}

/// Law: taking a packet with lengths apart loses nothing, and every NAL unit stands behind its
/// length.
pub proof fn law_length_prefixed_lossless(data: Seq<u8>, n: nat)
    ensures
        length_prefixed(data, n) matches Ok(nals) ==> flatten(nals) == data && all_framed(nals, n),
    decreases data.len(),
{
    if let Ok(nals) = length_prefixed(data, n) {
        if data.len() == 0 {
            assert(flatten(nals) =~= data);
        } else {
            let len = be_number(data.take(n as int));
            law_length_prefixed_lossless(data.skip(n + len), n);
            let rest = length_prefixed(data.skip(n + len), n)->Ok_0;
            assert(nals.skip(1) =~= rest);
            assert(data.take(n as int) + data.subrange(n as int, n + len) + data.skip(n + len)
                =~= data);
            assert forall|i: int| 0 <= i < nals.len() implies framed(#[trigger] nals[i], n) by {
                if i > 0 {
                    assert(nals[i] == rest[i - 1]);
                }
            }
        }
    }
}

/// Where the next start code is does not depend on what stands in front.
proof fn lemma_next_code_shift(head: Seq<u8>, data: Seq<u8>, i: int)
    requires
        0 <= i <= data.len(),
    ensures
        next_code(head + data, head.len() + i) == head.len() + next_code(data, i),
    decreases data.len() - i,
{
    if i < data.len() {
        let all = head + data;
        assert(code_len(all, head.len() + i) == code_len(data, i));
        if code_len(data, i) == 0 {
            lemma_next_code_shift(head, data, i + 1);
        }
    }
}

/// Nor do the NAL units.
proof fn lemma_annex_b_shift(head: Seq<u8>, data: Seq<u8>, i: int)
    requires
        0 <= i <= data.len(),
    ensures
        annex_b_from(head + data, head.len() + i) == annex_b_from(data, i),
    decreases data.len() - i,
{
    let all = head + data;
    let start = next_code(data, i);
    lemma_next_code(data, i);
    lemma_next_code_shift(head, data, i);
    if start < data.len() {
        assert(code_len(all, head.len() + start) == code_len(data, start));
        let body = start + code_len(data, start);
        let next = next_code(data, body);
        lemma_next_code(data, body);
        lemma_next_code_shift(head, data, body);
        lemma_annex_b_shift(head, data, body);
        assert(all.subrange(head.len() + start, head.len() + body) =~= data.subrange(start, body));
        assert(all.subrange(head.len() + body, head.len() + next) =~= data.subrange(body, next));
    }
}

/// The NAL units from a place on are those from the next start code on.
proof fn lemma_annex_b_skip(data: Seq<u8>, i: int)
    requires
        0 <= i <= data.len(),
    ensures
        annex_b_from(data, i) == annex_b_from(data, next_code(data, i)),
{
    lemma_next_code(data, i);
    let start = next_code(data, i);
    assert(next_code(data, start) == start);
}

/// Bytes without a three-byte start code among them.
pub open spec fn code_free(data: Seq<u8>) -> bool {
    forall|i: int| 0 <= i < data.len() ==> !#[trigger] short_code_at(data, i)
}

/// A start code and nothing else.
pub open spec fn is_code(prefix: Seq<u8>) -> bool {
    prefix == seq![0u8, 0u8, 1u8] || prefix == seq![0u8, 0u8, 0u8, 1u8]
}

/// A NAL unit stands behind a start code and contains none.
pub open spec fn coded(nal: NalModel) -> bool {
    is_code(nal.prefix) && code_free(nal.data) && nal.format == PacketFormat::AnnexB
}

/// Every NAL unit stands behind a start code and contains none.
pub open spec fn all_coded(nals: Seq<NalModel>) -> bool {
    forall|i: int| 0 <= i < nals.len() ==> coded(#[trigger] nals[i])
}

/// Law: taking a packet with start codes apart loses nothing from the first of them on, and no
/// NAL unit contains one.
pub proof fn law_annex_b_lossless(data: Seq<u8>, i: int)
    requires
        0 <= i <= data.len(),
    ensures
        flatten(annex_b_from(data, i)) == data.skip(next_code(data, i)),
        all_coded(annex_b_from(data, i)),
    decreases data.len() - i,
{
    let nals = annex_b_from(data, i);
    let start = next_code(data, i);
    lemma_next_code(data, i);
    if start >= data.len() {
        assert(flatten(nals) =~= data.skip(start));
    } else {
        let body = start + code_len(data, start);
        let next = next_code(data, body);
        lemma_next_code(data, body);
        law_annex_b_lossless(data, body);
        let first = nals[0];
        let rest = annex_b_from(data, body);
        assert(nals.skip(1) =~= rest);
        assert(first.prefix + first.data + data.skip(next) =~= data.skip(start));
        assert(is_code(first.prefix)) by {
            if short_code_at(data, start) {
                assert(first.prefix =~= seq![0u8, 0u8, 1u8]);
            } else {
                assert(first.prefix =~= seq![0u8, 0u8, 0u8, 1u8]);
            }
        }
        assert(code_free(first.data)) by {
            assert forall|j: int| 0 <= j < first.data.len() implies !#[trigger] short_code_at(
                first.data,
                j,
            ) by {
                assert(code_len(data, body + j) == 0);
            }
        }
        assert forall|k: int| 0 <= k < nals.len() implies coded(#[trigger] nals[k]) by {
            if k > 0 {
                assert(nals[k] == rest[k - 1]);
            }
        }
    }
}

/// Law: taking a packet apart loses nothing.
pub proof fn law_nals_lossless(data: Seq<u8>)
    ensures
        nals_of(data) matches Ok(nals) ==> flatten(nals) == data,
{
    law_length_prefixed_lossless(data, 4);
    law_annex_b_lossless(data, 0);
    if code_len(data, 0) > 0 {
        assert(next_code(data, 0) == 0);
        assert(data.skip(0) =~= data);
    }
}

/// The bytes begin with a start code, or there are none.
pub open spec fn starts_coded(data: Seq<u8>) -> bool {
    data.len() == 0 || code_len(data, 0) > 0
}

/// A zero byte in front of a three-byte start code makes it a longer one.
proof fn lemma_longer_code(data: Seq<u8>)
    requires
        short_code_at(data, 0),
    ensures
        ({
            let longer = annex_b_from(seq![0u8] + data, 0);
            let nals = annex_b_from(data, 0);
            &&& nals.len() > 0
            &&& longer.len() == nals.len()
            &&& longer[0].data == nals[0].data
            &&& longer.skip(1) == nals.skip(1)
        }),
{
    let all = seq![0u8] + data;
    assert(long_code_at(all, 0) && !short_code_at(all, 0));
    assert(next_code(all, 0) == 0);
    assert(next_code(data, 0) == 0);
    lemma_next_code(data, 3);
    lemma_next_code_shift(seq![0u8], data, 3);
    lemma_annex_b_shift(seq![0u8], data, 3);
    let next = next_code(data, 3);
    assert(all.subrange(4, 1 + next) =~= data.subrange(3, next));
    assert(annex_b_from(all, 0).skip(1) =~= annex_b_from(all, 4));
    assert(annex_b_from(data, 0).skip(1) =~= annex_b_from(data, 3));
}

/// How the NAL units of `nal` and of what comes behind it are found: those of the rest are as
/// they are without it, but for a zero byte that may go over from its end to the start code
/// behind it.
pub proof fn lemma_annex_b_step(nal: NalModel, rest: Seq<u8>)
    requires
        coded(nal),
        starts_coded(rest),
    ensures
        ({
            let found = annex_b_from(nal.prefix + nal.data + rest, 0);
            let behind = annex_b_from(rest, 0);
            &&& found.len() == behind.len() + 1
            &&& found[0].data == nal.data || (found[0].data.push(0) == nal.data)
            &&& nal.data.len() == 0 || nal.data.last() != 0 ==> found[0].data == nal.data
            &&& behind.len() > 0 ==> found[1].data == behind[0].data && found.skip(2)
                == behind.skip(1)
        }),
{
    let head = nal.prefix + nal.data;
    let all = head + rest;
    let p = nal.prefix.len() as int;
    let n = nal.data.len() as int;
    assert(short_code_at(all, 0) || long_code_at(all, 0)) by {
        if nal.prefix == seq![0u8, 0u8, 1u8] {
            assert(all[0] == 0 && all[1] == 0 && all[2] == 1);
        } else {
            assert(all[0] == 0 && all[1] == 0 && all[2] == 0 && all[3] == 1);
        }
    }
    assert(code_len(all, 0) == p) by {
        if nal.prefix == seq![0u8, 0u8, 1u8] {
            assert(all[2] == 1);
        } else {
            assert(all[2] == 0);
        }
    }
    assert(next_code(all, 0) == 0);
    let next = next_code(all, p);
    lemma_next_code(all, p);
    assert forall|j: int| p <= j < p + n && j < p + n - 1 implies code_len(all, j) == 0 by {
        if short_code_at(all, j) {
            if j + 3 <= p + n {
                assert(short_code_at(nal.data, j - p));
            }
        }
        if long_code_at(all, j) {
            if j + 4 <= p + n {
                assert(short_code_at(nal.data, j + 1 - p));
            }
        }
    }
    let last = p + n - 1;
    if n > 0 {
        assert(!short_code_at(all, last));
        assert(long_code_at(all, last) ==> nal.data.last() == 0 && short_code_at(rest, 0));
        if nal.data.last() == 0 && short_code_at(rest, 0) {
            assert(all[last] == 0 && all[last + 1] == rest[0] && all[last + 2] == rest[1]
                && all[last + 3] == rest[2]);
            assert(long_code_at(all, last));
        }
    }
    if rest.len() > 0 {
        assert(code_len(all, p + n) == code_len(rest, 0)) by {
            assert forall|k: int| 0 <= k < rest.len() implies all[p + n + k] == rest[k] by {}
        }
    }
    lemma_annex_b_skip(all, p);
    let found = annex_b_from(all, 0);
    assert(found.skip(1) =~= annex_b_from(all, p));
    if n > 0 && nal.data.last() == 0 && short_code_at(rest, 0) {
        assert(code_len(all, last) == 4);
        assert(next == last);
        let front = all.take(last);
        let tail = seq![0u8] + rest;
        assert(all =~= front + tail);
        lemma_annex_b_shift(front, tail, 0);
        lemma_longer_code(rest);
        assert(found[0].data =~= nal.data.drop_last());
        assert(found[0].data.push(0) =~= nal.data);
        assert(found[1] == annex_b_from(tail, 0)[0]);
        assert(found.skip(2) =~= annex_b_from(tail, 0).skip(1));
    } else {
        assert(next == p + n);
        assert(found[0].data =~= nal.data);
        lemma_annex_b_shift(head, rest, 0);
        if annex_b_from(rest, 0).len() > 0 {
            assert(found[1] == annex_b_from(rest, 0)[0]);
            assert(found.skip(2) =~= annex_b_from(rest, 0).skip(1));
        }
    }
}

/// No NAL unit ends in a zero byte that the start code behind it would take over.
pub open spec fn settled(nals: Seq<NalModel>) -> bool {
    &&& all_coded(nals)
    &&& forall|i: int|
        0 <= i < nals.len() - 1 && (#[trigger] nals[i]).data.len() > 0 && nals[i].data.last() == 0
            ==> nals[i + 1].prefix == seq![0u8, 0u8, 0u8, 1u8]
}

/// Law: the NAL units of a packet with start codes are settled.
pub proof fn law_annex_b_settled(data: Seq<u8>, i: int)
    requires
        0 <= i <= data.len(),
    ensures
        settled(annex_b_from(data, i)),
    decreases data.len() - i,
{
    law_annex_b_lossless(data, i);
    let nals = annex_b_from(data, i);
    let start = next_code(data, i);
    lemma_next_code(data, i);
    if start < data.len() {
        let body = start + code_len(data, start);
        let next = next_code(data, body);
        lemma_next_code(data, body);
        law_annex_b_settled(data, body);
        let rest = annex_b_from(data, body);
        assert forall|k: int|
            0 <= k < nals.len() - 1 && (#[trigger] nals[k]).data.len() > 0 && nals[k].data.last()
                == 0 implies nals[k + 1].prefix == seq![0u8, 0u8, 0u8, 1u8] by {
            assert(nals[k + 1] == rest[k]);
            if k == 0 {
                assert(next < data.len());
                assert(data[next - 1] == 0);
                assert(code_len(data, next - 1) == 0);
                assert(!short_code_at(data, next)) by {
                    if short_code_at(data, next) {
                        assert(long_code_at(data, next - 1));
                    }
                }
                assert(nals[1].prefix =~= seq![0u8, 0u8, 0u8, 1u8]);
            } else {
                assert(nals[k] == rest[k - 1]);
            }
        }
    }
}

/// A NAL unit that is settled in front of others is found as it is, and so are they.
pub proof fn lemma_settled_step(nal: NalModel, rest: Seq<u8>)
    requires
        coded(nal),
        starts_coded(rest),
        nal.data.len() > 0 && nal.data.last() == 0 ==> !short_code_at(rest, 0),
    ensures
        annex_b_from(nal.prefix + nal.data + rest, 0) == seq![nal] + annex_b_from(rest, 0),
{
    let head = nal.prefix + nal.data;
    let all = head + rest;
    let p = nal.prefix.len() as int;
    let n = nal.data.len() as int;
    assert(code_len(all, 0) == p) by {
        if nal.prefix == seq![0u8, 0u8, 1u8] {
            assert(all[0] == 0 && all[1] == 0 && all[2] == 1);
        } else {
            assert(all[0] == 0 && all[1] == 0 && all[2] == 0 && all[3] == 1);
        }
    }
    assert(next_code(all, 0) == 0);
    lemma_next_code(all, p);
    let next = next_code(all, p);
    assert forall|j: int| p <= j < p + n implies code_len(all, j) == 0 by {
        if short_code_at(all, j) {
            if j + 3 <= p + n {
                assert(short_code_at(nal.data, j - p));
            }
        }
        if long_code_at(all, j) {
            if j + 4 <= p + n {
                assert(short_code_at(nal.data, j + 1 - p));
            } else if j == p + n - 1 {
                assert(short_code_at(rest, 0));
            }
        }
    }
    if rest.len() > 0 {
        assert(code_len(all, p + n) == code_len(rest, 0)) by {
            assert forall|k: int| 0 <= k < rest.len() implies all[p + n + k] == rest[k] by {}
        }
    }
    assert(next == p + n);
    lemma_annex_b_skip(all, p);
    lemma_annex_b_shift(head, rest, 0);
    assert(all.subrange(0, p) =~= nal.prefix);
    assert(all.subrange(p, next) =~= nal.data);
}

/// Law: settled NAL units behind start codes are found again, each of them and nothing else.
pub proof fn law_settled_read_back(nals: Seq<NalModel>)
    requires
        settled(nals),
    ensures
        annex_b_from(flatten(nals), 0) == nals,
        starts_coded(flatten(nals)),
        nals.len() > 0 ==> short_code_at(flatten(nals), 0) == (nals[0].prefix == seq![
            0u8,
            0u8,
            1u8,
        ]),
    decreases nals.len(),
{
    let data = flatten(nals);
    if nals.len() == 0 {
        assert(annex_b_from(data, 0) =~= nals);
    } else {
        let first = nals[0];
        let rest = nals.skip(1);
        assert(coded(first));
        assert(settled(rest)) by {
            assert forall|k: int| 0 <= k < rest.len() implies coded(#[trigger] rest[k]) by {
                assert(rest[k] == nals[k + 1]);
            }
            assert forall|k: int|
                0 <= k < rest.len() - 1 && (#[trigger] rest[k]).data.len() > 0
                    && rest[k].data.last() == 0 implies rest[k + 1].prefix == seq![
                0u8,
                0u8,
                0u8,
                1u8,
            ] by {
                assert(rest[k] == nals[k + 1]);
            }
        }
        law_settled_read_back(rest);
        assert(first.data.len() > 0 && first.data.last() == 0 ==> !short_code_at(flatten(rest), 0))
            by {
            if first.data.len() > 0 && first.data.last() == 0 && rest.len() > 0 {
                assert(nals[1].prefix == seq![0u8, 0u8, 0u8, 1u8]);
                assert(rest[0].prefix[2] == 0);
                assert(seq![0u8, 0u8, 1u8][2] == 1);
            }
        }
        lemma_settled_step(first, flatten(rest));
        assert(seq![first] + rest =~= nals);
        if first.prefix == seq![0u8, 0u8, 1u8] {
            assert(data[0] == 0 && data[1] == 0 && data[2] == 1);
        } else {
            assert(data[0] == 0 && data[1] == 0 && data[2] == 0 && data[3] == 1);
            assert(seq![0u8, 0u8, 1u8][2] != first.prefix[2]);
        }
    }
}

/// The NAL units of two parts of a packet are found as they are in each of them, where the second
/// part begins with a long start code.
pub proof fn lemma_annex_b_concat(nals: Seq<NalModel>, tail: Seq<u8>)
    requires
        all_coded(nals),
        tail.len() == 0 || (long_code_at(tail, 0) && !short_code_at(tail, 0)),
    ensures
        annex_b_from(flatten(nals) + tail, 0) == annex_b_from(flatten(nals), 0) + annex_b_from(
            tail,
            0,
        ),
    decreases nals.len(),
{
    let data = flatten(nals);
    if nals.len() == 0 {
        assert(data + tail =~= tail);
        assert(annex_b_from(data, 0).len() == 0);
        assert(annex_b_from(data, 0) + annex_b_from(tail, 0) =~= annex_b_from(tail, 0));
    } else {
        let first = nals[0];
        let rest = nals.skip(1);
        assert(coded(first));
        assert forall|k: int| 0 <= k < rest.len() implies coded(#[trigger] rest[k]) by {
            assert(rest[k] == nals[k + 1]);
        }
        let behind = flatten(rest);
        assert(starts_coded(behind) && starts_coded(behind + tail) && (rest.len() > 0 ==> (
        short_code_at(behind, 0) == short_code_at(behind + tail, 0)))) by {
            if rest.len() > 0 {
                assert(coded(rest[0]));
                let p = rest[0].prefix;
                if p == seq![0u8, 0u8, 1u8] {
                    assert(behind[0] == 0 && behind[1] == 0 && behind[2] == 1);
                    assert((behind + tail)[0] == 0 && (behind + tail)[1] == 0 && (behind + tail)[2]
                        == 1);
                } else {
                    assert(behind[0] == 0 && behind[1] == 0 && behind[2] == 0 && behind[3] == 1);
                    assert((behind + tail)[0] == 0 && (behind + tail)[1] == 0 && (behind + tail)[2]
                        == 0 && (behind + tail)[3] == 1);
                }
            } else {
                assert(behind + tail =~= tail);
            }
        }
        assert(data + tail =~= first.prefix + first.data + (behind + tail));
        assert(data =~= first.prefix + first.data + behind);
        if rest.len() > 0 && first.data.len() > 0 && first.data.last() == 0 && short_code_at(
            behind,
            0,
        ) {
            let short = NalModel { data: first.data.drop_last(), ..first };
            let zero = seq![0u8];
            assert(coded(short)) by {
                assert forall|k: int| 0 <= k < short.data.len() implies !#[trigger] short_code_at(
                    short.data,
                    k,
                ) by {
                    assert(!short_code_at(first.data, k));
                }
            }
            let longer = rest.update(
                0,
                (NalModel { prefix: seq![0u8, 0u8, 0u8, 1u8], ..rest[0] }),
            );
            assert(coded(rest[0]));
            assert(rest[0].prefix =~= seq![0u8, 0u8, 1u8]) by {
                assert(behind[2] == rest[0].prefix[2]);
                assert(seq![0u8, 0u8, 0u8, 1u8][2] == 0);
            }
            assert forall|k: int| 0 <= k < longer.len() implies coded(#[trigger] longer[k]) by {
                assert(coded(rest[k]));
            }
            assert(longer.skip(1) =~= rest.skip(1));
            assert(flatten(longer) =~= zero + behind);
            lemma_annex_b_concat(longer, tail);
            assert((zero + behind) + tail =~= zero + (behind + tail));
            assert(long_code_at(zero + behind, 0) && !short_code_at(zero + behind, 0));
            assert(long_code_at(zero + (behind + tail), 0) && !short_code_at(
                zero + (behind + tail),
                0,
            ));
            lemma_settled_step(short, zero + behind);
            lemma_settled_step(short, zero + (behind + tail));
            assert(short.prefix + short.data + (zero + behind) =~= data);
            assert(short.prefix + short.data + (zero + (behind + tail)) =~= data + tail);
            assert(seq![short] + (annex_b_from(zero + behind, 0) + annex_b_from(tail, 0)) =~= (seq![
                short,
            ] + annex_b_from(zero + behind, 0)) + annex_b_from(tail, 0));
        } else {
            lemma_annex_b_concat(rest, tail);
            if rest.len() == 0 {
                assert(behind + tail =~= tail);
            }
            lemma_settled_step(first, behind);
            lemma_settled_step(first, behind + tail);
            assert(seq![first] + (annex_b_from(behind, 0) + annex_b_from(tail, 0)) =~= (seq![first]
                + annex_b_from(behind, 0)) + annex_b_from(tail, 0));
        }
    }
}

} // verus!
