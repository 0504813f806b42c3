//! Supplemental enhancement information: messages that go with the pictures.
use crate::error::Error;
use crate::escape::{ebsp_to_rbsp, rbsp_of, runs_countable, unescaped};
use vstd::prelude::*;
use vstd::slice::{slice_subrange, slice_to_vec};

verus! {

/// The type of a message with registered user data.
pub const SEI_USER_DATA_REGISTERED_ITU_T_T35: u64 = 4;

/// The bytes that spell a number: a 255 for each whole 255, and then the rest.
pub open spec fn number_bytes(v: nat) -> Seq<u8>
    decreases v,
{
    if v >= 255 {
        seq![255u8] + number_bytes((v - 255) as nat)
    } else {
        seq![v as u8]
    }
}

/// The number at the start of a byte string and what comes behind it, if it is complete.
pub open spec fn read_number(bytes: Seq<u8>) -> Option<(nat, Seq<u8>)>
    decreases bytes.len(),
{
    if bytes.len() == 0 {
        None
    } else if bytes[0] == 255 {
        match read_number(bytes.skip(1)) {
            Some((v, rest)) => Some((v + 255, rest)),
            None => None,
        }
    } else {
        Some((bytes[0] as nat, bytes.skip(1)))
    }
}

/// The number at the start of a byte string, as far as it goes.
pub open spec fn spelled(bytes: Seq<u8>) -> nat
    decreases bytes.len(),
{
    if bytes.len() == 0 {
        0
    } else if bytes[0] == 255 {
        255 + spelled(bytes.skip(1))
    } else {
        bytes[0] as nat
    }
}

/// What comes behind a number is shorter, and a complete number is as far as it goes.
pub proof fn lemma_read_number(bytes: Seq<u8>)
    ensures
        read_number(bytes) matches Some((v, rest)) ==> rest.len() < bytes.len() && v == spelled(
            bytes,
        ) && rest == bytes.skip(bytes.len() - rest.len()),
    decreases bytes.len(),
{
    if bytes.len() > 0 && bytes[0] == 255 {
        lemma_read_number(bytes.skip(1));
        if let Some((v, rest)) = read_number(bytes.skip(1)) {
            assert(bytes.skip(1).skip(bytes.len() - 1 - rest.len()) =~= bytes.skip(
                bytes.len() - rest.len(),
            ));
        }
    }
}

/// Law: a number is read as it was written, whatever comes behind it.
pub proof fn law_number_round_trip(v: nat, rest: Seq<u8>)
    ensures
        read_number(number_bytes(v) + rest) == Some((v, rest)),
    decreases v,
{
    let all = number_bytes(v) + rest;
    if v >= 255 {
        law_number_round_trip((v - 255) as nat, rest);
        assert(all.skip(1) =~= number_bytes((v - 255) as nat) + rest);
    } else {
        assert(all.skip(1) =~= rest);
    }
}

/// The bytes are zero from `from` on.
pub open spec fn zeros_from(bytes: Seq<u8>, from: int) -> bool {
    forall|i: int| from <= i < bytes.len() ==> bytes[i] == 0
}

/// The messages in a byte string, each with its type and its payload. They end where only the
/// stop bit is left or where the next one is not complete.
pub open spec fn messages(rbsp: Seq<u8>) -> Seq<(nat, Seq<u8>)>
    decreases rbsp.len(),
{
    if rbsp.len() <= 1 || (rbsp[0] == 0x80 && zeros_from(rbsp, 1)) {
        Seq::empty()
    } else {
        match read_number(rbsp) {
            None => Seq::empty(),
            Some((kind, rest)) => match read_number(rest) {
                None => Seq::empty(),
                Some((size, body)) => if size > body.len() {
                    Seq::empty()
                } else {
                    proof {
                        lemma_read_number(rbsp);
                        lemma_read_number(rest);
                    }
                    seq![(kind, body.take(size as int))] + messages(body.skip(size as int))
                },
            },
        }
    }
}

/// The messages in a byte string, which are the end of a string of `total` bytes, can be read
/// without running into limits: every type fits in 64 bits, and every size and the end of every
/// payload can be counted. That holds of a number that is not complete too, as far as it goes, and
/// of a payload that is not.
pub open spec fn messages_fit(rbsp: Seq<u8>, total: nat) -> bool
    decreases rbsp.len(),
{
    rbsp.len() <= 1 || (rbsp[0] == 0x80 && zeros_from(rbsp, 1)) || {
        &&& spelled(rbsp) <= u64::MAX
        &&& match read_number(rbsp) {
            None => true,
            Some((_, rest)) => {
                &&& spelled(rest) <= usize::MAX
                &&& match read_number(rest) {
                    None => true,
                    Some((size, body)) => {
                        &&& total - body.len() + size <= usize::MAX
                        &&& if size > body.len() {
                            true
                        } else {
                            proof {
                                lemma_read_number(rbsp);
                                lemma_read_number(rest);
                            }
                            messages_fit(body.skip(size as int), total)
                        }
                    },
                }
            },
        }
    }
}

/// Messages, as specifications see them.
pub open spec fn messages_view(list: Seq<(u64, Vec<u8>)>) -> Seq<(nat, Seq<u8>)> {
    list.map_values(|m: (u64, Vec<u8>)| (m.0 as nat, m.1@))
}

/// The messages of an SEI NAL unit.
pub open spec fn nal_messages(nal: Seq<u8>) -> Seq<(nat, Seq<u8>)> {
    messages(rbsp_of(nal.skip(2)))
}

/// The zeros in an SEI NAL unit can be counted, and its messages can be read without running into
/// limits.
pub open spec fn nal_countable(nal: Seq<u8>) -> bool {
    nal.len() >= 2 ==> runs_countable(nal.skip(2)) && messages_fit(
        rbsp_of(nal.skip(2)),
        rbsp_of(nal.skip(2)).len(),
    )
}

/// Taking bytes out makes nothing longer.
pub proof fn lemma_unescaped_len(ebsp: Seq<u8>, n: nat)
    ensures
        unescaped(ebsp, n).len() <= n,
    decreases n,
{
    if n > 0 {
        lemma_unescaped_len(ebsp, (n - 1) as nat);
    }
}

/// Whether the bytes are zero from `from` on.
fn are_zeros_from(bytes: &Vec<u8>, from: usize) -> (r: bool)
    requires
        from <= bytes@.len(),
    ensures
        r == zeros_from(bytes@, from as int),
{
    let mut i: usize = from;
    while i < bytes.len()
        invariant
            from <= i <= bytes@.len(),
            forall|j: int| from <= j < i ==> bytes@[j] == 0,
        decreases bytes@.len() - i,
    {
        if bytes[i] != 0 {
            return false;
        }
        i = i + 1;
    }
    true
}

/// A number that was read.
enum Number {
    /// It is larger than it may be.
    TooLarge,
    /// It is not complete.
    Incomplete,
    /// The number, and where reading goes on.
    Complete(u64, usize),
}

/// Reads a number at `start`, which may be no larger than `limit`.
fn take_number(bytes: &Vec<u8>, start: usize, limit: u64) -> (r: Number)
    requires
        start <= bytes@.len(),
        limit >= 255,
    ensures
        match r {
            Number::TooLarge => spelled(bytes@.skip(start as int)) > limit,
            Number::Incomplete => spelled(bytes@.skip(start as int)) <= limit && read_number(
                bytes@.skip(start as int),
            ) is None,
            Number::Complete(v, pos) => {
                &&& v <= limit
                &&& start < pos <= bytes@.len()
                &&& read_number(bytes@.skip(start as int)) == Some(
                    (v as nat, bytes@.skip(pos as int)),
                )
                &&& spelled(bytes@.skip(start as int)) == v
            },
        },
{
    let mut v: u64 = 0;
    let mut pos: usize = start;
    while pos < bytes.len() && bytes[pos] == 0xff
        invariant
            start <= pos <= bytes@.len(),
            v <= limit,
            limit >= 255,
            spelled(bytes@.skip(start as int)) == v + spelled(bytes@.skip(pos as int)),
            read_number(bytes@.skip(start as int)) == match read_number(bytes@.skip(pos as int)) {
                Some((number, rest)) => Some((number + v as nat, rest)),
                None => None,
            },
        decreases bytes@.len() - pos,
    {
        assert(bytes@.skip(pos as int).skip(1) =~= bytes@.skip(pos + 1));
        if v > limit - 255 {
            return Number::TooLarge;
        }
        v = v + 255;
        pos = pos + 1;
    }
    if pos >= bytes.len() {
        return Number::Incomplete;
    }
    assert(bytes@.skip(pos as int).skip(1) =~= bytes@.skip(pos + 1));
    if v > limit - bytes[pos] as u64 {
        return Number::TooLarge;
    }
    v = v + bytes[pos] as u64;
    Number::Complete(v, pos + 1)
}

/// Whether the messages in a byte string can be read without running into limits.
pub fn are_messages_fit(rbsp: &Vec<u8>) -> (r: bool)
    ensures
        r == messages_fit(rbsp@, rbsp@.len()),
{
    let ghost all = rbsp@;
    let mut pos: usize = 0;
    assert(all.skip(0) =~= all);
    while pos < rbsp.len() && pos + 1 < rbsp.len()
        invariant
            pos <= all.len(),
            all == rbsp@,
            messages_fit(all, all.len()) == messages_fit(all.skip(pos as int), all.len()),
        decreases all.len() - pos,
    {
        let ghost part = all.skip(pos as int);
        if rbsp[pos] == 0x80 && are_zeros_from(rbsp, pos + 1) {
            assert(zeros_from(part, 1));
            return true;
        }
        proof {
            if part[0] == 0x80 && zeros_from(part, 1) {
                assert forall|i: int| pos + 1 <= i < all.len() implies all[i] == 0 by {
                    assert(part[i - pos] == 0);
                }
            }
        }
        let after_kind: usize = match take_number(rbsp, pos, u64::MAX) {
            Number::TooLarge => {
                return false;
            },
            Number::Incomplete => {
                return true;
            },
            Number::Complete(_, at) => at,
        };
        let (size, body): (usize, usize) = match take_number(rbsp, after_kind, usize::MAX as u64) {
            Number::TooLarge => {
                return false;
            },
            Number::Incomplete => {
                return true;
            },
            Number::Complete(v, at) => (v as usize, at),
        };
        if size > usize::MAX - body {
            return false;
        }
        if size > rbsp.len() - body {
            return true;
        }
        assert(all.skip(body as int).skip(size as int) =~= all.skip(body + size));
        pos = body + size;
    }
    true
}

/// The messages of an SEI NAL unit, each with its type and its payload.
pub fn parse_sei_messages(nal: &[u8]) -> (r: Result<Vec<(u64, Vec<u8>)>, Error>)
    requires
        nal_countable(nal@),
    ensures
        match r {
            Ok(list) => nal@.len() >= 2 && messages_view(list@) == nal_messages(nal@),
            Err(e) => nal@.len() < 2 && e == Error::MissingSeiHeader,
        },
{
    if nal.len() < 2 {
        return Err(Error::MissingSeiHeader);
    }
    assert(nal@.subrange(2, nal@.len() as int) =~= nal@.skip(2));
    let rbsp: Vec<u8> = ebsp_to_rbsp(slice_subrange(nal, 2, nal.len()));
    let ghost all = rbsp@;
    let mut pos: usize = 0;
    let mut list: Vec<(u64, Vec<u8>)> = Vec::new();
    proof {
        assert(all.skip(0) =~= all);
        assert(messages_view(list@) + messages(all) =~= messages(all));
    }
    while pos < rbsp.len() && pos + 1 < rbsp.len()
        invariant_except_break
            pos <= all.len(),
            all == rbsp@,
            messages_fit(all.skip(pos as int), all.len()),
            messages(all) == messages_view(list@) + messages(all.skip(pos as int)),
        ensures
            messages(all) == messages_view(list@),
        decreases all.len() - pos,
    {
        let ghost part = all.skip(pos as int);
        if rbsp[pos] == 0x80 && are_zeros_from(&rbsp, pos + 1) {
            proof {
                assert(zeros_from(part, 1));
                assert(messages_view(list@) + Seq::<(nat, Seq<u8>)>::empty() =~= messages_view(
                    list@,
                ));
            }
            break;
        }
        proof {
            if part[0] == 0x80 && zeros_from(part, 1) {
                assert forall|i: int| pos + 1 <= i < all.len() implies all[i] == 0 by {
                    assert(part[i - pos] == 0);
                }
            }
            assert(messages_view(list@) + Seq::<(nat, Seq<u8>)>::empty() =~= messages_view(list@));
        }
        let (kind, after_kind): (u64, usize) = match take_number(&rbsp, pos, u64::MAX) {
            Number::Complete(v, at) => (v, at),
            _ => {
                break;
            },
        };
        let (size, body): (usize, usize) = match take_number(&rbsp, after_kind, usize::MAX as u64) {
            Number::Complete(v, at) => (v as usize, at),
            _ => {
                break;
            },
        };
        if size > rbsp.len() - body {
            break;
        }
        let payload: Vec<u8> = slice_to_vec(slice_subrange(rbsp.as_slice(), body, body + size));
        let ghost before = list@;
        list.push((kind, payload));
        proof {
            let next = (kind as nat, payload@);
            assert(all.skip(body as int).take(size as int) =~= payload@);
            assert(all.skip(body as int).skip(size as int) =~= all.skip(body + size));
            assert(messages_view(list@) =~= messages_view(before).push(next));
            assert(messages_view(before) + (seq![next] + messages(all.skip(body + size)))
                =~= messages_view(list@) + messages(all.skip(body + size)));
        }
        pos = body + size;
        proof {
            if pos + 1 >= all.len() {
                assert(messages_view(list@) + Seq::<(nat, Seq<u8>)>::empty() =~= messages_view(
                    list@,
                ));
            }
        }
    }
    Ok(list)
}

/// Appends a number.
fn push_number(out: &mut Vec<u8>, v: u64)
    ensures
        final(out)@ == old(out)@ + number_bytes(v as nat),
{
    let mut left: u64 = v;
    let ghost before = out@;
    assert(out@ + number_bytes(left as nat) =~= before + number_bytes(v as nat));
    while left >= 255
        invariant
            out@ + number_bytes(left as nat) == before + number_bytes(v as nat),
        decreases left,
    {
        let ghost sofar = out@;
        out.push(255);
        assert(sofar + (seq![255u8] + number_bytes((left - 255) as nat)) =~= out@ + number_bytes(
            (left - 255) as nat,
        ));
        left = left - 255;
    }
    out.push(left as u8);
    assert(out@ =~= before + number_bytes(v as nat));
}

/// Appends the type and the size of a message.
pub fn write_sei_message_header(
    payload_type: u64,
    payload_size: usize,
    out: &mut Vec<u8>,
) -> (r: Result<(), Error>)
    ensures
        r is Ok,
        final(out)@ == old(out)@ + number_bytes(payload_type as nat) + number_bytes(
            payload_size as nat,
        ),
{
    push_number(out, payload_type);
    push_number(out, payload_size as u64);
    Ok(())
}

/// Registered user data that carries an AFGS1 payload with grain switched on.
pub open spec fn is_afgs1(payload: Seq<u8>) -> bool {
    &&& payload.len() >= 5
    &&& payload[0] == 0xb5
    &&& payload[1] == 0x58
    &&& payload[2] == 0x90
    &&& payload[3] == 0x01
    &&& payload[4] >= 0x80
}

/// Whether registered user data carries an AFGS1 payload with grain switched on.
pub fn is_afgs1_payload(payload: &[u8]) -> (r: bool)
    ensures
        r == is_afgs1(payload@),
{
    if payload.len() < 5 {
        return false;
    }
    let switches: u8 = payload[4];
    assert((switches & 0x80 != 0) == (switches >= 0x80)) by (bit_vector);
    payload[0] == 0xb5 && payload[1] == 0x58 && payload[2] == 0x90 && payload[3] == 0x01 && (
    switches & 0x80) != 0
}

/// Law: a number is spelled by as many bytes of 255 as it holds that number, and then by the rest.
pub proof fn law_number_spelled(v: nat)
    ensures
        number_bytes(v).len() == v / 255 + 1,
        forall|i: int| 0 <= i < v / 255 ==> #[trigger] number_bytes(v)[i] == 255,
        number_bytes(v).last() == v % 255,
    decreases v,
{
    if v >= 255 {
        law_number_spelled((v - 255) as nat);
        let rest = number_bytes((v - 255) as nat);
        assert forall|i: int| 0 <= i < v / 255 implies #[trigger] number_bytes(v)[i] == 255 by {
            if i > 0 {
                assert(number_bytes(v)[i] == rest[i - 1]);
            }
        }
        assert(number_bytes(v).last() == rest.last());
    }
}

/// Law: a number is not complete as long as there are only bytes of 255.
pub proof fn law_number_incomplete(bytes: Seq<u8>)
    requires
        forall|i: int| 0 <= i < bytes.len() ==> #[trigger] bytes[i] == 255,
    ensures
        read_number(bytes) is None,
    decreases bytes.len(),
{
    if bytes.len() > 0 {
        let rest = bytes.skip(1);
        assert forall|i: int| 0 <= i < rest.len() implies #[trigger] rest[i] == 255 by {
            assert(rest[i] == bytes[i + 1]);
        }
        law_number_incomplete(rest);
    }
}

/// Law: a message is its type, its size and its payload, one behind the other, and the next one
/// comes behind it. It is read unless what is left is a byte of 0x80 and zeros, which end the
/// messages.
pub proof fn law_message_read(kind: nat, payload: Seq<u8>, tail: Seq<u8>)
    ensures
        ({
            let rbsp = number_bytes(kind) + number_bytes(payload.len()) + payload + tail;
            let ends = rbsp[0] == 0x80 && forall|i: int| 1 <= i < rbsp.len() ==> rbsp[i] == 0;
            &&& !ends ==> messages(rbsp) == seq![(kind, payload)] + messages(tail)
            &&& ends ==> messages(rbsp).len() == 0
        }),
{
    let size = number_bytes(payload.len());
    let rbsp = number_bytes(kind) + size + payload + tail;
    law_number_spelled(kind);
    law_number_spelled(payload.len());
    law_number_round_trip(kind, size + payload + tail);
    law_number_round_trip(payload.len(), payload + tail);
    assert(rbsp =~= number_bytes(kind) + (size + payload + tail));
    assert(size + payload + tail =~= size + (payload + tail));
    assert((payload + tail).take(payload.len() as int) =~= payload);
    assert((payload + tail).skip(payload.len() as int) =~= tail);
}

/// Law: nothing is read where fewer than two bytes are left, where a type or a size is not
/// complete, and where there are fewer bytes than the size says.
pub proof fn law_no_message_read(kind: nat, size: nat, rest: Seq<u8>)
    ensures
        rest.len() <= 1 ==> messages(rest).len() == 0,
        (forall|i: int| 0 <= i < rest.len() ==> #[trigger] rest[i] == 255) ==> messages(rest).len()
            == 0 && messages(number_bytes(kind) + rest).len() == 0,
        rest.len() < size ==> messages(number_bytes(kind) + number_bytes(size) + rest).len() == 0,
{
    law_number_round_trip(kind, rest);
    law_number_round_trip(kind, number_bytes(size) + rest);
    law_number_round_trip(size, rest);
    assert(number_bytes(kind) + number_bytes(size) + rest =~= number_bytes(kind) + (number_bytes(
        size,
    ) + rest));
    if forall|i: int| 0 <= i < rest.len() ==> #[trigger] rest[i] == 255 {
        law_number_incomplete(rest);
    }
}

/// Law: the messages of an SEI NAL unit are those in its bytes behind the two of its header, once
/// the bytes that prevent emulation are taken out.
pub proof fn law_messages_behind_header(nal: Seq<u8>)
    requires
        nal.len() >= 2,
    ensures
        nal_messages(nal) == messages(rbsp_of(nal.subrange(2, nal.len() as int))),
{
    assert(nal.subrange(2, nal.len() as int) =~= nal.skip(2));
}

/// A number is no larger than its bytes can spell.
proof fn lemma_spelled_bound(bytes: Seq<u8>)
    ensures
        spelled(bytes) <= 255 * bytes.len(),
    decreases bytes.len(),
{
    if bytes.len() > 0 && bytes[0] == 255 {
        lemma_spelled_bound(bytes.skip(1));
    }
}

/// Law: the messages in a string of bytes of which 256 times as many can be counted run into no
/// limits.
pub proof fn law_short_messages_fit(rbsp: Seq<u8>, total: nat)
    requires
        rbsp.len() <= total,
        256 * total <= usize::MAX,
    ensures
        messages_fit(rbsp, total),
    decreases rbsp.len(),
{
    lemma_spelled_bound(rbsp);
    if let Some((kind, rest)) = read_number(rbsp) {
        lemma_read_number(rbsp);
        lemma_spelled_bound(rest);
        if let Some((size, body)) = read_number(rest) {
            lemma_read_number(rest);
            if size <= body.len() {
                law_short_messages_fit(body.skip(size as int), total);
            }
        }
    }
}

/// Law: specifications see the type and the payload of a message as they are, and messages in their
/// order.
pub proof fn law_messages_seen(list: Seq<(u64, Vec<u8>)>, i: int)
    requires
        0 <= i < list.len(),
    ensures
        messages_view(list).len() == list.len(),
        messages_view(list)[i].0 == list[i].0,
        messages_view(list)[i].1 == list[i].1@,
{
}

} // verus!
