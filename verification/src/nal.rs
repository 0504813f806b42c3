//! NAL units and how packets hold them.
use crate::error::Error;
use vstd::prelude::*;
use vstd::slice::slice_subrange;

verus! {

/// The type of an SEI NAL unit in front of the picture it belongs to.
pub const NAL_PREFIX_SEI: u8 = 39;

/// The type of an SEI NAL unit behind the picture it belongs to.
pub const NAL_SUFFIX_SEI: u8 = 40;

/// How a packet tells its NAL units apart.
#[derive(Debug, Clone, Copy, PartialEq, Eq, Structural)]
pub enum PacketFormat {
    /// A start code stands in front of each.
    AnnexB,
    /// The length of each stands in front of it.
    LengthPrefixed { length_size: usize },
}

/// A NAL unit in a packet.
#[derive(Debug, Clone, Copy)]
pub struct Nal<'a> {
    /// The start code or the length in front of it.
    pub prefix: &'a [u8],
    /// Its bytes.
    pub data: &'a [u8],
    /// How the packet tells its NAL units apart.
    pub format: PacketFormat,
}

/// A NAL unit in a packet, as specifications see it.
#[verifier::ext_equal]
pub struct NalModel {
    pub prefix: Seq<u8>,
    pub data: Seq<u8>,
    pub format: PacketFormat,
}

impl<'a> View for Nal<'a> {
    type V = NalModel;

    open spec fn view(&self) -> NalModel {
        NalModel { prefix: self.prefix@, data: self.data@, format: self.format }
    }
}

/// NAL units, as specifications see them.
pub open spec fn nals_view<'a>(nals: Seq<Nal<'a>>) -> Seq<NalModel> {
    nals.map_values(|nal: Nal<'a>| nal@)
}

/// The number that bytes spell, most significant byte first.
pub open spec fn be_value(bytes: Seq<u8>) -> nat
    decreases bytes.len(),
{
    if bytes.len() == 0 {
        0
    } else {
        be_value(bytes.drop_last()) * 256 + bytes.last() as nat
    }
}

/// The number that bytes spell, most significant byte first, as far as a `usize` holds it.
pub open spec fn be_number(bytes: Seq<u8>) -> int {
    if be_value(bytes) <= usize::MAX {
        be_value(bytes) as int
    } else {
        be_value(bytes) as int % (usize::MAX + 1)
    }
}

/// One more byte.
proof fn lemma_be_number_push(bytes: Seq<u8>)
    requires
        bytes.len() > 0,
    ensures
        be_number(bytes) == (be_number(bytes.drop_last()) * 256 + bytes.last()) % (usize::MAX + 1),
{
    let m = usize::MAX + 1;
    let v = be_value(bytes.drop_last()) as int;
    let b = bytes.last() as int;
    assert(v % m == be_number(bytes.drop_last())) by {
        if v < m {
            vstd::arithmetic::div_mod::lemma_small_mod(v as nat, m as nat);
        }
    }
    vstd::arithmetic::div_mod::lemma_mul_mod_noop_left(v, 256, m);
    vstd::arithmetic::div_mod::lemma_add_mod_noop((v % m) * 256, b, m);
    vstd::arithmetic::div_mod::lemma_add_mod_noop(v * 256, b, m);
    if v * 256 + b < m {
        vstd::arithmetic::div_mod::lemma_small_mod((v * 256 + b) as nat, m as nat);
    }
}

/// Law: a length of any number of bytes grows by a factor of 256 with each byte behind it, to which
/// the byte is added, as far as a `usize` holds it.
pub proof fn law_length_grows(bytes: Seq<u8>, byte: u8)
    ensures
        be_number(Seq::empty()) == 0,
        be_number(bytes.push(byte)) == (be_number(bytes) * 256 + byte) % (usize::MAX + 1),
{
    lemma_be_number_push(bytes.push(byte));
    assert(bytes.push(byte).drop_last() =~= bytes);
}

/// The NAL units of a packet with a length of `n` bytes in front of each.
pub open spec fn length_prefixed(data: Seq<u8>, n: nat) -> Result<Seq<NalModel>, Error>
    decreases data.len(),
{
    if data.len() == 0 {
        Ok(Seq::empty())
    } else if n > data.len() {
        Err(Error::IncompleteNalLength)
    } else {
        let len = be_number(data.take(n as int));
        if len <= 0 || n + len > data.len() {
            Err(Error::InvalidNalLength { len: len as usize })
        } else {
            let first = NalModel {
                prefix: data.take(n as int),
                data: data.subrange(n as int, n + len),
                format: PacketFormat::LengthPrefixed { length_size: n as usize },
            };
            match length_prefixed(data.skip(n + len), n) {
                Ok(rest) => Ok(seq![first] + rest),
                Err(e) => Err(e),
            }
        }
    }
}

/// A three-byte start code stands at `i`.
pub open spec fn short_code_at(data: Seq<u8>, i: int) -> bool {
    0 <= i && i + 3 <= data.len() && data[i] == 0 && data[i + 1] == 0 && data[i + 2] == 1
}

/// A four-byte start code stands at `i`.
pub open spec fn long_code_at(data: Seq<u8>, i: int) -> bool {
    0 <= i && i + 4 <= data.len() && data[i] == 0 && data[i + 1] == 0 && data[i + 2] == 0 && data[i
        + 3] == 1
}

/// The length of the start code at `i`, or zero.
pub open spec fn code_len(data: Seq<u8>, i: int) -> int {
    if short_code_at(data, i) {
        3
    } else if long_code_at(data, i) {
        4
    } else {
        0
    }
}

/// Where the next start code from `i` on is, or the end.
pub open spec fn next_code(data: Seq<u8>, i: int) -> int
    decreases data.len() - i,
{
    if i < 0 || i >= data.len() {
        data.len() as int
    } else if code_len(data, i) > 0 {
        i
    } else {
        next_code(data, i + 1)
    }
}

/// A start code is found where there is one.
pub proof fn lemma_next_code(data: Seq<u8>, i: int)
    requires
        0 <= i <= data.len(),
    ensures
        i <= next_code(data, i) <= data.len(),
        next_code(data, i) < data.len() ==> code_len(data, next_code(data, i)) > 0,
        forall|j: int| i <= j < next_code(data, i) ==> code_len(data, j) == 0,
    decreases data.len() - i,
{
    if i < data.len() && code_len(data, i) == 0 {
        lemma_next_code(data, i + 1);
    }
}

/// The NAL units from `i` on of a packet with start codes.
pub open spec fn annex_b_from(data: Seq<u8>, i: int) -> Seq<NalModel>
    decreases data.len() - i,
{
    let start = next_code(data, i);
    if start >= data.len() {
        Seq::empty()
    } else {
        let body = start + code_len(data, start);
        let first = NalModel {
            prefix: data.subrange(start, body),
            data: data.subrange(body, next_code(data, body)),
            format: PacketFormat::AnnexB,
        };
        proof {
            lemma_next_code(data, i);
        }
        seq![first] + annex_b_from(data, body)
    }
}

/// The NAL units of a packet.
pub open spec fn nals_of(data: Seq<u8>) -> Result<Seq<NalModel>, Error> {
    match length_prefixed(data, 4) {
        Ok(nals) => Ok(nals),
        Err(e) => if code_len(data, 0) > 0 {
            Ok(annex_b_from(data, 0))
        } else {
            Err(e)
        },
    }
}

/// The NAL units of a packet with a length of `length_size` bytes in front of each.
pub fn find_length_prefixed_nals<'a>(data: &'a [u8], length_size: usize) -> (r: Result<
    Vec<Nal<'a>>,
    Error,
>)
    requires
        data@.len() + length_size <= usize::MAX,
    ensures
        match r {
            Ok(nals) => length_prefixed(data@, length_size as nat) == Ok::<Seq<NalModel>, Error>(
                nals_view(nals@),
            ),
            Err(e) => length_prefixed(data@, length_size as nat) == Err::<Seq<NalModel>, Error>(e),
        },
{
    let mut nals: Vec<Nal<'a>> = Vec::new();
    let mut pos: usize = 0;
    let ghost n = length_size as nat;
    proof {
        assert(data@.skip(0) =~= data@);
        if let Ok(rest) = length_prefixed(data@, n) {
            assert(nals_view(nals@) + rest =~= rest);
        }
    }
    while pos < data.len()
        invariant
            n == length_size,
            data@.len() + length_size <= usize::MAX,
            pos <= data@.len(),
            length_prefixed(data@, n) == match length_prefixed(data@.skip(pos as int), n) {
                Ok(rest) => Ok(nals_view(nals@) + rest),
                Err(e) => Err(e),
            },
        decreases data@.len() - pos,
    {
        let ghost part = data@.skip(pos as int);
        if pos + length_size > data.len() {
            return Err(Error::IncompleteNalLength);
        }
        let mut len: usize = 0;
        let mut k: usize = 0;
        assert(part.take(0) =~= Seq::empty());
        while k < length_size
            invariant
                n == length_size,
                pos + length_size <= data@.len(),
                data@.len() + length_size <= usize::MAX,
                part == data@.skip(pos as int),
                k <= length_size,
                len == be_number(part.take(k as int)),
            decreases length_size - k,
        {
            let byte: usize = data[pos + k] as usize;
            proof {
                assert(part.take(k + 1).drop_last() =~= part.take(k as int));
                lemma_be_number_push(part.take(k + 1));
                assert(byte < 256 && usize::BITS == 64 ==> ((len << 8) | byte) == (len * 256 + byte)
                    % 0x1_0000_0000_0000_0000) by (bit_vector);
                assert(byte < 256 && usize::BITS == 32 ==> ((len << 8) | byte) == (len * 256 + byte)
                    % 0x1_0000_0000) by (bit_vector);
                vstd::layout::unsigned_int_max_values();
            }
            len = (len << 8) | byte;
            k = k + 1;
        }
        let nal_start: usize = pos + length_size;
        if len == 0 || len > data.len() - nal_start {
            return Err(Error::InvalidNalLength { len });
        }
        let nal_end: usize = nal_start + len;
        let ghost before = nals@;
        nals.push(
            Nal {
                prefix: slice_subrange(data, pos, nal_start),
                data: slice_subrange(data, nal_start, nal_end),
                format: PacketFormat::LengthPrefixed { length_size },
            },
        );
        proof {
            let first = nals@.last()@;
            assert(first.prefix =~= part.take(n as int));
            assert(first.data =~= part.subrange(n as int, n + len));
            assert(part.skip(n + len) =~= data@.skip(nal_end as int));
            assert(nals_view(nals@) =~= nals_view(before).push(first));
            if let Ok(rest) = length_prefixed(data@.skip(nal_end as int), n) {
                assert(nals_view(before) + (seq![first] + rest) =~= nals_view(nals@) + rest);
            }
        }
        pos = nal_end;
    }
    proof {
        assert(nals_view(nals@) + Seq::<NalModel>::empty() =~= nals_view(nals@));
    }
    Ok(nals)
}

/// The length of the start code at `i`, or zero.
fn start_code_len(data: &[u8], i: usize) -> (r: usize)
    requires
        i <= data@.len(),
    ensures
        r == code_len(data@, i as int),
{
    let left: usize = data.len() - i;
    if left >= 3 && data[i] == 0 && data[i + 1] == 0 && data[i + 2] == 1 {
        3
    } else if left >= 4 && data[i] == 0 && data[i + 1] == 0 && data[i + 2] == 0 && data[i + 3]
        == 1 {
        4
    } else {
        0
    }
}

/// Whether a packet begins with a start code.
pub fn starts_with_annex_b(data: &[u8]) -> (r: bool)
    ensures
        r == (short_code_at(data@, 0) || long_code_at(data@, 0)),
{
    start_code_len(data, 0) > 0
}

/// Where the next start code from `from` on is, and its length.
fn find_start_code(data: &[u8], from: usize) -> (r: (usize, usize))
    requires
        from <= data@.len(),
    ensures
        r.0 == next_code(data@, from as int),
        r.0 <= data@.len(),
        r.0 >= from,
        r.1 == code_len(data@, r.0 as int),
        r.0 + r.1 <= data@.len(),
        r.0 < data@.len() ==> r.1 > 0,
{
    let mut i: usize = from;
    while i < data.len()
        invariant
            from <= i <= data@.len(),
            next_code(data@, from as int) == next_code(data@, i as int),
        decreases data@.len() - i,
    {
        let len: usize = start_code_len(data, i);
        if len > 0 {
            return (i, len);
        }
        i = i + 1;
    }
    (i, 0)
}

/// The NAL units of a packet with start codes.
pub fn find_annex_b_nals<'a>(data: &'a [u8]) -> (r: Vec<Nal<'a>>)
    ensures
        nals_view(r@) == annex_b_from(data@, 0),
{
    let mut nals: Vec<Nal<'a>> = Vec::new();
    let ghost mut from: int = 0;
    let (mut start, mut prefix_len): (usize, usize) = find_start_code(data, 0);
    assert(nals_view(nals@) + annex_b_from(data@, 0) =~= annex_b_from(data@, 0));
    while start < data.len()
        invariant
            0 <= from <= start <= data@.len(),
            start == next_code(data@, from),
            prefix_len == code_len(data@, start as int),
            start + prefix_len <= data@.len(),
            start < data@.len() ==> prefix_len > 0,
            annex_b_from(data@, 0) == nals_view(nals@) + annex_b_from(data@, from),
        decreases data@.len() - start,
    {
        let body: usize = start + prefix_len;
        let (next, next_len): (usize, usize) = find_start_code(data, body);
        let ghost before = nals@;
        nals.push(
            Nal {
                prefix: slice_subrange(data, start, body),
                data: slice_subrange(data, body, next),
                format: PacketFormat::AnnexB,
            },
        );
        proof {
            let first = nals@.last()@;
            assert(nals_view(nals@) =~= nals_view(before).push(first));
            assert(nals_view(before) + (seq![first] + annex_b_from(data@, body as int))
                =~= nals_view(nals@) + annex_b_from(data@, body as int));
            from = body as int;
        }
        start = next;
        prefix_len = next_len;
    }
    assert(nals_view(nals@) + Seq::<NalModel>::empty() =~= nals_view(nals@));
    nals
}

/// The NAL units of a packet. Lengths in front of them come first; start codes are looked for
/// only where there is no other way to read the packet.
pub fn find_nals<'a>(data: &'a [u8]) -> (r: Result<Vec<Nal<'a>>, Error>)
    requires
        data@.len() + 4 <= usize::MAX,
    ensures
        match r {
            Ok(nals) => nals_of(data@) == Ok::<Seq<NalModel>, Error>(nals_view(nals@)),
            Err(e) => nals_of(data@) == Err::<Seq<NalModel>, Error>(e),
        },
{
    match find_length_prefixed_nals(data, 4) {
        Ok(nals) => Ok(nals),
        Err(e) => if starts_with_annex_b(data) {
            Ok(find_annex_b_nals(data))
        } else {
            Err(e)
        },
    }
}

/// The type of a NAL unit.
pub open spec fn kind_of(nal: Seq<u8>) -> int {
    (nal[0] as int / 2) % 64
}

/// The type of a NAL unit.
pub fn nal_type(nal: &[u8]) -> (r: Result<u8, Error>)
    ensures
        match r {
            Ok(t) => nal@.len() >= 2 && t == kind_of(nal@),
            Err(e) => nal@.len() < 2 && e == Error::MissingNalHeader,
        },
{
    if nal.len() < 2 {
        return Err(Error::MissingNalHeader);
    }
    let b: u8 = nal[0];
    assert(((b >> 1) & 0x3f) == (b / 2) % 64) by (bit_vector);
    Ok((b >> 1) & 0x3f)
}

/// Whether NAL units of a type hold coded picture data.
pub fn is_vcl_nal(nal_type: u8) -> (r: bool)
    ensures
        r == (nal_type <= 31),
{
    nal_type <= 31
}

/// A NAL unit holds coded picture data.
pub open spec fn is_vcl(nal: Seq<u8>) -> bool {
    nal.len() >= 2 && kind_of(nal) <= 31
}

/// A NAL unit holds SEI messages.
pub open spec fn is_sei(nal: Seq<u8>) -> bool {
    nal.len() >= 2 && (kind_of(nal) == NAL_PREFIX_SEI || kind_of(nal) == NAL_SUFFIX_SEI)
}

/// The bytes of NAL units, each behind its prefix.
pub open spec fn flatten(nals: Seq<NalModel>) -> Seq<u8>
    decreases nals.len(),
{
    if nals.len() == 0 {
        Seq::empty()
    } else {
        nals[0].prefix + nals[0].data + flatten(nals.skip(1))
    }
}

/// The `n` bytes that spell a number, most significant byte first.
pub open spec fn be_bytes(v: nat, n: nat) -> Seq<u8>
    decreases n,
{
    if n == 0 {
        Seq::empty()
    } else {
        be_bytes(v / 256, (n - 1) as nat).push((v % 256) as u8)
    }
}

/// Lengths up to this can be written in `n` bytes.
pub open spec fn length_limit(n: int) -> int {
    if n == 1 {
        0x100
    } else if n == 2 {
        0x1_0000
    } else if n == 3 {
        0x100_0000
    } else {
        0x1_0000_0000
    }
}

/// Appends the length that goes in front of a NAL unit.
pub fn write_length_prefix(len: usize, length_size: usize, out: &mut Vec<u8>) -> (r: Result<
    (),
    Error,
>)
    ensures
        match r {
            Ok(()) => {
                &&& 1 <= length_size <= 4
                &&& len < length_limit(length_size as int)
                &&& final(out)@ == old(out)@ + be_bytes(len as nat, length_size as nat)
            },
            Err(e) => {
                &&& length_size == 0 || length_size > 4 || len >= length_limit(length_size as int)
                &&& e == (Error::InvalidLengthPrefix { length_size })
                &&& final(out)@ == old(out)@
            },
        },
{
    if length_size == 0 || length_size > 4 {
        return Err(Error::InvalidLengthPrefix { length_size });
    }
    let len: u64 = len as u64;
    let limit: u64 = if length_size == 1 {
        0x100
    } else if length_size == 2 {
        0x1_0000
    } else if length_size == 3 {
        0x100_0000
    } else {
        0x1_0000_0000
    };
    if len >= limit {
        return Err(Error::InvalidLengthPrefix { length_size });
    }
    let ghost before = out@;
    reveal_with_fuel(be_bytes, 5);
    proof {
        assert((len >> 24u64) & 0xff == (len / 0x100_0000) % 256) by (bit_vector);
        assert((len >> 16u64) & 0xff == (len / 0x1_0000) % 256) by (bit_vector);
        assert((len >> 8u64) & 0xff == (len / 0x100) % 256) by (bit_vector);
        assert(len & 0xff == len % 256) by (bit_vector);
        assert(len / 256 / 256 == len / 0x1_0000);
        assert(len / 256 / 256 / 256 == len / 0x100_0000);
    }
    if length_size >= 4 {
        out.push(((len >> 24u64) & 0xff) as u8);
    }
    if length_size >= 3 {
        out.push(((len >> 16u64) & 0xff) as u8);
    }
    if length_size >= 2 {
        out.push(((len >> 8u64) & 0xff) as u8);
    }
    out.push((len & 0xff) as u8);
    assert(out@ =~= before + be_bytes(len as nat, length_size as nat));
    Ok(())
}

/// Law: specifications see every part of a NAL unit as it is, and NAL units in their order.
pub proof fn law_nals_seen<'a>(nals: Seq<Nal<'a>>, i: int)
    requires
        0 <= i < nals.len(),
    ensures
        nals_view(nals).len() == nals.len(),
        nals_view(nals)[i].prefix == nals[i].prefix@,
        nals_view(nals)[i].data == nals[i].data@,
        nals_view(nals)[i].format == nals[i].format,
{
}

} // verus!
