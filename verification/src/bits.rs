//! Bit strings, most significant bit first, and a reader and a writer for them.
use vstd::prelude::*;
use vstd::arithmetic::power2::{lemma2_to64, lemma_pow2_unfold, pow2};
use crate::error::Error;

verus! {

/// Bit `k` of a byte, counted from the most significant one.
pub open spec fn byte_bit(byte: u8, k: int) -> bool {
    (byte >> ((7 - k) as u8)) & 1u8 == 1u8
}

/// The bits of a byte string.
pub open spec fn bits_of(bytes: Seq<u8>) -> Seq<bool> {
    Seq::new(bytes.len() * 8, |i: int| byte_bit(bytes[i / 8], i % 8))
}

/// The number that a bit string spells.
pub open spec fn uint(bits: Seq<bool>) -> nat
    decreases bits.len(),
{
    if bits.len() == 0 {
        0
    } else {
        2 * uint(bits.drop_last()) + if bits.last() {
            1nat
        } else {
            0nat
        }
    }
}

/// The `n` low bits of a number.
pub open spec fn enc(v: nat, n: nat) -> Seq<bool>
    decreases n,
{
    if n == 0 {
        Seq::empty()
    } else {
        enc(v / 2, (n - 1) as nat).push(v % 2 == 1)
    }
}

pub proof fn lemma_enc_len(v: nat, n: nat)
    ensures
        enc(v, n).len() == n,
    decreases n,
{
    if n > 0 {
        lemma_enc_len(v / 2, (n - 1) as nat);
    }
}

/// A number that fits in `n` bits is what its `n` bits spell.
pub proof fn lemma_uint_enc(v: nat, n: nat)
    requires
        v < pow2(n),
    ensures
        uint(enc(v, n)) == v,
        enc(v, n).len() == n,
    decreases n,
{
    lemma_enc_len(v, n);
    if n == 0 {
        lemma2_to64();
    } else {
        lemma_pow2_unfold(n);
        lemma_uint_enc(v / 2, (n - 1) as nat);
        assert(enc(v, n).drop_last() =~= enc(v / 2, (n - 1) as nat));
    }
}

/// The bits of what a bit string spells are the bit string.
pub proof fn lemma_enc_uint(bits: Seq<bool>)
    ensures
        enc(uint(bits), bits.len()) == bits,
        uint(bits) < pow2(bits.len()),
    decreases bits.len(),
{
    if bits.len() == 0 {
        lemma2_to64();
        assert(enc(uint(bits), 0) =~= bits);
    } else {
        lemma_enc_uint(bits.drop_last());
        lemma_pow2_unfold(bits.len());
        assert(uint(bits) / 2 == uint(bits.drop_last()));
        assert(bits.drop_last().push(bits.last()) =~= bits);
    }
}

/// Law: the number that bits spell is that of the first of them, shifted up by the others, and
/// that of the others.
pub proof fn law_numbers_join(a: Seq<bool>, b: Seq<bool>)
    ensures
        uint(a + b) == uint(a) * pow2(b.len()) + uint(b),
        uint(Seq::empty()) == 0,
        uint(seq![true]) == 1,
        uint(seq![false]) == 0,
    decreases b.len(),
{
    reveal_with_fuel(uint, 2);
    assert(seq![true].drop_last() =~= Seq::empty());
    assert(seq![false].drop_last() =~= Seq::empty());
    if b.len() == 0 {
        lemma2_to64();
        assert(a + b =~= a);
    } else {
        law_numbers_join(a, b.drop_last());
        assert((a + b).drop_last() =~= a + b.drop_last());
        lemma_pow2_unfold(b.len());
        let v = uint(a) as int;
        let x = pow2((b.len() - 1) as nat) as int;
        assert(2 * (v * x) == v * (2 * x)) by (nonlinear_arith);
    }
}

/// Eight bits of a byte string spell the byte they come from.
pub proof fn lemma_byte_value(bytes: Seq<u8>, i: int)
    requires
        0 <= i < bytes.len(),
    ensures
        uint(bits_of(bytes).subrange(8 * i, 8 * i + 8)) == bytes[i],
{
    let b = bytes[i];
    let s = bits_of(bytes).subrange(8 * i, 8 * i + 8);
    assert forall|k: int| 0 <= k < 8 implies s[k] == byte_bit(b, k) by {
        assert((8 * i + k) / 8 == i && (8 * i + k) % 8 == k);
    }
    reveal_with_fuel(uint, 9);
    let s7 = s.drop_last();
    let s6 = s7.drop_last();
    let s5 = s6.drop_last();
    let s4 = s5.drop_last();
    let s3 = s4.drop_last();
    let s2 = s3.drop_last();
    let s1 = s2.drop_last();
    assert(s1.drop_last().len() == 0);
    assert(b == 128 * ((b >> 7u8) & 1) + 64 * ((b >> 6u8) & 1) + 32 * ((b >> 5u8) & 1) + 16 * ((b
        >> 4u8) & 1) + 8 * ((b >> 3u8) & 1) + 4 * ((b >> 2u8) & 1) + 2 * ((b >> 1u8) & 1) + ((b
        >> 0u8) & 1)) by (bit_vector);
    assert(((b >> 7u8) & 1 <= 1) && ((b >> 6u8) & 1 <= 1) && ((b >> 5u8) & 1 <= 1) && ((b >> 4u8)
        & 1 <= 1) && ((b >> 3u8) & 1 <= 1) && ((b >> 2u8) & 1 <= 1) && ((b >> 1u8) & 1 <= 1) && ((b
        >> 0u8) & 1 <= 1)) by (bit_vector);
}

/// Reads numbers off a byte string.
pub struct BitReader<'a> {
    pub data: &'a [u8],
    pub bit_pos: usize,
}

impl<'a> BitReader<'a> {
    /// The position is inside the data, and every position can be counted.
    pub open spec fn wf(&self) -> bool {
        &&& self.bit_pos <= self.data@.len() * 8
        &&& self.data@.len() * 8 + 64 <= usize::MAX
    }

    /// The bits that are still to be read.
    pub open spec fn rest(&self) -> Seq<bool> {
        bits_of(self.data@).skip(self.bit_pos as int)
    }

    /// A reader at the start of `data`.
    pub fn new(data: &'a [u8]) -> (r: Self)
        requires
            data@.len() * 8 + 64 <= usize::MAX,
        ensures
            r.wf(),
            r.data == data,
            r.rest() == bits_of(data@),
    {
        let r = BitReader { data, bit_pos: 0 };
        assert(r.rest() =~= bits_of(data@));
        r
    }

    /// The number that the next `bits` bits spell. Past the end nothing is read.
    pub fn read(&mut self, bits: usize) -> (r: Result<u64, Error>)
        requires
            old(self).wf(),
        ensures
            final(self).wf(),
            final(self).data == old(self).data,
            match r {
                Ok(value) => {
                    &&& bits <= 64
                    &&& bits <= old(self).rest().len()
                    &&& value == uint(old(self).rest().take(bits as int))
                    &&& value < pow2(bits as nat)
                    &&& final(self).rest() == old(self).rest().skip(bits as int)
                    &&& final(self).bit_pos == old(self).bit_pos + bits
                },
                Err(e) => {
                    &&& bits > 64 || bits > old(self).rest().len()
                    &&& e == (Error::EndedEarly { bits })
                    &&& *final(self) == *old(self)
                },
            },
    {
        if bits > 64 || self.bit_pos + bits > self.data.len() * 8 {
            return Err(Error::EndedEarly { bits });
        }
        let mut value: u64 = 0;
        let mut done: usize = 0;
        let ghost rest = self.rest();
        let ghost start = self.bit_pos;
        let ghost all = bits_of(self.data@);
        while done < bits
            invariant
                self.wf(),
                self.data == old(self).data,
                all == bits_of(self.data@),
                rest == all.skip(start as int),
                done <= bits <= 64,
                start + bits <= all.len(),
                self.bit_pos == start + done,
                value == uint(rest.take(done as int)),
            decreases bits - done,
        {
            let byte = self.data[self.bit_pos / 8];
            let shift: u8 = (7 - (self.bit_pos % 8)) as u8;
            let bit: u8 = (byte >> shift) & 1;
            proof {
                let next = rest.take(done + 1);
                assert(next.drop_last() =~= rest.take(done as int));
                assert(next.last() == all[start + done]);
                lemma_enc_uint(rest.take(done as int));
                assert(rest.take(done as int).len() == done);
                if done < 63 {
                    vstd::arithmetic::power2::lemma_pow2_strictly_increases(done as nat, 63);
                }
                assert(pow2(63) == 0x8000_0000_0000_0000) by {
                    lemma2_to64();
                    vstd::arithmetic::power2::lemma2_to64_rest();
                }
                assert((byte >> shift) & 1 <= 1) by (bit_vector);
                assert(value < 0x8000_0000_0000_0000 && bit <= 1 ==> ((value << 1) | (bit as u64))
                    == 2 * value + bit) by (bit_vector);
            }
            value = (value << 1) | (bit as u64);
            self.bit_pos = self.bit_pos + 1;
            done = done + 1;
        }
        proof {
            lemma_enc_uint(rest.take(bits as int));
            assert(self.rest() =~= rest.skip(bits as int));
        }
        Ok(value)
    }
}

/// Appending a byte appends its eight bits.
pub proof fn lemma_bits_of_push(bytes: Seq<u8>, byte: u8)
    ensures
        bits_of(bytes.push(byte)) == bits_of(bytes) + enc(byte as nat, 8),
{
    let longer = bytes.push(byte);
    let n = bytes.len() as int;
    lemma_byte_value(longer, n);
    let last = bits_of(longer).subrange(8 * n, 8 * n + 8);
    lemma_enc_uint(last);
    lemma_enc_len(byte as nat, 8);
    assert forall|i: int| 0 <= i < 8 * n implies bits_of(longer)[i] == bits_of(bytes)[i] by {
        assert(0 <= i / 8 < n);
    }
    assert forall|i: int| 8 * n <= i < 8 * n + 8 implies bits_of(longer)[i] == enc(
        byte as nat,
        8,
    )[i - 8 * n] by {
        assert(last[i - 8 * n] == bits_of(longer)[i]);
    }
    assert(bits_of(longer) =~= bits_of(bytes) + enc(byte as nat, 8));
}

/// The bytes of a bit string of whole bytes.
pub open spec fn bytes_of(bits: Seq<bool>) -> Seq<u8> {
    Seq::new(bits.len() / 8, |i: int| uint(bits.subrange(8 * i, 8 * i + 8)) as u8)
}

/// The bytes of the bits of a byte string are the byte string.
pub proof fn lemma_bytes_of_bits(bytes: Seq<u8>)
    ensures
        bytes_of(bits_of(bytes)) == bytes,
{
    assert forall|i: int| 0 <= i < bytes.len() implies bytes_of(bits_of(bytes))[i] == bytes[i] by {
        lemma_byte_value(bytes, i);
    }
    assert(bytes_of(bits_of(bytes)) =~= bytes);
}

/// The bits of the bytes of a bit string are the bit string.
pub proof fn lemma_bits_of_bytes(bits: Seq<bool>)
    requires
        bits.len() % 8 == 0,
    ensures
        bits_of(bytes_of(bits)) == bits,
{
    let bytes = bytes_of(bits);
    lemma2_to64();
    assert forall|i: int| 0 <= i < bits.len() implies bits_of(bytes)[i] == bits[i] by {
        let k = i / 8;
        let part = bits.subrange(8 * k, 8 * k + 8);
        lemma_enc_uint(part);
        lemma_byte_value(bytes, k);
        let same = bits_of(bytes).subrange(8 * k, 8 * k + 8);
        lemma_enc_uint(same);
        assert(same[i - 8 * k] == bits_of(bytes)[i]);
        assert(part[i - 8 * k] == bits[i]);
    }
    assert(bits_of(bytes) =~= bits);
}

/// A number and the number of bits it is written in.
#[derive(Debug, Clone, Copy, PartialEq, Eq, Structural)]
pub struct Field {
    pub value: u64,
    pub width: usize,
}

/// The field that holds `value` in `width` bits.
pub open spec fn field(value: int, width: int) -> Field {
    Field { value: value as u64, width: width as usize }
}

impl Field {
    /// The value can be written in the field's bits.
    pub open spec fn fits(self) -> bool {
        self.value < pow2(self.width as nat)
    }
}

/// The bits of a list of fields, or the reason why the first one that is too narrow cannot be
/// written.
pub open spec fn write_all(fields: Seq<Field>) -> Result<Seq<bool>, Error>
    decreases fields.len(),
{
    if fields.len() == 0 {
        Ok(Seq::empty())
    } else {
        match write_all(fields.drop_last()) {
            Ok(bits) => {
                let f = fields.last();
                if f.fits() {
                    Ok(bits + enc(f.value as nat, f.width as nat))
                } else {
                    Err(Error::ValueTooWide { value: f.value, bits: f.width })
                }
            },
            Err(e) => Err(e),
        }
    }
}

/// The bits of the fields in front of the first one that does not fit; of all fields, if each fits.
pub open spec fn fitting_bits(fields: Seq<Field>) -> Seq<bool>
    decreases fields.len(),
{
    match write_all(fields) {
        Ok(bits) => bits,
        Err(_) => if fields.len() == 0 {
            Seq::empty()
        } else {
            fitting_bits(fields.drop_last())
        },
    }
}

/// What stands behind a field that does not fit is not written.
proof fn lemma_fitting_stuck(fields: Seq<Field>, n: int)
    requires
        0 <= n <= fields.len(),
        write_all(fields.take(n)) is Err,
    ensures
        write_all(fields) == write_all(fields.take(n)),
        fitting_bits(fields) == fitting_bits(fields.take(n)),
    decreases fields.len() - n,
{
    if n < fields.len() {
        let next = fields.take(n + 1);
        assert(next.drop_last() =~= fields.take(n));
        lemma_fitting_stuck(fields, n + 1);
    } else {
        assert(fields.take(n) =~= fields);
    }
}

/// The number of bits that a list of fields takes.
pub open spec fn width_of(fields: Seq<Field>) -> nat
    decreases fields.len(),
{
    if fields.len() == 0 {
        0
    } else {
        width_of(fields.drop_last()) + fields.last().width as nat
    }
}

/// Every width is one that a number of 64 bits can be written in.
pub open spec fn widths_ok(fields: Seq<Field>) -> bool {
    forall|i: int| 0 <= i < fields.len() ==> (#[trigger] fields[i]).width <= 64
}

/// What is written of two lists of fields, one behind the other.
pub proof fn lemma_write_all_add(a: Seq<Field>, b: Seq<Field>)
    ensures
        write_all(a + b) == match (write_all(a), write_all(b)) {
            (Err(e), _) => Err(e),
            (Ok(_), Err(e)) => Err(e),
            (Ok(x), Ok(y)) => Ok(x + y),
        },
    decreases b.len(),
{
    if b.len() == 0 {
        assert(a + b =~= a);
        if let Ok(x) = write_all(a) {
            assert(x + Seq::<bool>::empty() =~= x);
        }
    } else {
        lemma_write_all_add(a, b.drop_last());
        assert((a + b).drop_last() =~= a + b.drop_last());
        match (write_all(a), write_all(b)) {
            (Ok(x), Ok(y)) => {
                let f = b.last();
                let y0 = write_all(b.drop_last())->Ok_0;
                assert((x + y0) + enc(f.value as nat, f.width as nat) =~= x + (y0 + enc(
                    f.value as nat,
                    f.width as nat,
                )));
            },
            _ => {},
        }
    }
}

/// As many bits are written as the widths add up to.
pub proof fn lemma_write_all_len(fields: Seq<Field>)
    ensures
        write_all(fields) matches Ok(bits) ==> bits.len() == width_of(fields),
    decreases fields.len(),
{
    if fields.len() > 0 {
        lemma_write_all_len(fields.drop_last());
        lemma_enc_len(fields.last().value as nat, fields.last().width as nat);
    }
}

/// A list of fields can be written where every value fits.
pub proof fn lemma_write_all_ok(fields: Seq<Field>)
    requires
        forall|i: int| 0 <= i < fields.len() ==> (#[trigger] fields[i]).fits(),
    ensures
        write_all(fields) is Ok,
    decreases fields.len(),
{
    if fields.len() > 0 {
        lemma_write_all_ok(fields.drop_last());
    }
}

/// Every value of a list of fields that can be written fits.
pub proof fn lemma_write_all_fits(fields: Seq<Field>, i: int)
    requires
        write_all(fields) is Ok,
        0 <= i < fields.len(),
    ensures
        fields[i].fits(),
    decreases fields.len(),
{
    if i < fields.len() - 1 {
        lemma_write_all_fits(fields.drop_last(), i);
    }
}

/// Law: of the values of a list of fields that do not fit, the first one is told of.
pub proof fn law_first_misfit_told(fields: Seq<Field>, k: int)
    requires
        0 <= k < fields.len(),
        forall|i: int| 0 <= i < k ==> (#[trigger] fields[i]).value < pow2(fields[i].width as nat),
        fields[k].value >= pow2(fields[k].width as nat),
    ensures
        write_all(fields) == Err::<Seq<bool>, Error>(
            Error::ValueTooWide { value: fields[k].value, bits: fields[k].width },
        ),
    decreases fields.len(),
{
    let front = fields.drop_last();
    if k < front.len() {
        assert forall|i: int| 0 <= i < k implies (#[trigger] front[i]).value < pow2(
            front[i].width as nat,
        ) by {
            assert(front[i] == fields[i]);
        }
        law_first_misfit_told(front, k);
    } else {
        assert forall|i: int| 0 <= i < front.len() implies (#[trigger] front[i]).fits() by {
            assert(front[i] == fields[i]);
        }
        lemma_write_all_ok(front);
    }
}

/// Law: of a list of fields, those in front of the first that does not fit are written.
pub proof fn law_written_up_to_misfit(fields: Seq<Field>, k: int)
    requires
        0 <= k < fields.len(),
        forall|i: int| 0 <= i < k ==> (#[trigger] fields[i]).value < pow2(fields[i].width as nat),
        fields[k].value >= pow2(fields[k].width as nat),
    ensures
        write_all(fields.take(k)) == Ok::<Seq<bool>, Error>(fitting_bits(fields)),
{
    let front = fields.take(k);
    let next = fields.take(k + 1);
    assert forall|i: int| 0 <= i < front.len() implies (#[trigger] front[i]).fits() by {
        assert(front[i] == fields[i]);
    }
    lemma_write_all_ok(front);
    assert(next.drop_last() =~= front);
    assert(next.last() == fields[k]);
    lemma_fitting_stuck(fields, k + 1);
    assert(fitting_bits(next) == fitting_bits(front));
    assert(write_all(front) == Ok::<Seq<bool>, Error>(fitting_bits(front)));
}

/// The widths of two lists add up.
pub proof fn lemma_width_add(a: Seq<Field>, b: Seq<Field>)
    ensures
        width_of(a + b) == width_of(a) + width_of(b),
    decreases b.len(),
{
    if b.len() == 0 {
        assert(a + b =~= a);
    } else {
        assert((a + b).drop_last() =~= a + b.drop_last());
        lemma_width_add(a, b.drop_last());
    }
}

/// The bits that complete the last byte of a bit string of length `n`: a one and then zeros.
pub open spec fn align_bits(n: nat) -> Seq<bool> {
    if n % 8 == 0 {
        Seq::empty()
    } else {
        Seq::new((8 - n % 8) as nat, |i: int| i == 0)
    }
}

/// Writes numbers to the end of a byte string.
pub struct BitWriter {
    pub out: Vec<u8>,
    pub cur: u8,
    pub used: u8,
}

impl BitWriter {
    /// The bits that do not make up a byte yet are fewer than eight.
    pub open spec fn wf(&self) -> bool {
        &&& self.used < 8
        &&& self.cur < pow2(self.used as nat)
    }

    /// Everything written so far, together with what was there before.
    pub open spec fn bits(&self) -> Seq<bool> {
        bits_of(self.out@) + enc(self.cur as nat, self.used as nat)
    }

    /// A writer that appends to `out`.
    pub fn new(out: Vec<u8>) -> (r: Self)
        ensures
            r.wf(),
            r.out == out,
            r.used == 0,
            r.bits() == bits_of(out@),
    {
        let r = BitWriter { out, cur: 0, used: 0 };
        proof {
            lemma2_to64();
            assert(r.bits() =~= bits_of(out@));
        }
        r
    }

    /// Writes `value` in `bits` bits. Where it does not fit, nothing is written.
    pub fn write(&mut self, value: u64, bits: usize) -> (r: Result<(), Error>)
        requires
            old(self).wf(),
            bits <= 64,
        ensures
            final(self).wf(),
            match r {
                Ok(()) => {
                    &&& value < pow2(bits as nat)
                    &&& final(self).bits() == old(self).bits() + enc(value as nat, bits as nat)
                },
                Err(e) => {
                    &&& value >= pow2(bits as nat)
                    &&& e == (Error::ValueTooWide { value, bits })
                    &&& *final(self) == *old(self)
                },
            },
    {
        proof {
            lemma2_to64();
            vstd::arithmetic::power2::lemma2_to64_rest();
            if bits < 64 {
                vstd::arithmetic::power2::lemma_pow2_strictly_increases(bits as nat, 64);
                vstd::bits::lemma_u64_shl_is_mul(1, bits as u64);
            }
        }
        if bits < 64 && value >= (1u64 << (bits as u64)) {
            return Err(Error::ValueTooWide { value, bits });
        }
        let mut left: u64 = bits as u64;
        let ghost before = self.bits();
        proof {
            assert(self.bits() =~= before + enc((value >> left) as nat, 0));
        }
        while left > 0
            invariant
                self.wf(),
                left <= bits <= 64,
                self.bits() == before + enc((value >> left) as nat, (bits - left) as nat),
            decreases left,
        {
            let ghost whole = value >> left;
            let ghost done = (bits - left) as nat;
            let ghost old_out = self.out@;
            let ghost old_cur = self.cur;
            let ghost old_used = self.used;
            left = left - 1;
            let bit: u8 = ((value >> left) & 1) as u8;
            proof {
                let part = value >> left;
                assert(left < 64 ==> (value >> left) & 1 == (value >> left) % 2) by (bit_vector);
                assert(bit == part % 2);
                assert(left < 63 ==> (value >> left) / 2 == (value >> ((left + 1) as u64)))
                    by (bit_vector);
                if done > 0 {
                    assert(part as nat / 2 == whole as nat);
                } else {
                    assert(enc(part as nat / 2, 0) =~= enc(whole as nat, 0));
                }
                lemma2_to64();
                assert(enc(part as nat, done + 1) =~= enc(whole as nat, done).push(part % 2 == 1));
                assert(old_cur < 128) by {
                    if old_used < 7 {
                        vstd::arithmetic::power2::lemma_pow2_strictly_increases(old_used as nat, 7);
                    }
                }
                assert(old_cur < 128 && bit <= 1 ==> ((old_cur << 1) | bit) == 2 * old_cur + bit)
                    by (bit_vector);
                lemma_pow2_unfold((old_used + 1) as nat);
            }
            self.cur = (self.cur << 1) | bit;
            self.used = self.used + 1;
            proof {
                assert(enc(self.cur as nat, self.used as nat) =~= enc(
                    old_cur as nat,
                    old_used as nat,
                ).push(bit == 1));
                let pending = enc(old_cur as nat, old_used as nat);
                let written = enc(whole as nat, done);
                assert(bits_of(old_out) + pending.push(bit == 1) =~= (bits_of(old_out)
                    + pending).push(bit == 1));
                assert((before + written).push(bit == 1) =~= before + written.push(bit == 1));
            }
            if self.used == 8 {
                proof {
                    lemma_bits_of_push(self.out@, self.cur);
                }
                self.out.push(self.cur);
                self.cur = 0;
                self.used = 0;
                proof {
                    assert(self.bits() =~= bits_of(self.out@));
                }
            }
        }
        proof {
            assert(value >> 0u64 == value) by (bit_vector);
        }
        Ok(())
    }

    /// Writes a list of fields, up to the first one that does not fit.
    pub fn write_fields(&mut self, fields: &Vec<Field>) -> (r: Result<(), Error>)
        requires
            old(self).wf(),
            widths_ok(fields@),
        ensures
            final(self).wf(),
            match r {
                Ok(()) => {
                    &&& write_all(fields@) is Ok
                    &&& final(self).bits() == old(self).bits() + write_all(fields@)->Ok_0
                },
                Err(e) => {
                    &&& write_all(fields@) == Err::<Seq<bool>, Error>(e)
                    &&& final(self).bits() == old(self).bits() + fitting_bits(fields@)
                },
            },
    {
        let mut i: usize = 0;
        let ghost before = self.bits();
        proof {
            assert(fields@.take(0) =~= Seq::empty());
            assert(self.bits() =~= before + Seq::<bool>::empty());
        }
        while i < fields.len()
            invariant
                self.wf(),
                widths_ok(fields@),
                before == old(self).bits(),
                i <= fields@.len(),
                write_all(fields@.take(i as int)) is Ok,
                self.bits() == before + write_all(fields@.take(i as int))->Ok_0,
            decreases fields@.len() - i,
        {
            let f = fields[i];
            let ghost next = fields@.take(i + 1);
            proof {
                assert(next.drop_last() =~= fields@.take(i as int));
            }
            match self.write(f.value, f.width) {
                Ok(()) => {
                    proof {
                        assert(self.bits() =~= before + write_all(next)->Ok_0);
                    }
                },
                Err(e) => {
                    proof {
                        reveal_with_fuel(fitting_bits, 2);
                        lemma_fitting_stuck(fields@, i + 1);
                    }
                    return Err(e);
                },
            }
            i = i + 1;
        }
        proof {
            assert(fields@.take(i as int) =~= fields@);
        }
        Ok(())
    }

    /// Completes the last byte.
    pub fn byte_align(&mut self) -> (r: Result<(), Error>)
        requires
            old(self).wf(),
        ensures
            final(self).wf(),
            r is Ok,
            final(self).used == 0,
            final(self).bits() == old(self).bits() + align_bits(old(self).bits().len()),
    {
        proof {
            lemma_enc_len(self.cur as nat, self.used as nat);
            assert(self.bits().len() == 8 * self.out@.len() + self.used);
            assert(self.bits() =~= self.bits() + Seq::<bool>::empty());
            lemma2_to64();
        }
        let ghost n = self.bits().len();
        let ghost before = self.bits();
        if self.used != 0 {
            match self.write(1, 1) {
                Ok(()) => {},
                Err(e) => {
                    return Err(e);
                },
            }
            proof {
                reveal_with_fuel(enc, 2);
                lemma_enc_len(self.cur as nat, self.used as nat);
                assert(self.bits() =~= before + Seq::new(1, |i: int| i == 0));
            }
            let ghost mut tail: nat = 1;
            while self.used != 0
                invariant
                    self.wf(),
                    1 <= tail <= 8 - n % 8,
                    n % 8 != 0,
                    n == before.len(),
                    self.bits() == before + Seq::new(tail, |i: int| i == 0),
                    self.used == (n + tail) % 8,
                decreases 8 - tail,
            {
                proof {
                    lemma2_to64();
                    assert(tail < 8 - n % 8);
                }
                match self.write(0, 1) {
                    Ok(()) => {},
                    Err(e) => {
                        return Err(e);
                    },
                }
                proof {
                    reveal_with_fuel(enc, 2);
                    lemma_enc_len(self.cur as nat, self.used as nat);
                    assert(self.bits().len() == 8 * self.out@.len() + self.used);
                    assert(self.bits() =~= before + Seq::new(tail + 1, |i: int| i == 0));
                    tail = tail + 1;
                }
            }
            proof {
                assert(tail == 8 - n % 8);
            }
        }
        Ok(())
    }

    /// The bytes written, once the last one is complete.
    pub fn finish(self) -> (r: Vec<u8>)
        requires
            self.wf(),
            self.used == 0,
        ensures
            bits_of(r@) == self.bits(),
    {
        proof {
            assert(self.bits() =~= bits_of(self.out@));
        }
        self.out
    }
}

} // verus!
