//! Emulation prevention: no NAL unit may contain what looks like a start code.
use vstd::prelude::*;

verus! {

/// Two zero bytes stand in front of position `i`.
pub open spec fn zeros_before(bytes: Seq<u8>, i: int) -> bool {
    i >= 2 && bytes[i - 1] == 0 && bytes[i - 2] == 0
}

/// The byte at `i` is there only to prevent emulation.
pub open spec fn is_escape(ebsp: Seq<u8>, i: int) -> bool {
    ebsp[i] == 3 && zeros_before(ebsp, i)
}

/// The first `n` bytes without those that only prevent emulation.
pub open spec fn unescaped(ebsp: Seq<u8>, n: nat) -> Seq<u8>
    decreases n,
{
    if n == 0 {
        Seq::empty()
    } else {
        let start = unescaped(ebsp, (n - 1) as nat);
        if is_escape(ebsp, n - 1) {
            start
        } else {
            start.push(ebsp[n - 1])
        }
    }
}

/// A byte string without the bytes that only prevent emulation.
pub open spec fn rbsp_of(ebsp: Seq<u8>) -> Seq<u8> {
    unescaped(ebsp, ebsp.len())
}

/// A byte string with the bytes that prevent emulation: behind two zero bytes a 3 goes in front
/// of every byte up to 3.
pub open spec fn ebsp_of(rbsp: Seq<u8>) -> Seq<u8>
    decreases rbsp.len(),
{
    if rbsp.len() == 0 {
        Seq::empty()
    } else {
        let start = ebsp_of(rbsp.drop_last());
        if rbsp.last() <= 3 && zeros_before(start, start.len() as int) {
            start.push(3).push(rbsp.last())
        } else {
            start.push(rbsp.last())
        }
    }
}

/// The number of zero bytes in a row that end at `n`.
pub open spec fn zero_run(bytes: Seq<u8>, n: nat) -> nat
    decreases n,
{
    if n == 0 || bytes[n - 1] != 0 {
        0
    } else {
        zero_run(bytes, (n - 1) as nat) + 1
    }
}

/// No run of zero bytes is longer than a byte can count.
pub open spec fn runs_countable(bytes: Seq<u8>) -> bool {
    forall|n: nat| n <= bytes.len() ==> #[trigger] zero_run(bytes, n) <= 255
}

/// Two zero bytes stand in front of a position where the run of zeros is that long.
pub proof fn lemma_zero_run(bytes: Seq<u8>, n: nat)
    requires
        n <= bytes.len(),
    ensures
        zero_run(bytes, n) >= 2 <==> zeros_before(bytes, n as int),
{
    reveal_with_fuel(zero_run, 3);
}

/// Whether no run of zero bytes is longer than a byte can count.
pub fn are_runs_countable(bytes: &[u8]) -> (r: bool)
    ensures
        r == runs_countable(bytes@),
{
    let mut run: usize = 0;
    let mut i: usize = 0;
    while i < bytes.len()
        invariant
            i <= bytes@.len(),
            run == zero_run(bytes@, i as nat),
            run <= 255,
            forall|n: nat| n <= i ==> #[trigger] zero_run(bytes@, n) <= 255,
        decreases bytes@.len() - i,
    {
        if bytes[i] == 0 {
            run = run + 1;
        } else {
            run = 0;
        }
        assert(run == zero_run(bytes@, (i + 1) as nat));
        if run > 255 {
            return false;
        }
        i = i + 1;
    }
    true
}

/// Takes out the bytes that only prevent emulation.
pub fn ebsp_to_rbsp(ebsp: &[u8]) -> (r: Vec<u8>)
    requires
        runs_countable(ebsp@),
    ensures
        r@ == rbsp_of(ebsp@),
{
    let mut rbsp: Vec<u8> = Vec::with_capacity(ebsp.len());
    let mut zeros: u8 = 0;
    let mut i: usize = 0;
    while i < ebsp.len()
        invariant
            runs_countable(ebsp@),
            i <= ebsp@.len(),
            rbsp@ == unescaped(ebsp@, i as nat),
            zeros == zero_run(ebsp@, i as nat),
        decreases ebsp@.len() - i,
    {
        let byte: u8 = ebsp[i];
        proof {
            lemma_zero_run(ebsp@, i as nat);
            assert(zero_run(ebsp@, (i + 1) as nat) <= 255);
        }
        if zeros >= 2 && byte == 0x03 {
            zeros = 0;
        } else {
            rbsp.push(byte);
            zeros = if byte == 0 {
                zeros + 1
            } else {
                0
            };
        }
        i = i + 1;
    }
    rbsp
}

/// Puts in the bytes that prevent emulation.
pub fn rbsp_to_ebsp(rbsp: &[u8]) -> (r: Vec<u8>)
    ensures
        r@ == ebsp_of(rbsp@),
{
    let mut ebsp: Vec<u8> = Vec::with_capacity(rbsp.len());
    let mut zeros: u8 = 0;
    let mut i: usize = 0;
    assert(rbsp@.take(0) =~= Seq::empty());
    while i < rbsp.len()
        invariant
            i <= rbsp@.len(),
            ebsp@ == ebsp_of(rbsp@.take(i as int)),
            zeros <= 2,
            zeros == 2 ==> zeros_before(ebsp@, ebsp@.len() as int),
            zeros == 1 ==> ebsp@.len() > 0 && ebsp@.last() == 0 && !zeros_before(
                ebsp@,
                ebsp@.len() as int,
            ),
            zeros == 0 ==> ebsp@.len() == 0 || ebsp@.last() != 0,
        decreases rbsp@.len() - i,
    {
        let byte: u8 = rbsp[i];
        proof {
            assert(rbsp@.take(i + 1).drop_last() =~= rbsp@.take(i as int));
        }
        if zeros >= 2 && byte <= 0x03 {
            ebsp.push(0x03);
            zeros = 0;
        }
        ebsp.push(byte);
        zeros = if byte == 0 {
            zeros + 1
        } else {
            0
        };
        i = i + 1;
    }
    assert(rbsp@.take(i as int) =~= rbsp@);
    ebsp
}

/// Taking bytes out of a longer string begins as it does with a shorter one.
pub proof fn lemma_unescaped_prefix(a: Seq<u8>, b: Seq<u8>, n: nat)
    requires
        n <= a.len(),
        n <= b.len(),
        forall|i: int| 0 <= i < n ==> a[i] == b[i],
    ensures
        unescaped(a, n) == unescaped(b, n),
    decreases n,
{
    if n > 0 {
        lemma_unescaped_prefix(a, b, (n - 1) as nat);
    }
}

/// What is taken out of a string with one more byte.
pub proof fn lemma_rbsp_push(ebsp: Seq<u8>, byte: u8)
    ensures
        rbsp_of(ebsp.push(byte)) == if byte == 3 && zeros_before(ebsp, ebsp.len() as int) {
            rbsp_of(ebsp)
        } else {
            rbsp_of(ebsp).push(byte)
        },
{
    lemma_unescaped_prefix(ebsp, ebsp.push(byte), ebsp.len());
}

/// Law: taking out the bytes that prevent emulation undoes putting them in.
pub proof fn law_escape_round_trip(rbsp: Seq<u8>)
    ensures
        rbsp_of(ebsp_of(rbsp)) == rbsp,
    decreases rbsp.len(),
{
    if rbsp.len() > 0 {
        let start = ebsp_of(rbsp.drop_last());
        law_escape_round_trip(rbsp.drop_last());
        if rbsp.last() <= 3 && zeros_before(start, start.len() as int) {
            lemma_rbsp_push(start, 3);
            lemma_rbsp_push(start.push(3), rbsp.last());
        } else {
            lemma_rbsp_push(start, rbsp.last());
        }
        assert(rbsp.drop_last().push(rbsp.last()) =~= rbsp);
    } else {
        assert(rbsp_of(ebsp_of(rbsp)) =~= rbsp);
    }
}

/// No position is the start of what a decoder could take for a start code.
pub open spec fn emulation_free(bytes: Seq<u8>) -> bool {
    forall|i: int| 2 <= i < bytes.len() && #[trigger] zeros_before(bytes, i) ==> bytes[i] >= 3
}

/// Law: with the bytes that prevent emulation there is no start code.
pub proof fn law_escaped_is_emulation_free(rbsp: Seq<u8>)
    ensures
        emulation_free(ebsp_of(rbsp)),
    decreases rbsp.len(),
{
    if rbsp.len() > 0 {
        law_escaped_is_emulation_free(rbsp.drop_last());
        let start = ebsp_of(rbsp.drop_last());
        let all = ebsp_of(rbsp);
        assert forall|i: int| 2 <= i < all.len() && #[trigger] zeros_before(all, i) implies all[i]
            >= 3 by {
            if i < start.len() {
                assert(zeros_before(start, i));
            } else if i == start.len() {
                assert(zeros_before(start, start.len() as int));
            }
        }
    }
}

/// Where there is no start code, no run of zeros is longer than two.
proof fn lemma_runs_short(bytes: Seq<u8>, n: nat)
    requires
        emulation_free(bytes),
        n <= bytes.len(),
    ensures
        zero_run(bytes, n) <= 2,
    decreases n,
{
    reveal_with_fuel(zero_run, 3);
    if n > 0 {
        lemma_runs_short(bytes, (n - 1) as nat);
        if n >= 3 && zeros_before(bytes, n - 1) {
            assert(bytes[n - 1] >= 3);
        }
    }
}

/// Law: what was written with emulation prevention can always be read.
pub proof fn law_escaped_runs_countable(rbsp: Seq<u8>)
    ensures
        runs_countable(ebsp_of(rbsp)),
{
    law_escaped_is_emulation_free(rbsp);
    assert forall|n: nat| n <= ebsp_of(rbsp).len() implies #[trigger] zero_run(ebsp_of(rbsp), n)
        <= 255 by {
        lemma_runs_short(ebsp_of(rbsp), n);
    }
}

/// Law: a byte is taken out exactly where it is a 3 behind two zero bytes, whatever comes behind
/// it, and every other byte is kept where it is.
pub proof fn law_taken_out(front: Seq<u8>, byte: u8)
    ensures
        rbsp_of(Seq::empty()) == Seq::<u8>::empty(),
        ({
            let n = front.len() as int;
            let behind_zeros = n >= 2 && front[n - 2] == 0 && front[n - 1] == 0;
            &&& byte == 3 && behind_zeros ==> rbsp_of(front.push(byte)) == rbsp_of(front)
            &&& byte != 3 || !behind_zeros ==> rbsp_of(front.push(byte)) == rbsp_of(front).push(
                byte,
            )
        }),
{
    lemma_rbsp_push(front, byte);
}

/// Law: every 3 behind two zero bytes was put in, for the sake of the byte up to 3 behind it.
pub proof fn law_put_in_for_a_reason(rbsp: Seq<u8>, i: int)
    requires
        2 <= i < ebsp_of(rbsp).len(),
        ebsp_of(rbsp)[i - 2] == 0,
        ebsp_of(rbsp)[i - 1] == 0,
        ebsp_of(rbsp)[i] == 3,
    ensures
        i + 1 < ebsp_of(rbsp).len(),
        ebsp_of(rbsp)[i + 1] <= 3,
    decreases rbsp.len(),
{
    let start = ebsp_of(rbsp.drop_last());
    let all = ebsp_of(rbsp);
    if i < start.len() {
        assert(all[i] == start[i] && all[i - 1] == start[i - 1] && all[i - 2] == start[i - 2]);
        law_put_in_for_a_reason(rbsp.drop_last(), i);
        assert(all[i + 1] == start[i + 1]);
    } else if i == start.len() {
        assert(all[i - 1] == start[i - 1] && all[i - 2] == start[i - 2]);
        assert(zeros_before(start, i));
    }
}

/// All of the bytes from `from` to `to` are zero.
pub open spec fn all_zero(bytes: Seq<u8>, from: int, to: int) -> bool {
    forall|i: int| from <= i < to ==> #[trigger] bytes[i] == 0
}

/// There are nowhere 256 zeros in a row.
pub open spec fn no_long_run(bytes: Seq<u8>) -> bool {
    forall|from: int|
        0 <= from && from + 256 <= bytes.len() ==> !#[trigger] all_zero(bytes, from, from + 256)
}

/// A run of zeros is as long as there are zeros in a row.
proof fn lemma_zero_run_len(bytes: Seq<u8>, n: nat)
    requires
        n <= bytes.len(),
    ensures
        zero_run(bytes, n) <= n,
        all_zero(bytes, n - zero_run(bytes, n), n as int),
        zero_run(bytes, n) < n ==> bytes[n - zero_run(bytes, n) - 1] != 0,
    decreases n,
{
    if n > 0 && bytes[n - 1] == 0 {
        lemma_zero_run_len(bytes, (n - 1) as nat);
    }
}

/// Law: the zeros in a byte string can be counted unless there are 256 of them in a row.
pub proof fn law_runs_counted(bytes: Seq<u8>)
    ensures
        runs_countable(bytes) <==> no_long_run(bytes),
{
    if runs_countable(bytes) {
        assert forall|from: int|
            0 <= from && from + 256 <= bytes.len() implies !#[trigger] all_zero(
            bytes,
            from,
            from + 256,
        ) by {
            let n = (from + 256) as nat;
            lemma_zero_run_len(bytes, n);
            let run = zero_run(bytes, n);
            assert(run <= 255);
            assert(bytes[n - run - 1] != 0);
        }
    }
    if no_long_run(bytes) {
        assert forall|n: nat| n <= bytes.len() implies #[trigger] zero_run(bytes, n) <= 255 by {
            lemma_zero_run_len(bytes, n);
            if zero_run(bytes, n) > 255 {
                assert(all_zero(bytes, n - 256, n - 256 + 256));
            }
        }
    }
}

} // verus!
