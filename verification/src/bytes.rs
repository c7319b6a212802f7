//! Big-endian numbers in byte sequences, and copies of byte ranges.

use crate::text;
use vstd::prelude::*;

verus! {

/// The number that a byte sequence denotes, most significant byte first.
pub open spec fn be_value(s: Seq<u8>) -> nat
    decreases s.len(),
{
    if s.len() == 0 {
        0
    } else {
        be_value(s.drop_last()) * 256 + s.last() as nat
    }
}

/// The lowest `n` bytes of a number, most significant byte first.
pub open spec fn be_bytes(v: nat, n: nat) -> Seq<u8>
    decreases n,
{
    if n == 0 {
        Seq::empty()
    } else {
        be_bytes(v / 256, (n - 1) as nat).push((v % 256) as u8)
    }
}

/// `256` to the power `n`.
pub open spec fn pow256(n: nat) -> nat
    decreases n,
{
    if n == 0 {
        1
    } else {
        256 * pow256((n - 1) as nat)
    }
}

/// Two bytes of `s` at `i` as a number.
pub open spec fn u16_at(s: Seq<u8>, i: int) -> int {
    s[i] * 256 + s[i + 1]
}

/// A number below 65536 in two bytes, as it is sent.
pub open spec fn two(n: int) -> Seq<u8> {
    seq![(n / 256) as u8, (n % 256) as u8]
}

/// A number below 2^24 in three bytes, as it is sent.
pub open spec fn three(n: int) -> Seq<u8> {
    seq![(n / 65536) as u8, (n / 256 % 256) as u8, (n % 256) as u8]
}

/// A byte sequence denotes a number below `256` to the power of its length.
pub proof fn lemma_be_value_bound(s: Seq<u8>)
    ensures
        be_value(s) < pow256(s.len()),
    decreases s.len(),
{
    if s.len() > 0 {
        lemma_be_value_bound(s.drop_last());
    }
}

pub proof fn lemma_be_bytes_len(v: nat, n: nat)
    ensures
        be_bytes(v, n).len() == n,
    decreases n,
{
    if n > 0 {
        lemma_be_bytes_len(v / 256, (n - 1) as nat);
    }
}

/// Writing the number that a byte sequence denotes gives the sequence back.
pub proof fn be_bytes_of_be_value(s: Seq<u8>)
    ensures
        be_bytes(be_value(s), s.len()) == s,
    decreases s.len(),
{
    if s.len() > 0 {
        be_bytes_of_be_value(s.drop_last());
        let v = be_value(s.drop_last());
        assert((v * 256 + s.last() as nat) / 256 == v);
        assert((v * 256 + s.last() as nat) % 256 == s.last());
        assert(s.drop_last().push(s.last()) =~= s);
    } else {
        assert(s =~= Seq::<u8>::empty());
    }
}

/// Reading the bytes of a number that fits gives the number back.
pub proof fn be_value_of_be_bytes(v: nat, n: nat)
    requires
        v < pow256(n),
    ensures
        be_value(be_bytes(v, n)) == v,
    decreases n,
{
    if n > 0 {
        be_value_of_be_bytes(v / 256, (n - 1) as nat);
        assert(be_bytes(v, n).drop_last() =~= be_bytes(v / 256, (n - 1) as nat));
    }
}

pub proof fn lemma_pow256_values()
    ensures
        pow256(1) == 0x100,
        pow256(2) == 0x1_0000,
        pow256(4) == 0x1_0000_0000,
        pow256(8) == 0x1_0000_0000_0000_0000,
        pow256(16) == 0x1_0000_0000_0000_0000_0000_0000_0000_0000,
{
    reveal_with_fuel(pow256, 17);
}

/// Appends part of a byte slice.
pub fn append_bytes(out: &mut Vec<u8>, s: &[u8], from: usize, to: usize)
    requires
        from <= to <= s@.len(),
    ensures
        final(out)@ == old(out)@ + s@.subrange(from as int, to as int),
{
    let mut i: usize = from;
    let ghost start = out@;
    assert(start =~= start + s@.subrange(from as int, from as int));
    while i < to
        invariant
            from <= i <= to <= s@.len(),
            out@ == start + s@.subrange(from as int, i as int),
        decreases to - i,
    {
        out.push(s[i]);
        assert(start + s@.subrange(from as int, i + 1) =~= (start + s@.subrange(
            from as int,
            i as int,
        )).push(s@[i as int]));
        i += 1;
    }
}

/// Appends a whole byte slice.
pub fn append_all(out: &mut Vec<u8>, s: &[u8])
    ensures
        final(out)@ == old(out)@ + s@,
{
    append_bytes(out, s, 0, s.len());
    assert(s@.subrange(0, s@.len() as int) =~= s@);
}

/// Whether two byte slices are equal.
pub fn bytes_eq(a: &[u8], b: &[u8]) -> (r: bool)
    ensures
        r == (a@ == b@),
{
    if a.len() != b.len() {
        return false;
    }
    let mut i: usize = 0;
    while i < a.len()
        invariant
            a@.len() == b@.len(),
            i <= a@.len(),
            forall|j: int| 0 <= j < i ==> a@[j] == b@[j],
        decreases a@.len() - i,
    {
        if a[i] != b[i] {
            return false;
        }
        i += 1;
    }
    assert(a@ =~= b@);
    true
}

/// The number that `n` bytes at `from` denote.
pub fn read_be(s: &[u8], from: usize, n: usize) -> (r: u128)
    requires
        n <= 16,
        from + n <= s@.len(),
    ensures
        r == be_value(s@.subrange(from as int, from + n)),
{
    let mut v: u128 = 0;
    let mut i: usize = 0;
    assert(s@.subrange(from as int, from as int) =~= Seq::empty());
    while i < n
        invariant
            i <= n <= 16,
            from + n <= s.len(),
            v == be_value(s@.subrange(from as int, from + i)),
        decreases n - i,
    {
        let ghost cur = s@.subrange(from as int, from + i);
        let ghost next = s@.subrange(from as int, from + i + 1);
        proof {
            lemma_be_value_bound(next);
            lemma_pow256_values();
            lemma_pow256_monotonic((i + 1) as nat, 16);
            assert(next.drop_last() =~= cur);
        }
        v = v * 256 + s[from + i] as u128;
        i += 1;
    }
    v
}

pub proof fn lemma_pow256_monotonic(a: nat, b: nat)
    requires
        a <= b,
    ensures
        0 < pow256(a) <= pow256(b),
    decreases b,
{
    if a < b {
        lemma_pow256_monotonic(a, (b - 1) as nat);
    } else if a > 0 {
        lemma_pow256_monotonic((a - 1) as nat, (b - 1) as nat);
    }
}

/// Appends the lowest `n` bytes of a number, most significant byte first.
pub fn append_be(out: &mut Vec<u8>, v: u128, n: usize)
    requires
        n <= 16,
    ensures
        final(out)@ == old(out)@ + be_bytes(v as nat, n as nat),
    decreases n,
{
    if n == 0 {
        assert(out@ + be_bytes(v as nat, 0) =~= out@);
        return;
    }
    let ghost start = out@;
    append_be(out, v / 256, n - 1);
    out.push((v % 256) as u8);
    assert(out@ =~= start + be_bytes(v as nat, n as nat));
}

/// The first position at or after `from` where `pat` stands in `s`.
pub fn find_bytes(s: &[u8], pat: &[u8], from: usize) -> (r: Option<usize>)
    requires
        from <= s@.len(),
    ensures
        r matches Some(k) ==> text::find_from(s@, pat@, from as int) == Some(k as int),
        r is None ==> text::find_from(s@, pat@, from as int) is None,
{
    let mut i: usize = from;
    while i <= s.len() && pat.len() <= s.len() - i
        invariant
            from <= i <= s@.len() + 1,
            text::find_from(s@, pat@, from as int) == text::find_from(s@, pat@, i as int),
        decreases s@.len() + 1 - i,
    {
        let mut j: usize = 0;
        while j < pat.len() && s[i + j] == pat[j]
            invariant
                j <= pat@.len(),
                i + pat.len() <= s.len(),
                forall|k: int| 0 <= k < j ==> s@[i + k] == pat@[k],
            decreases pat@.len() - j,
        {
            j += 1;
        }
        if j == pat.len() {
            assert(s@.subrange(i as int, i + pat@.len()) =~= pat@);
            return Some(i);
        }
        assert(s@.subrange(i as int, i + pat@.len())[j as int] != pat@[j as int]);
        if i == s.len() {
            return None;
        }
        i += 1;
    }
    None
}

/// A number below 2^32 in four bytes, as it is sent.
pub open spec fn four(n: int) -> Seq<u8> {
    seq![
        (n / 0x100_0000) as u8,
        (n / 0x1_0000 % 256) as u8,
        (n / 0x100 % 256) as u8,
        (n % 256) as u8,
    ]
}

/// The byte that comes first counts most: bytes in front count as often as the
/// bytes behind them have values.
pub proof fn first_bytes_count_most(front: Seq<u8>, back: Seq<u8>)
    ensures
        be_value(front + back) == be_value(front) * pow256(back.len()) + be_value(back),
        front.len() == 1 ==> be_value(front) == front[0],
    decreases back.len(),
{
    if front.len() == 1 {
        assert(front.drop_last() =~= Seq::<u8>::empty());
        assert(be_value(front.drop_last()) == 0);
    }
    if back.len() == 0 {
        assert(front + back =~= front);
        let f = be_value(front);
        let one = pow256(0);
        assert(f * one == f) by (nonlinear_arith)
            requires
                one == 1,
        ;
    } else {
        first_bytes_count_most(front, back.drop_last());
        assert((front + back).drop_last() =~= front + back.drop_last());
        assert((front + back).last() == back.last());
        let f = be_value(front);
        let p = pow256((back.len() - 1) as nat);
        let b = be_value(back.drop_last());
        let l = back.last() as nat;
        assert((f * p + b) * 256 + l == f * (256 * p) + (b * 256 + l)) by (nonlinear_arith);
        assert(be_value(back) == b * 256 + l);
        assert(pow256(back.len()) == 256 * p);
    }
}

/// What four bytes denote.
pub proof fn four_bytes_denote(n: int)
    requires
        0 <= n < 0x1_0000_0000,
    ensures
        be_value(four(n)) == n,
{
    let s = four(n);
    reveal_with_fuel(be_value, 5);
    let a = s.drop_last();
    let b = a.drop_last();
    let c = b.drop_last();
    assert(a =~= seq![s[0], s[1], s[2]]);
    assert(b =~= seq![s[0], s[1]]);
    assert(c =~= seq![s[0]]);
    assert(c.drop_last() =~= Seq::<u8>::empty());
    assert(be_value(c) == s[0]);
    assert(be_value(b) == s[0] * 256 + s[1]);
    assert(be_value(a) == (s[0] * 256 + s[1]) * 256 + s[2]);
}

/// Two bytes denote the number that they were written for.
pub proof fn two_bytes_denote(n: int)
    requires
        0 <= n < 0x1_0000,
    ensures
        be_value(two(n)) == n,
{
    let s = two(n);
    let a = s.drop_last();
    let none = a.drop_last();
    assert(none.len() == 0);
    assert(be_value(none) == 0);
    assert(be_value(a) == s[0]);
}

/// The bytes of a number in two and in four bytes, one by one.
pub proof fn numbers_are_sent_highest_byte_first(n: nat, m: nat)
    requires
        n < 0x1_0000,
        m < 0x1_0000_0000,
    ensures
        be_bytes(n, 2) == two(n as int),
        be_bytes(m, 4) == four(m as int),
{
    two_bytes_denote(n as int);
    be_bytes_of_be_value(two(n as int));
    four_bytes_denote(m as int);
    be_bytes_of_be_value(four(m as int));
}

} // verus!
