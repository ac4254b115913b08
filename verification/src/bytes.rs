//! Fixed-width integers as byte strings, in both byte orders.
use vstd::arithmetic::div_mod::{lemma_div_denominator, lemma_div_is_ordered};
use vstd::arithmetic::power::{lemma_pow0, lemma_pow1, lemma_pow_adds, lemma_pow_positive, pow};
use vstd::prelude::*;

use crate::order::{lex_lt, lex_lt_at};

verus! {

/// The `n` low bytes of `x`, lowest first.
pub open spec fn le_bytes(x: nat, n: nat) -> Seq<u8>
    decreases n,
{
    if n == 0 {
        Seq::empty()
    } else {
        seq![(x % 256) as u8] + le_bytes(x / 256, (n - 1) as nat)
    }
}

/// The number that a byte string spells, lowest byte first.
pub open spec fn le_value(s: Seq<u8>) -> nat
    decreases s.len(),
{
    if s.len() == 0 {
        0
    } else {
        s[0] as nat + 256 * le_value(s.skip(1))
    }
}

/// The `n` low bytes of `x`, highest first.
pub open spec fn be_bytes(x: nat, n: nat) -> Seq<u8>
    decreases n,
{
    if n == 0 {
        Seq::empty()
    } else {
        be_bytes(x / 256, (n - 1) as nat).push((x % 256) as u8)
    }
}

/// The number that a byte string spells, highest byte first.
pub open spec fn be_value(s: Seq<u8>) -> nat
    decreases s.len(),
{
    if s.len() == 0 {
        0
    } else {
        256 * be_value(s.drop_last()) + s.last() as nat
    }
}

/// 256 to the power of `n`.
pub open spec fn width(n: nat) -> nat
    decreases n,
{
    if n == 0 {
        1
    } else {
        256 * width((n - 1) as nat)
    }
}

/// The widths of the integer types.
pub proof fn lemma_widths()
    ensures
        width(4) == 0x1_0000_0000,
        width(8) == 0x1_0000_0000_0000_0000,
        width(16) == 0x1_0000_0000_0000_0000_0000_0000_0000_0000,
{
    reveal_with_fuel(width, 17);
}

/// Reading back the bytes of a number gives the number.
pub proof fn lemma_le_round_trip(x: nat, n: nat)
    requires
        x < width(n),
    ensures
        le_bytes(x, n).len() == n,
        le_value(le_bytes(x, n)) == x,
    decreases n,
{
    if n > 0 {
        lemma_le_round_trip(x / 256, (n - 1) as nat);
        let s = le_bytes(x, n);
        assert(s.skip(1) =~= le_bytes(x / 256, (n - 1) as nat));
    }
}

/// Writing the number that bytes spell gives the bytes.
pub proof fn lemma_le_canonical(s: Seq<u8>)
    ensures
        le_value(s) < width(s.len()),
        le_bytes(le_value(s), s.len()) == s,
    decreases s.len(),
{
    if s.len() > 0 {
        let rest = s.skip(1);
        lemma_le_canonical(rest);
        let x = le_value(s);
        assert(x % 256 == s[0] as nat);
        assert(x / 256 == le_value(rest));
        assert(le_bytes(x, s.len()) =~= s);
    } else {
        assert(le_bytes(0, 0) =~= s);
    }
}

/// Reading back the bytes of a number gives the number.
pub proof fn lemma_be_round_trip(x: nat, n: nat)
    requires
        x < width(n),
    ensures
        be_bytes(x, n).len() == n,
        be_value(be_bytes(x, n)) == x,
    decreases n,
{
    if n > 0 {
        lemma_be_round_trip(x / 256, (n - 1) as nat);
        let s = be_bytes(x, n);
        assert(s.drop_last() =~= be_bytes(x / 256, (n - 1) as nat));
    }
}

/// Writing the number that bytes spell gives the bytes.
pub proof fn lemma_be_canonical(s: Seq<u8>)
    ensures
        be_value(s) < width(s.len()),
        be_bytes(be_value(s), s.len()) == s,
    decreases s.len(),
{
    if s.len() > 0 {
        let rest = s.drop_last();
        lemma_be_canonical(rest);
        let x = be_value(s);
        assert(x % 256 == s.last() as nat);
        assert(x / 256 == be_value(rest));
        assert(be_bytes(x, s.len()) =~= s);
    } else {
        assert(be_bytes(0, 0) =~= s);
    }
}

/// The byte strings of two numbers, highest byte first, are in the order of
/// the numbers.
pub proof fn lemma_be_order(x: nat, y: nat, n: nat)
    requires
        x < width(n),
        y < width(n),
    ensures
        lex_lt(be_bytes(x, n), be_bytes(y, n)) <==> x < y,
        be_bytes(x, n) == be_bytes(y, n) <==> x == y,
    decreases n,
{
    lemma_be_round_trip(x, n);
    lemma_be_round_trip(y, n);
    if x < y {
        lemma_be_before(x, y, n);
    } else if y < x {
        lemma_be_before(y, x, n);
        crate::order::lemma_lex_asymmetric(be_bytes(y, n), be_bytes(x, n));
    } else {
        crate::order::lemma_lex_irreflexive(be_bytes(x, n));
    }
}

proof fn lemma_be_before(x: nat, y: nat, n: nat)
    requires
        x < y,
        y < width(n),
    ensures
        lex_lt(be_bytes(x, n), be_bytes(y, n)),
    decreases n,
{
    let a = be_bytes(x, n);
    let b = be_bytes(y, n);
    lemma_be_round_trip(x, n);
    lemma_be_round_trip(y, n);
    if n > 0 {
        let m = (n - 1) as nat;
        let a1 = be_bytes(x / 256, m);
        let b1 = be_bytes(y / 256, m);
        lemma_be_round_trip(x / 256, m);
        lemma_be_round_trip(y / 256, m);
        lemma_div_is_ordered(x as int, y as int, 256);
        if x / 256 < y / 256 {
            lemma_be_before(x / 256, y / 256, m);
            let i = choose|i: int| lex_lt_at(a1, b1, i);
            assert(i < m);
            assert forall|j: int| 0 <= j < i implies a[j] == b[j] by {
                assert(a1[j] == b1[j]);
            }
            assert(lex_lt_at(a, b, i));
        } else {
            assert(x / 256 == y / 256);
            assert(x % 256 < y % 256);
            assert forall|j: int| 0 <= j < m implies a[j] == b[j] by {
                assert(a[j] == a1[j] && b[j] == b1[j]);
            }
            assert(lex_lt_at(a, b, m as int));
        }
    }
}

/// The eight bytes of a 64-bit number, lowest first.
pub fn u64_le(x: u64) -> (b: Vec<u8>)
    ensures
        b@ == le_bytes(x as nat, 8),
        b@.len() == 8,
{
    let mut b: Vec<u8> = Vec::new();
    let mut rest: u64 = x;
    let mut i: usize = 0;
    while i < 8
        invariant
            i <= 8,
            b@.len() == i,
            b@ + le_bytes(rest as nat, (8 - i) as nat) == le_bytes(x as nat, 8),
        decreases 8 - i,
    {
        let ghost before = b@;
        let low: u8 = (rest % 256) as u8;
        b.push(low);
        proof {
            let n = (8 - i) as nat;
            assert(le_bytes(rest as nat, n) == seq![(rest as nat % 256) as u8] + le_bytes(
                rest as nat / 256,
                (n - 1) as nat,
            ));
            assert(b@ + le_bytes(rest as nat / 256, (n - 1) as nat) =~= before + le_bytes(
                rest as nat,
                n,
            ));
        }
        rest = rest / 256;
        i = i + 1;
    }
    assert(b@ =~= le_bytes(x as nat, 8));
    b
}

/// The sixteen bytes of a 128-bit number, lowest first.
pub fn u128_le(x: u128) -> (b: Vec<u8>)
    ensures
        b@ == le_bytes(x as nat, 16),
        b@.len() == 16,
{
    let mut b: Vec<u8> = Vec::new();
    let mut rest: u128 = x;
    let mut i: usize = 0;
    while i < 16
        invariant
            i <= 16,
            b@.len() == i,
            b@ + le_bytes(rest as nat, (16 - i) as nat) == le_bytes(x as nat, 16),
        decreases 16 - i,
    {
        let ghost before = b@;
        let low: u8 = (rest % 256) as u8;
        b.push(low);
        proof {
            let n = (16 - i) as nat;
            assert(le_bytes(rest as nat, n) == seq![(rest as nat % 256) as u8] + le_bytes(
                rest as nat / 256,
                (n - 1) as nat,
            ));
            assert(b@ + le_bytes(rest as nat / 256, (n - 1) as nat) =~= before + le_bytes(
                rest as nat,
                n,
            ));
        }
        rest = rest / 256;
        i = i + 1;
    }
    assert(b@ =~= le_bytes(x as nat, 16));
    b
}

/// The number that sixteen bytes spell, lowest first.
pub fn u128_from_le(b: &[u8]) -> (x: u128)
    requires
        b@.len() == 16,
    ensures
        x == le_value(b@),
        b@ == le_bytes(x as nat, 16),
{
    proof {
        lemma_widths();
        lemma_le_canonical(b@);
    }
    let mut x: u128 = 0;
    let mut i: usize = 16;
    assert(b@.skip(16) =~= Seq::<u8>::empty());
    while i > 0
        invariant
            i <= 16,
            b@.len() == 16,
            x == le_value(b@.skip(i as int)),
            width(16) == 0x1_0000_0000_0000_0000_0000_0000_0000_0000,
        decreases i,
    {
        i = i - 1;
        proof {
            let s = b@.skip(i as int);
            assert(s.skip(1) =~= b@.skip(i + 1));
            assert(le_value(s) == b@[i as int] as nat + 256 * x as nat);
            lemma_le_canonical(s);
            lemma_width_monotone(s.len(), 16);
        }
        x = 256 * x + b[i] as u128;
    }
    assert(b@.skip(0) =~= b@);
    x
}

/// More bytes spell more numbers.
pub proof fn lemma_width_monotone(a: nat, b: nat)
    requires
        a <= b,
    ensures
        0 < width(a) <= width(b),
    decreases b,
{
    if a < b {
        lemma_width_monotone(a, (b - 1) as nat);
    } else if b > 0 {
        lemma_width_monotone((a - 1) as nat, (b - 1) as nat);
    }
}

/// The eight bytes of a 64-bit number, highest first.
pub fn u64_be(x: u64) -> (b: Vec<u8>)
    ensures
        b@ == be_bytes(x as nat, 8),
        b@.len() == 8,
{
    let mut le = u64_le(x);
    proof {
        lemma_be_reverses(x as nat, 8);
    }
    reverse_bytes(&mut le);
    le
}

/// The sixteen bytes of a 128-bit number, highest first.
pub fn u128_be(x: u128) -> (b: Vec<u8>)
    ensures
        b@ == be_bytes(x as nat, 16),
        b@.len() == 16,
{
    let mut le = u128_le(x);
    proof {
        lemma_be_reverses(x as nat, 16);
    }
    reverse_bytes(&mut le);
    le
}

/// The two byte orders mirror each other.
pub proof fn lemma_be_reverses(x: nat, n: nat)
    ensures
        be_bytes(x, n) == le_bytes(x, n).reverse(),
        be_bytes(x, n).len() == n,
    decreases n,
{
    if n > 0 {
        lemma_be_reverses(x / 256, (n - 1) as nat);
        let rest = le_bytes(x / 256, (n - 1) as nat);
        assert(le_bytes(x, n).reverse() =~= rest.reverse().push((x % 256) as u8));
    } else {
        assert(be_bytes(x, n) =~= le_bytes(x, n).reverse());
    }
}

/// The number that mirrored bytes spell in the other order.
pub proof fn lemma_value_reverses(s: Seq<u8>)
    ensures
        be_value(s) == le_value(s.reverse()),
    decreases s.len(),
{
    if s.len() > 0 {
        lemma_value_reverses(s.drop_last());
        assert(s.reverse().skip(1) =~= s.drop_last().reverse());
    }
}

fn reverse_bytes(b: &mut Vec<u8>)
    ensures
        final(b)@ == old(b)@.reverse(),
{
    let ghost all = b@;
    let mut r: Vec<u8> = Vec::new();
    let mut i: usize = b.len();
    while i > 0
        invariant
            i <= b.len(),
            b@ == all,
            r@.len() == all.len() - i,
            forall|j: int| 0 <= j < r@.len() ==> r@[j] == all[all.len() - 1 - j],
        decreases i,
    {
        i = i - 1;
        r.push(b[i]);
    }
    assert(r@ =~= all.reverse());
    *b = r;
}

/// The number that eight bytes spell, highest first.
pub fn u64_from_be(b: &[u8]) -> (x: u64)
    requires
        b@.len() == 8,
    ensures
        x == be_value(b@),
        b@ == be_bytes(x as nat, 8),
{
    proof {
        lemma_widths();
        lemma_be_canonical(b@);
    }
    let mut x: u64 = 0;
    let mut i: usize = 0;
    assert(b@.take(0) =~= Seq::<u8>::empty());
    while i < 8
        invariant
            i <= 8,
            b@.len() == 8,
            x == be_value(b@.take(i as int)),
            width(8) == 0x1_0000_0000_0000_0000,
        decreases 8 - i,
    {
        proof {
            let s = b@.take(i + 1);
            assert(s.drop_last() =~= b@.take(i as int));
            lemma_be_canonical(s);
            lemma_width_monotone(s.len(), 8);
        }
        x = 256 * x + b[i] as u64;
        i = i + 1;
    }
    assert(b@.take(8) =~= b@);
    x
}

/// The number that sixteen bytes spell, highest first.
pub fn u128_from_be(b: &[u8]) -> (x: u128)
    requires
        b@.len() == 16,
    ensures
        x == be_value(b@),
        b@ == be_bytes(x as nat, 16),
{
    proof {
        lemma_widths();
        lemma_be_canonical(b@);
    }
    let mut x: u128 = 0;
    let mut i: usize = 0;
    assert(b@.take(0) =~= Seq::<u8>::empty());
    while i < 16
        invariant
            i <= 16,
            b@.len() == 16,
            x == be_value(b@.take(i as int)),
            width(16) == 0x1_0000_0000_0000_0000_0000_0000_0000_0000,
        decreases 16 - i,
    {
        proof {
            let s = b@.take(i + 1);
            assert(s.drop_last() =~= b@.take(i as int));
            lemma_be_canonical(s);
            lemma_width_monotone(s.len(), 16);
        }
        x = 256 * x + b[i] as u128;
        i = i + 1;
    }
    assert(b@.take(16) =~= b@);
    x
}

/// Byte `i` of a number, counted from the lowest, is what is left of it when
/// 256 to the power of `i` is divided out, modulo 256: the two byte orders put
/// it at `i` from the front and at `i` from the back.
pub proof fn law_bytes_are_digits(x: nat, n: nat, i: nat)
    requires
        i < n,
    ensures
        le_bytes(x, n).len() == n,
        be_bytes(x, n).len() == n,
        le_bytes(x, n)[i as int] as int == (x as int / pow(256, i)) % 256,
        be_bytes(x, n)[n - 1 - i] as int == (x as int / pow(256, i)) % 256,
    decreases n,
{
    lemma_bytes_len(x, n);
    if i == 0 {
        lemma_pow0(256);
    } else {
        law_bytes_are_digits(x / 256, (n - 1) as nat, (i - 1) as nat);
        lemma_pow1(256);
        lemma_pow_adds(256, 1, (i - 1) as nat);
        lemma_pow_positive(256, (i - 1) as nat);
        lemma_div_denominator(x as int, 256, pow(256, (i - 1) as nat));
        lemma_bytes_len(x / 256, (n - 1) as nat);
    }
}

proof fn lemma_bytes_len(x: nat, n: nat)
    ensures
        le_bytes(x, n).len() == n,
        be_bytes(x, n).len() == n,
    decreases n,
{
    if n > 0 {
        lemma_bytes_len(x / 256, (n - 1) as nat);
    }
}

} // verus!
