//! Positional number representations shared by the arithmetic and
//! serialization layers: little-endian bit vectors, little-endian byte
//! strings, and canonical decimal digit strings.

use vstd::prelude::*;
use vstd::arithmetic::power2::{pow2, lemma_pow2_unfold, lemma_pow2_pos, lemma_pow2_adds, lemma2_to64, lemma2_to64_rest};

verus! {

// ---------------------------------------------------------------------------
// Little-endian bit vectors.
// ---------------------------------------------------------------------------

/// The value of a little-endian bit vector.
pub open spec fn bits_val(s: Seq<bool>) -> nat
    decreases s.len(),
{
    if s.len() == 0 {
        0
    } else {
        (if s[0] {
            1nat
        } else {
            0nat
        }) + 2 * bits_val(s.subrange(1, s.len() as int))
    }
}

/// The value contributed by one appended bit.
pub open spec fn bit_weight(b: bool, position: nat) -> nat {
    if b {
        pow2(position)
    } else {
        0
    }
}

pub proof fn lemma_bits_val_push(s: Seq<bool>, b: bool)
    ensures
        bits_val(s.push(b)) == bits_val(s) + bit_weight(b, s.len()),
    decreases s.len(),
{
    if s.len() == 0 {
        assert(s.push(b).subrange(1, 1) =~= Seq::<bool>::empty());
        assert(pow2(0) == 1) by {
            lemma2_to64();
        }
        assert(bits_val(s.push(b)) == (if b {
            1nat
        } else {
            0nat
        }) + 2 * bits_val(s.push(b).subrange(1, 1)));
        assert(bits_val(s) == 0);
    } else {
        let t = s.subrange(1, s.len() as int);
        lemma_bits_val_push(t, b);
        assert(s.push(b).subrange(1, s.len() as int + 1) =~= t.push(b));
        lemma_pow2_unfold(s.len());
        assert(s.push(b)[0] == s[0]);
        assert(bits_val(s.push(b)) == (if s[0] {
            1nat
        } else {
            0nat
        }) + 2 * bits_val(t.push(b)));
        assert(bits_val(s) == (if s[0] {
            1nat
        } else {
            0nat
        }) + 2 * bits_val(t));
        if b {
            assert(2 * (bits_val(t) + pow2(t.len())) == 2 * bits_val(t) + 2 * pow2(t.len()));
        }
        assert(bits_val(s.push(b)) == bits_val(s) + bit_weight(b, s.len()));
    }
}

pub proof fn lemma_bits_val_bound(s: Seq<bool>)
    ensures
        bits_val(s) < pow2(s.len()),
    decreases s.len(),
{
    if s.len() == 0 {
        lemma2_to64();
    } else {
        lemma_bits_val_bound(s.subrange(1, s.len() as int));
        lemma_pow2_unfold(s.len());
    }
}

pub proof fn lemma_pow2_127()
    ensures
        pow2(61) == 0x2000_0000_0000_0000,
        pow2(62) == 0x4000_0000_0000_0000,
        pow2(64) == 0x1_0000_0000_0000_0000,
        pow2(127) == 0x8000_0000_0000_0000_0000_0000_0000_0000,
{
    lemma2_to64();
    lemma2_to64_rest();
    lemma_pow2_adds(63, 64);
}

/// Decomposes `x` into its `n` low little-endian bits; `x` must fit, so the
/// decomposition is exact.
pub fn u128_to_bits_le(x: u128, n: usize) -> (r: Vec<bool>)
    requires
        n <= 127,
        (x as nat) < pow2(n as nat),
    ensures
        r@.len() == n,
        bits_val(r@) == x as nat,
{
    let mut bits: Vec<bool> = Vec::new();
    let mut rem: u128 = x;
    let mut i: usize = 0;
    proof {
        lemma2_to64();
        assert((x as nat) * 1 == x as nat);
    }
    while i < n
        invariant
            i <= n,
            bits@.len() == i,
            bits_val(bits@) + (rem as nat) * pow2(i as nat) == x as nat,
            (rem as nat) < pow2((n - i) as nat),
        decreases n - i,
    {
        let b: bool = rem % 2 == 1;
        proof {
            lemma_bits_val_push(bits@, b);
            lemma_pow2_unfold((i + 1) as nat);
            lemma_pow2_unfold((n - i) as nat);
            let bv = if b {
                1nat
            } else {
                0nat
            };
            assert(bv + 2 * ((rem as nat) / 2) == rem as nat);
            assert((bv + 2 * ((rem as nat) / 2)) * pow2(i as nat) == bv * pow2(i as nat) + ((
            rem as nat) / 2) * (2 * pow2(i as nat))) by (nonlinear_arith);
            assert(bv * pow2(i as nat) == if b {
                pow2(i as nat)
            } else {
                0nat
            });
            assert((rem as nat) / 2 < pow2((n - i - 1) as nat)) by (nonlinear_arith)
                requires
                    (rem as nat) < 2 * pow2((n - i - 1) as nat),
            ;
        }
        bits.push(b);
        rem = rem / 2;
        i = i + 1;
    }
    proof {
        assert(pow2(0) == 1) by {
            lemma2_to64();
        }
        assert((rem as nat) * pow2(0) == rem as nat);
    }
    bits
}

/// Reconstructs the value of a little-endian bit vector.
pub fn bits_le_to_u128(bits: &Vec<bool>) -> (r: u128)
    requires
        bits@.len() <= 127,
    ensures
        r as nat == bits_val(bits@),
{
    let n = bits.len();
    let mut acc: u128 = 0;
    let mut i: usize = n;
    while i > 0
        invariant
            i <= n,
            n == bits@.len() <= 127,
            acc as nat == bits_val(bits@.subrange(i as int, n as int)),
        decreases i,
    {
        proof {
            let sub = bits@.subrange(i - 1, n as int);
            lemma_bits_val_bound(sub);
            assert(sub.subrange(1, sub.len() as int) =~= bits@.subrange(i as int, n as int));
            lemma_pow2_le((n - i + 1) as nat, 127);
            lemma_pow2_127();
        }
        i = i - 1;
        let b: u128 = if bits[i] {
            1
        } else {
            0
        };
        acc = 2 * acc + b;
    }
    proof {
        assert(bits@.subrange(0, n as int) =~= bits@);
    }
    acc
}

pub proof fn lemma_pow2_le(a: nat, b: nat)
    requires
        a <= b,
    ensures
        pow2(a) <= pow2(b),
    decreases b,
{
    if a < b {
        lemma_pow2_le(a, (b - 1) as nat);
        lemma_pow2_unfold(b);
        lemma_pow2_pos((b - 1) as nat);
    }
}

// ---------------------------------------------------------------------------
// Little-endian byte strings.
// ---------------------------------------------------------------------------

pub open spec fn pow256(n: nat) -> nat
    decreases n,
{
    if n == 0 {
        1
    } else {
        256 * pow256((n - 1) as nat)
    }
}

pub proof fn lemma_pow256_8()
    ensures
        pow256(8) == 0x1_0000_0000_0000_0000,
{
    assert(pow256(0) == 1);
    assert(pow256(1) == 0x100);
    assert(pow256(2) == 0x1_0000);
    assert(pow256(3) == 0x100_0000);
    assert(pow256(4) == 0x1_0000_0000);
    assert(pow256(5) == 0x100_0000_0000);
    assert(pow256(6) == 0x1_0000_0000_0000);
    assert(pow256(7) == 0x100_0000_0000_0000);
}

pub proof fn lemma_pow256_pos(n: nat)
    ensures
        pow256(n) >= 1,
    decreases n,
{
    if n > 0 {
        lemma_pow256_pos((n - 1) as nat);
    }
}

pub proof fn lemma_pow256_le(a: nat, b: nat)
    requires
        a <= b,
    ensures
        pow256(a) <= pow256(b),
    decreases b,
{
    if a < b {
        lemma_pow256_le(a, (b - 1) as nat);
        lemma_pow256_pos((b - 1) as nat);
    }
}

/// The `n`-byte little-endian encoding of `x` (truncating above byte `n`).
pub open spec fn le_of(x: nat, n: nat) -> Seq<u8>
    decreases n,
{
    if n == 0 {
        Seq::empty()
    } else {
        seq![(x % 256) as u8].add(le_of(x / 256, (n - 1) as nat))
    }
}

/// The value of a little-endian byte string.
pub open spec fn le_val(s: Seq<u8>) -> nat
    decreases s.len(),
{
    if s.len() == 0 {
        0
    } else {
        (s[0] as nat) + 256 * le_val(s.subrange(1, s.len() as int))
    }
}

pub proof fn lemma_le_of_val(x: nat, n: nat)
    requires
        x < pow256(n),
    ensures
        le_val(le_of(x, n)) == x,
        le_of(x, n).len() == n,
    decreases n,
{
    if n > 0 {
        assert(x / 256 < pow256((n - 1) as nat)) by (nonlinear_arith)
            requires
                x < 256 * pow256((n - 1) as nat),
        ;
        lemma_le_of_val(x / 256, (n - 1) as nat);
        let s = le_of(x, n);
        assert(s.subrange(1, s.len() as int) =~= le_of(x / 256, (n - 1) as nat));
    }
}

/// The little-endian encoding always has exactly `n` bytes.
pub proof fn lemma_le_of_len(x: nat, n: nat)
    ensures
        le_of(x, n).len() == n,
    decreases n,
{
    if n > 0 {
        lemma_le_of_len(x / 256, (n - 1) as nat);
    }
}

pub proof fn lemma_le_val_bound(s: Seq<u8>)
    ensures
        le_val(s) < pow256(s.len()),
    decreases s.len(),
{
    if s.len() > 0 {
        lemma_le_val_bound(s.subrange(1, s.len() as int));
    }
}

/// A byte string of length `n` is exactly the encoding of its own value.
pub proof fn lemma_le_of_le_val(s: Seq<u8>)
    ensures
        le_of(le_val(s), s.len()) =~= s,
    decreases s.len(),
{
    if s.len() > 0 {
        let tail = s.subrange(1, s.len() as int);
        lemma_le_of_le_val(tail);
        assert((s[0] as nat + 256 * le_val(tail)) % 256 == s[0] as nat) by (nonlinear_arith)
            requires
                s[0] < 256,
        ;
        assert((s[0] as nat + 256 * le_val(tail)) / 256 == le_val(tail)) by (nonlinear_arith)
            requires
                s[0] < 256,
        ;
    }
}

pub proof fn lemma_le_val_push(s: Seq<u8>, b: u8)
    ensures
        le_val(s.push(b)) == le_val(s) + (b as nat) * pow256(s.len()),
    decreases s.len(),
{
    if s.len() == 0 {
        assert(s.push(b).subrange(1, 1) =~= Seq::<u8>::empty());
        assert((b as nat) * 1 == b as nat);
        assert(le_val(s.push(b)) == (s.push(b)[0] as nat) + 256 * le_val(
            s.push(b).subrange(1, 1)));
        assert(s.push(b)[0] == b);
        assert(le_val(s) == 0);
        assert(pow256(s.len()) == 1);
        assert(le_val(s.push(b)) == le_val(s) + (b as nat) * pow256(s.len()));
    } else {
        let t = s.subrange(1, s.len() as int);
        lemma_le_val_push(t, b);
        assert(s.push(b).subrange(1, s.len() as int + 1) =~= t.push(b));
        assert(s.push(b)[0] == s[0]);
        assert(le_val(s.push(b)) == (s[0] as nat) + 256 * le_val(t.push(b)));
        assert(le_val(s) == (s[0] as nat) + 256 * le_val(t));
        assert(256 * (le_val(t) + (b as nat) * pow256(t.len())) == 256 * le_val(t) + (b as nat)
            * (256 * pow256(t.len()))) by (nonlinear_arith);
        assert(pow256(s.len()) == 256 * pow256(t.len()));
        assert((b as nat) * (256 * pow256(t.len())) == (b as nat) * pow256(s.len()));
        assert(le_val(s.push(b)) == le_val(s) + (b as nat) * pow256(s.len()));
    }
}

/// The 8-byte little-endian encoding of a 64-bit integer.
pub fn u64_to_le_bytes(x: u64) -> (r: Vec<u8>)
    ensures
        r@ =~= le_of(x as nat, 8),
        r@.len() == 8,
        le_val(r@) == x as nat,
{
    let mut bytes: Vec<u8> = Vec::new();
    let mut rem: u64 = x;
    let mut i: usize = 0;
    proof {
        lemma_pow256_8();
        assert((x as nat) * 1 == x as nat);
    }
    while i < 8
        invariant
            i <= 8,
            bytes@.len() == i,
            le_val(bytes@) + (rem as nat) * pow256(i as nat) == x as nat,
            (rem as nat) < pow256((8 - i) as nat),
        decreases 8 - i,
    {
        let b: u8 = (rem % 256) as u8;
        proof {
            lemma_le_val_push(bytes@, b);
            assert((b as nat) + 256 * ((rem as nat) / 256) == rem as nat);
            assert(((b as nat) + 256 * ((rem as nat) / 256)) * pow256(i as nat) == (b as nat)
                * pow256(i as nat) + ((rem as nat) / 256) * (256 * pow256(i as nat)))
                by (nonlinear_arith);
            assert((rem as nat) / 256 < pow256((8 - i - 1) as nat)) by (nonlinear_arith)
                requires
                    (rem as nat) < 256 * pow256((8 - i - 1) as nat),
            ;
        }
        bytes.push(b);
        rem = rem / 256;
        i = i + 1;
    }
    proof {
        assert((rem as nat) * pow256(0) == rem as nat);
        lemma_le_of_le_val(bytes@);
    }
    bytes
}

/// Reads a 64-bit integer from 8 little-endian bytes starting at `pos`.
pub fn u64_from_le_bytes(b: &Vec<u8>, pos: usize) -> (r: u64)
    requires
        pos + 8 <= b@.len(),
    ensures
        r as nat == le_val(b@.subrange(pos as int, pos + 8)),
        le_of(r as nat, 8) =~= b@.subrange(pos as int, pos + 8),
{
    let ghost s = b@.subrange(pos as int, pos + 8);
    let blen = b.len();
    let mut acc: u64 = 0;
    let mut i: usize = 8;
    while i > 0
        invariant
            i <= 8,
            pos + 8 <= blen,
            blen == b@.len(),
            s =~= b@.subrange(pos as int, pos + 8),
            acc as nat == le_val(s.subrange(i as int, 8)),
        decreases i,
    {
        proof {
            let sub = s.subrange(i - 1, 8);
            lemma_le_val_bound(sub);
            assert(sub.subrange(1, sub.len() as int) =~= s.subrange(i as int, 8));
            lemma_pow256_le((8 - i + 1) as nat, 8);
            lemma_pow256_8();
            assert(sub[0] == b@[pos + i - 1]);
        }
        i = i - 1;
        acc = 256 * acc + (b[pos + i] as u64);
    }
    proof {
        assert(s.subrange(0, 8) =~= s);
        lemma_le_of_le_val(s);
    }
    acc
}

// ---------------------------------------------------------------------------
// Canonical decimal digit strings.
// ---------------------------------------------------------------------------

pub open spec fn is_dec_digit(c: char) -> bool {
    c == '0' || c == '1' || c == '2' || c == '3' || c == '4' || c == '5' || c == '6' || c == '7'
        || c == '8' || c == '9'
}

pub open spec fn digit_val(c: char) -> nat {
    if c == '0' {
        0
    } else if c == '1' {
        1
    } else if c == '2' {
        2
    } else if c == '3' {
        3
    } else if c == '4' {
        4
    } else if c == '5' {
        5
    } else if c == '6' {
        6
    } else if c == '7' {
        7
    } else if c == '8' {
        8
    } else {
        9
    }
}

pub open spec fn digit_char(d: nat) -> char {
    if d == 0 {
        '0'
    } else if d == 1 {
        '1'
    } else if d == 2 {
        '2'
    } else if d == 3 {
        '3'
    } else if d == 4 {
        '4'
    } else if d == 5 {
        '5'
    } else if d == 6 {
        '6'
    } else if d == 7 {
        '7'
    } else if d == 8 {
        '8'
    } else {
        '9'
    }
}

/// Converts a single decimal digit to its character.
pub fn digit_to_char(d: u8) -> (r: char)
    requires
        d < 10,
    ensures
        r == digit_char(d as nat),
{
    match d {
        0 => '0',
        1 => '1',
        2 => '2',
        3 => '3',
        4 => '4',
        5 => '5',
        6 => '6',
        7 => '7',
        8 => '8',
        _ => '9',
    }
}

/// Converts a decimal digit character to its value; `None` on any other char.
pub fn char_to_digit(c: char) -> (r: Option<u8>)
    ensures
        r is Some <==> is_dec_digit(c),
        r is Some ==> r->0 as nat == digit_val(c) && r->0 < 10,
{
    match c {
        '0' => Some(0),
        '1' => Some(1),
        '2' => Some(2),
        '3' => Some(3),
        '4' => Some(4),
        '5' => Some(5),
        '6' => Some(6),
        '7' => Some(7),
        '8' => Some(8),
        '9' => Some(9),
        _ => None,
    }
}

/// The canonical decimal digit string of `n` (no leading zeros).
pub open spec fn dec_digits(n: nat) -> Seq<char>
    decreases n,
{
    if n < 10 {
        seq![digit_char(n)]
    } else {
        dec_digits(n / 10).push(digit_char(n % 10))
    }
}

/// The value of a decimal digit string (most significant digit first).
pub open spec fn dec_val(s: Seq<char>) -> nat
    decreases s.len(),
{
    if s.len() == 0 {
        0
    } else {
        dec_val(s.drop_last()) * 10 + digit_val(s.last())
    }
}

/// A canonical decimal digit string: non-empty, all digits, and no leading
/// zero unless the string is exactly "0".
pub open spec fn is_canon_dec(s: Seq<char>) -> bool {
    &&& s.len() > 0
    &&& (forall|i: int| 0 <= i < s.len() ==> is_dec_digit(#[trigger] s[i]))
    &&& (s[0] != '0' || s.len() == 1)
}

/// The canonical digit string of `n` evaluates back to `n`, and is canonical.
pub proof fn lemma_dec_digits_val(n: nat)
    ensures
        dec_val(dec_digits(n)) == n,
        is_canon_dec(dec_digits(n)),
    decreases n,
{
    if n < 10 {
        assert(dec_digits(n) =~= seq![digit_char(n)]);
        assert(dec_digits(n).drop_last() =~= Seq::<char>::empty());
        assert(dec_digits(n).last() == digit_char(n));
        assert(digit_val(digit_char(n)) == n);
        assert(dec_val(dec_digits(n)) == dec_val(Seq::<char>::empty()) * 10 + digit_val(
            digit_char(n)));
        assert(dec_val(dec_digits(n)) == n);
        assert(is_dec_digit(digit_char(n)));
    } else {
        lemma_dec_digits_val(n / 10);
        let s = dec_digits(n);
        let h = dec_digits(n / 10);
        assert(s.drop_last() =~= h);
        assert((n / 10) * 10 + n % 10 == n) by (nonlinear_arith);
        assert(s[0] == h[0]);
        assert(n / 10 >= 1);
        if n / 10 < 10 {
            assert(h =~= seq![digit_char(n / 10)]);
            assert(h[0] != '0');
        } else {
            lemma_dec_digits_nonempty((n / 10) / 10);
            assert(h.len() >= 2);
            assert(h[0] != '0');
        }
        assert(forall|i: int| 0 <= i < s.len() - 1 ==> #[trigger] s[i] == h[i]);
        assert(s.last() == digit_char(n % 10));
        assert(is_dec_digit(digit_char(n % 10)));
    }
}

pub proof fn lemma_dec_digits_nonempty(n: nat)
    ensures
        dec_digits(n).len() >= 1,
{
}

pub open spec fn pow10(n: nat) -> nat
    decreases n,
{
    if n == 0 {
        1
    } else {
        10 * pow10((n - 1) as nat)
    }
}

/// The canonical digit string of an integer below `pow10(k)` has at most `k`
/// digits.
pub proof fn lemma_dec_digits_len(n: nat, k: nat)
    requires
        k >= 1,
        n < pow10(k),
    ensures
        dec_digits(n).len() <= k,
    decreases n,
{
    if n >= 10 {
        assert(k >= 2) by {
            if k == 1 {
                assert(pow10(0) == 1);
                assert(pow10(1) == 10);
            }
        }
        assert(n / 10 < pow10((k - 1) as nat)) by (nonlinear_arith)
            requires
                n < 10 * pow10((k - 1) as nat),
        ;
        lemma_dec_digits_len(n / 10, (k - 1) as nat);
    }
}

/// Every 64-bit integer prints as at most 20 digits.
pub proof fn lemma_dec_digits_len_u64(n: u64)
    ensures
        dec_digits(n as nat).len() <= 20,
{
    assert(pow10(20) == 100000000000000000000) by {
        assert(pow10(0) == 1);
        assert(pow10(1) == 10);
        assert(pow10(2) == 100);
        assert(pow10(3) == 1000);
        assert(pow10(4) == 10000);
        assert(pow10(5) == 100000);
        assert(pow10(6) == 1000000);
        assert(pow10(7) == 10000000);
        assert(pow10(8) == 100000000);
        assert(pow10(9) == 1000000000);
        assert(pow10(10) == 10000000000);
        assert(pow10(11) == 100000000000);
        assert(pow10(12) == 1000000000000);
        assert(pow10(13) == 10000000000000);
        assert(pow10(14) == 100000000000000);
        assert(pow10(15) == 1000000000000000);
        assert(pow10(16) == 10000000000000000);
        assert(pow10(17) == 100000000000000000);
        assert(pow10(18) == 1000000000000000000);
        assert(pow10(19) == 10000000000000000000);
    }
    lemma_dec_digits_len(n as nat, 20);
}

/// Appending a digit multiplies the value by ten and adds the digit.
pub proof fn lemma_dec_val_push(s: Seq<char>, c: char)
    ensures
        dec_val(s.push(c)) == dec_val(s) * 10 + digit_val(c),
{
    assert(s.push(c).drop_last() =~= s);
}

/// Prints a 64-bit integer as its canonical decimal digit string.
pub fn u64_to_dec(x: u64) -> (r: Vec<char>)
    ensures
        r@ =~= dec_digits(x as nat),
{
    let mut out: Vec<char> = Vec::new();
    let d0: u8 = (x % 10) as u8;
    out.insert(0, digit_to_char(d0));
    let mut rem: u64 = x / 10;
    proof {
        if rem == 0 {
            assert(out@ =~= dec_digits(x as nat));
        } else {
            assert(dec_digits(x as nat) =~= dec_digits((x as nat) / 10).push(
                digit_char((x as nat) % 10)));
            assert(dec_digits((x as nat) / 10).push(digit_char((x as nat) % 10)) =~= dec_digits(
                rem as nat).add(out@));
        }
    }
    while rem > 0
        invariant
            rem == 0 ==> out@ =~= dec_digits(x as nat),
            rem > 0 ==> dec_digits(x as nat) =~= dec_digits(rem as nat).add(out@),
        decreases rem,
    {
        let d: u8 = (rem % 10) as u8;
        let ghost old_out = out@;
        let ghost old_rem = rem as nat;
        out.insert(0, digit_to_char(d));
        rem = rem / 10;
        proof {
            assert(out@ =~= seq![digit_char(old_rem % 10)].add(old_out));
            if old_rem < 10 {
                assert(dec_digits(old_rem) =~= seq![digit_char(old_rem)]);
                assert(dec_digits(x as nat) =~= out@);
            } else {
                assert(dec_digits(old_rem) =~= dec_digits(old_rem / 10).push(
                    digit_char(old_rem % 10)));
                assert(dec_digits(old_rem / 10).push(digit_char(old_rem % 10)).add(old_out)
                    =~= dec_digits(old_rem / 10).add(out@));
                assert(dec_digits(x as nat) =~= dec_digits(rem as nat).add(out@));
            }
        }
    }
    out
}

} // verus!
