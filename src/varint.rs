//! Unsigned LEB128 varints: seven bits per byte, least significant group
//! first, the high bit of each byte but the last set.

use vstd::prelude::*;

verus! {

/// Most bytes that a `u64` varint may take.
pub const MAX_WIDTH: usize = 10;

/// Does the byte carry the continuation flag?
pub open spec fn continues(b: u8) -> bool {
    b >= 0x80
}

/// The minimal encoding of `n`.
pub open spec fn varint_bytes(n: nat) -> Seq<u8>
    decreases n,
{
    if n < 128 {
        seq![n as u8]
    } else {
        seq![(n % 128 + 128) as u8] + varint_bytes(n / 128)
    }
}

/// The number that the seven-bit groups of `s` spell, least significant first.
pub open spec fn group_value(s: Seq<u8>) -> nat
    decreases s.len(),
{
    if s.len() == 0 {
        0
    } else {
        (s[0] % 128) as nat + 128 * group_value(s.drop_first())
    }
}

/// `128` to the power `k`.
pub open spec fn place(k: nat) -> nat
    decreases k,
{
    if k == 0 {
        1
    } else {
        128 * place((k - 1) as nat)
    }
}

/// Index of the first byte of `s` without the continuation flag
/// (`s.len()` where there is none).
pub open spec fn stop_index(s: Seq<u8>) -> nat
    decreases s.len(),
{
    if s.len() == 0 {
        0
    } else if !continues(s[0]) {
        0
    } else {
        1 + stop_index(s.drop_first())
    }
}

/// `s` starts with a terminated varint of at most `MAX_WIDTH` bytes.
pub open spec fn terminated(s: Seq<u8>) -> bool {
    stop_index(s) < s.len() && stop_index(s) < MAX_WIDTH
}

/// Bytes taken by the leading varint of `s`, once it is terminated.
pub open spec fn width(s: Seq<u8>) -> nat {
    stop_index(s) + 1
}

/// The leading varint ends in a zero byte after other bytes: a shorter
/// encoding of the same number exists.
pub open spec fn trailing_zero(s: Seq<u8>) -> bool {
    stop_index(s) > 0 && s[stop_index(s) as int] == 0
}

/// The number that the leading varint of `s` spells.
pub open spec fn leading_value(s: Seq<u8>) -> nat {
    group_value(s.take(width(s) as int))
}

/// Why a varint could not be read.
#[derive(Debug, Clone, Copy, PartialEq, Eq, Structural)]
pub enum VarintError {
    /// The input ends before the varint does.
    Insufficient,
    /// The varint runs past the most bytes the integer type allows.
    Overflow,
    /// The varint ends in a superfluous zero byte.
    NotMinimal,
}

/// Relies on `unsigned_varint::encode::usize`: the minimal encoding, seven
/// bits per byte, least significant group first.
#[verifier::external_body]
pub(crate) fn encode_usize(n: usize) -> (r: Vec<u8>)
    ensures
        r@ == varint_bytes(n as nat),
{
    let mut buffer = unsigned_varint::encode::usize_buffer();
    unsigned_varint::encode::usize(n, &mut buffer).to_vec()
}

/// Relies on `unsigned_varint::decode::u64`: it reads up to the first byte
/// without the continuation flag, fails with `Overflow` at a tenth byte that
/// has the flag, with `NotMinimal` on a trailing zero byte, and with
/// `Insufficient` when the input ends first. The groups are shifted into a
/// `u64`, so bits beyond 64 are lost.
/// Its error enum is non-exhaustive; the three variants are all it has.
#[verifier::external_body]
pub(crate) fn decode_u64(b: &[u8]) -> (r: Result<(u64, &[u8]), VarintError>)
    ensures
        match r {
            Ok((n, rest)) => {
                &&& terminated(b@)
                &&& !trailing_zero(b@)
                &&& n as nat == leading_value(b@) % 0x1_0000_0000_0000_0000
                &&& rest@ == b@.skip(width(b@) as int)
            },
            Err(VarintError::NotMinimal) => terminated(b@) && trailing_zero(b@),
            Err(VarintError::Overflow) => !terminated(b@) && b@.len() >= MAX_WIDTH,
            Err(VarintError::Insufficient) => !terminated(b@) && b@.len() < MAX_WIDTH,
        },
{
    match unsigned_varint::decode::u64(b) {
        Ok(v) => Ok(v),
        Err(unsigned_varint::decode::Error::Insufficient) => Err(VarintError::Insufficient),
        Err(unsigned_varint::decode::Error::Overflow) => Err(VarintError::Overflow),
        Err(_) => Err(VarintError::NotMinimal),
    }
}

/// The groups of `t` spell a number below `128` to the power of its length.
pub proof fn lemma_group_value_bound(t: Seq<u8>)
    ensures
        group_value(t) < place(t.len()),
    decreases t.len(),
{
    if t.len() > 0 {
        let r = t.drop_first();
        lemma_group_value_bound(r);
        let a = (t[0] % 128) as nat;
        let g = group_value(r);
        let p = place(r.len());
        assert(a + 128 * g < 128 * p) by (nonlinear_arith)
            requires
                a < 128,
                g < p,
        ;
    }
}

/// Splitting `t` after `k` bytes splits its value by `place(k)`.
pub proof fn lemma_group_value_split(t: Seq<u8>, k: nat)
    requires
        k <= t.len(),
    ensures
        group_value(t) == group_value(t.take(k as int)) + place(k) * group_value(t.skip(k as int)),
    decreases k,
{
    if k == 0 {
        assert(t.skip(0) =~= t);
        assert(t.take(0) =~= Seq::<u8>::empty());
        assert(group_value(t.take(0)) == 0);
        assert(place(0) == 1);
        assert(group_value(t) == group_value(t.take(0)) + place(0) * group_value(t.skip(0)));
    } else {
        let r = t.drop_first();
        lemma_group_value_split(r, (k - 1) as nat);
        assert(t.take(k as int).drop_first() =~= r.take(k - 1));
        assert(t.skip(k as int) =~= r.skip(k - 1));
        let a = (t[0] % 128) as nat;
        let x = group_value(r.take(k - 1));
        let y = group_value(r.skip(k - 1));
        let p = place((k - 1) as nat);
        assert(t.take(k as int)[0] == t[0]);
        assert(group_value(t.take(k as int)) == a + 128 * x);
        assert(place(k) == 128 * p);
        assert(group_value(t) == a + 128 * group_value(r));
        assert(a + 128 * (x + p * y) == (a + 128 * x) + (128 * p) * y) by (nonlinear_arith);
        assert(group_value(t) == group_value(t.take(k as int)) + place(k) * y);
    }
}

/// An encoding takes between one and `MAX_WIDTH` bytes for a 64-bit number.
pub proof fn lemma_varint_width(n: nat)
    requires
        n <= u64::MAX,
    ensures
        1 <= varint_bytes(n).len() <= MAX_WIDTH,
{
    reveal_with_fuel(place, 11);
    lemma_varint_width_below(n, MAX_WIDTH as nat);
}

/// Below `128` to the power `k`, an encoding takes at most `k` bytes.
proof fn lemma_varint_width_below(n: nat, k: nat)
    requires
        k >= 1,
        n < place(k),
    ensures
        1 <= varint_bytes(n).len() <= k,
    decreases n,
{
    if n >= 128 {
        let p = place((k - 1) as nat);
        assert(k >= 2) by {
            if k == 1 {
                assert(place(0) == 1);
            }
        }
        assert(n / 128 < p) by (nonlinear_arith)
            requires
                n < 128 * p,
        ;
        lemma_varint_width_below(n / 128, (k - 1) as nat);
    }
}

/// Reading a minimal encoding followed by anything stops at its last byte
/// and gives back the number.
pub proof fn lemma_read_encoding(n: nat, rest: Seq<u8>)
    ensures
        stop_index(varint_bytes(n) + rest) == varint_bytes(n).len() - 1,
        (varint_bytes(n) + rest).take(varint_bytes(n).len() as int) == varint_bytes(n),
        group_value(varint_bytes(n)) == n,
        (varint_bytes(n).last() == 0) == (n == 0),
    decreases n,
{
    let e = varint_bytes(n);
    let s = e + rest;
    assert(s.take(e.len() as int) =~= e);
    if n < 128 {
        assert(e.drop_first() =~= Seq::<u8>::empty());
        assert(group_value(e.drop_first()) == 0);
        assert(e[0] == n as u8);
    } else {
        let m = n / 128;
        lemma_read_encoding(m, rest);
        let e1 = varint_bytes(m);
        assert(s.drop_first() =~= e1 + rest);
        assert(e.drop_first() =~= e1);
        let b = (n % 128 + 128) as u8;
        assert(e[0] == b);
        assert(b % 128 == n % 128) by (nonlinear_arith)
            requires
                b == n % 128 + 128,
        ;
        assert(group_value(e) == n % 128 + 128 * m);
        assert(n % 128 + 128 * m == n) by (nonlinear_arith)
            requires
                m == n / 128,
        ;
    }
}

/// A terminated varint without a trailing zero is the minimal encoding of
/// the number it spells.
pub proof fn lemma_leading_is_minimal(s: Seq<u8>)
    requires
        stop_index(s) < s.len(),
        !trailing_zero(s),
    ensures
        s.take(width(s) as int) == varint_bytes(leading_value(s)),
        leading_value(s) > 0 || stop_index(s) == 0,
    decreases s.len(),
{
    let w = width(s);
    let t = s.take(w as int);
    if stop_index(s) == 0 {
        assert(t.drop_first() =~= Seq::<u8>::empty());
        assert(t =~= seq![s[0]]);
        assert(group_value(t.drop_first()) == 0);
        assert(leading_value(s) == s[0]);
        assert(varint_bytes(s[0] as nat) =~= seq![s[0]]);
    } else {
        let r = s.drop_first();
        assert(stop_index(r) == stop_index(s) - 1);
        assert(r[stop_index(r) as int] == s[stop_index(s) as int]);
        lemma_leading_is_minimal(r);
        let m = leading_value(r);
        assert(t.drop_first() =~= r.take(width(r) as int));
        if m == 0 {
            assert(varint_bytes(0) =~= seq![0u8]);
            assert(r.take(width(r) as int)[0] == 0);
        }
        let a = (s[0] % 128) as nat;
        let v = a + 128 * m;
        assert(t[0] == s[0]);
        assert(leading_value(s) == v);
        assert(v % 128 == a && v / 128 == m && v >= 128) by (nonlinear_arith)
            requires
                a < 128,
                m >= 1,
                v == a + 128 * m,
        ;
        assert((a + 128) as u8 == s[0]);
        assert(varint_bytes(v) == seq![s[0]] + varint_bytes(m));
        assert(t =~= seq![s[0]] + r.take(width(r) as int));
    }
}

/// The number a terminated varint spells fits 64 bits exactly when it is
/// shorter than `MAX_WIDTH` bytes or its last byte is at most 1.
pub proof fn lemma_leading_fits(s: Seq<u8>)
    requires
        terminated(s),
    ensures
        (leading_value(s) <= u64::MAX) == (width(s) < MAX_WIDTH || s[(MAX_WIDTH - 1) as int] <= 1),
{
    reveal_with_fuel(place, 11);
    let t = s.take(width(s) as int);
    lemma_group_value_bound(t);
    if width(s) == MAX_WIDTH {
        lemma_group_value_split(t, 9);
        lemma_group_value_bound(t.take(9));
        let tail = t.skip(9);
        assert(tail.drop_first() =~= Seq::<u8>::empty());
        assert(tail[0] == s[9]);
        assert(!continues(s[stop_index(s) as int])) by {
            lemma_stop_index_flag(s);
        }
        assert(group_value(tail.drop_first()) == 0);
        let h = group_value(t.take(9));
        let d = s[9] as nat;
        assert(group_value(tail) == d);
        assert(place(9) == 0x8000_0000_0000_0000);
        assert(group_value(t) == h + 0x8000_0000_0000_0000 * d);
        assert((h + 0x8000_0000_0000_0000 * d <= 0xFFFF_FFFF_FFFF_FFFF) == (d <= 1)) by (nonlinear_arith)
            requires
                h < 0x8000_0000_0000_0000,
        ;
    } else {
        assert(place(t.len()) <= place(9)) by {
            lemma_place_mono(t.len(), 9);
        }
    }
}

/// `place` grows with its exponent.
proof fn lemma_place_mono(a: nat, b: nat)
    requires
        a <= b,
    ensures
        place(a) <= place(b),
    decreases b,
{
    if a < b {
        lemma_place_mono(a, (b - 1) as nat);
        lemma_place_pos((b - 1) as nat);
    }
}

/// `place` is never zero.
proof fn lemma_place_pos(a: nat)
    ensures
        place(a) >= 1,
    decreases a,
{
    if a > 0 {
        lemma_place_pos((a - 1) as nat);
    }
}

/// Bytes before the stop index continue; the byte at it does not.
pub proof fn lemma_stop_index_flag(s: Seq<u8>)
    ensures
        stop_index(s) <= s.len(),
        stop_index(s) < s.len() ==> !continues(s[stop_index(s) as int]),
        forall|j: int| 0 <= j < stop_index(s) ==> continues(#[trigger] s[j]),
    decreases s.len(),
{
    if s.len() > 0 && continues(s[0]) {
        let r = s.drop_first();
        lemma_stop_index_flag(r);
        assert forall|j: int| 0 <= j < stop_index(s) implies continues(#[trigger] s[j]) by {
            if j > 0 {
                assert(s[j] == r[j - 1]);
            }
        }
    }
}

/// Where the first `k` bytes of `s` all carry the continuation flag, the
/// varint does not stop before index `k`.
pub proof fn lemma_continuing_run(s: Seq<u8>, k: int)
    requires
        0 <= k <= s.len(),
        forall|j: int| 0 <= j < k ==> continues(#[trigger] s[j]),
    ensures
        stop_index(s) >= k,
    decreases k,
{
    if k > 0 {
        let r = s.drop_first();
        assert(continues(s[0]));
        assert forall|j: int| 0 <= j < k - 1 implies continues(#[trigger] r[j]) by {
            assert(r[j] == s[j + 1]);
        }
        lemma_continuing_run(r, k - 1);
    }
}

/// A minimal encoding of a 64-bit number, followed by anything, is read
/// back whole: it is terminated, has no trailing zero, and spells the number.
pub proof fn lemma_encoding_read_back(n: nat, rest: Seq<u8>)
    requires
        n <= u64::MAX,
    ensures
        terminated(varint_bytes(n) + rest),
        !trailing_zero(varint_bytes(n) + rest),
        width(varint_bytes(n) + rest) == varint_bytes(n).len(),
        leading_value(varint_bytes(n) + rest) == n,
{
    let e = varint_bytes(n);
    let s = e + rest;
    lemma_read_encoding(n, rest);
    lemma_varint_width(n);
    assert(s[stop_index(s) as int] == e.last());
    if n < 128 {
        assert(e.len() == 1);
    }
}

} // verus!
