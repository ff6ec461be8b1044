//! Byte classes and the mathematical meaning of tokens.
use vstd::prelude::*;

verus! {

/// A byte is whitespace when its value is at most that of a space.
pub open spec fn is_ws(b: u8) -> bool {
    b <= 32
}

/// An ASCII decimal digit.
pub open spec fn is_digit(b: u8) -> bool {
    48 <= b <= 57
}

/// Length of the longest prefix of `s` whose bytes all satisfy `p`.
pub open spec fn span(s: Seq<u8>, p: spec_fn(u8) -> bool) -> nat
    decreases s.len(),
{
    if s.len() == 0 || !p(s[0]) {
        0
    } else {
        1 + span(s.skip(1), p)
    }
}

/// Bytes that are not whitespace.
pub open spec fn non_ws() -> spec_fn(u8) -> bool {
    |b: u8| !is_ws(b)
}

/// Whitespace bytes.
pub open spec fn ws() -> spec_fn(u8) -> bool {
    |b: u8| is_ws(b)
}

/// Bytes other than `d`.
pub open spec fn not_byte(d: u8) -> spec_fn(u8) -> bool {
    |b: u8| b != d
}

/// Decimal digits.
pub open spec fn digit() -> spec_fn(u8) -> bool {
    |b: u8| is_digit(b)
}

/// The value of a run of decimal digits, most significant first.
pub open spec fn digits_value(s: Seq<u8>) -> nat
    decreases s.len(),
{
    if s.len() == 0 {
        0
    } else {
        digits_value(s.drop_last()) * 10 + (s.last() - 48) as nat
    }
}

/// What follows the leading whitespace of `s`.
pub open spec fn after_ws(s: Seq<u8>) -> Seq<u8> {
    s.skip(span(s, ws()) as int)
}

/// The first token of `s`: the bytes after the leading whitespace, up to the next whitespace.
pub open spec fn word_of(s: Seq<u8>) -> Seq<u8> {
    after_ws(s).take(span(after_ws(s), non_ws()) as int)
}

/// What follows the first token of `s`.
pub open spec fn after_word(s: Seq<u8>) -> Seq<u8> {
    after_ws(s).skip(span(after_ws(s), non_ws()) as int)
}

/// What follows the bytes before the first `d` in `s`, and that `d` when there is one.
pub open spec fn after_delim(s: Seq<u8>, d: u8) -> Seq<u8> {
    let k = span(s, not_byte(d));
    if k < s.len() {
        s.skip(k + 1 as int)
    } else {
        s.skip(k as int)
    }
}

/// The first line of `s` without its line feed, and without a carriage return just before it.
pub open spec fn line_of(s: Seq<u8>) -> Seq<u8> {
    let k = span(s, not_byte(10));
    if k < s.len() && k > 0 && s[k - 1] == 13 {
        s.take(k - 1)
    } else {
        s.take(k as int)
    }
}

/// Ten to the power `n`.
pub open spec fn pow10(n: nat) -> nat
    decreases n,
{
    if n == 0 {
        1
    } else {
        10 * pow10((n - 1) as nat)
    }
}

/// The value of a run of bytes taken as digits by their low four bits, most significant first.
pub open spec fn nibbles_value(s: Seq<u8>) -> nat
    decreases s.len(),
{
    if s.len() == 0 {
        0
    } else {
        nibbles_value(s.drop_last()) * 10 + (s.last() & 15u8) as nat
    }
}

/// The run of digits at the start of `s`.
pub open spec fn digit_run(s: Seq<u8>) -> Seq<u8> {
    s.take(span(s, digit()) as int)
}

/// Whether the first token of `s` starts with a minus sign.
pub open spec fn negative(s: Seq<u8>) -> bool {
    after_ws(s).len() > 0 && after_ws(s)[0] == 45
}

/// What follows the leading whitespace of `s` and a minus sign there.
pub open spec fn after_sign(s: Seq<u8>) -> Seq<u8> {
    if negative(s) {
        after_ws(s).skip(1)
    } else {
        after_ws(s)
    }
}

/// The number of values of a 64-bit integer.
pub open spec fn m64() -> nat {
    u64::MAX as nat + 1
}

/// The number of values of a 128-bit integer.
pub open spec fn m128() -> nat {
    u128::MAX as nat + 1
}

/// `x` reduced to the signed range of `m` values, as two's complement narrowing does.
pub open spec fn wrap(x: int, m: int) -> int {
    let r = x % m;
    if r >= m / 2 {
        r - m
    } else {
        r
    }
}

/// The unsigned magnitude that the leading digits of `after_sign(s)` spell.
pub open spec fn magnitude(s: Seq<u8>) -> nat {
    digits_value(digit_run(after_sign(s)))
}

/// The first integer of `s` as 64 bits: its magnitude modulo 2^64, negated in two's complement
/// after a minus sign.
pub open spec fn int64_of(s: Seq<u8>) -> u64 {
    let m = magnitude(s) % m64();
    if negative(s) {
        ((m64() - m) % (m64() as int)) as u64
    } else {
        m as u64
    }
}

/// The first unsigned integer of `s` modulo 2^64: the digits after the leading whitespace.
pub open spec fn uint64_of(s: Seq<u8>) -> u64 {
    (digits_value(digit_run(after_ws(s))) % m64()) as u64
}

/// What follows the digits after the leading whitespace of `s`.
pub open spec fn after_uint(s: Seq<u8>) -> Seq<u8> {
    after_ws(s).skip(span(after_ws(s), digit()) as int)
}

/// The first token of `s` read by the low four bits of its bytes, modulo 2^128.
pub open spec fn uint128_of(s: Seq<u8>) -> u128 {
    (nibbles_value(word_of(s)) % m128()) as u128
}

/// What follows the first integer of `s`.
pub open spec fn after_int(s: Seq<u8>) -> Seq<u8> {
    after_sign(s).skip(span(after_sign(s), digit()) as int)
}

/// The first token of `s` after a minus sign there, read by its low four bits.
pub open spec fn wide_run(s: Seq<u8>) -> Seq<u8> {
    after_sign(s).take(span(after_sign(s), non_ws()) as int)
}

/// The first integer of `s` as 128 bits, in two's complement after a minus sign.
pub open spec fn int128_of(s: Seq<u8>) -> u128 {
    let m = nibbles_value(wide_run(s)) % m128();
    if negative(s) {
        ((m128() - m)
            % (m128() as int)) as u128
    } else {
        m as u128
    }
}

/// What follows the first 128-bit integer of `s`.
pub open spec fn after_wide(s: Seq<u8>) -> Seq<u8> {
    after_sign(s).skip(span(after_sign(s), non_ws()) as int)
}

/// The span is a prefix on which `p` holds, ended by the end of `s` or by a byte failing `p`.
pub proof fn lemma_span(s: Seq<u8>, p: spec_fn(u8) -> bool)
    ensures
        span(s, p) <= s.len(),
        forall|i: int| 0 <= i < span(s, p) ==> p(#[trigger] s[i]),
        span(s, p) < s.len() ==> !p(s[span(s, p) as int]),
    decreases s.len(),
{
    if s.len() > 0 && p(s[0]) {
        lemma_span(s.skip(1), p);
        assert forall|i: int| 0 <= i < span(s, p) implies p(#[trigger] s[i]) by {
            if i > 0 {
                assert(s[i] == s.skip(1)[i - 1]);
            }
        }
    }
}

/// A prefix on which `p` holds, followed by the end or a byte failing `p`, is the span.
pub proof fn lemma_span_unique(s: Seq<u8>, p: spec_fn(u8) -> bool, k: nat)
    requires
        k <= s.len(),
        forall|i: int| 0 <= i < k ==> p(#[trigger] s[i]),
        k < s.len() ==> !p(s[k as int]),
    ensures
        span(s, p) == k,
    decreases s.len(),
{
    if k > 0 {
        assert(p(s[0]));
        assert forall|i: int| 0 <= i < k - 1 implies p(#[trigger] s.skip(1)[i]) by {
            assert(s.skip(1)[i] == s[i + 1]);
        }
        if k - 1 < s.skip(1).len() {
            assert(s.skip(1)[k - 1] == s[k as int]);
        }
        lemma_span_unique(s.skip(1), p, (k - 1) as nat);
    }
}

/// Consuming one byte of the span shortens it by one.
pub proof fn lemma_span_step(s: Seq<u8>, p: spec_fn(u8) -> bool)
    requires
        s.len() > 0,
        p(s[0]),
    ensures
        span(s, p) == 1 + span(s.skip(1), p),
{
}

/// Appending one digit multiplies the value by ten and adds the digit.
pub proof fn lemma_digits_push(s: Seq<u8>, d: u8)
    ensures
        digits_value(s.push(d)) == digits_value(s) * 10 + (d - 48) as nat,
{
    assert(s.push(d).drop_last() =~= s);
}

/// A prefix of `k` bytes that satisfy `p` can be split off the span.
pub proof fn lemma_span_split(s: Seq<u8>, p: spec_fn(u8) -> bool, k: nat)
    requires
        k <= s.len(),
        forall|i: int| 0 <= i < k ==> p(#[trigger] s[i]),
    ensures
        span(s, p) == k + span(s.skip(k as int), p),
    decreases k,
{
    if k > 0 {
        assert(p(s[0]));
        assert forall|i: int| 0 <= i < k - 1 implies p(#[trigger] s.skip(1)[i]) by {
            assert(s.skip(1)[i] == s[i + 1]);
        }
        lemma_span_split(s.skip(1), p, (k - 1) as nat);
        assert(s.skip(1).skip(k - 1) =~= s.skip(k as int));
    } else {
        assert(s.skip(0) =~= s);
    }
}

/// Digits that follow others scale the value of the first ones by a power of ten.
pub proof fn lemma_digits_concat(a: Seq<u8>, b: Seq<u8>)
    ensures
        digits_value(a + b) == digits_value(a) * pow10(b.len()) + digits_value(b),
    decreases b.len(),
{
    if b.len() == 0 {
        assert(a + b =~= a);
        assert(pow10(0) == 1);
        assert(digits_value(b) == 0);
    } else {
        let b1 = b.drop_last();
        assert((a + b).drop_last() =~= a + b1);
        assert((a + b).last() == b.last());
        lemma_digits_concat(a, b1);
        let x = digits_value(a);
        let y = digits_value(b1);
        let q = pow10(b1.len());
        let d = (b.last() - 48) as nat;
        assert(pow10(b.len()) == 10 * q);
        assert(digits_value(a + b) == digits_value(a + b1) * 10 + d);
        assert(digits_value(b) == y * 10 + d);
        assert((x * q + y) * 10 + d == x * (10 * q) + (y * 10 + d)) by (nonlinear_arith);
    }
}

/// One step of a wrapping fold `acc * p + v` keeps the accumulator equal to the exact value
/// modulo `m`.
pub proof fn lemma_wrap_fold(acc: int, exact: int, p: int, v: int, m: int)
    requires
        m > 0,
        acc == exact % m,
    ensures
        ((acc * p) % m + v) % m == (exact * p + v) % m,
{
    vstd::arithmetic::div_mod::lemma_mul_mod_noop_left(exact, p, m);
    vstd::arithmetic::div_mod::lemma_add_mod_noop(exact * p, v, m);
    vstd::arithmetic::div_mod::lemma_add_mod_noop((exact * p) % m, v, m);
    vstd::arithmetic::div_mod::lemma_mod_twice(exact * p, m);
}

/// Powers of ten up to the eighth fit in 27 bits.
pub proof fn lemma_pow10_mono(n: nat)
    requires
        n < 8,
    ensures
        pow10(n) * 10 <= 100_000_000,
        pow10(n) > 0,
{
    reveal_with_fuel(pow10, 9);
    assert(n == 0 || n == 1 || n == 2 || n == 3 || n == 4 || n == 5 || n == 6 || n == 7);
}

/// A wrapping addition of 64-bit values is their sum modulo 2^64.
pub proof fn lemma_wrap_add(x: u64, y: u64)
    ensures
        x.wrapping_add(y) == (x + y) % (m64() as int),
{
    if x + y > u64::MAX {
        vstd::arithmetic::div_mod::lemma_mod_add_multiples_vanish(x + y - m64(), m64() as int);
        vstd::arithmetic::div_mod::lemma_small_mod((x + y - m64()) as nat, m64());
    } else {
        vstd::arithmetic::div_mod::lemma_small_mod((x + y) as nat, m64());
    }
}

/// A wrapping addition of 128-bit values is their sum modulo 2^128.
pub proof fn lemma_wrap_add128(x: u128, y: u128)
    ensures
        x.wrapping_add(y) == (x + y) % (m128() as int),
{
    if x + y > u128::MAX {
        vstd::arithmetic::div_mod::lemma_mod_add_multiples_vanish(x + y - m128(), m128() as int);
        vstd::arithmetic::div_mod::lemma_small_mod((x + y - m128()) as nat, m128());
    } else {
        vstd::arithmetic::div_mod::lemma_small_mod((x + y) as nat, m128());
    }
}

} // verus!
