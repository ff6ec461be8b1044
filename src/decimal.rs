//! Decimal text of unsigned integers, and what the integer decoder makes of it.
use vstd::prelude::*;
use crate::lex::{
    after_uint, after_ws, digit, digit_run, digits_value, is_digit, is_ws, lemma_digits_push,
    lemma_pow10_mono, lemma_span_unique, pow10,
    line_of, not_byte, span, uint64_of, ws, m64,
};

verus! {

/// The decimal digits of `n`, most significant first, without leading zeros.
pub open spec fn decimal(n: nat) -> Seq<u8>
    decreases n,
{
    if n < 10 {
        seq![(48 + n) as u8]
    } else {
        decimal(n / 10).push((48 + n % 10) as u8)
    }
}

/// The numbers of `xs` in decimal, each followed by a space.
pub open spec fn spaced(xs: Seq<u64>) -> Seq<u8>
    decreases xs.len(),
{
    if xs.len() == 0 {
        Seq::empty()
    } else {
        decimal(xs[0] as nat) + seq![32u8] + spaced(xs.skip(1))
    }
}

/// The first `k` unsigned integers that successive decoding takes from `s`.
pub open spec fn decode_u64s(s: Seq<u8>, k: nat) -> Seq<u64>
    decreases k,
{
    if k == 0 {
        Seq::empty()
    } else {
        seq![uint64_of(s)] + decode_u64s(after_uint(s), (k - 1) as nat)
    }
}

/// The decimal text of `n` is a nonempty run of digits that spells `n`.
pub proof fn lemma_decimal(n: nat)
    ensures
        decimal(n).len() > 0,
        forall|i: int| 0 <= i < decimal(n).len() ==> is_digit(#[trigger] decimal(n)[i]),
        digits_value(decimal(n)) == n,
    decreases n,
{
    if n < 10 {
        assert(decimal(n).drop_last() =~= Seq::<u8>::empty());
        assert(digits_value(Seq::<u8>::empty()) == 0);
    } else {
        lemma_decimal(n / 10);
        let d = decimal(n / 10);
        assert(decimal(n).drop_last() =~= d);
        assert forall|i: int| 0 <= i < decimal(n).len() implies is_digit(#[trigger] decimal(n)[i]) by {
            if i < d.len() {
                assert(decimal(n)[i] == d[i]);
            }
        }
        let c = (48 + n % 10) as u8;
        lemma_digits_push(d, c);
        assert(c - 48 == n % 10);
        vstd::arithmetic::div_mod::lemma_fundamental_div_mod(n as int, 10);
    }
}

/// Numbers written in decimal, each followed by a space, decode in order to themselves.
pub proof fn lemma_u64_round_trip(xs: Seq<u64>)
    ensures
        decode_u64s(spaced(xs), xs.len()) == xs,
    decreases xs.len(),
{
    if xs.len() > 0 {
        let x = xs[0];
        let d = decimal(x as nat);
        let j = spaced(xs.skip(1));
        let s = spaced(xs);
        lemma_decimal(x as nat);
        assert(s =~= d + seq![32u8] + j);
        assert(!is_ws(s[0]));
        assert(span(s, ws()) == 0);
        assert(after_ws(s) =~= s);
        assert forall|i: int| 0 <= i < d.len() implies #[trigger] is_digit(s[i]) by {
            assert(s[i] == d[i]);
        }
        assert(s[d.len() as int] == 32u8);
        lemma_span_unique(s, digit(), d.len());
        assert(digit_run(s) =~= d);
        vstd::arithmetic::div_mod::lemma_small_mod(x as nat, m64());
        assert(uint64_of(s) == x);
        let t = seq![32u8] + j;
        assert(after_uint(s) =~= t);
        lemma_u64_round_trip(xs.skip(1));
        if xs.len() > 1 {
            let y = xs.skip(1)[0];
            lemma_decimal(y as nat);
            assert(j[0] == decimal(y as nat)[0]);
        }
        lemma_skip_space(j, (xs.len() - 1) as nat);
        assert(decode_u64s(s, xs.len()) =~= seq![x] + decode_u64s(j, (xs.len() - 1) as nat));
        assert(xs =~= seq![x] + xs.skip(1));
    }
}

/// A run of exactly eight digits ended by a non-digit, which the decoder takes as one full
/// batch, decodes to the value that reading its digits one at a time gives, and the decoder
/// stops at the non-digit.
pub proof fn lemma_full_batch(s: Seq<u8>)
    requires
        s.len() > 8,
        forall|i: int| 0 <= i < 8 ==> is_digit(#[trigger] s[i]),
        !is_digit(s[8]),
    ensures
        uint64_of(s) == digits_value(s.take(8)),
        after_uint(s) == s.skip(8),
{
    assert(!is_ws(s[0]));
    assert(span(s, ws()) == 0);
    assert(after_ws(s) =~= s);
    lemma_span_unique(s, digit(), 8);
    lemma_eight_digits_fit(s.take(8));
    vstd::arithmetic::div_mod::lemma_small_mod(digits_value(s.take(8)), m64());
}

/// Eight digits spell a value below 10^8.
proof fn lemma_eight_digits_fit(t: Seq<u8>)
    requires
        t.len() <= 8,
        forall|i: int| 0 <= i < t.len() ==> is_digit(#[trigger] t[i]),
    ensures
        digits_value(t) < pow10(t.len()),
        pow10(t.len()) <= 100_000_000,
    decreases t.len(),
{
    if t.len() > 0 {
        let u = t.drop_last();
        assert forall|i: int| 0 <= i < u.len() implies is_digit(#[trigger] u[i]) by {
            assert(u[i] == t[i]);
        }
        lemma_eight_digits_fit(u);
        lemma_pow10_mono(u.len());
        let d = (t.last() - 48) as nat;
        assert(is_digit(t[t.len() - 1]));
        assert(digits_value(u) * 10 + d < pow10(u.len()) * 10) by (nonlinear_arith)
            requires digits_value(u) < pow10(u.len()), d < 10;
    }
}

/// A space before spaced numbers changes nothing that decoding them gives.
proof fn lemma_skip_space(j: Seq<u8>, k: nat)
    requires
        j.len() == 0 || is_digit(j[0]),
    ensures
        decode_u64s(seq![32u8] + j, k) == decode_u64s(j, k),
{
    let t = seq![32u8] + j;
    assert(t.skip(1) =~= j);
    if j.len() == 0 {
        assert(span(j, ws()) == 0);
    } else {
        assert(!is_ws(j[0]));
        assert(span(j, ws()) == 0);
    }
    assert(span(t, ws()) == 1);
    assert(after_ws(t) =~= after_ws(j));
    if k > 0 {
        assert(decode_u64s(t, k) =~= decode_u64s(j, k));
    }
}

/// A line ended by a carriage return and a line feed reads without either; one ended by a
/// line feed alone keeps all its bytes, trailing whitespace other than a carriage return
/// included.
pub proof fn lemma_line_trims_cr(t: Seq<u8>, rest: Seq<u8>)
    requires
        forall|i: int| 0 <= i < t.len() ==> #[trigger] t[i] != 10,
    ensures
        line_of(t + seq![13u8, 10u8] + rest) == t,
        t.len() == 0 || t.last() != 13 ==> line_of(t + seq![10u8] + rest) == t,
{
    let s = t + seq![13u8, 10u8] + rest;
    assert forall|i: int| 0 <= i < t.len() + 1 implies (#[trigger] not_byte(10)(s[i])) by {
        if i < t.len() {
            assert(s[i] == t[i]);
        }
    }
    assert(s[t.len() + 1 as int] == 10);
    lemma_span_unique(s, not_byte(10), (t.len() + 1) as nat);
    assert(s.take(t.len() as int) =~= t);
    let u = t + seq![10u8] + rest;
    assert forall|i: int| 0 <= i < t.len() implies (#[trigger] not_byte(10)(u[i])) by {
        assert(u[i] == t[i]);
    }
    assert(u[t.len() as int] == 10);
    lemma_span_unique(u, not_byte(10), t.len());
    assert(u.take(t.len() as int) =~= t);
    if t.len() > 0 {
        assert(u[t.len() - 1] == t.last());
    }
}

} // verus!
