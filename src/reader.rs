//! The buffered reader: a fixed window over a byte source, and the token accessors.
use vstd::prelude::*;
use crate::lex::{
    after_delim, after_word, after_ws, digit, digits_value, is_digit, is_ws, lemma_span,
    lemma_digits_concat, lemma_digits_push, lemma_pow10_mono, lemma_span_split,
    lemma_span_step, lemma_span_unique, lemma_wrap_add, lemma_wrap_fold, line_of, digit_run, m64, pow10,
    after_int, after_sign, after_uint, after_wide, int128_of, int64_of, lemma_wrap_add128, m128,
    negative, nibbles_value, uint128_of, uint64_of, wrap, non_ws, not_byte, span, word_of, ws,
};
use crate::text::{decode_text, push_text, utf8_text};
use crate::source::ByteSource;

verus! {

/// The smallest total buffer size a reader accepts: the longest readahead plus the sentinel tail.
pub const MIN_BUF_SIZE: usize = 72;

/// The buffer size for general use.
pub const DEFAULT_BUF_SIZE: usize = 65536;

/// The bytes at the end of the buffer that hold no data, kept for fixed-width reads.
pub const SENTINEL_LEN: usize = 8;

/// The most bytes of a token that a decimal number is read from.
pub const FLOAT_TOKEN_LEN: usize = 64;

/// A reader over the source `S`, with a buffer of `N` bytes.
///
/// The bytes `buf[off..len]` have been pulled from the source and not yet consumed;
/// `buf[len]` is always zero.
pub struct Reader<S, const N: usize> {
    buf: Vec<u8>,
    len: usize,
    off: usize,
    src: S,
}

/// `x` reduced to the signed range of `m` values.
fn narrow_signed(x: u64, m: u64) -> (r: i64)
    requires
        2 <= m <= 0x1_0000_0000,
        m % 2 == 0,
    ensures
        r == wrap(x as int, m as int),
        -(m as int) / 2 <= r < (m as int) / 2,
{
    let low = x % m;
    if low >= m / 2 {
        low as i64 - m as i64
    } else {
        low as i64
    }
}

/// The signed 64-bit integer with the bits of `x`.
fn signed_of_u64(x: u64) -> (r: i64)
    ensures
        r == wrap(x as int, m64() as int),
{
    proof {
        vstd::arithmetic::div_mod::lemma_small_mod(x as nat, m64());
    }
    if x > i64::MAX as u64 {
        (x as i128 - 0x1_0000_0000_0000_0000i128) as i64
    } else {
        x as i64
    }
}

/// The signed 128-bit integer with the bits of `x`.
fn signed_of_u128(x: u128) -> (r: i128)
    ensures
        r == wrap(x as int, m128() as int),
{
    proof {
        vstd::arithmetic::div_mod::lemma_small_mod(x as nat, m128());
    }
    if x > i128::MAX as u128 {
        let neg = u128::MAX - x;
        -(neg as i128) - 1
    } else {
        x as i128
    }
}

impl<S: ByteSource, const N: usize> Reader<S, N> {
    pub closed spec fn wf(&self) -> bool {
        &&& N >= MIN_BUF_SIZE
        &&& self.buf@.len() == N
        &&& self.off <= self.len
        &&& self.len <= N - SENTINEL_LEN
        &&& self.buf@[self.len as int] == 0
    }

    /// The bytes that have been pulled from the source and not yet consumed.
    pub closed spec fn window(&self) -> Seq<u8> {
        self.buf@.subrange(self.off as int, self.len as int)
    }

    /// Every byte that the reader has yet to hand out, buffered or not.
    pub closed spec fn stream(&self) -> Seq<u8> {
        self.window() + self.src.rest()
    }

    /// A reader with an empty buffer over `src`.
    pub fn new(src: S) -> (r: Self)
        requires
            N >= MIN_BUF_SIZE,
        ensures
            r.wf(),
            r.stream() == src.rest(),
            r.window().len() == 0,
    {
        let buf: Vec<u8> = vec![0u8; N];
        let r = Reader { buf, len: 0, off: 0, src };
        assert(r.window() =~= Seq::empty());
        assert(r.stream() =~= src.rest());
        r
    }

    /// Makes sure that `readahead` bytes are buffered where the source still has them,
    /// unless a whitespace byte is already buffered; reads from the source at most once.
    /// Returns the number of buffered bytes.
    pub fn try_refill(&mut self, readahead: usize) -> (r: usize)
        requires
            old(self).wf(),
            readahead <= N - SENTINEL_LEN,
        ensures
            final(self).wf(),
            final(self).stream() == old(self).stream(),
            r == final(self).window().len(),
            r >= old(self).window().len(),
            old(self).window().len() >= readahead ==> *final(self) == *old(self),
            readahead > 0 ==> (r == 0 <==> old(self).stream().len() == 0),
    {
        if readahead <= self.len - self.off {
            return self.len - self.off;
        }
        let ghost w0 = self.window();
        let ghost rest0 = self.src.rest();
        if readahead > N - SENTINEL_LEN - self.off {
            self.compact();
        }
        assert(self.window() == w0);
        let mut pos: usize = self.off;
        while pos < self.len
            invariant
                self.wf(),
                self.off <= pos <= self.len,
                forall|j: int| self.off <= j < pos ==> !is_ws(#[trigger] self.buf@[j]),
                self.window() == w0,
                self.src.rest() == rest0,
            decreases self.len - pos,
        {
            if self.buf[pos] <= 32 {
                break;
            }
            pos += 1;
        }
        if pos == self.len {
            let got = self.src.read(N - SENTINEL_LEN - self.len);
            self.append(&got);
            assert(rest0 =~= got@ + self.src.rest());
            assert(self.window() =~= w0 + got@);
            assert(self.stream() =~= w0 + rest0);
        }
        let ghost w1 = self.window();
        self.buf.set(self.len, 0);
        assert(self.window() =~= w1);
        self.len - self.off
    }

    /// Makes a byte available at the cursor when the stream has one.
    fn fill(&mut self) -> (r: bool)
        requires
            old(self).wf(),
        ensures
            final(self).wf(),
            final(self).stream() == old(self).stream(),
            r == (old(self).stream().len() > 0),
            r ==> final(self).off < final(self).len,
    {
        if self.off == self.len {
            self.try_refill(1) != 0
        } else {
            true
        }
    }

    /// The byte at the cursor, when one is buffered.
    fn peek(&self) -> (r: u8)
        requires
            self.wf(),
            self.off < self.len,
        ensures
            r == self.stream()[0],
    {
        self.buf[self.off]
    }

    /// Moves the cursor past one buffered byte.
    fn bump(&mut self)
        requires
            old(self).wf(),
            old(self).off < old(self).len,
        ensures
            final(self).wf(),
            final(self).stream() == old(self).stream().skip(1),
            final(self).window() == old(self).window().skip(1),
            final(self).len == old(self).len,
    {
        let ghost w = self.window();
        self.off += 1;
        assert(self.window() =~= w.skip(1));
        assert(self.stream() =~= old(self).stream().skip(1));
    }

    /// Consumes up to `bytes` bytes and returns how many it consumed.
    pub fn try_consume(&mut self, bytes: usize) -> (r: usize)
        requires
            old(self).wf(),
        ensures
            final(self).wf(),
            r == if bytes <= old(self).stream().len() { bytes as int } else { old(self).stream().len() as int },
            final(self).stream() == old(self).stream().skip(r as int),
    {
        let ghost s0 = self.stream();
        let mut consumed: usize = 0;
        while consumed < bytes
            invariant
                self.wf(),
                consumed <= bytes,
                consumed <= s0.len(),
                self.stream() == s0.skip(consumed as int),
            ensures
                consumed == bytes || self.stream().len() == 0,
            decreases bytes - consumed,
        {
            if !self.fill() {
                break;
            }
            let avail = self.len - self.off;
            let delta = if avail < bytes - consumed { avail } else { bytes - consumed };
            let ghost st = self.stream();
            let ghost w = self.window();
            self.off += delta;
            assert(self.window() =~= w.skip(delta as int));
            assert(self.stream() =~= st.skip(delta as int));
            assert(self.stream() =~= s0.skip(consumed + delta));
            consumed += delta;
        }
        consumed
    }

    /// Skips whitespace at the cursor.
    fn skip_ws(&mut self)
        requires
            old(self).wf(),
        ensures
            final(self).wf(),
            final(self).stream() == old(self).stream().skip(span(old(self).stream(), ws()) as int),
    {
        let ghost s0 = self.stream();
        let ghost mut n: nat = 0;
        loop
            invariant
                self.wf(),
                n + span(self.stream(), ws()) == span(s0, ws()),
                n <= s0.len(),
                self.stream() == s0.skip(n as int),
            ensures
                span(self.stream(), ws()) == 0,
            decreases self.stream().len(),
        {
            if !self.fill() || self.peek() > 32 {
                break;
            }
            let ghost st = self.stream();
            self.bump();
            proof {
                lemma_span_step(st, ws());
                assert(self.stream() =~= s0.skip(n + 1 as int));
                n = n + 1;
            }
        }
    }

    /// Skips whitespace at the cursor and returns how many bytes it skipped.
    pub fn skip_whitespace(&mut self) -> (r: usize)
        requires
            old(self).wf(),
            old(self).stream().len() <= usize::MAX,
        ensures
            final(self).wf(),
            r == span(old(self).stream(), ws()),
            final(self).stream() == old(self).stream().skip(r as int),
    {
        let ghost s0 = self.stream();
        let mut n: usize = 0;
        loop
            invariant
                self.wf(),
                n + span(self.stream(), ws()) == span(s0, ws()),
                n <= s0.len() <= usize::MAX,
                self.stream() == s0.skip(n as int),
            ensures
                span(self.stream(), ws()) == 0,
            decreases self.stream().len(),
        {
            if !self.fill() || self.peek() > 32 {
                break;
            }
            let ghost st = self.stream();
            self.bump();
            proof {
                lemma_span_step(st, ws());
                assert(self.stream() =~= s0.skip(n + 1 as int));
            }
            n += 1;
        }
        n
    }

    /// Skips the bytes up to the next whitespace and returns how many it skipped.
    pub fn skip_until_whitespace(&mut self) -> (r: usize)
        requires
            old(self).wf(),
            old(self).stream().len() <= usize::MAX,
        ensures
            final(self).wf(),
            r == span(old(self).stream(), non_ws()),
            final(self).stream() == old(self).stream().skip(r as int),
    {
        let ghost s0 = self.stream();
        let mut n: usize = 0;
        loop
            invariant
                self.wf(),
                n + span(self.stream(), non_ws()) == span(s0, non_ws()),
                n <= s0.len() <= usize::MAX,
                self.stream() == s0.skip(n as int),
            ensures
                span(self.stream(), non_ws()) == 0,
            decreases self.stream().len(),
        {
            if !self.fill() || self.peek() <= 32 {
                break;
            }
            let ghost st = self.stream();
            self.bump();
            proof {
                lemma_span_step(st, non_ws());
                assert(self.stream() =~= s0.skip(n + 1 as int));
            }
            n += 1;
        }
        n
    }

    /// The bytes before the next `delim`, consuming them and the `delim`; the second result
    /// tells whether a `delim` was found.
    fn take_until(&mut self, delim: u8) -> (r: (Vec<u8>, bool))
        requires
            old(self).wf(),
        ensures
            final(self).wf(),
            r.0@ == old(self).stream().take(span(old(self).stream(), not_byte(delim)) as int),
            r.0@.len() == span(old(self).stream(), not_byte(delim)),
            r.1 == (span(old(self).stream(), not_byte(delim)) < old(self).stream().len()),
            final(self).stream() == after_delim(old(self).stream(), delim),
    {
        let ghost s0 = self.stream();
        let mut out: Vec<u8> = Vec::new();
        let mut found = false;
        loop
            invariant_except_break
                !found,
            invariant
                self.wf(),
                out@.len() + span(self.stream(), not_byte(delim)) == span(s0, not_byte(delim)),
                out@.len() <= s0.len(),
                out@ == s0.take(out@.len() as int),
                self.stream() == s0.skip(out@.len() as int),
            ensures
                out@.len() + span(self.stream(), not_byte(delim)) == span(s0, not_byte(delim)),
                out@.len() <= s0.len(),
                out@ == s0.take(out@.len() as int),
                span(self.stream(), not_byte(delim)) == 0,
                found == (self.stream().len() > 0),
                found ==> self.stream()[0] == delim && self.off < self.len,
                !found ==> self.stream() == s0.skip(out@.len() as int),
                found ==> self.stream() == s0.skip(out@.len() as int),
            decreases self.stream().len(),
        {
            if !self.fill() {
                break;
            }
            let b = self.peek();
            if b == delim {
                found = true;
                break;
            }
            let ghost st = self.stream();
            self.bump();
            out.push(b);
            proof {
                lemma_span_step(st, not_byte(delim));
                assert(self.stream() =~= s0.skip(out@.len() as int));
                assert(out@ =~= s0.take(out@.len() as int));
            }
        }
        proof {
            lemma_span(s0, not_byte(delim));
        }
        if found {
            self.bump();
            assert(self.stream() =~= s0.skip(out@.len() + 1 as int));
        }
        (out, found)
    }

    /// Skips the bytes before the next `delim`, and that `delim`; returns how many bytes
    /// it skipped before the `delim`.
    pub fn discard(&mut self, delim: u8) -> (r: usize)
        requires
            old(self).wf(),
            old(self).stream().len() <= usize::MAX,
        ensures
            final(self).wf(),
            r == span(old(self).stream(), not_byte(delim)),
            final(self).stream() == after_delim(old(self).stream(), delim),
    {
        let ghost s0 = self.stream();
        let mut n: usize = 0;
        loop
            invariant
                self.wf(),
                n + span(self.stream(), not_byte(delim)) == span(s0, not_byte(delim)),
                n <= s0.len() <= usize::MAX,
                self.stream() == s0.skip(n as int),
            ensures
                span(self.stream(), not_byte(delim)) == 0,
            decreases self.stream().len(),
        {
            if !self.fill() || self.peek() == delim {
                break;
            }
            let ghost st = self.stream();
            self.bump();
            proof {
                lemma_span_step(st, not_byte(delim));
                assert(self.stream() =~= s0.skip(n + 1 as int));
            }
            n += 1;
        }
        proof {
            lemma_span(s0, not_byte(delim));
        }
        if self.fill() {
            self.bump();
            assert(self.stream() =~= s0.skip(n + 1 as int));
        }
        n
    }

    /// Appends to `buf` the text of the bytes before the next `delim`, consuming them and
    /// the `delim`; returns how many bytes came before the `delim`.
    pub fn until(&mut self, delim: u8, buf: &mut String) -> (r: usize)
        requires
            old(self).wf(),
        ensures
            final(self).wf(),
            r == span(old(self).stream(), not_byte(delim)),
            final(buf)@ == old(buf)@ + utf8_text(old(self).stream().take(r as int)),
            final(self).stream() == after_delim(old(self).stream(), delim),
    {
        let (bytes, _found) = self.take_until(delim);
        let t = decode_text(&bytes);
        push_text(buf, &t);
        bytes.len()
    }

    /// The bytes of the next line, consumed with its line feed; a carriage return just before
    /// the line feed is left out.
    pub fn line_bytes(&mut self) -> (r: Vec<u8>)
        requires
            old(self).wf(),
        ensures
            final(self).wf(),
            r@ == line_of(old(self).stream()),
            final(self).stream() == after_delim(old(self).stream(), 10),
    {
        let ghost s0 = self.stream();
        let (mut bytes, found) = self.take_until(10);
        let n = bytes.len();
        if found && n > 0 && bytes[n - 1] == 13 {
            bytes.pop();
            assert(bytes@ =~= s0.take(n - 1));
        }
        bytes
    }

    /// Appends the text of the next line to `buf`, as `line_bytes` delimits it.
    pub fn line_to_string(&mut self, buf: &mut String)
        requires
            old(self).wf(),
        ensures
            final(self).wf(),
            final(buf)@ == old(buf)@ + utf8_text(line_of(old(self).stream())),
            final(self).stream() == after_delim(old(self).stream(), 10),
    {
        let bytes = self.line_bytes();
        let t = decode_text(&bytes);
        push_text(buf, &t);
    }

    /// The text of the next line, as `line_bytes` delimits it.
    pub fn line(&mut self) -> (r: String)
        requires
            old(self).wf(),
        ensures
            final(self).wf(),
            r@ == utf8_text(line_of(old(self).stream())),
            final(self).stream() == after_delim(old(self).stream(), 10),
    {
        let bytes = self.line_bytes();
        decode_text(&bytes)
    }

    /// The bytes of the next token, consumed with the whitespace before it.
    pub fn word_bytes(&mut self) -> (r: Vec<u8>)
        requires
            old(self).wf(),
        ensures
            final(self).wf(),
            r@ == word_of(old(self).stream()),
            final(self).stream() == after_word(old(self).stream()),
    {
        let ghost s0 = self.stream();
        self.skip_ws();
        let ghost a = self.stream();
        let mut out: Vec<u8> = Vec::new();
        loop
            invariant
                self.wf(),
                a == after_ws(s0),
                out@.len() + span(self.stream(), non_ws()) == span(a, non_ws()),
                out@.len() <= a.len(),
                out@ == a.take(out@.len() as int),
                self.stream() == a.skip(out@.len() as int),
            ensures
                span(self.stream(), non_ws()) == 0,
            decreases self.stream().len(),
        {
            if !self.fill() {
                break;
            }
            let b = self.peek();
            if b <= 32 {
                break;
            }
            let ghost st = self.stream();
            self.bump();
            out.push(b);
            proof {
                lemma_span_step(st, non_ws());
                assert(self.stream() =~= a.skip(out@.len() as int));
                assert(out@ =~= a.take(out@.len() as int));
            }
        }
        out
    }

    /// Appends the text of the next token to `buf`, skipping the whitespace before it.
    pub fn word_to_string(&mut self, buf: &mut String)
        requires
            old(self).wf(),
        ensures
            final(self).wf(),
            final(buf)@ == old(buf)@ + utf8_text(word_of(old(self).stream())),
            final(self).stream() == after_word(old(self).stream()),
    {
        let bytes = self.word_bytes();
        let t = decode_text(&bytes);
        push_text(buf, &t);
    }

    /// The text of the next token, skipping the whitespace before it.
    pub fn word(&mut self) -> (r: String)
        requires
            old(self).wf(),
        ensures
            final(self).wf(),
            r@ == utf8_text(word_of(old(self).stream())),
            final(self).stream() == after_word(old(self).stream()),
    {
        let bytes = self.word_bytes();
        decode_text(&bytes)
    }

    /// Reads the digits at the cursor, at most eight of them, without moving the cursor:
    /// their count, their value, and ten to the power of their count.
    ///
    /// The zero byte after the buffered data ends every run, so the scan needs no other bound.
    fn digit_batch(&self) -> (r: (usize, u64, u64))
        requires
            self.wf(),
        ensures
            r.0 <= 8,
            r.0 <= self.window().len(),
            forall|j: int| 0 <= j < r.0 ==> is_digit(#[trigger] self.window()[j]),
            r.0 < 8 ==> r.0 == span(self.window(), digit()),
            r.1 == digits_value(self.window().take(r.0 as int)),
            r.2 == pow10(r.0 as nat),
    {
        let ghost w = self.window();
        let mut i: usize = 0;
        let mut v: u64 = 0;
        let mut p: u64 = 1;
        while i < 8
            invariant
                self.wf(),
                w == self.window(),
                i <= 8,
                self.off + i <= self.len,
                forall|j: int| 0 <= j < i ==> is_digit(#[trigger] w[j]),
                v == digits_value(w.take(i as int)),
                p == pow10(i as nat),
                v < p,
                p <= 100_000_000,
            ensures
                i <= 8,
                self.off + i <= self.len,
                forall|j: int| 0 <= j < i ==> is_digit(#[trigger] w[j]),
                v == digits_value(w.take(i as int)),
                p == pow10(i as nat),
                i < 8 ==> (self.off + i == self.len || !is_digit(w[i as int])),
            decreases 8 - i,
        {
            let b = self.buf[self.off + i];
            if b < 48 || b > 57 {
                break;
            }
            proof {
                assert(w[i as int] == b);
                assert(w.take(i + 1 as int) =~= w.take(i as int).push(b));
                lemma_digits_push(w.take(i as int), b);
                assert(v * 10 + (b - 48) < p * 10) by (nonlinear_arith)
                    requires v < p, b - 48 < 10;
                assert(i < 8 ==> p * 10 <= 100_000_000) by {
                    if i < 8 {
                        lemma_pow10_mono(i as nat);
                    }
                };
            }
            v = v * 10 + (b - 48) as u64;
            p = p * 10;
            i += 1;
        }
        proof {
            if i < 8 {
                lemma_span_unique(w, digit(), i as nat);
            }
        }
        (i, v, p)
    }

    /// Decodes the run of digits at the cursor, eight at a time, modulo 2^64.
    fn noskip_u64(&mut self) -> (r: u64)
        requires
            old(self).wf(),
        ensures
            final(self).wf(),
            r == digits_value(digit_run(old(self).stream())) % m64(),
            final(self).stream() == old(self).stream().skip(span(old(self).stream(), digit()) as int),
    {
        let ghost s0 = self.stream();
        let ghost mut c: nat = 0;
        let mut out: u64 = 0;
        assert(digits_value(s0.take(0)) == 0);
        loop
            invariant
                self.wf(),
                c <= s0.len(),
                c + span(self.stream(), digit()) == span(s0, digit()),
                self.stream() == s0.skip(c as int),
                forall|j: int| 0 <= j < c ==> is_digit(#[trigger] s0[j]),
                out == digits_value(s0.take(c as int)) % m64(),
            ensures
                span(self.stream(), digit()) == 0,
            decreases self.stream().len(),
        {
            if !self.fill() {
                break;
            }
            let (n, v, p) = self.digit_batch();
            if n == 0 {
                proof {
                    lemma_span(self.window(), digit());
                    assert(self.stream()[0] == self.window()[0]);
                }
                break;
            }
            let ghost st = self.stream();
            let ghost w = self.window();
            proof {
                assert(w.take(n as int) =~= st.take(n as int));
                assert forall|j: int| 0 <= j < n implies is_digit(#[trigger] st[j]) by {
                    assert(st[j] == w[j]);
                }
                lemma_span_split(st, digit(), n as nat);
                assert(st.skip(n as int) =~= s0.skip(c + n));
                assert(s0.take(c + n) =~= s0.take(c as int) + st.take(n as int));
                lemma_digits_concat(s0.take(c as int), st.take(n as int));
                lemma_wrap_fold(out as int, digits_value(s0.take(c as int)) as int, p as int, v as int, m64() as int);
                assert forall|j: int| 0 <= j < c + n implies is_digit(#[trigger] s0[j]) by {
                    if j >= c {
                        assert(s0[j] == st[j - c]);
                    }
                }
            }
            let prod = out.wrapping_mul(p);
            proof {
                lemma_wrap_add(prod, v);
            }
            out = prod.wrapping_add(v);
            self.off += n;
            proof {
                assert(self.window() =~= w.skip(n as int));
                assert(self.stream() =~= st.skip(n as int));
                c = (c + n) as nat;
            }
        }
        proof {
            lemma_span_split(s0, digit(), c);
            assert(s0.take(c as int) =~= digit_run(s0));
        }
        out
    }

    /// Decodes the token at the cursor digit by digit, taking each byte's low four bits,
    /// modulo 2^128.
    fn noskip_u128(&mut self) -> (r: u128)
        requires
            old(self).wf(),
        ensures
            final(self).wf(),
            r == nibbles_value(old(self).stream().take(span(old(self).stream(), non_ws()) as int))
                % m128(),
            final(self).stream() == old(self).stream().skip(span(old(self).stream(), non_ws()) as int),
    {
        let ghost s0 = self.stream();
        let ghost mut c: nat = 0;
        let mut n: u128 = 0;
        assert(nibbles_value(s0.take(0)) == 0);
        loop
            invariant
                self.wf(),
                c <= s0.len(),
                c + span(self.stream(), non_ws()) == span(s0, non_ws()),
                self.stream() == s0.skip(c as int),
                n == nibbles_value(s0.take(c as int)) % m128(),
            ensures
                span(self.stream(), non_ws()) == 0,
            decreases self.stream().len(),
        {
            if !self.fill() {
                break;
            }
            let b = self.peek();
            if b <= 32 {
                break;
            }
            let ghost st = self.stream();
            proof {
                lemma_span_step(st, non_ws());
                assert(s0.take(c + 1 as int).drop_last() =~= s0.take(c as int));
                assert(s0[c as int] == b);
                lemma_wrap_fold(n as int, nibbles_value(s0.take(c as int)) as int, 10, (b & 15u8) as int, m128() as int);
            }
            let prod = n.wrapping_mul(10);
            let nib = (b & 15u8) as u128;
            proof {
                lemma_wrap_add128(prod, nib);
            }
            n = prod.wrapping_add(nib);
            self.bump();
            proof {
                assert(self.stream() =~= s0.skip(c + 1 as int));
                c = c + 1;
            }
        }
        proof {
            assert(s0.take(c as int) =~= s0.take(span(s0, non_ws()) as int));
        }
        n
    }

    /// Skips whitespace and a minus sign after it; tells whether there was one.
    fn sign(&mut self) -> (r: bool)
        requires
            old(self).wf(),
        ensures
            final(self).wf(),
            r == negative(old(self).stream()),
            final(self).stream() == after_sign(old(self).stream()),
    {
        self.skip_ws();
        if self.fill() && self.peek() == 45 {
            self.bump();
            true
        } else {
            false
        }
    }

    /// The next integer as 64 bits, negated in two's complement after a minus sign.
    fn signed64(&mut self) -> (r: u64)
        requires
            old(self).wf(),
        ensures
            final(self).wf(),
            r == int64_of(old(self).stream()),
            final(self).stream() == after_int(old(self).stream()),
    {
        let neg = self.sign();
        let m = self.noskip_u64();
        if neg {
            proof {
                if m > 0 {
                    vstd::arithmetic::div_mod::lemma_small_mod((m64() - m) as nat, m64());
                }
            }
            0u64.wrapping_sub(m)
        } else {
            m
        }
    }

    /// The next integer as 128 bits, negated in two's complement after a minus sign.
    fn signed128(&mut self) -> (r: u128)
        requires
            old(self).wf(),
        ensures
            final(self).wf(),
            r == int128_of(old(self).stream()),
            final(self).stream() == after_wide(old(self).stream()),
    {
        let neg = self.sign();
        let m = self.noskip_u128();
        if neg {
            proof {
                if m > 0 {
                    vstd::arithmetic::div_mod::lemma_small_mod((m128() - m) as nat, m128());
                }
            }
            0u128.wrapping_sub(m)
        } else {
            m
        }
    }

    /// The next unsigned integer modulo 2^64, after the whitespace before it.
    fn unsigned64(&mut self) -> (r: u64)
        requires
            old(self).wf(),
        ensures
            final(self).wf(),
            r == uint64_of(old(self).stream()),
            final(self).stream() == after_uint(old(self).stream()),
    {
        self.skip_ws();
        self.noskip_u64()
    }

    /// The next integer, truncated to 8 bits.
    pub fn i8(&mut self) -> (r: i8)
        requires
            old(self).wf(),
        ensures
            final(self).wf(),
            r as int == wrap(int64_of(old(self).stream()) as int, 256),
            final(self).stream() == after_int(old(self).stream()),
    {
        let x = self.signed64();
        narrow_signed(x, 256) as i8
    }

    /// The next unsigned integer, truncated to 8 bits.
    pub fn u8(&mut self) -> (r: u8)
        requires
            old(self).wf(),
        ensures
            final(self).wf(),
            r as int == uint64_of(old(self).stream()) as int % 256,
            final(self).stream() == after_uint(old(self).stream()),
    {
        let x = self.unsigned64();
        (x % 256) as u8
    }

    /// The next integer, truncated to 16 bits.
    pub fn i16(&mut self) -> (r: i16)
        requires
            old(self).wf(),
        ensures
            final(self).wf(),
            r as int == wrap(int64_of(old(self).stream()) as int, 65536),
            final(self).stream() == after_int(old(self).stream()),
    {
        let x = self.signed64();
        narrow_signed(x, 65536) as i16
    }

    /// The next unsigned integer, truncated to 16 bits.
    pub fn u16(&mut self) -> (r: u16)
        requires
            old(self).wf(),
        ensures
            final(self).wf(),
            r as int == uint64_of(old(self).stream()) as int % 65536,
            final(self).stream() == after_uint(old(self).stream()),
    {
        let x = self.unsigned64();
        (x % 65536) as u16
    }

    /// The next integer, truncated to 32 bits.
    pub fn i32(&mut self) -> (r: i32)
        requires
            old(self).wf(),
        ensures
            final(self).wf(),
            r as int == wrap(int64_of(old(self).stream()) as int, 0x1_0000_0000),
            final(self).stream() == after_int(old(self).stream()),
    {
        let x = self.signed64();
        narrow_signed(x, 0x1_0000_0000) as i32
    }

    /// The next unsigned integer, truncated to 32 bits.
    pub fn u32(&mut self) -> (r: u32)
        requires
            old(self).wf(),
        ensures
            final(self).wf(),
            r as int == uint64_of(old(self).stream()) as int % 0x1_0000_0000,
            final(self).stream() == after_uint(old(self).stream()),
    {
        let x = self.unsigned64();
        (x % 0x1_0000_0000) as u32
    }

    /// The next integer as 64 bits.
    pub fn i64(&mut self) -> (r: i64)
        requires
            old(self).wf(),
        ensures
            final(self).wf(),
            r as int == wrap(int64_of(old(self).stream()) as int, m64() as int),
            final(self).stream() == after_int(old(self).stream()),
    {
        let x = self.signed64();
        signed_of_u64(x)
    }

    /// The next unsigned integer modulo 2^64.
    pub fn u64(&mut self) -> (r: u64)
        requires
            old(self).wf(),
        ensures
            final(self).wf(),
            r == uint64_of(old(self).stream()),
            final(self).stream() == after_uint(old(self).stream()),
    {
        self.unsigned64()
    }

    /// The next integer as 128 bits, read digit by digit up to the next whitespace.
    pub fn i128(&mut self) -> (r: i128)
        requires
            old(self).wf(),
        ensures
            final(self).wf(),
            r as int == wrap(int128_of(old(self).stream()) as int, m128() as int),
            final(self).stream() == after_wide(old(self).stream()),
    {
        let x = self.signed128();
        signed_of_u128(x)
    }

    /// The next unsigned integer modulo 2^128, read digit by digit up to the next whitespace.
    pub fn u128(&mut self) -> (r: u128)
        requires
            old(self).wf(),
        ensures
            final(self).wf(),
            r == uint128_of(old(self).stream()),
            final(self).stream() == after_word(old(self).stream()),
    {
        self.skip_ws();
        self.noskip_u128()
    }

    /// The next integer, truncated to the width of a pointer.
    pub fn isize(&mut self) -> (r: isize)
        requires
            old(self).wf(),
        ensures
            final(self).wf(),
            r as int == wrap(int64_of(old(self).stream()) as int, usize::MAX as int + 1),
            final(self).stream() == after_int(old(self).stream()),
    {
        let x = self.signed64();
        if usize::MAX as u64 == u64::MAX {
            let v = signed_of_u64(x);
            v as isize
        } else {
            let v = narrow_signed(x, usize::MAX as u64 + 1);
            v as isize
        }
    }

    /// The next unsigned integer, truncated to the width of a pointer.
    pub fn usize(&mut self) -> (r: usize)
        requires
            old(self).wf(),
        ensures
            final(self).wf(),
            r as int == uint64_of(old(self).stream()) as int % (usize::MAX as int + 1),
            final(self).stream() == after_uint(old(self).stream()),
    {
        let x = self.unsigned64();
        if x <= usize::MAX as u64 {
            proof {
                vstd::arithmetic::div_mod::lemma_small_mod(x as nat, usize::MAX as nat + 1);
            }
            x as usize
        } else {
            (x % (usize::MAX as u64 + 1)) as usize
        }
    }

    /// The next byte, whitespace or not; zero when the stream is exhausted.
    pub fn ascii(&mut self) -> (r: u8)
        requires
            old(self).wf(),
        ensures
            final(self).wf(),
            old(self).stream().len() > 0 ==> r == old(self).stream()[0]
                && final(self).stream() == old(self).stream().skip(1),
            old(self).stream().len() == 0 ==> r == 0 && final(self).stream() == old(self).stream(),
    {
        if self.fill() {
            let b = self.peek();
            self.bump();
            b
        } else {
            0
        }
    }

    /// Whether the stream is exhausted; consumes nothing, so once it answers true it answers
    /// true again on every later call.
    pub fn is_eof(&mut self) -> (r: bool)
        requires
            old(self).wf(),
        ensures
            final(self).wf(),
            r == (old(self).stream().len() == 0),
            final(self).stream() == old(self).stream(),
    {
        !self.fill()
    }

    /// Skips whitespace, then tells whether the stream is exhausted.
    pub fn is_eof_skip_whitespace(&mut self) -> (r: bool)
        requires
            old(self).wf(),
        ensures
            final(self).wf(),
            r == (after_ws(old(self).stream()).len() == 0),
            final(self).stream() == after_ws(old(self).stream()),
    {
        self.skip_ws();
        !self.fill()
    }

    /// The buffered bytes that have not been consumed.
    pub fn remain(&self) -> (r: &[u8])
        requires
            self.wf(),
        ensures
            r@ == self.window(),
            self.window().len() <= self.stream().len(),
            r@ == self.stream().take(r@.len() as int),
    {
        let all = self.buf.as_slice();
        let r = vstd::slice::slice_subrange(all, self.off, self.len);
        assert(self.stream().take(r@.len() as int) =~= self.window());
        r
    }

    /// Copies the next token into `buf`, at most as many bytes as `buf` holds, after skipping
    /// the whitespace before it; returns how many bytes it copied and consumes just those.
    pub fn word_buf(&mut self, buf: &mut [u8]) -> (r: usize)
        requires
            old(self).wf(),
        ensures
            final(self).wf(),
            r == if span(after_ws(old(self).stream()), non_ws()) <= old(buf)@.len() {
                span(after_ws(old(self).stream()), non_ws()) as int
            } else {
                old(buf)@.len() as int
            },
            final(buf)@ == after_ws(old(self).stream()).take(r as int) + old(buf)@.skip(r as int),
            final(self).stream() == after_ws(old(self).stream()).skip(r as int),
    {
        let ghost s0 = self.stream();
        let ghost b0 = buf@;
        self.skip_ws();
        let ghost a = self.stream();
        let cap = buf.len();
        let mut n: usize = 0;
        loop
            invariant
                self.wf(),
                a == after_ws(s0),
                cap == b0.len(),
                buf@.len() == cap,
                n <= cap,
                n + span(self.stream(), non_ws()) == span(a, non_ws()),
                n <= a.len(),
                buf@ == a.take(n as int) + b0.skip(n as int),
                self.stream() == a.skip(n as int),
            ensures
                n == cap || span(self.stream(), non_ws()) == 0,
            decreases cap - n,
        {
            if n == cap || !self.fill() {
                break;
            }
            let b = self.peek();
            if b <= 32 {
                break;
            }
            let ghost st = self.stream();
            self.bump();
            buf[n] = b;
            proof {
                lemma_span_step(st, non_ws());
                assert(self.stream() =~= a.skip(n + 1 as int));
                assert(buf@ =~= a.take(n + 1 as int) + b0.skip(n + 1 as int));
            }
            n += 1;
        }
        n
    }

    /// The bytes of the next token as far as a decimal number is read: at most its first
    /// `FLOAT_TOKEN_LEN` bytes. The whole token is consumed, with the whitespace before it.
    pub fn float_token(&mut self) -> (r: Vec<u8>)
        requires
            old(self).wf(),
        ensures
            final(self).wf(),
            r@ == if word_of(old(self).stream()).len() <= FLOAT_TOKEN_LEN {
                word_of(old(self).stream())
            } else {
                word_of(old(self).stream()).take(FLOAT_TOKEN_LEN as int)
            },
            final(self).stream() == after_word(old(self).stream()),
    {
        let mut bytes = self.word_bytes();
        if bytes.len() > FLOAT_TOKEN_LEN {
            bytes.truncate(FLOAT_TOKEN_LEN);
        }
        bytes
    }

    /// Moves the unconsumed bytes to the front of the buffer.
    fn compact(&mut self)
        requires
            old(self).wf(),
        ensures
            final(self).wf(),
            final(self).off == 0,
            final(self).window() == old(self).window(),
            final(self).src == old(self).src,
    {
        let ghost b0 = self.buf@;
        let off = self.off;
        let rem = self.len - off;
        let mut i: usize = 0;
        while i < rem
            invariant
                off == self.off,
                rem == self.len - off,
                self.off <= self.len <= N - SENTINEL_LEN,
                self.buf@.len() == N,
                b0.len() == N,
                i <= rem,
                forall|j: int| 0 <= j < i ==> #[trigger] self.buf@[j] == b0[off + j],
                forall|j: int| i <= j < N ==> #[trigger] self.buf@[j] == b0[j],
                self.src == old(self).src,
            decreases rem - i,
        {
            let b = self.buf[off + i];
            self.buf.set(i, b);
            i += 1;
        }
        self.len = rem;
        self.off = 0;
        self.buf.set(rem, 0);
        assert(self.window() =~= b0.subrange(off as int, off + rem));
    }

    /// Appends `got` after the buffered bytes.
    fn append(&mut self, got: &Vec<u8>)
        requires
            old(self).wf(),
            old(self).len + got@.len() <= N - SENTINEL_LEN,
        ensures
            final(self).off == old(self).off,
            final(self).len == old(self).len + got@.len(),
            final(self).buf@.len() == N,
            final(self).window() == old(self).window() + got@,
            final(self).src == old(self).src,
    {
        let ghost b0 = self.buf@;
        let ghost w0 = self.window();
        let start = self.len;
        let mut i: usize = 0;
        while i < got.len()
            invariant
                start == self.len,
                self.off <= self.len,
                start + got@.len() <= N - SENTINEL_LEN,
                self.buf@.len() == N,
                b0.len() == N,
                i <= got@.len(),
                forall|j: int| 0 <= j < start ==> #[trigger] self.buf@[j] == b0[j],
                forall|j: int| start <= j < start + i ==> #[trigger] self.buf@[j] == got@[j - start],
                self.src == old(self).src,
                self.off == old(self).off,
            decreases got@.len() - i,
        {
            self.buf.set(start + i, got[i]);
            i += 1;
        }
        self.len = start + got.len();
        assert(self.window() =~= w0 + got@);
    }
}

} // verus!
