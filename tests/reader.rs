use basm::reader::Reader;
use basm::source::SliceSource;

fn reader(input: &[u8]) -> Reader<SliceSource, 100> {
    Reader::new(SliceSource::new(input.to_vec()))
}

fn chunked(input: &[u8], chunk: usize) -> Reader<SliceSource, 100> {
    Reader::new(SliceSource::chunked(input.to_vec(), chunk))
}

fn float(r: &mut Reader<SliceSource, 100>) -> f64 {
    let t = r.float_token();
    if t.is_empty() {
        return f64::NAN;
    }
    std::str::from_utf8(&t).ok().and_then(|s| s.parse::<f64>().ok()).unwrap_or(f64::NAN)
}

#[test]
fn read_numbers() {
    let mut r = reader(b"1234 -56\n-9999.9999\n");
    assert_eq!(r.usize(), 1234);
    assert_eq!(r.i32(), -56);
    assert_eq!(float(&mut r), -9999.9999);
}

#[test]
fn read_scientifi_notation() {
    let mut r = reader(b"1e1\n1e-1\n");
    assert_eq!(float(&mut r), 10.0);
    assert_eq!(float(&mut r), 1e-1);
}

#[test]
fn read_word() {
    let mut r = reader(b"Hello World\nBye\n");
    let mut buf = [0u8; 100];
    let n = r.word_buf(&mut buf);
    assert_eq!(n, 5);
    assert_eq!(&buf[..n], b"Hello");
    let n = r.word_buf(&mut buf);
    assert_eq!(n, 5);
    assert_eq!(&buf[..n], b"World");
    let n = r.word_buf(&mut buf);
    assert_eq!(n, 3);
    assert_eq!(&buf[..n], b"Bye");
}

#[test]
fn next_until() {
    let mut r = reader(b"Hello World\nBye\n");
    let mut buf = [0u8; 100];
    let mut s = String::new();
    let n = r.until(b'\n', &mut s);
    assert_eq!(n, 11);
    assert_eq!(s, "Hello World");
    let n = r.word_buf(&mut buf);
    assert_eq!(n, 3);
    assert_eq!(&buf[..n], b"Bye");
}

#[test]
fn read_word_without_terminator() {
    let mut r = reader(b"no-terminator");
    let mut buf = [0u8; 100];
    let n = r.word_buf(&mut buf);
    assert_eq!(n, 13);
    assert_eq!(&buf[..n], b"no-terminator");
}

#[test]
fn read_word_multiple_space_in_between() {
    let mut r = reader(b"1 \n5");
    let mut buf = [0u8; 100];
    let n = r.word_buf(&mut buf);
    assert_eq!(n, 1);
    assert_eq!(&buf[..n], b"1");
    let n = r.word_buf(&mut buf);
    assert_eq!(n, 1);
    assert_eq!(&buf[..n], b"5");
}

#[test]
fn skip_white() {
    let mut r = reader(b" \t\x0b\n5\n");
    assert_eq!(r.skip_whitespace(), 4);
    assert_eq!(r.remain()[0], b'5');
    assert_eq!(r.usize(), 5);
}

#[test]
fn skip_until() {
    let mut r = reader(b"garbage,5\n");
    assert_eq!(r.discard(b','), b"garbage".len());
    assert_eq!(r.remain()[0], b'5');
    assert_eq!(r.usize(), 5);
}

#[test]
fn negative_in_every_signed_width() {
    assert_eq!(reader(b"-56").i8(), -56);
    assert_eq!(reader(b"-56").i16(), -56);
    assert_eq!(reader(b"-56").i32(), -56);
    assert_eq!(reader(b"-56").i64(), -56);
    assert_eq!(reader(b"-56").i128(), -56);
    assert_eq!(reader(b"-56").isize(), -56);
}

#[test]
fn unsigned_round_trip() {
    let xs: [u64; 7] = [0, 7, 10, 12345678, 123456789, 9876543210123, u64::MAX];
    let text: Vec<String> = xs.iter().map(|x| x.to_string()).collect();
    let input = text.join(" ") + "\n";
    let mut r = reader(input.as_bytes());
    for x in xs {
        assert_eq!(r.u64(), x);
    }
    assert!(r.is_eof_skip_whitespace());
}

#[test]
fn unsigned_round_trip_in_small_reads() {
    let xs: [u64; 5] = [18446744073709551615, 1, 100000000, 99999999, 42];
    let text: Vec<String> = xs.iter().map(|x| x.to_string()).collect();
    let input = text.join("\n");
    let mut r = chunked(input.as_bytes(), 3);
    for x in xs {
        assert_eq!(r.u64(), x);
    }
    assert!(r.is_eof());
}

#[test]
fn line_trims_carriage_return_only() {
    let mut r = reader(b"abc \r\nxyz\t\n\r\nlast");
    assert_eq!(r.line(), "abc ");
    assert_eq!(r.line(), "xyz\t");
    assert_eq!(r.line(), "");
    assert_eq!(r.line(), "last");
    assert_eq!(r.line(), "");
}

#[test]
fn line_split_across_reads() {
    let mut r = chunked(b"ab\r\ncd\r\n", 3);
    assert_eq!(r.line_bytes(), b"ab".to_vec());
    assert_eq!(r.line_bytes(), b"cd".to_vec());
    assert!(r.is_eof());
}

#[test]
fn eof_is_idempotent() {
    let mut r = reader(b"7");
    assert!(!r.is_eof());
    assert_eq!(r.u32(), 7);
    for _ in 0..5 {
        assert!(r.is_eof());
        assert!(r.remain().is_empty());
    }
    assert_eq!(r.ascii(), 0);
    assert!(r.is_eof());
}

#[test]
fn eof_skip_whitespace() {
    let mut r = reader(b"1\n\n  \n");
    assert_eq!(r.u8(), 1);
    assert!(!r.is_eof());
    assert!(r.is_eof_skip_whitespace());
}

#[test]
fn eight_digit_batch_boundary() {
    let mut r = reader(b"12345678x 12345678 123456789\n");
    assert_eq!(r.u64(), 12345678);
    assert_eq!(r.ascii(), b'x');
    assert_eq!(r.u64(), 12345678);
    assert_eq!(r.u64(), 123456789);
    let digits = b"87654321";
    let mut one_at_a_time: u64 = 0;
    for d in digits {
        one_at_a_time = one_at_a_time * 10 + (d - b'0') as u64;
    }
    let mut r = reader(b"87654321;");
    assert_eq!(r.u64(), one_at_a_time);
}

#[test]
fn narrow_widths_truncate() {
    assert_eq!(reader(b"300").u8(), 44);
    assert_eq!(reader(b"70000").u16(), 4464);
    assert_eq!(reader(b"4294967297").u32(), 1);
    assert_eq!(reader(b"200").i8(), -56);
    assert_eq!(reader(b"18446744073709551616").u64(), 0);
    assert_eq!(reader(b"-1").i64(), -1);
    assert_eq!(reader(b"9223372036854775808").i64(), i64::MIN);
    assert_eq!(reader(b"12345").usize(), 12345);
}

#[test]
fn wide_integers() {
    let mut r = reader(b"340282366920938463463374607431768211455 -170141183460469231731687303715884105728\n");
    assert_eq!(r.u128(), u128::MAX);
    assert_eq!(r.i128(), i128::MIN);
}

#[test]
fn ascii_and_consume() {
    let mut r = reader(b"ab cdef");
    assert_eq!(r.ascii(), b'a');
    assert_eq!(r.ascii(), b'b');
    assert_eq!(r.ascii(), b' ');
    assert_eq!(r.try_consume(2), 2);
    assert_eq!(r.word(), "ef");
    assert_eq!(r.try_consume(10), 0);
}

#[test]
fn consume_past_end() {
    let mut r = chunked(b"abcdefghij", 4);
    assert_eq!(r.try_consume(25), 10);
    assert!(r.is_eof());
}

#[test]
fn refill_reports_buffered_bytes() {
    let mut r = chunked(b"abcdef ghij", 4);
    assert_eq!(r.try_refill(1), 4);
    assert_eq!(r.try_refill(2), 4);
    assert_eq!(r.try_refill(6), 8);
    assert_eq!(r.remain(), b"abcdef g");
    assert_eq!(r.try_refill(9), 8);
    assert_eq!(r.skip_until_whitespace(), 6);
    assert_eq!(r.skip_whitespace(), 1);
    assert_eq!(r.word(), "ghij");
    assert_eq!(r.try_refill(1), 0);
}

#[test]
fn long_input_compacts_the_buffer() {
    let mut input = String::new();
    for i in 0..500u32 {
        input.push_str(&i.to_string());
        input.push(' ');
    }
    let mut r = chunked(input.as_bytes(), 37);
    for i in 0..500u32 {
        assert_eq!(r.u32(), i);
    }
    assert!(r.is_eof_skip_whitespace());
}

#[test]
fn words_as_text() {
    let mut r = reader("Hello World\nBye h\u{e9}llo\n".as_bytes());
    assert_eq!(r.word(), "Hello");
    let mut s = String::from(">");
    r.word_to_string(&mut s);
    assert_eq!(s, ">World");
    assert_eq!(r.word(), "Bye");
    assert_eq!(r.word(), "h\u{e9}llo");
    assert_eq!(r.word(), "");
}

#[test]
fn line_appends_to_text() {
    let mut r = reader(b"first line\r\nsecond\n");
    let mut s = String::from("1: ");
    r.line_to_string(&mut s);
    assert_eq!(s, "1: first line");
    assert_eq!(r.line(), "second");
}

#[test]
fn word_into_short_buffer() {
    let mut r = reader(b"  abcdefgh ij");
    let mut buf = [b'.'; 4];
    assert_eq!(r.word_buf(&mut buf), 4);
    assert_eq!(&buf, b"abcd");
    let mut buf = [b'.'; 8];
    assert_eq!(r.word_buf(&mut buf), 4);
    assert_eq!(&buf, b"efgh....");
}

#[test]
fn discard_without_delimiter() {
    let mut r = reader(b"no comma here");
    assert_eq!(r.discard(b','), 13);
    assert!(r.is_eof());
}

#[test]
fn float_token_is_bounded() {
    let mut input = vec![b'1'; 70];
    input.extend_from_slice(b" 2.5");
    let mut r = reader(&input);
    assert_eq!(r.float_token().len(), 64);
    assert_eq!(float(&mut r), 2.5);
    assert!(float(&mut r).is_nan());
}
