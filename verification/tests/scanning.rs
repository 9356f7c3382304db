use rustme::scanner::StrByteIterator;

fn bv(s: &str) -> Vec<u8> {
    s.as_bytes().to_vec()
}

#[test]
fn scanner_reads_until_char() {
    let text = bv("hello$world");
    let mut iter = StrByteIterator::new(text.as_slice());
    let head = iter.read_until_char(b'$');
    assert_eq!(head, b"hello");
    assert_eq!(iter.next_byte(), Some(b'$'));
    let tail = iter.read_until_char(b'$');
    assert_eq!(tail, b"world");
    assert_eq!(iter.next_byte(), None);
}

#[test]
fn scanner_read_until_with_predicate() {
    let text = bv("abc-def");
    let mut iter = StrByteIterator::new(text.as_slice());
    let head = iter.read_until(|b| b == b'-', true);
    assert_eq!(head, b"abc-");
    let tail = iter.read_until(|b| b == b'-', true);
    assert_eq!(tail, b"def");
}

#[test]
fn scanner_predicate_sees_only_ascii() {
    // every byte of a multi-byte code point has its high bit set, so a
    // predicate that accepts anything it is shown still cannot split one
    let text = "héllo".as_bytes().to_vec();
    let mut iter = StrByteIterator::new(text.as_slice());
    let head = iter.read_until(|b| b != b'h', false);
    // the 'é' bytes are never offered to the predicate
    assert_eq!(head, "hé".as_bytes());
}

#[test]
fn scanner_try_read_consumes_only_on_match() {
    let text = bv("``rust rest");
    let mut iter = StrByteIterator::new(text.as_slice());
    assert!(!iter.try_read(b"```"));
    assert!(iter.try_read(b"``rust"));
    assert_eq!(iter.read_until_char(b'\n'), b" rest");
}

#[test]
fn scanner_read_line_keeps_newline() {
    let text = bv("one\ntwo");
    let mut iter = StrByteIterator::new(text.as_slice());
    assert_eq!(iter.read_line(), b"one\n");
    assert_eq!(iter.read_line(), b"two");
    assert_eq!(iter.read_line(), b"");
    assert!(iter.is_at_end());
}

#[test]
fn find_subslice_finds_first_occurrence() {
    let hay = bv("xxabcxxabc");
    assert_eq!(rustme::bytes::find_subslice(hay.as_slice(), b"abc"), Some(2));
    assert_eq!(rustme::bytes::find_subslice(hay.as_slice(), b"zzz"), None);
    assert_eq!(rustme::bytes::find_subslice(hay.as_slice(), b""), Some(0));
}

#[test]
fn trim_ascii_strips_both_ends() {
    assert_eq!(rustme::bytes::trim_ascii(b"  name\t "), b"name");
    assert_eq!(rustme::bytes::trim_ascii(b"name"), b"name");
    assert_eq!(rustme::bytes::trim_ascii(b" \t "), b"");
}

#[test]
fn join_path_resolves_relative_and_absolute() {
    assert_eq!(rustme::bytes::join_path(b".", b"README.md"), bv("./README.md"));
    assert_eq!(rustme::bytes::join_path(b"docs", b"a/b.md"), bv("docs/a/b.md"));
    assert_eq!(rustme::bytes::join_path(b"docs", b"/abs.md"), bv("/abs.md"));
    assert_eq!(rustme::bytes::join_path(b"", b"x"), bv("x"));
}

#[test]
fn bytes_eq_compares_contents() {
    assert!(rustme::bytes::bytes_eq(b"abc", b"abc"));
    assert!(!rustme::bytes::bytes_eq(b"abc", b"abd"));
    assert!(!rustme::bytes::bytes_eq(b"abc", b"ab"));
}
