use trailing_whitespace::get_id;
use trailing_whitespace::line::{ending_of, fix_line, LineEnding};
use trailing_whitespace::rewriter::Rewriter;
use trailing_whitespace::text::fix_text;

fn assert_fix(input: &str, expected: &str) {
    let (out, _) = fix_text(input.as_bytes());
    assert_eq!(String::from_utf8(out).unwrap(), expected);
}

fn fixed(input: &[u8]) -> (Vec<u8>, Vec<usize>) {
    fix_text(input)
}

#[test]
fn main_test_fix_whitespaces_at_end() {
    assert_fix("Hello, world!   \n  ", "Hello, world!\n");
}

#[test]
fn main_test_fix_whitespaces_before_unix_newline() {
    assert_fix("Hello, world!   \n  \n", "Hello, world!\n\n");
}

#[test]
fn main_test_fix_whitespaces_before_windows_newline() {
    assert_fix("  Hello, world!   \r\n  \r\n", "  Hello, world!\r\n\r\n");
}

#[test]
fn trailing_whitespace_test_fix_whitespaces_at_end() {
    assert_fix("Hello, world!   \n  ", "Hello, world!\n");
}

#[test]
fn trailing_whitespace_test_fix_whitespaces_before_unix_newline() {
    assert_fix("Hello, world!   \n  \n", "Hello, world!\n\n");
}

#[test]
fn trailing_whitespace_test_fix_whitespaces_before_windows_newline() {
    assert_fix("  Hello, world!   \r\n  \r\n", "  Hello, world!\r\n\r\n");
}

#[test]
fn changed_lines_at_end() {
    assert_eq!(fixed(b"Hello, world!   \n  ").1, vec![1, 2]);
}

#[test]
fn changed_lines_before_unix_newline() {
    assert_eq!(fixed(b"Hello, world!   \n  \n").1, vec![1, 2]);
}

#[test]
fn changed_lines_before_windows_newline() {
    assert_eq!(fixed(b"  Hello, world!   \r\n  \r\n").1, vec![1, 2]);
}

#[test]
fn clean_text_is_untouched() {
    let input = b"fn main() {\n    body();\r\n}\n  indented\nlast";
    let (out, changed) = fixed(input);
    assert_eq!(out, input.to_vec());
    assert!(changed.is_empty());
}

#[test]
fn empty_text() {
    let (out, changed) = fixed(b"");
    assert!(out.is_empty());
    assert!(changed.is_empty());
}

#[test]
fn second_pass_changes_nothing() {
    let input = b"a \t\nb\r\n\t\r\n c  \n\n  d\t";
    let (once, changed) = fixed(input);
    assert_eq!(once, b"a\nb\r\n\r\n c\n\n  d".to_vec());
    assert_eq!(changed, vec![1, 3, 4, 6]);
    let (twice, again) = fixed(&once);
    assert_eq!(twice, once);
    assert!(again.is_empty());
}

#[test]
fn lines_without_trailing_blanks_are_kept() {
    let (out, changed) = fixed(b"keep\r\nstrip \nkeep too\n");
    assert_eq!(out, b"keep\r\nstrip\nkeep too\n".to_vec());
    assert_eq!(changed, vec![2]);
}

#[test]
fn crlf_text_stays_crlf() {
    let (out, _) = fixed(b"one \r\ntwo\t\r\n\r\n");
    assert_eq!(out, b"one\r\ntwo\r\n\r\n".to_vec());
}

#[test]
fn mixed_endings_are_kept_per_line() {
    let (out, changed) = fixed(b"a \r\nb \nc\t\r\nd\n e ");
    assert_eq!(out, b"a\r\nb\nc\r\nd\n e".to_vec());
    assert_eq!(changed, vec![1, 2, 3, 5]);
}

#[test]
fn only_space_and_tab_are_stripped() {
    let input = b"form feed\x0c\nvertical tab\x0b\nwide\xe3\x80\x80\nlone cr\r";
    let (out, changed) = fixed(input);
    assert_eq!(out, input.to_vec());
    assert!(changed.is_empty());
}

#[test]
fn blank_only_line_becomes_empty() {
    let (out, changed) = fixed(b" \t \n");
    assert_eq!(out, b"\n".to_vec());
    assert_eq!(changed, vec![1]);
}

#[test]
fn carriage_return_before_blank_and_lf() {
    let (out, changed) = fixed(b"x \r \n");
    assert_eq!(out, b"x \r\n".to_vec());
    assert_eq!(changed, vec![1]);
    let (again, changed_again) = fixed(&out);
    assert_eq!(again, b"x\r\n".to_vec());
    assert_eq!(changed_again, vec![1]);
}

#[test]
fn ending_of_each_kind() {
    assert_eq!(ending_of(b"a\r\n"), LineEnding::CrLf);
    assert_eq!(ending_of(b"a\n"), LineEnding::Lf);
    assert_eq!(ending_of(b"a"), LineEnding::Bare);
    assert_eq!(ending_of(b"\r"), LineEnding::Bare);
    assert_eq!(ending_of(b""), LineEnding::Bare);
}

#[test]
fn fix_line_strips_body_only() {
    assert_eq!(fix_line(b"  x \t\r\n"), (b"  x\r\n".to_vec(), true));
    assert_eq!(fix_line(b"x\n"), (b"x\n".to_vec(), false));
    assert_eq!(fix_line(b"\t"), (Vec::new(), true));
}

#[test]
fn rewriter_line_by_line() {
    let mut rw = Rewriter::new();
    assert!(!rw.should_replace());
    assert_eq!(rw.feed(b"ok\n"), b"ok\n".to_vec());
    assert!(!rw.should_replace());
    assert_eq!(rw.feed(b"bad  \r\n"), b"bad\r\n".to_vec());
    assert_eq!(rw.feed(b"end\t"), b"end".to_vec());
    assert_eq!(rw.line_count(), 3);
    assert!(rw.should_replace());
    assert_eq!(rw.finish(), vec![2, 3]);
}

#[test]
fn staging_id_is_fixed() {
    assert_eq!(get_id(), 0);
}
