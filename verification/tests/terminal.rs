use lever::terminal::{OutputLines, TemporaryOutput};

#[test]
fn println_adds_lines_and_keeps_the_last_few() {
    let mut out = TemporaryOutput::new(2);
    let r = out.println("one", 80);
    assert_eq!(r.erase, 0);
    assert_eq!(r.lines, vec!["one".to_string()]);
    let r = out.println("two", 80);
    assert_eq!(r.erase, 1);
    assert_eq!(r.lines, vec!["one".to_string(), "two".to_string()]);
    let r = out.println("three", 80);
    assert_eq!(r.erase, 2);
    assert_eq!(r.lines, vec!["two".to_string(), "three".to_string()]);
    assert_eq!(out.clear(), 2);
}

#[test]
fn print_without_break_extends_the_current_line() {
    let mut out = TemporaryOutput::new(8);
    let r = out.print("ab", 80);
    assert!(r.lines.is_empty());
    let r = out.print("c\nd", 80);
    assert_eq!(r.lines, vec!["abc".to_string()]);
    // a break empties the current line: the text after the last break is not kept
    let r = out.println("e", 80);
    assert_eq!(r.lines, vec!["abc".to_string(), "e".to_string()]);
}

#[test]
fn several_lines_at_once() {
    let mut out = TemporaryOutput::new(8);
    let r = out.print("a\nb\nc\n", 80);
    assert_eq!(r.lines, vec!["a".to_string(), "b".to_string(), "c".to_string()]);
}

#[test]
fn tabs_are_expanded_and_lines_cut() {
    let mut out = TemporaryOutput::new(8);
    let r = out.println("\tx", 80);
    assert_eq!(r.lines, vec!["    x".to_string()]);
    let r = out.println("abcdefgh", 3);
    assert_eq!(r.lines, vec!["   ".to_string(), "abc".to_string()]);
}

#[test]
fn zero_lines_window_shows_nothing() {
    let mut out = TemporaryOutput::new(0);
    let r = out.println("a", 80);
    assert!(r.lines.is_empty());
    assert_eq!(out.clear(), 0);
}

#[test]
fn output_lines_are_assembled_from_bytes() {
    let mut lines = OutputLines::new();
    assert!(lines.feed(b"hel").is_empty());
    assert_eq!(lines.feed(b"lo\nwor"), vec!["hello".to_string()]);
    assert_eq!(lines.feed(b"ld\n\n"), vec!["world".to_string(), String::new()]);
    assert_eq!(lines.feed(&[0xe9, b'\n']), vec!["\u{e9}".to_string()]);
}

#[test]
fn how_output_is_cut_does_not_matter() {
    let text = b"first line\nsecond\n\nthird, unfinished";
    let mut whole = OutputLines::new();
    let all_at_once = whole.feed(text);
    let mut pieces = OutputLines::new();
    let mut one_by_one = Vec::new();
    for chunk in text.chunks(3) {
        one_by_one.extend(pieces.feed(chunk));
    }
    assert_eq!(all_at_once, one_by_one);
    assert_eq!(
        all_at_once,
        vec!["first line".to_string(), "second".to_string(), String::new()]
    );
    // what is left unfinished shows in the next completed line
    assert_eq!(whole.feed(b"!\n"), vec!["third, unfinished!".to_string()]);
    assert_eq!(pieces.feed(b"!\n"), vec!["third, unfinished!".to_string()]);
}
