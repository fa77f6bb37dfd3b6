use loc_counter::lines::{count_lines, count_lines_in_file, DecodeError};

#[test]
fn empty_text_has_no_line() {
    assert_eq!(count_lines(""), 0);
}

#[test]
fn terminated_lines_are_counted_by_their_line_feeds() {
    assert_eq!(count_lines("a\n"), 1);
    assert_eq!(count_lines("a\nb\n"), 2);
    assert_eq!(count_lines("fn main() {\n    run();\n}\n"), 3);
}

#[test]
fn trailing_partial_line_adds_one() {
    assert_eq!(count_lines("a"), 1);
    assert_eq!(count_lines("a\nb"), 2);
    assert_eq!(count_lines("fn main() {\n    run();\n}"), 3);
}

#[test]
fn empty_lines_count() {
    assert_eq!(count_lines("\n"), 1);
    assert_eq!(count_lines("\n\n"), 2);
    assert_eq!(count_lines("a\n\nb\n"), 3);
    assert_eq!(count_lines("\n\nb"), 3);
}

#[test]
fn carriage_returns_do_not_add_lines() {
    assert_eq!(count_lines("a\r\nb\r\n"), 2);
    assert_eq!(count_lines("a\rb"), 1);
    assert_eq!(count_lines("\r"), 1);
}

#[test]
fn lines_are_counted_by_character() {
    assert_eq!(count_lines("héllo\nwörld\n"), 2);
    assert_eq!(count_lines("日本語\n中文"), 2);
}

#[test]
fn line_count_agrees_with_the_standard_line_iterator() {
    for text in ["", "a", "a\n", "a\nb", "\n", "\n\n", "a\r\nb", "x\n\ny\n\n", "\r\n"] {
        assert_eq!(count_lines(text), text.lines().count() as u64);
    }
}

#[test]
fn long_text_is_counted_in_full() {
    let text: String = "line\n".repeat(10_000);
    assert_eq!(count_lines(&text), 10_000);
}

fn texts_over(alphabet: &[char], longest: usize) -> Vec<String> {
    let mut all = vec![String::new()];
    let mut last = vec![String::new()];
    for _ in 0..longest {
        let mut next = Vec::new();
        for text in &last {
            for c in alphabet {
                let mut longer = text.clone();
                longer.push(*c);
                next.push(longer);
            }
        }
        all.extend(next.iter().cloned());
        last = next;
    }
    all
}

#[test]
fn every_short_text_has_as_many_lines_as_the_standard_iterator_yields() {
    for text in texts_over(&['a', '\n', '\r'], 6) {
        assert_eq!(count_lines(&text), text.lines().count() as u64, "{:?}", text);
    }
}

#[test]
fn every_short_text_has_a_line_for_each_feed_and_one_for_an_open_end() {
    for text in texts_over(&['a', '\n'], 7) {
        let feeds = text.chars().filter(|c| *c == '\n').count() as u64;
        let open = if text.is_empty() || text.ends_with('\n') { 0 } else { 1 };
        assert_eq!(count_lines(&text), feeds + open, "{:?}", text);
    }
}

#[test]
fn content_that_is_text_has_its_lines_counted() {
    assert_eq!(count_lines_in_file(b""), Ok(0));
    assert_eq!(count_lines_in_file(b"a\nb\nc\n"), Ok(3));
    assert_eq!(count_lines_in_file(b"a\nb\nc"), Ok(3));
    assert_eq!(count_lines_in_file("h\u{e9}llo\nw\u{f6}rld\n".as_bytes()), Ok(2));
    assert_eq!(count_lines_in_file(&[0xf0, 0x9f, 0xa6, 0x80, 0x0a]), Ok(1));
}

#[test]
fn content_that_is_no_text_is_refused() {
    assert_eq!(count_lines_in_file(&[0xff]), Err(DecodeError));
    assert_eq!(count_lines_in_file(&[0x61, 0x0a, 0x80, 0x0a]), Err(DecodeError));
    assert_eq!(count_lines_in_file(&[0xc3]), Err(DecodeError));
    assert_eq!(count_lines_in_file(&[0xc0, 0x80]), Err(DecodeError));
    assert_eq!(count_lines_in_file(&[0xed, 0xa0, 0x80]), Err(DecodeError));
    assert_eq!(count_lines_in_file(&[0xf4, 0x90, 0x80, 0x80]), Err(DecodeError));
}

#[test]
fn content_with_a_zero_byte_is_still_text() {
    assert_eq!(count_lines_in_file(&[0x00, 0x0a, 0x00]), Ok(2));
}
