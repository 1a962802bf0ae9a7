use string_wizard::fragment::TextFragment;
use string_wizard::lines::find_line_starts;
use string_wizard::lines::indent_bytes;
use string_wizard::magic_string::indent::guess_indent_str;
use string_wizard::magic_string::indent::IndentOptions;
use string_wizard::MagicString;

fn rendered(engine: &MagicString) -> String {
    engine.to_string().expect("the output is valid UTF-8")
}

#[test]
fn guesses_tab_where_tabs_lead() {
    assert_eq!(guess_indent_str(b"\tfoo\n\tbar\n"), Some(b"\t".to_vec()));
}

#[test]
fn guesses_narrowest_run_of_spaces() {
    assert_eq!(guess_indent_str(b"    foo\n  bar\n"), Some(b"  ".to_vec()));
    assert_eq!(guess_indent_str(b"a\n      b\n   c\n    d"), Some(b"   ".to_vec()));
}

#[test]
fn guesses_tab_on_a_tie() {
    assert_eq!(guess_indent_str(b"\ta\n  b\n"), Some(b"\t".to_vec()));
    assert_eq!(guess_indent_str(b"\ta\n  b\n  c\n"), Some(b"  ".to_vec()));
}

#[test]
fn guesses_nothing_without_indented_lines() {
    assert_eq!(guess_indent_str(b""), None);
    assert_eq!(guess_indent_str(b"foo\nbar\n"), None);
    // One space is no indent, and white space inside a line does not count.
    assert_eq!(guess_indent_str(b" a\n b\nc  d\te\n"), None);
    assert_eq!(guess_indent_str(b"a\r\n\r\n"), None);
}

#[test]
fn guess_counts_a_last_line_without_line_feed() {
    assert_eq!(guess_indent_str(b"a\n  "), Some(b"  ".to_vec()));
    assert_eq!(guess_indent_str(b"a\n\t"), Some(b"\t".to_vec()));
}

#[test]
fn explicit_indent_prefixes_each_line_once() {
    let mut engine = MagicString::new("\tfoo\n\tbar\n");
    engine.indent_str("  ");
    assert_eq!(rendered(&engine), "  \tfoo\n  \tbar\n");
}

#[test]
fn indent_uses_the_indent_of_the_source() {
    let mut tabbed = MagicString::new("\tfoo\n\tbar\n");
    tabbed.indent();
    assert_eq!(rendered(&tabbed), "\t\tfoo\n\t\tbar\n");

    let mut spaced = MagicString::new("a\n    b\n  c");
    spaced.indent();
    assert_eq!(rendered(&spaced), "  a\n      b\n    c");
    spaced.indent_with(IndentOptions::default());
    assert_eq!(rendered(&spaced), "    a\n        b\n      c");
}

#[test]
fn indent_falls_back_to_a_tab() {
    let mut engine = MagicString::new("foo\nbar");
    engine.indent();
    assert_eq!(rendered(&engine), "\tfoo\n\tbar");
    engine.indent_with(IndentOptions { indent_str: None });
    assert_eq!(rendered(&engine), "\t\tfoo\n\t\tbar");
}

#[test]
fn empty_indent_changes_nothing() {
    let mut engine = MagicString::new("foo\nbar\n");
    assert_eq!(engine.update(0, 3, "x\ny"), Ok(()));
    let before = rendered(&engine);
    engine.indent_str("");
    assert_eq!(rendered(&engine), before);
    engine.indent_with(IndentOptions { indent_str: Some("") });
    assert_eq!(rendered(&engine), "x\ny\nbar\n");
    // No boundary was made: the source can still be replaced as a whole.
    let mut untouched = MagicString::new("a\nb\nc");
    untouched.indent_str("");
    assert_eq!(untouched.update(1, 4, "-"), Ok(()));
    assert_eq!(rendered(&untouched), "a-c");
}

#[test]
fn blank_lines_are_not_indented() {
    let mut engine = MagicString::new("a\n\nb\n");
    engine.indent_str(">");
    assert_eq!(rendered(&engine), ">a\n\n>b\n");
}

#[test]
fn carriage_returns_do_not_start_a_line() {
    let mut engine = MagicString::new("a\r\nb\r\n\r\nc");
    engine.indent_str(">");
    assert_eq!(rendered(&engine), ">a\r\n>b\r\n\r\n>c");

    let mut odd = MagicString::new("\n\rx");
    odd.indent_str(">");
    assert_eq!(rendered(&odd), "\n\r>x");
}

#[test]
fn indent_rewrites_edited_content() {
    let mut engine = MagicString::new("a\nb");
    assert_eq!(engine.update(0, 1, "x\ny"), Ok(()));
    engine.indent_str(">");
    assert_eq!(rendered(&engine), ">x\n>y\n>b");
}

#[test]
fn cursor_runs_from_fragment_to_fragment() {
    let mut engine = MagicString::new("abc\ndef");
    engine.prepend("head");
    engine.prepend("top\n");
    engine.append("\ntail");
    engine.append("end");
    assert_eq!(engine.update(4, 7, ""), Ok(()));
    engine.indent_str("  ");
    assert_eq!(rendered(&engine), "  top\n  headabc\n\n  tailend");
}

#[test]
fn removed_text_does_not_clear_the_cursor() {
    let mut engine = MagicString::new("a\nbcd");
    assert_eq!(engine.remove(2, 3), Ok(()));
    engine.indent_str(">");
    assert_eq!(rendered(&engine), ">a\n>cd");
}

#[test]
fn text_inserted_at_a_chunk_is_passed_over() {
    let mut engine = MagicString::new("abc");
    assert_eq!(engine.prepend_right(0, "x\ny"), Ok(()));
    engine.indent_str(">");
    assert_eq!(rendered(&engine), ">x\nyabc");
}

#[test]
fn indented_source_can_still_be_edited_between_lines() {
    let mut engine = MagicString::new("a\nb\nc");
    engine.indent_str("  ");
    assert_eq!(rendered(&engine), "  a\n  b\n  c");
    // Boundaries lie at the line starts 2 and 4.
    assert_eq!(engine.update(2, 4, "B\n"), Ok(()));
    assert_eq!(rendered(&engine), "  a\n  B\n  c");
}

#[test]
fn indent_twice() {
    let mut engine = MagicString::new("a\nb");
    engine.indent_str("-");
    engine.indent_str("+");
    assert_eq!(rendered(&engine), "+-a\n+-b");
}

#[test]
fn fragment_without_line_start_stays_borrowed() {
    let mut fragment = TextFragment::borrowed("abc");
    let pending = fragment.indent(b"  ", false);
    assert!(!pending);
    assert!(matches!(fragment, TextFragment::Borrowed(_)));
    assert_eq!(fragment.as_bytes(), b"abc");

    let mut blank = TextFragment::borrowed("\r\n");
    assert!(blank.indent(b"  ", true));
    assert!(matches!(blank, TextFragment::Borrowed(_)));
}

#[test]
fn fragment_with_line_start_becomes_owned() {
    let mut fragment = TextFragment::borrowed("abc\nd");
    let pending = fragment.indent(b"  ", true);
    assert!(!pending);
    assert!(matches!(fragment, TextFragment::Owned(_)));
    assert_eq!(fragment.as_bytes(), b"  abc\n  d");

    let mut later = TextFragment::borrowed("abc\nd\n");
    assert!(later.indent(b"\t", false));
    assert_eq!(later.as_bytes(), b"abc\n\td\n");
}

#[test]
fn empty_fragment_is_empty() {
    let fragment = TextFragment::empty();
    assert_eq!(fragment.as_bytes(), b"");
}

#[test]
fn indent_bytes_copies_only_when_a_line_starts() {
    assert_eq!(indent_bytes(b"abc", b">", false), (None, false));
    assert_eq!(indent_bytes(b"", b">", true), (None, true));
    assert_eq!(indent_bytes(b"\n\n", b">", false), (None, true));
    assert_eq!(indent_bytes(b"abc", b">", true), (Some(b">abc".to_vec()), false));
    assert_eq!(indent_bytes(b"a\nb\n", b"..", true), (Some(b"..a\n..b\n".to_vec()), true));
}

#[test]
fn line_starts_of_a_span() {
    let source = b"ab\ncd\r\n\nef";
    assert_eq!(find_line_starts(source, 0, 10, true), (vec![0, 3, 8], false));
    assert_eq!(find_line_starts(source, 0, 10, false), (vec![3, 8], false));
    assert_eq!(find_line_starts(source, 1, 3, true), (vec![1], true));
    assert_eq!(find_line_starts(source, 5, 8, true), (vec![], true));
    assert_eq!(find_line_starts(source, 4, 4, false), (vec![], false));
}

#[test]
fn carriage_returns_before_the_first_byte_of_a_line() {
    assert_eq!(indent_bytes(b"\r\rx", b">", true), (Some(b"\r\r>x".to_vec()), false));
    assert_eq!(indent_bytes(b"\r\rx", b">", false), (None, false));
    assert_eq!(indent_bytes(b"\r\r", b">", true), (None, true));
    assert_eq!(indent_bytes(b"\r\r", b">", false), (None, false));
    assert_eq!(
        indent_bytes(b"x\n\r\ry\n\n\rz\r", b"--", false),
        (Some(b"x\n\r\r--y\n\n\r--z\r".to_vec()), false)
    );
}

#[test]
fn first_byte_is_indented_only_if_the_cursor_is_pending() {
    assert_eq!(indent_bytes(b"a\nb", b">", true), (Some(b">a\n>b".to_vec()), false));
    assert_eq!(indent_bytes(b"a\nb", b">", false), (Some(b"a\n>b".to_vec()), false));
    assert_eq!(indent_bytes(b"\na", b">", false), (Some(b"\n>a".to_vec()), false));
    assert_eq!(indent_bytes(b"a", b"", true), (Some(b"a".to_vec()), false));
}

#[test]
fn bytes_beyond_ascii_begin_lines_too() {
    let text = "\u{e9}\n\u{4e2d}\n".as_bytes();
    assert_eq!(
        indent_bytes(text, b"\t", true),
        (Some("\t\u{e9}\n\t\u{4e2d}\n".as_bytes().to_vec()), true)
    );
    let broken = [0xffu8, b'\n', 0x80, b'\n', b'\r', 0xc3];
    assert_eq!(
        indent_bytes(&broken, b">", true),
        (Some(vec![b'>', 0xff, b'\n', b'>', 0x80, b'\n', b'\r', b'>', 0xc3]), false)
    );
}

#[test]
fn both_ways_of_finding_line_starts_agree() {
    let texts: [&[u8]; 8] = [
        b"",
        b"a",
        b"\n",
        b"a\nb\n\nc",
        b"\r\na\r\n\r\nb",
        b"\n\r\rx\ry\n\r",
        b"  a\n\tb\n",
        b"\r\r\n\n\r",
    ];
    for text in texts {
        for pending in [true, false] {
            let (starts, after) = find_line_starts(text, 0, text.len() as u32, pending);
            let (rewritten, next) = indent_bytes(text, b"#", pending);
            assert_eq!(after, next);
            let mut expected = Vec::new();
            for (at, byte) in text.iter().enumerate() {
                if starts.contains(&(at as u32)) {
                    expected.push(b'#');
                }
                expected.push(*byte);
            }
            match rewritten {
                Some(out) => {
                    assert!(!starts.is_empty());
                    assert_eq!(out, expected);
                }
                None => assert!(starts.is_empty()),
            }
        }
    }
}

#[test]
fn many_lines() {
    let mut source = String::new();
    let mut expected = String::new();
    for line in 0..200 {
        source.push_str(&format!("line {line}\r\n"));
        expected.push_str(&format!("    line {line}\r\n"));
    }
    let mut engine = MagicString::new(&source);
    engine.indent_str("    ");
    assert_eq!(engine.spans().len(), 200);
    assert_eq!(rendered(&engine), expected);

    let mut edited = MagicString::new("x");
    assert_eq!(edited.update(0, 1, &source), Ok(()));
    edited.indent_str("    ");
    assert_eq!(edited.spans().len(), 1);
    assert_eq!(rendered(&edited), expected);
}

#[test]
fn every_short_text_is_indented_at_its_line_starts() {
    let alphabet = [b'a', b'\n', b'\r', 0xc3u8];
    let mut texts: Vec<Vec<u8>> = vec![Vec::new()];
    let mut from = 0;
    for _ in 0..5 {
        let upto = texts.len();
        for at in from..upto {
            for byte in alphabet {
                let mut longer = texts[at].clone();
                longer.push(byte);
                texts.push(longer);
            }
        }
        from = upto;
    }
    assert_eq!(texts.len(), 1 + 4 + 16 + 64 + 256 + 1024);
    for text in &texts {
        for pending in [true, false] {
            // The cursor, byte by byte.
            let mut expected = Vec::new();
            let mut cursor = pending;
            let mut inserted = false;
            for byte in text {
                if *byte == b'\n' {
                    cursor = true;
                } else if *byte != b'\r' && cursor {
                    expected.extend_from_slice(b"->");
                    cursor = false;
                    inserted = true;
                }
                expected.push(*byte);
            }
            let (rewritten, next) = indent_bytes(text, b"->", pending);
            assert_eq!(next, cursor);
            assert_eq!(rewritten, if inserted { Some(expected) } else { None });
        }
    }
}

#[test]
fn content_without_line_start_stays_borrowed_under_indentation() {
    let mut engine = MagicString::new("ab\ncd\nef");
    // "X" stands in the middle of a line, "Y\nZ" holds a line start.
    assert_eq!(engine.update(1, 2, "X"), Ok(()));
    assert_eq!(engine.update(4, 5, "Y\nZ"), Ok(()));
    assert_eq!(engine.edited_borrows(1), Some(true));
    assert_eq!(engine.edited_borrows(4), Some(true));
    engine.indent_str("  ");
    assert_eq!(rendered(&engine), "  aX\n  cY\n  Z\n  ef");
    assert_eq!(engine.edited_borrows(1), Some(true));
    assert_eq!(engine.edited_borrows(4), Some(false));
}

#[test]
fn indent_keeps_what_it_found_in_the_source() {
    let mut engine = MagicString::new("a\n    b\n  c");
    assert_eq!(engine.cached_indent_bytes(), None);
    engine.indent_str(">");
    assert_eq!(engine.cached_indent_bytes(), None);
    engine.indent();
    assert_eq!(engine.cached_indent_bytes(), Some(b"  ".to_vec()));
    assert_eq!(engine.update(0, 1, "x"), Ok(()));
    assert_eq!(engine.remove(9, 10), Ok(()));
    assert_eq!(engine.prepend_right(3, "-"), Ok(()));
    engine.append("!");
    engine.indent_str("");
    assert_eq!(engine.cached_indent_bytes(), Some(b"  ".to_vec()));
    engine.indent();
    assert_eq!(engine.cached_indent_bytes(), Some(b"  ".to_vec()));

    let mut plain = MagicString::new("a\nb");
    plain.indent();
    assert_eq!(plain.cached_indent_bytes(), None);
    assert_eq!(rendered(&plain), "\ta\n\tb");
}
