use string_wizard::MagicString;

fn text(engine: &MagicString) -> String {
    engine.to_string().expect("the output is valid UTF-8")
}

#[test]
fn untouched_engine_renders_source() {
    let engine = MagicString::new("abc\ndef\r\nghi");
    assert_eq!(text(&engine), "abc\ndef\r\nghi");
    assert_eq!(engine.len(), 12);
}

#[test]
fn empty_source_renders_empty() {
    let engine = MagicString::new("");
    assert_eq!(text(&engine), "");
    assert_eq!(engine.to_bytes(), Vec::<u8>::new());
    assert_eq!(engine.len(), 0);
}

#[test]
fn to_bytes_gives_the_bytes_of_the_text() {
    let mut engine = MagicString::new("h\u{e9}llo");
    assert_eq!(engine.len(), 6);
    assert_eq!(engine.update(0, 1, "J"), Ok(()));
    assert_eq!(engine.to_bytes(), "J\u{e9}llo".as_bytes().to_vec());
    assert_eq!(text(&engine), "J\u{e9}llo");
}

#[test]
fn cut_through_a_character_is_no_string() {
    let mut engine = MagicString::new("\u{e9}");
    assert_eq!(engine.remove(0, 1), Ok(()));
    assert_eq!(engine.to_bytes(), vec![0xa9u8]);
    assert_eq!(engine.to_string(), None);
}

#[test]
fn split_changes_nothing_in_the_output() {
    let mut engine = MagicString::new("abcdef");
    assert_eq!(engine.split_at(3), Ok(()));
    assert_eq!(text(&engine), "abcdef");
    assert_eq!(engine.split_at(0), Ok(()));
    assert_eq!(engine.split_at(6), Ok(()));
    assert_eq!(text(&engine), "abcdef");
}

#[test]
fn split_twice_is_split_once() {
    let mut once = MagicString::new("abcdef");
    assert_eq!(once.split_at(2), Ok(()));
    let mut twice = MagicString::new("abcdef");
    assert_eq!(twice.split_at(2), Ok(()));
    assert_eq!(twice.split_at(2), Ok(()));
    // Text inserted on either side of the boundary lands in the same place.
    assert_eq!(once.append_left(2, "<"), Ok(()));
    assert_eq!(twice.append_left(2, "<"), Ok(()));
    assert_eq!(once.prepend_right(2, ">"), Ok(()));
    assert_eq!(twice.prepend_right(2, ">"), Ok(()));
    assert_eq!(text(&once), "ab<>cdef");
    assert_eq!(text(&twice), text(&once));
}

#[test]
fn new_engine_has_one_chunk_over_the_source() {
    assert_eq!(MagicString::new("abcdef").spans(), vec![(0, 6, false)]);
    assert_eq!(MagicString::new("").spans(), vec![(0, 0, false)]);
}

#[test]
fn spans_partition_the_source_after_every_call() {
    let mut engine = MagicString::new("0123456789");
    assert_eq!(engine.split_at(4), Ok(()));
    assert_eq!(engine.spans(), vec![(0, 4, false), (4, 10, false)]);
    assert_eq!(engine.update(2, 6, "x"), Ok(()));
    assert_eq!(engine.spans(), vec![(0, 2, false), (2, 4, false), (4, 6, false), (6, 10, false)]);
    assert_eq!(engine.remove(8, 10), Ok(()));
    assert_eq!(
        engine.spans(),
        vec![(0, 2, false), (2, 4, false), (4, 6, false), (6, 8, false), (8, 10, false)]
    );
    // A refused call leaves the spans as they were.
    assert!(engine.update(3, 5, "y").is_err());
    assert!(engine.remove(9, 12).is_err());
    assert_eq!(engine.remove(5, 5), Ok(()));
    assert_eq!(
        engine.spans(),
        vec![(0, 2, false), (2, 4, false), (4, 6, false), (6, 8, false), (8, 10, false)]
    );
    assert_eq!(text(&engine), "01x4567");
}

#[test]
fn second_split_at_an_offset_leaves_the_chunks() {
    let mut engine = MagicString::new("abcdef");
    assert_eq!(engine.split_at(2), Ok(()));
    let once = engine.spans();
    assert_eq!(once, vec![(0, 2, false), (2, 6, false)]);
    assert_eq!(engine.split_at(2), Ok(()));
    assert_eq!(engine.spans(), once);
}

#[test]
fn indentation_splits_untouched_chunks_at_line_starts() {
    let mut engine = MagicString::new("a\nb\n\nc");
    engine.indent_str("  ");
    assert_eq!(engine.spans(), vec![(0, 2, false), (2, 5, false), (5, 6, false)]);
    assert_eq!(text(&engine), "  a\n  b\n\n  c");
}
