use string_wizard::MagicString;
use string_wizard::TextFragment;
use string_wizard::UpdateOptions;
use string_wizard::UsageError;

fn output(engine: &MagicString) -> String {
    engine.to_string().expect("the output is valid UTF-8")
}

#[test]
fn insertions_at_one_offset_keep_their_sides() {
    let mut engine = MagicString::new("abcdef");
    assert_eq!(engine.append_left(3, "1"), Ok(()));
    assert_eq!(engine.append_left(3, "2"), Ok(()));
    assert_eq!(engine.prepend_right(3, "3"), Ok(()));
    assert_eq!(engine.prepend_right(3, "4"), Ok(()));
    assert_eq!(output(&engine), "abc1243def");
}

#[test]
fn insertions_at_the_ends_of_the_source() {
    let mut engine = MagicString::new("abc");
    assert_eq!(engine.prepend_right(3, "]"), Ok(()));
    assert_eq!(engine.prepend_right(3, "["), Ok(()));
    assert_eq!(engine.append_left(0, "("), Ok(()));
    assert_eq!(engine.append_left(0, ")"), Ok(()));
    assert_eq!(engine.prepend_right(0, "<"), Ok(()));
    assert_eq!(engine.append_left(3, ">"), Ok(()));
    assert_eq!(output(&engine), "()<abc>[]");
}

#[test]
fn insertions_into_an_empty_source() {
    let mut engine = MagicString::new("");
    assert_eq!(engine.prepend_right(0, "b"), Ok(()));
    assert_eq!(engine.append_left(0, "c"), Ok(()));
    engine.prepend("a");
    engine.append("d");
    assert_eq!(output(&engine), "abcd");
    assert_eq!(engine.prepend_right(1, "x"), Err(UsageError::OutOfBounds));
}

#[test]
fn prepend_and_append_surround_the_output() {
    let mut engine = MagicString::new("abc");
    engine.prepend("2");
    engine.prepend("1");
    engine.append("3");
    engine.append("4");
    assert_eq!(output(&engine), "12abc34");
}

#[test]
fn insertion_is_refused_inside_an_edited_chunk() {
    let mut engine = MagicString::new("abcdef");
    assert_eq!(engine.update(1, 5, "X"), Ok(()));
    assert_eq!(engine.prepend_right(3, "!"), Err(UsageError::EditedChunk));
    assert_eq!(engine.append_left(3, "!"), Err(UsageError::EditedChunk));
    assert_eq!(engine.append_left(9, "!"), Err(UsageError::OutOfBounds));
    assert_eq!(engine.prepend_right(1, "<"), Ok(()));
    assert_eq!(engine.append_left(5, ">"), Ok(()));
    assert_eq!(output(&engine), "a<X>f");
}

#[test]
fn owned_fragments_are_taken_as_they_are() {
    let mut engine = MagicString::new("abcdef");
    let replacement = format!("{}{}", "X", 1);
    assert_eq!(
        engine.update_fragment(1, 4, TextFragment::owned(replacement), UpdateOptions::default()),
        Ok(())
    );
    assert_eq!(engine.edited_borrows(1), Some(false));
    assert_eq!(engine.prepend_right_fragment(1, TextFragment::owned(String::from("<"))), Ok(()));
    assert_eq!(engine.append_left_fragment(4, TextFragment::Owned(b">".to_vec())), Ok(()));
    engine.prepend_fragment(TextFragment::owned(String::from("[")));
    engine.append_fragment(TextFragment::borrowed("]"));
    assert_eq!(output(&engine), "[a<X1>ef]");
    assert_eq!(
        engine.update_fragment(2, 2, TextFragment::empty(), UpdateOptions::default()),
        Err(UsageError::EmptyRange)
    );
    assert_eq!(
        engine.prepend_right_fragment(7, TextFragment::empty()),
        Err(UsageError::OutOfBounds)
    );
    assert_eq!(
        engine.append_left_fragment(2, TextFragment::empty()),
        Err(UsageError::EditedChunk)
    );
    assert_eq!(output(&engine), "[a<X1>ef]");
}

#[test]
fn owned_fragment_holds_the_bytes_of_the_string() {
    let fragment = TextFragment::owned(String::from("h\u{e9}"));
    assert!(matches!(fragment, TextFragment::Owned(_)));
    assert_eq!(fragment.as_bytes(), "h\u{e9}".as_bytes());
}

#[test]
fn edited_borrows_tells_borrowed_from_owned() {
    let mut engine = MagicString::new("abcdef");
    assert_eq!(engine.edited_borrows(0), None);
    assert_eq!(engine.update(2, 4, "X"), Ok(()));
    assert_eq!(engine.edited_borrows(2), Some(true));
    assert_eq!(engine.edited_borrows(0), None);
    assert_eq!(engine.edited_borrows(3), None);
    assert_eq!(engine.edited_borrows(9), None);
    assert_eq!(engine.remove(4, 6), Ok(()));
    assert_eq!(engine.edited_borrows(4), Some(true));
}
