use string_wizard::magic_string::mutation::UpdateOptions;
use string_wizard::MagicString;
use string_wizard::UsageError;

fn shown(engine: &MagicString) -> String {
    engine.to_string().expect("the output is valid UTF-8")
}

#[test]
fn update_replaces_range() {
    let mut engine = MagicString::new("abcdef");
    assert_eq!(engine.update(1, 4, "XYZ"), Ok(()));
    assert_eq!(shown(&engine), "aXYZef");
}

#[test]
fn remove_deletes_range() {
    let mut engine = MagicString::new("abcdef");
    assert_eq!(engine.remove(1, 4), Ok(()));
    assert_eq!(shown(&engine), "aef");
}

#[test]
fn update_of_whole_source() {
    let mut engine = MagicString::new("abcdef");
    assert_eq!(engine.update(0, 6, ""), Ok(()));
    assert_eq!(shown(&engine), "");
}

#[test]
fn zero_length_update_is_refused() {
    let mut engine = MagicString::new("abcdef");
    assert_eq!(engine.update(2, 2, "x"), Err(UsageError::EmptyRange));
    assert_eq!(shown(&engine), "abcdef");
}

#[test]
fn zero_length_remove_changes_nothing() {
    let mut engine = MagicString::new("abcdef");
    assert_eq!(engine.remove(2, 2), Ok(()));
    assert_eq!(shown(&engine), "abcdef");
    assert_eq!(engine.remove(0, 0), Ok(()));
    assert_eq!(engine.remove(6, 6), Ok(()));
    assert_eq!(shown(&engine), "abcdef");
}

#[test]
fn inverted_range_is_refused() {
    let mut engine = MagicString::new("abcdef");
    assert_eq!(engine.update(4, 1, "x"), Err(UsageError::InvertedRange));
    assert_eq!(engine.remove(4, 1), Err(UsageError::InvertedRange));
    assert_eq!(shown(&engine), "abcdef");
}

#[test]
fn range_behind_the_source_is_refused() {
    let mut engine = MagicString::new("abcdef");
    assert_eq!(engine.update(0, 7, "x"), Err(UsageError::OutOfBounds));
    assert_eq!(engine.remove(5, 7), Err(UsageError::OutOfBounds));
    assert_eq!(engine.remove(7, 7), Err(UsageError::OutOfBounds));
    assert_eq!(engine.update(7, 7, "x"), Err(UsageError::EmptyRange));
    assert_eq!(engine.split_at(7), Err(UsageError::OutOfBounds));
    assert_eq!(shown(&engine), "abcdef");
}

#[test]
fn range_that_cuts_an_edited_chunk_is_refused() {
    let mut engine = MagicString::new("abcdef");
    assert_eq!(engine.update(0, 4, "X"), Ok(()));
    assert_eq!(engine.update(2, 6, "Y"), Err(UsageError::EditedChunk));
    assert_eq!(engine.remove(1, 4), Err(UsageError::EditedChunk));
    assert_eq!(engine.split_at(3), Err(UsageError::EditedChunk));
    assert!(!engine.can_split(3));
    assert!(engine.can_split(4));
    assert!(engine.can_split(5));
    assert!(!engine.can_split(7));
    assert_eq!(shown(&engine), "Xef");
}

#[test]
fn refused_update_leaves_no_boundary() {
    let mut engine = MagicString::new("abcdefgh");
    assert_eq!(engine.update(4, 8, "X"), Ok(()));
    // The end of the range lies inside the edited chunk: the start is not split either.
    assert_eq!(engine.update(2, 6, "Y"), Err(UsageError::EditedChunk));
    assert_eq!(engine.update(0, 4, "Z"), Ok(()));
    assert_eq!(shown(&engine), "ZX");
}

#[test]
fn disjoint_updates_in_either_order() {
    let mut forward = MagicString::new("abcdef");
    assert_eq!(forward.update(0, 3, "A"), Ok(()));
    assert_eq!(forward.update(3, 6, "B"), Ok(()));
    assert_eq!(shown(&forward), "AB");
    let mut backward = MagicString::new("abcdef");
    assert_eq!(backward.update(3, 6, "B"), Ok(()));
    assert_eq!(backward.update(0, 3, "A"), Ok(()));
    assert_eq!(shown(&backward), "AB");
}

#[test]
fn disjoint_updates_with_a_gap_in_either_order() {
    let mut forward = MagicString::new("0123456789");
    assert_eq!(forward.update(1, 3, "a"), Ok(()));
    assert_eq!(forward.remove(6, 9), Ok(()));
    let mut backward = MagicString::new("0123456789");
    assert_eq!(backward.remove(6, 9), Ok(()));
    assert_eq!(backward.update(1, 3, "a"), Ok(()));
    assert_eq!(shown(&forward), "0a3459");
    assert_eq!(shown(&backward), "0a3459");
}

#[test]
fn second_update_of_the_same_range_replaces_the_first() {
    let mut engine = MagicString::new("abcdef");
    assert_eq!(engine.update(1, 4, "X"), Ok(()));
    assert_eq!(engine.update(1, 4, "Y"), Ok(()));
    assert_eq!(shown(&engine), "aYef");
}

#[test]
fn update_over_several_chunks_keeps_the_last() {
    let mut engine = MagicString::new("abcdef");
    assert_eq!(engine.split_at(2), Ok(()));
    assert_eq!(engine.split_at(4), Ok(()));
    // The first chunk takes the content, the one between is emptied, the
    // chunk that ends the range is left as it is.
    assert_eq!(engine.update(0, 6, "X"), Ok(()));
    assert_eq!(shown(&engine), "Xef");
}

#[test]
fn wider_update_over_an_edited_chunk() {
    let mut engine = MagicString::new("abcdef");
    assert_eq!(engine.update(0, 3, "A"), Ok(()));
    assert_eq!(engine.update(0, 6, "B"), Ok(()));
    assert_eq!(shown(&engine), "Bdef");
}

#[test]
fn update_keeps_inserted_text_unless_it_overwrites() {
    let mut kept = MagicString::new("abcdef");
    assert_eq!(kept.prepend_right(1, "<"), Ok(()));
    assert_eq!(kept.append_left(4, ">"), Ok(()));
    assert_eq!(kept.update(1, 4, "X"), Ok(()));
    assert_eq!(shown(&kept), "a<X>ef");

    let mut dropped = MagicString::new("abcdef");
    assert_eq!(dropped.prepend_right(1, "<"), Ok(()));
    assert_eq!(dropped.append_left(4, ">"), Ok(()));
    let opts = UpdateOptions { keep_original: true, overwrite: true };
    assert_eq!(dropped.update_with(1, 4, "X", opts), Ok(()));
    assert_eq!(shown(&dropped), "aXef");
}

#[test]
fn remove_drops_inserted_text() {
    let mut engine = MagicString::new("abcdef");
    assert_eq!(engine.prepend_right(1, "<"), Ok(()));
    assert_eq!(engine.append_left(4, ">"), Ok(()));
    assert_eq!(engine.remove(1, 4), Ok(()));
    assert_eq!(shown(&engine), "aef");
}

#[test]
fn default_update_options() {
    let opts = UpdateOptions::default();
    assert!(!opts.keep_original);
    assert!(!opts.overwrite);
}

#[test]
fn update_marks_the_chunk_whose_original_is_wanted() {
    let mut engine = MagicString::new("abcdef");
    let opts = UpdateOptions { keep_original: true, overwrite: false };
    assert_eq!(engine.update_with(2, 4, "X", opts), Ok(()));
    assert_eq!(engine.spans(), vec![(0, 2, false), (2, 4, true), (4, 6, false)]);
    assert_eq!(engine.update(2, 4, "Y"), Ok(()));
    assert_eq!(engine.spans(), vec![(0, 2, false), (2, 4, false), (4, 6, false)]);
}
