use ornament::{Decorator, Text, TextFragment};

#[derive(Clone, Debug, PartialEq)]
enum Face {
    Default,
    Star,
    Pipe,
}

impl Default for Face {
    fn default() -> Self {
        Face::Default
    }
}

fn decorator(tf: &TextFragment<Face>) -> String {
    match tf.face {
        Face::Default => tf.text.to_owned(),
        Face::Star => format!("*{}*", tf.text),
        Face::Pipe => format!("|{}|", tf.text),
    }
}

fn fragments(text: &Text<Face>) -> Vec<(String, Face)> {
    text.iter().map(|tf| (tf.text.clone(), tf.face.clone())).collect()
}

fn piece(text: &str, face: Face) -> (String, Face) {
    (text.to_owned(), face)
}

#[test]
fn build_text() {
    let text = Decorator::new()
        .append("This ")
        .set_face(Face::Star)
        .append("error")
        .reset_face()
        .append(" is important!")
        .build();
    assert_eq!(text.render(decorator), "This *error* is important!");
}

#[test]
fn set_decorations() {
    let text = Decorator::with_text("This error is important!")
        .set(Face::Star, 5..10)
        .append(" ")
        .set_face(Face::Star)
        .append("Really")
        .reset_face()
        .append(".")
        .build();
    assert_eq!(
        text.render(decorator),
        "This *error* is important! *Really*."
    );
}

#[test]
fn splitted_decorations() {
    let text = Decorator::new()
        .append("This ")
        .set_face(Face::Star)
        .append("weird ")
        .set_face(Face::Pipe)
        .append("tiny")
        .set_face(Face::Star)
        .append(" error")
        .reset_face()
        .append(" is important!")
        .build();
    assert_eq!(
        text.render(decorator),
        "This *weird *|tiny|* error* is important!"
    );
}

#[test]
fn new_builder_is_empty() {
    let mut builder: Decorator<Face> = Decorator::new();
    assert_eq!(*builder.current_face(), Face::Default);
    let text = builder.build();
    assert_eq!(fragments(&text), Vec::new());
    assert_eq!(text.plain(), "");
    assert_eq!(text.text_len(), 0);
}

#[test]
fn default_builder_is_new() {
    let mut builder: Decorator<Face> = Decorator::default();
    assert_eq!(*builder.current_face(), Face::Default);
    assert_eq!(builder.build().plain(), "");
}

#[test]
fn current_face_follows_set_and_reset() {
    let mut builder: Decorator<Face> = Decorator::new();
    builder.set_face(Face::Pipe);
    assert_eq!(*builder.current_face(), Face::Pipe);
    builder.reset_face();
    assert_eq!(*builder.current_face(), Face::Default);
}

#[test]
fn with_text_is_one_default_fragment() {
    let text = Decorator::<Face>::with_text("plain words").build();
    assert_eq!(fragments(&text), vec![piece("plain words", Face::Default)]);
}

#[test]
fn append_path_gives_three_fragments() {
    let text = Decorator::new()
        .append("This ")
        .set_face(Face::Star)
        .append("error")
        .reset_face()
        .append(" is important!")
        .build();
    assert_eq!(
        fragments(&text),
        vec![
            piece("This ", Face::Default),
            piece("error", Face::Star),
            piece(" is important!", Face::Default),
        ]
    );
    assert_eq!(text.text_len(), 24);
    assert_eq!(text.plain(), "This error is important!");
}

#[test]
fn set_path_gives_three_fragments() {
    let text = Decorator::with_text("This part is important.")
        .set(Face::Star, 5..9)
        .build();
    assert_eq!(
        fragments(&text),
        vec![
            piece("This ", Face::Default),
            piece("part", Face::Star),
            piece(" is important.", Face::Default),
        ]
    );
    assert_eq!(text.render(decorator), "This *part* is important.");
}

#[test]
fn nested_split_keeps_five_fragments() {
    let text = Decorator::new()
        .append("This ")
        .set_face(Face::Star)
        .append("weird ")
        .set_face(Face::Pipe)
        .append("tiny")
        .set_face(Face::Star)
        .append(" error")
        .reset_face()
        .append(" is important!")
        .build();
    assert_eq!(
        fragments(&text),
        vec![
            piece("This ", Face::Default),
            piece("weird ", Face::Star),
            piece("tiny", Face::Pipe),
            piece(" error", Face::Star),
            piece(" is important!", Face::Default),
        ]
    );
}

#[test]
fn appends_under_one_face_merge() {
    let text = Decorator::<Face>::new().append("one ").append("two").build();
    assert_eq!(fragments(&text), vec![piece("one two", Face::Default)]);
    let text = Decorator::new()
        .set_face(Face::Star)
        .append("one ")
        .append("two")
        .build();
    assert_eq!(fragments(&text), vec![piece("one two", Face::Star)]);
}

#[test]
fn set_behind_the_text_changes_nothing() {
    let text = Decorator::with_text("short").set(Face::Star, 100..200).build();
    assert_eq!(fragments(&text), vec![piece("short", Face::Default)]);
}

#[test]
fn set_on_an_empty_builder_changes_nothing() {
    let text = Decorator::new().set(Face::Star, 0..5).build();
    assert_eq!(fragments(&text), Vec::new());
}

#[test]
fn set_is_cut_down_to_the_text() {
    let text = Decorator::with_text("short").set(Face::Star, 3..200).build();
    assert_eq!(
        fragments(&text),
        vec![piece("sho", Face::Default), piece("rt", Face::Star)]
    );
}

#[test]
fn set_of_an_empty_range_changes_nothing() {
    let text = Decorator::with_text("short").set(Face::Star, 2..2).build();
    assert_eq!(fragments(&text), vec![piece("short", Face::Default)]);
}

#[test]
fn set_of_a_reversed_range_changes_nothing() {
    let text = Decorator::with_text("short").set(Face::Star, 4..2).build();
    assert_eq!(fragments(&text), vec![piece("short", Face::Default)]);
}

#[test]
fn set_of_everything() {
    let text = Decorator::with_text("short").set(Face::Pipe, 0..5).build();
    assert_eq!(fragments(&text), vec![piece("short", Face::Pipe)]);
}

#[test]
fn set_twice_reads_as_set_once() {
    let once = Decorator::with_text("This error is important!")
        .set(Face::Star, 5..10)
        .build();
    let twice = Decorator::with_text("This error is important!")
        .set(Face::Star, 5..10)
        .set(Face::Star, 5..10)
        .build();
    assert_eq!(once, twice);
}

#[test]
fn set_inside_an_earlier_set_uses_offsets_of_the_text() {
    let text = Decorator::with_text("0123456789abcdef")
        .set(Face::Star, 4..12)
        .set(Face::Pipe, 6..8)
        .build();
    assert_eq!(
        fragments(&text),
        vec![
            piece("0123", Face::Default),
            piece("45", Face::Star),
            piece("67", Face::Pipe),
            piece("89ab", Face::Star),
            piece("cdef", Face::Default),
        ]
    );
}

#[test]
fn set_across_earlier_sets_leaves_no_residue() {
    let text = Decorator::with_text("0123456789abcdef")
        .set(Face::Star, 2..6)
        .set(Face::Pipe, 8..12)
        .set(Face::Default, 4..10)
        .build();
    assert_eq!(
        fragments(&text),
        vec![
            piece("01", Face::Default),
            piece("23", Face::Star),
            piece("456789", Face::Default),
            piece("ab", Face::Pipe),
            piece("cdef", Face::Default),
        ]
    );
    assert_eq!(text.plain(), "0123456789abcdef");
}

#[test]
fn append_after_set_joins_the_override_of_its_face() {
    let text = Decorator::with_text("abcd")
        .set(Face::Star, 2..4)
        .set_face(Face::Star)
        .append("ef")
        .build();
    assert_eq!(
        fragments(&text),
        vec![piece("ab", Face::Default), piece("cdef", Face::Star)]
    );
}

#[test]
fn offsets_count_bytes() {
    let text = Decorator::with_text("héllo wörld")
        .set(Face::Star, 0..6)
        .build();
    assert_eq!(
        fragments(&text),
        vec![piece("héllo", Face::Star), piece(" wörld", Face::Default)]
    );
    assert_eq!(text.text_len(), 13);
}

#[test]
fn build_can_be_repeated() {
    let mut builder = Decorator::with_text("again");
    builder.set(Face::Pipe, 1..3);
    let first = builder.build();
    let second = builder.build();
    assert_eq!(first, second);
}
