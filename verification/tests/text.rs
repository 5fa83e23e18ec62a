use ornament::{Text, TextFragment};

#[derive(Clone, Debug, PartialEq)]
enum Face {
    Default,
    Strong,
}

impl Default for Face {
    fn default() -> Self {
        Face::Default
    }
}

fn sample() -> Text<Face> {
    Text::from(vec![
        TextFragment {
            text: "This ".to_owned(),
            face: Face::Default,
        },
        TextFragment {
            text: "part".to_owned(),
            face: Face::Strong,
        },
        TextFragment {
            text: " is important.".to_owned(),
            face: Face::Default,
        },
    ])
}

#[test]
fn fragment_from_str_has_the_default_face() {
    let tf: TextFragment<Face> = TextFragment::from("abc");
    assert_eq!(tf.text, "abc");
    assert_eq!(tf.face, Face::Default);
}

#[test]
fn fragment_from_string_has_the_default_face() {
    let tf: TextFragment<Face> = TextFragment::from(String::from("abc"));
    assert_eq!(tf.text, "abc");
    assert_eq!(tf.face, Face::Default);
}

#[test]
fn text_from_fragment_holds_it() {
    let tf = TextFragment {
        text: "abc".to_owned(),
        face: Face::Strong,
    };
    let text = Text::from(tf.clone());
    let held: Vec<&TextFragment<Face>> = text.iter().collect();
    assert_eq!(held, vec![&tf]);
}

#[test]
fn text_from_str_is_one_default_fragment() {
    let text: Text<Face> = Text::from("abc");
    let expected: Text<Face> = Text::from(vec![TextFragment {
        text: "abc".to_owned(),
        face: Face::Default,
    }]);
    assert_eq!(text, expected);
}

#[test]
fn text_from_string_is_one_default_fragment() {
    let text: Text<Face> = Text::from(String::from("abc"));
    let expected: Text<Face> = Text::from(vec![TextFragment {
        text: "abc".to_owned(),
        face: Face::Default,
    }]);
    assert_eq!(text, expected);
}

#[test]
fn default_text_is_empty() {
    let text: Text<Face> = Text::default();
    assert_eq!(text.iter().count(), 0);
    assert_eq!(text.text_len(), 0);
    assert_eq!(text.plain(), "");
    assert_eq!(text.render(|tf| tf.text.clone()), "");
}

#[test]
fn text_len_counts_bytes() {
    assert_eq!(sample().text_len(), 23);
    let text: Text<Face> = Text::from("é");
    assert_eq!(text.text_len(), 2);
}

#[test]
fn plain_strips_the_faces() {
    assert_eq!(sample().plain(), "This part is important.");
}

#[test]
fn render_calls_the_decorator_in_order() {
    let rendered = sample().render(|tf| match tf.face {
        Face::Default => tf.text.to_owned(),
        Face::Strong => format!("**{}**", tf.text),
    });
    assert_eq!(rendered, "This **part** is important.");
}

#[test]
fn iter_yields_the_fragments_in_order() {
    let text = sample();
    let seen: Vec<(&str, Face)> = text
        .iter()
        .map(|tf| (tf.text.as_str(), tf.face.clone()))
        .collect();
    assert_eq!(
        seen,
        vec![
            ("This ", Face::Default),
            ("part", Face::Strong),
            (" is important.", Face::Default),
        ]
    );
}

#[test]
fn a_text_can_be_walked_by_reference() {
    let text = sample();
    let mut total = 0;
    for tf in &text {
        total += tf.text.len();
    }
    assert_eq!(total, 23);
}

#[test]
fn a_text_is_equal_to_its_clone() {
    let text = sample();
    assert_eq!(text.clone(), text);
}
