use ui_commands::text::{SetText, SetTextExt, SetTextSections, SetTextSectionsExt, TextSection};

#[derive(Clone, Debug, Default, PartialEq)]
struct Style {
    size: u32,
}

fn section(value: &str, size: u32) -> TextSection<Style> {
    TextSection { value: value.to_string(), style: Style { size } }
}

fn values(text: &Option<Vec<TextSection<Style>>>) -> Option<Vec<(String, u32)>> {
    text.as_ref().map(|v| v.iter().map(|s| (s.value.clone(), s.style.size)).collect())
}

#[test]
fn set_text_sections_replaces_sections() {
    let mut text = Some(vec![section("old", 1)]);
    let applied = SetTextSections { sections: vec![section("a", 2), section("b", 3)] }.apply(&mut text);
    assert!(applied);
    assert_eq!(values(&text), Some(vec![("a".to_string(), 2), ("b".to_string(), 3)]));
}

#[test]
fn set_text_sections_without_text_does_nothing() {
    let mut text: Option<Vec<TextSection<Style>>> = None;
    assert!(!SetTextSections { sections: vec![section("a", 2)] }.apply(&mut text));
    assert!(text.is_none());
}

#[test]
fn set_text_uses_requested_or_default_style() {
    let mut text = Some(vec![section("x", 1), section("y", 1)]);
    assert!(SetText { text: "hello".to_string(), style: Some(Style { size: 9 }) }.apply(&mut text));
    assert_eq!(values(&text), Some(vec![("hello".to_string(), 9)]));
    assert!(SetText { text: "bye".to_string(), style: None }.apply(&mut text));
    assert_eq!(values(&text), Some(vec![("bye".to_string(), 0)]));
}

#[test]
fn set_text_without_text_does_nothing() {
    let mut text: Option<Vec<TextSection<Style>>> = None;
    assert!(!SetText { text: "a".to_string(), style: None }.apply(&mut text));
    assert!(text.is_none());
}

#[test]
fn text_ext_traits() {
    let mut text = Some(vec![]);
    text.set_text_sections(vec![section("a", 1)]).set_text("b".to_string(), Some(Style { size: 4 }));
    assert_eq!(values(&text), Some(vec![("b".to_string(), 4)]));
    let mut none: Option<Vec<TextSection<Style>>> = None;
    none.set_text("c".to_string(), None);
    assert!(none.is_none());
}
