use plotredox::state::{AppMode, SerializableGroup, SerializableIdeState};
use plotredox::syntax::syntect_lang;

#[test]
fn code_block_languages() {
    assert_eq!(syntect_lang("rhai"), "rs");
    assert_eq!(syntect_lang("rust"), "rs");
    assert_eq!(syntect_lang("javascript"), "js");
    assert_eq!(syntect_lang("python"), "py");
    assert_eq!(syntect_lang("toml"), "toml");
    assert_eq!(syntect_lang("json"), "json");
    assert_eq!(syntect_lang(""), "rs");
    assert_eq!(syntect_lang("Python"), "rs");
}

#[test]
fn state_defaults() {
    let g = SerializableGroup::default();
    assert!(g.name.is_empty());
    assert_eq!(g.color, [0, 0, 0, 0]);
    let ide = SerializableIdeState::default();
    assert!(!ide.is_open);
    assert!(ide.code.is_empty());
    assert!(ide.user_scripts.is_empty());
    assert!(AppMode::Select != AppMode::Pan);
}
