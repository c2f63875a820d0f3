//! Language hints of fenced code blocks in the scripting help.
use vstd::prelude::*;

verus! {

/// The highlighter's file extension for a code-block language hint: Rhai
/// and Rust map to `rs`, JavaScript to `js`, Python to `py`, TOML and JSON
/// to themselves, and anything else to `rs`.
pub open spec fn syntax_extension(hint: Seq<char>) -> Seq<char> {
    if hint == "rhai"@ || hint == "rust"@ || hint == "rs"@ {
        "rs"@
    } else if hint == "js"@ || hint == "javascript"@ {
        "js"@
    } else if hint == "py"@ || hint == "python"@ {
        "py"@
    } else if hint == "toml"@ {
        "toml"@
    } else if hint == "json"@ {
        "json"@
    } else {
        "rs"@
    }
}

/// Whether `hint` is the text `word`.
fn is_word(hint: &String, word: &str) -> (r: bool)
    ensures
        r == (hint@ == word@),
{
    let w = word.to_owned();
    *hint == w
}

/// Maps a code-block language hint to the extension the highlighter knows.
pub fn syntect_lang(hint: &str) -> (ext: &'static str)
    ensures
        ext@ == syntax_extension(hint@),
{
    let h = hint.to_owned();
    if is_word(&h, "rhai") || is_word(&h, "rust") || is_word(&h, "rs") {
        "rs"
    } else if is_word(&h, "js") || is_word(&h, "javascript") {
        "js"
    } else if is_word(&h, "py") || is_word(&h, "python") {
        "py"
    } else if is_word(&h, "toml") {
        "toml"
    } else if is_word(&h, "json") {
        "json"
    } else {
        "rs"
    }
}

} // verus!
