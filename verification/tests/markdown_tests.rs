use plotredox::markdown::{
    contains_dashes, parse_help, parse_inline, starts_with_chars, table_cells, trim_chars,
    trim_start_chars, Block, SpanKind,
};

fn chars(s: &str) -> Vec<char> {
    s.chars().collect()
}

fn text(v: &[char]) -> String {
    v.iter().collect()
}

fn spans(s: &str) -> Vec<(SpanKind, String)> {
    parse_inline(&chars(s)).into_iter().map(|sp| (sp.kind, text(&sp.text))).collect()
}

fn lines(s: &str) -> Vec<Vec<char>> {
    s.lines().map(chars).collect()
}

fn describe(b: &Block) -> String {
    match b {
        Block::Table(rows) => {
            let rs: Vec<String> = rows
                .iter()
                .map(|r| r.iter().map(|c| text(c)).collect::<Vec<_>>().join("|"))
                .collect();
            format!("table[{}]", rs.join(";"))
        }
        Block::Code(lang, code) => format!("code({}):{}", text(lang), text(code)),
        Block::Space => "space".to_string(),
        Block::Rule => "rule".to_string(),
        Block::Heading(n, t) => format!("h{}:{}", n, text(t)),
        Block::Quote(t) => format!("quote:{}", text(t)),
        Block::Bullet(t) => format!("bullet:{}", text(t)),
        Block::Paragraph(t) => format!("para:{}", text(t)),
    }
}

fn blocks(s: &str) -> Vec<String> {
    parse_help(&lines(s)).iter().map(describe).collect()
}

#[test]
fn inline_plain_code_and_bold() {
    assert_eq!(
        spans("call `linreg(x, y)` for a **fit** now"),
        vec![
            (SpanKind::Plain, "call ".to_string()),
            (SpanKind::Code, "linreg(x, y)".to_string()),
            (SpanKind::Plain, " for a ".to_string()),
            (SpanKind::Bold, "fit".to_string()),
            (SpanKind::Plain, " now".to_string()),
        ]
    );
}

#[test]
fn inline_unclosed_markers() {
    assert_eq!(spans("a `b"), vec![(SpanKind::Plain, "a ".to_string()), (SpanKind::Code, "b".to_string())]);
    assert_eq!(spans("**ab"), vec![(SpanKind::Bold, "a".to_string()), (SpanKind::Plain, "b".to_string())]);
    assert_eq!(spans("x*"), vec![(SpanKind::Plain, "x*".to_string())]);
    assert_eq!(spans("``"), vec![(SpanKind::Code, String::new())]);
    assert!(spans("").is_empty());
}

#[test]
fn trimming_white_space() {
    assert_eq!(text(&trim_chars(&chars("  a b \t"))), "a b");
    assert_eq!(text(&trim_start_chars(&chars("\u{3000} x "))), "x ");
    assert_eq!(text(&trim_chars(&chars(" \n "))), "");
}

#[test]
fn prefixes_dashes_and_cells() {
    assert!(starts_with_chars(&chars("### x"), &chars("### ")));
    assert!(!starts_with_chars(&chars("##"), &chars("## ")));
    assert!(contains_dashes(&chars("|---|:---:|")));
    assert!(!contains_dashes(&chars("| -- |")));
    let cells: Vec<String> = table_cells(&chars("| a | b c || |")).iter().map(|c| text(c)).collect();
    assert_eq!(cells, vec!["a", "b c", ""]);
}

#[test]
fn help_blocks_of_a_document() {
    let md = "# Title\n\nSome **text**.\n## Part\n| Name | Use |\n|---|---|\n| `sum` | add |\nafter\n```rhai\nlet x = 1;\n\nprint(x);\n```\n> note\n- item\n* other\n---\n#### Small\n### Mid";
    assert_eq!(
        blocks(md),
        vec![
            "h1:Title",
            "space",
            "para:Some **text**.",
            "h2:Part",
            "table[Name|Use;`sum`|add]",
            "para:after",
            "code(rhai):let x = 1;\n\nprint(x);",
            "quote:note",
            "bullet:item",
            "bullet:other",
            "rule",
            "h4:Small",
            "h3:Mid",
        ]
    );
}

#[test]
fn help_code_block_details() {
    assert_eq!(blocks("```\n\nx\n```"), vec!["code():x"]);
    assert_eq!(blocks("  ``` py \na\n```"), vec!["code(py):a"]);
    assert_eq!(blocks("```\nnever closed"), Vec::<String>::new());
    assert_eq!(blocks("| a |\n```\nc\n```"), vec!["table[a]", "code():c"]);
}

#[test]
fn help_table_at_end_is_kept() {
    assert_eq!(blocks("text\n| a | b |\n| c |"), vec!["para:text", "table[a|b;c]"]);
    assert_eq!(blocks("| |\n"), vec!["table[]"]);
    assert_eq!(blocks("||\n"), Vec::<String>::new());
}
