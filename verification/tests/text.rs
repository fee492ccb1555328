use cargo_tree_tui::style::{span, StyledSpan, TextLine, Tone, TreeWidgetStyle};
use cargo_tree_tui::text::{chars_of, contains_chars, lower_chars, to_lower};

fn chars(s: &str) -> Vec<char> {
    s.chars().collect()
}

#[test]
fn characters_of_a_string() {
    assert_eq!(chars_of(""), Vec::<char>::new());
    assert_eq!(chars_of("a→b"), vec!['a', '→', 'b']);
}

#[test]
fn ascii_letters_are_lowered_and_nothing_else() {
    assert_eq!(to_lower('A'), 'a');
    assert_eq!(to_lower('Z'), 'z');
    assert_eq!(to_lower('m'), 'm');
    assert_eq!(to_lower('@'), '@');
    assert_eq!(to_lower('['), '[');
    assert_eq!(to_lower('É'), 'É');
    assert_eq!(lower_chars(&chars("Serde_JSON-É1")), chars("serde_json-É1"));
    assert_eq!(lower_chars(&chars("")), chars(""));
}

#[test]
fn infix_search() {
    assert!(contains_chars(&chars("serde_json"), &chars("de_j")));
    assert!(contains_chars(&chars("serde_json"), &chars("serde_json")));
    assert!(contains_chars(&chars("serde_json"), &chars("")));
    assert!(contains_chars(&chars(""), &chars("")));
    assert!(contains_chars(&chars("aab"), &chars("ab")));
    assert!(!contains_chars(&chars("serde"), &chars("serde_")));
    assert!(!contains_chars(&chars("serde"), &chars("sd")));
    assert!(!contains_chars(&chars(""), &chars("a")));
}

#[test]
fn line_text_runs_the_spans_together() {
    let line = TextLine {
        spans: vec![
            span("│  ", Tone::Plain),
            span("└──", Tone::Plain),
            StyledSpan {
                text: "• ".to_string(),
                tone: Tone::Plain,
            },
            span("serde", Tone::Name),
        ],
    };
    assert_eq!(line.to_text(), "│  └──• serde");
    assert_eq!(line.spans[3].tone, Tone::Name);
    assert_eq!(TextLine { spans: vec![] }.to_text(), "");
}

#[test]
fn default_glyphs() {
    let style = TreeWidgetStyle::default();
    assert_eq!(style.node_symbol, "•");
    assert_eq!(style.node_closed_symbol, "▸");
    assert_eq!(style.node_open_symbol, "▾");
    assert_eq!(style.branch_symbol, "├──");
    assert_eq!(style.last_branch_symbol, "└──");
    assert_eq!(style.continuation_symbol, "│  ");
    assert_eq!(style.empty_symbol, "   ");
}
