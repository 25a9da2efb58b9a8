use notedown::Settings;

fn plain() -> Settings {
    Settings { tab_size: 2, pangu_space: false }
}

#[test]
fn format_normalises_headings_and_blank_lines() {
    let out = plain().format("#   Title\n\n\n\nHello *world*.");
    assert_eq!(out, "# Title\n\nHello *world*.\n");
}

#[test]
fn format_keeps_single_newlines_between_blocks() {
    let out = plain().format_program("# A\ntext\n---");
    assert_eq!(out, "# A\ntext\n---\n");
}

#[test]
fn format_code_and_command_lines() {
    assert_eq!(plain().format_program("```rust  \nfn f() {}\n```"), "```rust\nfn f() {}\n```\n");
    assert_eq!(plain().format_program("````\n\n  code  \n\n````"), "````\ncode\n````\n");
    assert_eq!(plain().format_program("\\title:    Hi  "), "\\title: Hi\n");
}

#[test]
fn format_expands_tabs() {
    assert_eq!(plain().format("a\tb"), "a  b\n");
    assert_eq!(Settings { tab_size: 4, pangu_space: false }.format("a\tb"), "a    b\n");
    assert_eq!(plain().format("a\n\rb"), "a\nb\n");
}

#[test]
fn format_spaces_cjk_when_asked() {
    let spaced = Settings { tab_size: 2, pangu_space: true };
    assert_eq!(spaced.format_program("中文English"), "中文 English\n");
    assert_eq!(plain().format_program("中文English"), "中文English\n");
}

#[test]
fn format_empty_text() {
    assert_eq!(plain().format(""), "");
    let d = Settings::default();
    assert_eq!(d.tab_size, 2);
    assert!(d.pangu_space);
}

#[test]
fn format_quote_lines() {
    assert_eq!(plain().format_program(">x\n>   y"), "> x\n> y\n");
}

#[test]
fn format_keeps_paragraph_indent() {
    assert_eq!(plain().format_program("  a\n    b"), "  a\n    b\n");
    assert_eq!(plain().format_program("  a\n  b"), "  a\n  b\n");
}
