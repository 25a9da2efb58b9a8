use notedown::{
    analyze, ASTKind, ASTNode, DiagnosticLevel, DocState, DocumentStore, EditError, Span,
    TextEdit, TextKind,
};

fn sp(a: usize, b: usize) -> Span {
    Span::new(a, b)
}

fn text(s: &str, a: usize, b: usize) -> ASTNode {
    ASTKind::text(s.to_string(), sp(a, b))
}

fn blocks(ast: &ASTNode) -> &Vec<ASTNode> {
    match &ast.kind {
        ASTKind::Statements(c) => c,
        other => panic!("not a document: {:?}", other),
    }
}

#[test]
fn heading_and_emphasis() {
    let (ast, diagnostics, _) = analyze("# Title\n\nHello *world*.");
    let expected = ASTKind::statements(
        vec![
            ASTKind::header(vec![text("Title", 2, 7)], 1, sp(0, 7)),
            ASTKind::paragraph(
                vec![
                    text("Hello ", 9, 15),
                    ASTKind::emphasis(vec![text("world", 16, 21)], sp(15, 22)),
                    text(".", 22, 23),
                ],
                sp(9, 23),
            ),
        ],
        sp(0, 23),
    );
    assert_eq!(ast, expected);
    assert!(diagnostics.is_empty());
}

#[test]
fn consecutive_heading_levels() {
    let (ast, diagnostics, _) = analyze("### \n#### Sub");
    let b = blocks(&ast);
    assert_eq!(b.len(), 2);
    match (&b[0].kind, &b[1].kind) {
        (ASTKind::Header(h1), ASTKind::Header(h2)) => {
            assert_eq!(h1.level, 3);
            assert_eq!(h2.level, 4);
        }
        other => panic!("{:?}", other),
    }
    assert!(diagnostics.is_empty());
}

#[test]
fn skipped_heading_level() {
    let (ast, diagnostics, _) = analyze("### \n###### Sub");
    let b = blocks(&ast);
    assert_eq!(diagnostics.len(), 1);
    assert_eq!(diagnostics[0].severity, DiagnosticLevel::Information);
    assert_eq!(diagnostics[0].span, b[1].span);
    assert_eq!(diagnostics[0].span, sp(5, 15));
}

#[test]
fn unterminated_style() {
    let (ast, diagnostics, _) = analyze("*bold");
    let b = blocks(&ast);
    match &b[0].kind {
        ASTKind::Paragraph(c) => {
            assert_eq!(c.len(), 1);
            assert_eq!(c[0].span, sp(0, 5));
            match &c[0].kind {
                ASTKind::Error(e) => {
                    assert_eq!(e.recovered_text, "*bold");
                    assert_eq!(e.message, "unterminated inline markup");
                }
                other => panic!("{:?}", other),
            }
        }
        other => panic!("{:?}", other),
    }
    assert_eq!(diagnostics.len(), 1);
    assert_eq!(diagnostics[0].severity, DiagnosticLevel::Error);
    assert_eq!(diagnostics[0].span, sp(0, 5));
}

#[test]
fn duplicate_slugs() {
    let (ast, diagnostics, toc) = analyze("# Intro\n# Intro");
    let b = blocks(&ast);
    assert_eq!(toc.len(), 2);
    assert_eq!(toc[0].slug, "intro");
    assert_eq!(toc[1].slug, "intro-1");
    assert_eq!(diagnostics.len(), 1);
    assert_eq!(diagnostics[0].severity, DiagnosticLevel::Warning);
    assert_eq!(diagnostics[0].span, b[1].span);
}

#[test]
fn edit_replaces_one_word() {
    let mut store = DocumentStore::new();
    store.open("doc", Ok("# Title\n\nHello *world*.".to_string()), 1);
    let before = store.snapshot("doc").unwrap().version;
    let edits = vec![TextEdit { start: 16, end: 21, replacement: "there".to_string() }];
    assert_eq!(store.apply_edits("doc", &edits, 2), Ok(()));
    let snap = store.snapshot("doc").unwrap();
    assert_eq!(snap.text, "# Title\n\nHello *there*.");
    assert_eq!(snap.version, before + 1);
    assert!(snap.diagnostics.is_empty());
    let (old_ast, _, _) = analyze("# Title\n\nHello *world*.");
    let old_blocks = blocks(&old_ast);
    let new_blocks = blocks(&snap.ast);
    assert_eq!(old_blocks[0], new_blocks[0]);
    match (&old_blocks[1].kind, &new_blocks[1].kind) {
        (ASTKind::Paragraph(a), ASTKind::Paragraph(b)) => {
            assert_eq!(a[0], b[0]);
            assert_eq!(a[2], b[2]);
            assert_eq!(b[1], ASTKind::emphasis(vec![text("there", 16, 21)], sp(15, 22)));
        }
        other => panic!("{:?}", other),
    }
}

#[test]
fn two_sweeps_collect_a_marked_document() {
    let mut store = DocumentStore::new();
    store.open("doc", Ok("text".to_string()), 1);
    store.mark("doc");
    assert_eq!(store.state("doc"), Some(DocState::Marked { swept: false }));
    store.sweep();
    assert!(store.snapshot("doc").is_some());
    store.sweep();
    assert!(store.snapshot("doc").is_none());
}

#[test]
fn reopen_between_mark_and_sweep_keeps_the_document() {
    let mut store = DocumentStore::new();
    store.open("doc", Ok("one".to_string()), 1);
    store.mark("doc");
    store.open("doc", Ok("two".to_string()), 2);
    store.sweep();
    store.sweep();
    let snap = store.snapshot("doc").unwrap();
    assert_eq!(snap.text, "two");
    assert_eq!(snap.version, 2);
    assert_eq!(store.state("doc"), Some(DocState::Open));
}

#[test]
fn sweep_keeps_open_documents() {
    let mut store = DocumentStore::new();
    store.open("a", Ok("a".to_string()), 1);
    store.open("b", Ok("b".to_string()), 1);
    store.mark("a");
    store.sweep();
    store.sweep();
    assert!(store.snapshot("a").is_none());
    assert!(store.snapshot("b").is_some());
}

#[test]
fn reparse_is_identical() {
    let t = "# A\n\n- one *x*\n- two\n\n```rust\nfn f() {}\n```\n| a | b |\n|---|:-:|\n| 1 | 2 |\n\\foo: bar";
    let first = analyze(t);
    let second = analyze(t);
    assert_eq!(first.0, second.0);
    assert_eq!(first.1, second.1);
    assert_eq!(first.2, second.2);
}

fn check_nesting(n: &ASTNode) {
    assert!(n.span.start <= n.span.end);
    let children: &[ASTNode] = match &n.kind {
        ASTKind::Statements(c) | ASTKind::Paragraph(c) => c,
        ASTKind::Header(h) => &h.children,
        ASTKind::ListView(l) => &l.items,
        ASTKind::StyledSpan(s) => &s.children,
        ASTKind::Quote(q) => &q.body,
        _ => &[],
    };
    for (i, c) in children.iter().enumerate() {
        assert!(n.span.start <= c.span.start && c.span.end <= n.span.end);
        if i + 1 < children.len() {
            assert!(c.span.end <= children[i + 1].span.start);
        }
        check_nesting(c);
    }
}

#[test]
fn spans_nest_in_a_mixed_document() {
    let t = "# Head *a* $x$\n\n> quote **b**\n> more\n\n1. one\n2. two ~u~\n\npara \\* text\nnext $$y$$ line\n\\title: T";
    let (ast, _, _) = analyze(t);
    assert_eq!(ast.span, sp(0, t.len()));
    check_nesting(&ast);
}

#[test]
fn snapshot_pairs_tree_and_diagnostics_of_one_text() {
    let mut store = DocumentStore::new();
    store.open("doc", Ok("*bold".to_string()), 1);
    let edits = vec![TextEdit { start: 5, end: 5, replacement: "*".to_string() }];
    store.apply_edits("doc", &edits, 2).unwrap();
    let snap = store.snapshot("doc").unwrap();
    let (ast, diagnostics, toc) = analyze(&snap.text);
    assert_eq!(snap.ast, ast);
    assert_eq!(snap.diagnostics, diagnostics);
    assert_eq!(snap.toc, toc);
    assert!(snap.diagnostics.is_empty());
}

#[test]
fn soft_break_inside_paragraph() {
    let (ast, _, _) = analyze("a\nb");
    let b = blocks(&ast);
    match &b[0].kind {
        ASTKind::Paragraph(c) => {
            assert_eq!(c.len(), 3);
            assert_eq!(c[1].kind, ASTKind::TextSpan(TextKind::SoftNewline));
        }
        other => panic!("{:?}", other),
    }
}

#[test]
fn edits_are_refused_whole() {
    let mut store = DocumentStore::new();
    assert_eq!(store.apply_edits("nope", &vec![], 1), Err(EditError::UnknownDocument));
    store.open("doc", Ok("abc".to_string()), 1);
    let edits = vec![
        TextEdit { start: 0, end: 1, replacement: "x".to_string() },
        TextEdit { start: 2, end: 9, replacement: "y".to_string() },
    ];
    assert_eq!(store.apply_edits("doc", &edits, 2), Err(EditError::InvalidRange(1)));
    let snap = store.snapshot("doc").unwrap();
    assert_eq!(snap.text, "abc");
    assert_eq!(snap.version, 1);
}

#[test]
fn edits_apply_in_order() {
    let mut store = DocumentStore::new();
    store.open("doc", Ok("abc".to_string()), 1);
    let edits = vec![
        TextEdit { start: 0, end: 1, replacement: "xy".to_string() },
        TextEdit { start: 3, end: 4, replacement: "z".to_string() },
    ];
    assert_eq!(store.apply_edits("doc", &edits, 2), Ok(()));
    assert_eq!(store.snapshot("doc").unwrap().text, "xybz");
}

#[test]
fn edit_inside_a_character_is_refused() {
    let mut store = DocumentStore::new();
    store.open("doc", Ok("é".to_string()), 1);
    let edits = vec![TextEdit { start: 1, end: 2, replacement: "e".to_string() }];
    assert_eq!(store.apply_edits("doc", &edits, 2), Err(EditError::InvalidRange(0)));
}

#[test]
fn unreadable_document_gets_one_error() {
    let mut store = DocumentStore::new();
    store.open("gone", Err("file not found".to_string()), 1);
    let snap = store.snapshot("gone").unwrap();
    assert_eq!(snap.diagnostics.len(), 1);
    assert_eq!(snap.diagnostics[0].severity, DiagnosticLevel::Error);
    assert_eq!(snap.diagnostics[0].message, "file not found");
    assert_eq!(snap.ast, ASTKind::statements(vec![], sp(0, 0)));
    assert_eq!(snap.read_error, Some("file not found".to_string()));
    assert_eq!(snap.text, "");
}

#[test]
fn versions_count_opens() {
    let mut store = DocumentStore::new();
    assert!(store.snapshot("doc").is_none());
    store.open("doc", Ok("a".to_string()), 1);
    store.open("doc", Ok("b".to_string()), 2);
    store.open("doc", Ok("c".to_string()), 3);
    let snap = store.snapshot("doc").unwrap();
    assert_eq!(snap.version, 3);
    assert_eq!(snap.last_touched, 3);
}
