use notedown::{
    table_of_contents, InlineMathSpan, DisplayMathSpan, NoteError,
    parse, GrammarError, analyze, apply_edit, completion_candidates, completion_class, lower, node_at_offset,
    parse_program, path_at_offset, ASTKind, ASTNode, CodeNode, CompletionClass, DiagnosticLevel,
    MathNode, MathStyle, ParseTree, RuleTag, Span, StyleKind, StyleNode, TableAlignMode,
    TableNode, TextKind, Value, LinkNode, NoteErrorKind,
};

fn first_block(t: &str) -> ASTNode {
    let (ast, _, _) = analyze(t);
    match ast.kind {
        ASTKind::Statements(mut c) => c.remove(0),
        other => panic!("{:?}", other),
    }
}

fn inline(t: &str) -> Vec<ASTNode> {
    match first_block(t).kind {
        ASTKind::Paragraph(c) => c,
        other => panic!("{:?}", other),
    }
}

#[test]
fn code_block() {
    let b = first_block("```rust\nfn f() {}\n```");
    assert_eq!(
        b.kind,
        ASTKind::CodeNode(CodeNode { language: "rust".to_string(), code: "fn f() {}".to_string() })
    );
    assert_eq!(b.span, Span::new(0, 21));
}

#[test]
fn unclosed_code_block_is_an_error() {
    let (ast, diagnostics, _) = analyze("```\ncode");
    match &ast.kind {
        ASTKind::Statements(c) => match &c[0].kind {
            ASTKind::Error(e) => assert_eq!(e.message, "unterminated code block"),
            other => panic!("{:?}", other),
        },
        other => panic!("{:?}", other),
    }
    assert_eq!(diagnostics.len(), 1);
}

#[test]
fn ordered_list_numbers() {
    match first_block("3. a\n4. b").kind {
        ASTKind::ListView(l) => {
            assert_eq!(l.first_item_number, Some(3));
            assert!(l.ordered());
            assert_eq!(l.items.len(), 2);
        }
        other => panic!("{:?}", other),
    }
    match first_block("- a\n- b\n- c").kind {
        ASTKind::ListView(l) => {
            assert_eq!(l.first_item_number, None);
            assert!(!l.ordered());
            assert_eq!(l.items.len(), 3);
        }
        other => panic!("{:?}", other),
    }
}

#[test]
fn table_with_alignments() {
    match first_block("| a | b |\n|:--|:-:|\n| 1 |\n| 2 | 3 | 4 |").kind {
        ASTKind::TableView(t) => {
            assert_eq!(t.title, vec!["a".to_string(), "b".to_string()]);
            assert_eq!(t.align, vec![TableAlignMode::Left, TableAlignMode::Center]);
            assert_eq!(t.content, vec![vec!["1".to_string()], vec!["2".to_string(), "3".to_string(), "4".to_string()]]);
            assert_eq!(t.count_columns(), 3);
        }
        other => panic!("{:?}", other),
    }
}

#[test]
fn table_without_alignment_row() {
    match first_block("| a |\n| b |").kind {
        ASTKind::TableView(t) => {
            assert!(t.align.is_empty());
            assert_eq!(t.content, vec![vec!["b".to_string()]]);
        }
        other => panic!("{:?}", other),
    }
}

#[test]
fn fill_columns_keeps_ragged_rows() {
    let mut t = TableNode {
        title: vec!["a".to_string()],
        align: vec![],
        content: vec![vec!["1".to_string(), "2".to_string()], vec![]],
    };
    t.fill_columns();
    assert_eq!(t.title, vec!["a".to_string()]);
    assert_eq!(t.content, vec![vec!["1".to_string(), "2".to_string()], vec![]]);
    assert_eq!(t.count_columns(), 2);
}

#[test]
fn math_spans_keep_their_source() {
    let i = InlineMathSpan { text: "x^2".to_string(), span: Span::new(0, 5) };
    assert_eq!(i.as_hir(), CodeNode { language: "tex".to_string(), code: "x^2".to_string() });
    let d = DisplayMathSpan { text: "y".to_string(), span: Span::new(0, 5) };
    assert_eq!(d.as_hir(), CodeNode { language: String::new(), code: "y".to_string() });
}

#[test]
fn outline_includes_nested_headings() {
    let ast = ASTKind::statements(
        vec![
            ASTKind::header(vec![ASTKind::text("Top".to_string(), Span::new(2, 5))], 1, Span::new(0, 5)),
            ASTKind::quote(
                vec![ASTKind::header(vec![ASTKind::text("Inner".to_string(), Span::new(9, 14))], 2, Span::new(6, 14))],
                Span::new(6, 14),
            ),
        ],
        Span::new(0, 14),
    );
    let toc = table_of_contents(&ast);
    assert_eq!(toc.len(), 2);
    assert_eq!(toc[1].title, "Inner");
    assert_eq!(toc[1].parent, Some(0));
}

#[test]
fn command_line() {
    let b = first_block("\\title: Hello world");
    match b.kind {
        ASTKind::Command(c) => {
            assert_eq!(c.name, "title");
            assert_eq!(c.arguments, vec![Value::String("Hello world".to_string())]);
            assert!(c.body.is_none());
        }
        other => panic!("{:?}", other),
    }
    let (_, diagnostics, _) = analyze("\\title: Hello world");
    assert!(diagnostics.is_empty());
}

#[test]
fn unknown_command_warns() {
    let (_, diagnostics, _) = analyze("\\frobnicate: x");
    assert_eq!(diagnostics.len(), 1);
    assert_eq!(diagnostics[0].severity, DiagnosticLevel::Warning);
    assert_eq!(diagnostics[0].message, "unknown command");
}

#[test]
fn empty_command_name_is_an_error() {
    let b = first_block("\\: rest");
    match b.kind {
        ASTKind::Error(e) => {
            assert_eq!(e.message, "command name is empty");
            assert_eq!(e.recovered_text, "\\: rest");
        }
        other => panic!("{:?}", other),
    }
}

#[test]
fn too_many_heading_markers_is_an_error() {
    let (ast, diagnostics, _) = analyze("####### seven");
    match &ast.kind {
        ASTKind::Statements(c) => match &c[0].kind {
            ASTKind::Error(e) => assert_eq!(e.message, "heading level must be between 1 and 6"),
            other => panic!("{:?}", other),
        },
        other => panic!("{:?}", other),
    }
    assert_eq!(diagnostics[0].severity, DiagnosticLevel::Error);
}

#[test]
fn escapes_math_and_inline_commands() {
    let c = inline("a\\*b $x+1$ $$y$$ \\toc");
    assert_eq!(c[1].kind, ASTKind::TextSpan(TextKind::Escaped('*')));
    assert_eq!(c[3].kind, ASTKind::MathNode(MathNode { style: MathStyle::Inline, math: "x+1".to_string() }));
    assert_eq!(c[5].kind, ASTKind::MathNode(MathNode { style: MathStyle::Display, math: "y".to_string() }));
    match &c[7].kind {
        ASTKind::Command(cmd) => assert_eq!(cmd.name, "toc"),
        other => panic!("{:?}", other),
    }
}

#[test]
fn style_markers_by_run_length() {
    let c = inline("**a** ***b*** ~c~ ~~d~~ ~~~e~~~");
    let kinds: Vec<StyleKind> = c
        .iter()
        .filter_map(|n| match &n.kind {
            ASTKind::StyledSpan(s) => Some(s.kind),
            _ => None,
        })
        .collect();
    assert_eq!(
        kinds,
        vec![StyleKind::Strong, StyleKind::ItalicBold, StyleKind::Underline, StyleKind::Delete, StyleKind::Undercover]
    );
}

#[test]
fn four_asterisks_take_the_longest_marker() {
    let c = inline("****a***");
    match &c[0].kind {
        ASTKind::StyledSpan(s) => {
            assert_eq!(s.kind, StyleKind::ItalicBold);
            assert_eq!(c[0].span, Span::new(0, 8));
        }
        other => panic!("{:?}", other),
    }
}

#[test]
fn non_ascii_text_is_decoded() {
    let c = inline("Café ünï");
    assert_eq!(c[0].kind, ASTKind::TextSpan(TextKind::Normal("Café ünï".to_string())));
    assert_eq!(c[0].span, Span::new(0, "Café ünï".len()));
}

#[test]
fn outline_nesting_and_slugs() {
    let (_, _, toc) = analyze("# Hello World!\n## Part A\n### Deep\n## Part B\n# End");
    assert_eq!(toc.len(), 5);
    assert_eq!(toc[0].slug, "hello-world");
    assert_eq!(toc[0].title, "Hello World!");
    assert_eq!(toc[0].parent, None);
    assert_eq!(toc[1].parent, Some(0));
    assert_eq!(toc[2].parent, Some(1));
    assert_eq!(toc[3].parent, Some(0));
    assert_eq!(toc[4].parent, None);
    assert_eq!(toc[1].slug, "part-a");
}

#[test]
fn many_duplicate_slugs_count_up() {
    let t = "# x\n".repeat(12);
    let (_, diagnostics, toc) = analyze(&t);
    assert_eq!(toc[11].slug, "x-11");
    assert_eq!(diagnostics.len(), 11);
}

#[test]
fn lowering_accepts_malformed_trees() {
    let tree = ParseTree { rule: RuleTag::Header, span: Span::new(0, 3), children: vec![] };
    let node = lower(&tree, b"abc");
    assert_eq!(node.span, Span::new(0, 3));
    match node.kind {
        ASTKind::Error(e) => assert_eq!(e.recovered_text, "abc"),
        other => panic!("{:?}", other),
    }
    let stray = ParseTree { rule: RuleTag::TableCell, span: Span::new(2, 9), children: vec![] };
    match lower(&stray, b"abc").kind {
        ASTKind::Error(e) => {
            assert_eq!(e.message, "unexpected syntax");
            assert_eq!(e.recovered_text, "");
        }
        other => panic!("{:?}", other),
    }
}

#[test]
fn parse_tree_rules() {
    let tree = parse_program(b"# a\n\ntext");
    assert_eq!(tree.rule, RuleTag::Program);
    assert_eq!(tree.children.len(), 2);
    assert_eq!(tree.children[0].rule, RuleTag::Header);
    assert_eq!(tree.children[0].children[0].rule, RuleTag::HeaderMarker);
    assert_eq!(tree.children[1].rule, RuleTag::Paragraph);
    assert_eq!(tree.children[1].span, Span::new(5, 9));
}

#[test]
fn hover_prefers_the_earlier_of_adjacent_spans() {
    let (ast, _, _) = analyze("ab*cd*");
    let n = node_at_offset(&ast, 2);
    assert_eq!(n.kind, ASTKind::TextSpan(TextKind::Normal("ab".to_string())));
    assert_eq!(path_at_offset(&ast, 2), vec![0, 0]);
    let inner = node_at_offset(&ast, 4);
    assert_eq!(inner.kind, ASTKind::TextSpan(TextKind::Normal("cd".to_string())));
    assert_eq!(path_at_offset(&ast, 4), vec![0, 1, 0]);
}

#[test]
fn completion_by_context() {
    let (ast, _, _) = analyze("hi $x$ \\toc");
    assert_eq!(completion_class(&ast, 1), CompletionClass::StyleMarker);
    assert_eq!(completion_class(&ast, 4), CompletionClass::MathSnippet);
    assert_eq!(completion_class(&ast, 9), CompletionClass::CommandName);
    let (cmd, _, _) = analyze("\\title: Hello");
    assert_eq!(completion_class(&cmd, 3), CompletionClass::CommandName);
    assert_eq!(completion_class(&cmd, 10), CompletionClass::Nothing);
    assert!(completion_candidates(&ast, 9).contains(&"title".to_string()));
    assert!(completion_candidates(&ast, 1).contains(&"**".to_string()));
    let (rule, _, _) = analyze("---");
    assert_eq!(completion_class(&rule, 1), CompletionClass::Nothing);
    assert!(completion_candidates(&rule, 1).is_empty());
}

#[test]
fn horizontal_rule_and_quote() {
    assert_eq!(first_block("---").kind, ASTKind::hr(Span::new(0, 3)).kind);
    match first_block("> a\n> b").kind {
        ASTKind::Quote(q) => {
            assert_eq!(q.style, None);
            assert_eq!(q.body.len(), 2);
        }
        other => panic!("{:?}", other),
    }
}

#[test]
fn style_names_and_markers() {
    assert_eq!(StyleKind::from_marker("*"), StyleKind::Emphasis);
    assert_eq!(StyleKind::from_marker("bold"), StyleKind::Strong);
    assert_eq!(StyleKind::from_marker("~~"), StyleKind::Delete);
    assert_eq!(StyleKind::from_marker("???"), StyleKind::Plain);
    assert_eq!(StyleKind::Strong.surround_in(), "**");
    assert_eq!(StyleKind::Subscript.surround_out(), "</sub>");
    let s = StyleNode::new(vec![], "u");
    assert_eq!(s.kind, StyleKind::Underline);
}

#[test]
fn text_kind_constructors() {
    assert_eq!(TextKind::escaped("\\n".to_string()), Some(TextKind::Escaped('n')));
    assert_eq!(TextKind::escaped("n".to_string()), None);
    assert_eq!(TextKind::escaped("\\".to_string()), None);
    assert_eq!(TextKind::emoji("😀x".to_string()), TextKind::Emoji('😀'));
    assert_eq!(TextKind::emoji(String::new()), TextKind::Empty);
    assert_eq!(ASTKind::escaped("", Span::new(0, 1)).kind, ASTKind::TextSpan(TextKind::Escaped('\\')));
}

#[test]
fn apply_edit_on_text() {
    assert_eq!(apply_edit("hello", 1, 3, "EY"), Some("hEYlo".to_string()));
    assert_eq!(apply_edit("hello", 3, 1, "x"), None);
    assert_eq!(apply_edit("hello", 0, 6, "x"), None);
}

#[test]
fn command_argument_literals() {
    fn arg(t: &str) -> Vec<Value> {
        match first_block(t).kind {
            ASTKind::Command(c) => c.arguments,
            other => panic!("{:?}", other),
        }
    }
    assert_eq!(arg("\\date: 2024"), vec![Value::Integer("2024".to_string())]);
    assert_eq!(arg("\\color: -1.50"), vec![Value::Decimal("-1.50".to_string())]);
    assert_eq!(arg("\\toc: true"), vec![Value::Boolean(true)]);
    assert_eq!(arg("\\toc: false"), vec![Value::Boolean(false)]);
    assert_eq!(arg("\\toc: 1.2.3"), vec![Value::String("1.2.3".to_string())]);
    assert_eq!(arg("\\toc:"), vec![]);
    assert_eq!(
        arg("\\toc: [1, 2.5, [true], x y, ]"),
        vec![Value::List(vec![
            Value::Integer("1".to_string()),
            Value::Decimal("2.5".to_string()),
            Value::List(vec![Value::Boolean(true)]),
            Value::String("x y".to_string()),
        ])]
    );
    assert_eq!(
        arg("\\image: {src: a.png, size: [1, 2], alt}"),
        vec![Value::Dict(vec![
            ("src".to_string(), Value::String("a.png".to_string())),
            ("size".to_string(), Value::List(vec![Value::Integer("1".to_string()), Value::Integer("2".to_string())])),
            ("alt".to_string(), Value::Null),
        ])]
    );
    assert_eq!(arg("\\toc: []"), vec![Value::List(vec![])]);
    assert_eq!(
        arg("\\image: {a: 1, b: 2, a: 3}"),
        vec![Value::Dict(vec![
            ("b".to_string(), Value::Integer("2".to_string())),
            ("a".to_string(), Value::Integer("3".to_string())),
        ])]
    );
    assert_eq!(arg("\\toc: [,]"), vec![Value::List(vec![Value::Null])]);
}

#[test]
fn parse_one_construct_of_a_rule() {
    let header = parse(RuleTag::Header, "## Two").unwrap();
    assert_eq!(header.rule, RuleTag::Header);
    assert_eq!(header.span, Span::new(0, 6));
    assert_eq!(parse(RuleTag::Header, "text").unwrap_err(), GrammarError { rule: RuleTag::Header, offset: 0 });
    assert_eq!(parse(RuleTag::Header, "# a\n\n# b").unwrap_err(), GrammarError { rule: RuleTag::Header, offset: 5 });
    assert_eq!(parse(RuleTag::Paragraph, "\n\n").unwrap_err(), GrammarError { rule: RuleTag::Paragraph, offset: 2 });
    assert_eq!(parse(RuleTag::Text, "x").unwrap_err(), GrammarError { rule: RuleTag::Text, offset: 0 });
    assert_eq!(parse(RuleTag::Program, "x\n\ny").unwrap().children.len(), 2);
}

#[test]
fn links_with_and_without_labels() {
    let c = inline("see [docs](http://x.y/a) and [](b) or [c");
    assert_eq!(c[1].kind, ASTKind::LinkNode(LinkNode { target: "http://x.y/a".to_string(), label: Some("docs".to_string()) }));
    assert_eq!(c[1].span, Span::new(4, 24));
    assert_eq!(c[3].kind, ASTKind::LinkNode(LinkNode { target: "b".to_string(), label: None }));
    assert_eq!(c[5].kind, ASTKind::TextSpan(TextKind::Normal("[c".to_string())));
    let (_, _, toc) = analyze("# [Intro](x) text");
    assert_eq!(toc[0].title, "Intro text");
}

#[test]
fn error_kind_messages() {
    assert_eq!(NoteErrorKind::SyntaxError("bad".to_string()).message(), "SyntaxError: bad");
    assert_eq!(NoteErrorKind::TypeMismatch("x".to_string()).message(), "TypeError: x");
    assert_eq!(NoteErrorKind::RuntimeError("y".to_string()).message(), "RuntimeError: y");
    assert_eq!(
        NoteErrorKind::UndefinedVariable { name: "v".to_string() }.message(),
        "RuntimeError: Variable v not found in scope"
    );
    assert_eq!(NoteErrorKind::Unreachable.message(), "InternalError: Entered unreachable code!");
    assert_eq!(NoteErrorKind::IOError("disk".to_string()).message(), "disk");
}

#[test]
fn scalar_values_as_text() {
    assert_eq!(Value::Null.to_string(), "");
    assert_eq!(Value::Integer("007".to_string()).to_string(), "007");
    assert_eq!(Value::Decimal("1.50".to_string()).to_string(), "1.50");
    assert_eq!(Value::Boolean(true).to_string(), "true");
    assert_eq!(Value::String("s".to_string()).to_string(), "s");
}

#[test]
fn note_error_reports() {
    let mut e = NoteError::syntax_error("bad token".to_string());
    assert_eq!(e.describe(), "at <Anonymous>\nSyntaxError: bad token");
    e.set_url("/notes/a.note".to_string());
    e.set_range(3, 12);
    assert_eq!(e.describe(), "at (3, 12) of /notes/a.note\nSyntaxError: bad token");
    assert!(!e.is_deprecated());
    assert!(!e.is_unnecessary());
    assert_eq!(NoteError::unreachable().describe(), "at <Anonymous>\nInternalError: Entered unreachable code!");
}
