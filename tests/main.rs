use notedown::analyze;

#[test]
fn main_ready() {
    println!("it, works!");
    let (_, diagnostics, _) = analyze("");
    assert!(diagnostics.is_empty());
}

#[test]
fn ready() {
    println!("it, works!");
    let (ast, _, toc) = analyze("it, works!");
    assert_eq!(ast.span.end, 10);
    assert!(toc.is_empty());
}
