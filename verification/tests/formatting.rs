use vortex_gen::output_chunk::{LineWrapping, OutputChunk};

fn lit(s: &str) -> OutputChunk {
    OutputChunk::Literal(String::from(s))
}

#[test]
fn new_line_wrapping_starts_empty() {
    let w = LineWrapping::new(100);
    assert_eq!(w.line_length, 0);
    assert_eq!(w.max_line_length, 100);
    assert_eq!(w.current_line_indent, 0);
    assert_eq!(w.next_line_indent, 0);
}

#[test]
fn indent_stops_at_sixteen_levels() {
    let mut w = LineWrapping::new(100);
    w.indent();
    assert_eq!(w.current_line_indent, 1);
    for _ in 0..40 {
        w.indent();
    }
    assert_eq!(w.current_line_indent, 16);
}

#[test]
fn break_line_writes_next_indentation() {
    let mut w = LineWrapping::new(100);
    w.line_length = 30;
    w.next_line_indent = 2;
    let mut out = String::from("abc");
    w.break_line(&mut out).unwrap();
    assert_eq!(out, "abc\n        ");
    assert_eq!(w.current_line_indent, 2);
    assert_eq!(w.line_length, 8);
}

#[test]
fn can_fit_counts_indent_and_line() {
    let mut w = LineWrapping::new(20);
    w.line_length = 5;
    w.current_line_indent = 1;
    assert!(w.can_fit(10));
    assert!(!w.can_fit(11));
}

#[test]
fn length_of_empty_groups() {
    assert_eq!(OutputChunk::Parens(vec![]).length(), 2);
    assert_eq!(OutputChunk::Brackets(vec![]).length(), 2);
    assert_eq!(OutputChunk::Stmt(vec![]).length(), 1);
    assert_eq!(OutputChunk::Concat(vec![]).length(), 0);
}

#[test]
fn length_counts_characters() {
    let chunk = lit("héllo");
    assert_eq!(chunk.length(), 5);
    assert_eq!(chunk.head_length(), 5);
}

#[test]
fn head_length_within_length() {
    let chunk = OutputChunk::FCall {
        func: String::from("f"),
        args: vec![lit("a"), lit("bb")],
    };
    assert_eq!(chunk.head_length(), 2);
    assert_eq!(chunk.length(), 8);
    let mut out = String::new();
    chunk.flatten(&mut out).unwrap();
    assert_eq!(out, "f(a, bb)");
    assert!(chunk.head_length() <= chunk.length());
}

#[test]
fn flatten_nested_groups() {
    let chunk = OutputChunk::Concat(vec![
        lit("x"),
        OutputChunk::Brackets(vec![OutputChunk::Parens(vec![lit("a"), lit("b")]), lit("c")]),
    ]);
    let mut out = String::new();
    chunk.flatten(&mut out).unwrap();
    assert_eq!(out, "x[(a, b), c]");
    assert_eq!(out.len(), chunk.length());
}

#[test]
fn flatten_appends_to_existing_text() {
    let mut out = String::from(">> ");
    lit("tail").flatten(&mut out).unwrap();
    assert_eq!(out, ">> tail");
}

#[test]
fn format_concat_breaks_before_chunk() {
    let chunk = OutputChunk::Concat(vec![lit("Hello"), lit("World")]);
    let mut wrap = LineWrapping::new(8);
    let mut out = String::new();
    chunk.format(&mut out, &mut wrap).unwrap();
    assert_eq!(out, "Hello\n    World");
    assert_eq!(wrap.current_line_indent, 0);
    assert_eq!(wrap.line_length, 9);
}

#[test]
fn format_concat_without_break_is_flat() {
    let chunk = OutputChunk::Concat(vec![lit("Hello"), lit("World")]);
    let mut wrap = LineWrapping::new(80);
    let mut out = String::new();
    chunk.format(&mut out, &mut wrap).unwrap();
    let mut flat = String::new();
    chunk.flatten(&mut flat).unwrap();
    assert_eq!(out, flat);
}

#[test]
fn format_stmt_separates_with_spaces() {
    let chunk = OutputChunk::Stmt(vec![lit("let"), lit("x"), lit("="), lit("5")]);
    let mut wrap = LineWrapping::new(80);
    let mut out = String::new();
    chunk.format(&mut out, &mut wrap).unwrap();
    assert_eq!(out, "let x = 5");
}

#[test]
fn format_stmt_breaks_in_place_of_spaces() {
    let chunk = OutputChunk::Stmt(vec![lit("let"), lit("x"), lit("="), lit("5")]);
    let mut wrap = LineWrapping::new(6);
    let mut out = String::new();
    chunk.format(&mut out, &mut wrap).unwrap();
    assert_eq!(out, "let\n    x\n    =\n    5");
    assert_eq!(wrap.current_line_indent, 0);
}

#[test]
fn format_restores_indentation() {
    let chunk = OutputChunk::Parens(vec![lit("Alpha"), lit("Beta"), lit("Gamma")]);
    let mut wrap = LineWrapping::new(8);
    wrap.indent();
    let mut out = String::new();
    chunk.format(&mut out, &mut wrap).unwrap();
    assert_eq!(wrap.current_line_indent, 1);
    assert_eq!(wrap.max_line_length, 8);
    assert_eq!(out, "(\n        Alpha,\n        Beta,\n        Gamma)");
}

#[test]
fn format_empty_parens() {
    let chunk = OutputChunk::Parens(vec![]);
    let mut wrap = LineWrapping::new(80);
    let mut out = String::new();
    chunk.format(&mut out, &mut wrap).unwrap();
    assert_eq!(out, "()");
    assert_eq!(wrap.line_length, 2);
}

#[test]
fn chunk_from_text() {
    assert_eq!(OutputChunk::from(String::from("a")), lit("a"));
    assert_eq!(OutputChunk::from("b"), OutputChunk::Str("b"));
}

#[test]
fn call_without_arguments_counts_its_parentheses() {
    let chunk = OutputChunk::FCall { func: String::from("f"), args: vec![] };
    let mut flat = String::new();
    chunk.flatten(&mut flat).unwrap();
    assert_eq!(flat, "f()");
    assert_eq!(chunk.length(), 3);
    assert_eq!(chunk.length(), flat.chars().count());
}

#[test]
fn call_with_arguments_length_matches_flat_text() {
    let chunk = OutputChunk::FCall { func: String::from("max"), args: vec![lit("a"), lit("bc")] };
    let mut flat = String::new();
    chunk.flatten(&mut flat).unwrap();
    assert_eq!(flat, "max(a, bc)");
    assert_eq!(chunk.length(), 10);
}

#[test]
fn format_concat_line_length_is_what_was_written() {
    let chunk = OutputChunk::Concat(vec![lit("a"), lit("b")]);
    let mut wrap = LineWrapping::new(80);
    let mut out = String::new();
    chunk.format(&mut out, &mut wrap).unwrap();
    assert_eq!(out, "ab");
    assert_eq!(wrap.line_length, 2);
}

#[test]
fn format_stmt_line_length_counts_each_space_once() {
    let chunk = OutputChunk::Stmt(vec![lit("let"), lit("x"), lit("="), lit("5")]);
    let mut wrap = LineWrapping::new(80);
    let mut out = String::new();
    chunk.format(&mut out, &mut wrap).unwrap();
    assert_eq!(out, "let x = 5");
    assert_eq!(wrap.line_length, 9);
}

#[test]
fn format_line_length_after_a_break_is_the_new_line() {
    let chunk = OutputChunk::Stmt(vec![lit("let"), lit("x"), lit("="), lit("5")]);
    let mut wrap = LineWrapping::new(6);
    let mut out = String::new();
    chunk.format(&mut out, &mut wrap).unwrap();
    let last_line = out.rsplit('\n').next().unwrap();
    assert_eq!(wrap.line_length, last_line.chars().count());
}

#[test]
fn flat_text_has_no_line_breaks_of_its_own() {
    let chunk = OutputChunk::Stmt(vec![
        lit("let"),
        OutputChunk::Parens(vec![lit("a"), OutputChunk::FCall { func: String::from("f"), args: vec![lit("b")] }]),
    ]);
    let mut flat = String::new();
    chunk.flatten(&mut flat).unwrap();
    assert_eq!(flat, "let (a, f(b));");
    assert!(!flat.contains('\n'));
}

#[test]
fn wrapping_only_moves_spaces_and_line_breaks() {
    let chunk = OutputChunk::Concat(vec![
        lit("call"),
        OutputChunk::Parens(vec![lit("Alpha"), lit("Beta"), OutputChunk::Brackets(vec![lit("x"), lit("y")])]),
    ]);
    for width in [4usize, 8, 12, 80] {
        let mut wrap = LineWrapping::new(width);
        let mut out = String::new();
        chunk.format(&mut out, &mut wrap).unwrap();
        let mut flat = String::new();
        chunk.flatten(&mut flat).unwrap();
        let strip = |s: &str| s.chars().filter(|c| *c != ' ' && *c != '\n').collect::<String>();
        assert_eq!(strip(&out), strip(&flat));
        if !out.contains('\n') {
            assert_eq!(out, flat);
        }
    }
}
