use vortex_gen::output_chunk::{LineWrapping, OutputChunk};

#[test]
fn test_head_length_literal() {
    let chunk = OutputChunk::Literal(String::from("Hello, world!"));
    assert_eq!(chunk.head_length(), 13);
}

#[test]
fn test_head_length_str() {
    let chunk = OutputChunk::Str("Hello, world!");
    assert_eq!(chunk.head_length(), 13);
}

#[test]
fn test_head_length_concat() {
    let chunk = OutputChunk::Concat(vec![
        OutputChunk::Literal(String::from("Hello")),
        OutputChunk::Literal(String::from(", ")),
        OutputChunk::Literal(String::from("world!")),
    ]);
    assert_eq!(chunk.head_length(), 5);
}

#[test]
fn test_head_length_parens() {
    let chunk = OutputChunk::Parens(vec![
        OutputChunk::Literal(String::from("Hello")),
        OutputChunk::Literal(String::from(", ")),
        OutputChunk::Literal(String::from("world!")),
    ]);
    assert_eq!(chunk.head_length(), 1);
}

#[test]
fn test_head_length_brackets() {
    let chunk = OutputChunk::Brackets(vec![
        OutputChunk::Literal(String::from("Hello")),
        OutputChunk::Literal(String::from(", ")),
        OutputChunk::Literal(String::from("world!")),
    ]);
    assert_eq!(chunk.head_length(), 1);
}

#[test]
fn test_head_length_stmt() {
    let chunk = OutputChunk::Stmt(vec![
        OutputChunk::Literal(String::from("let")),
        OutputChunk::Literal(String::from("x")),
        OutputChunk::Literal(String::from("=")),
        OutputChunk::Literal(String::from("5")),
    ]);
    assert_eq!(chunk.head_length(), 3);
}

#[test]
fn test_head_length_ret() {
    let chunk = OutputChunk::Ret(vec![
        OutputChunk::Literal(String::from("Hello")),
        OutputChunk::Literal(String::from("world!")),
    ]);
    assert_eq!(chunk.head_length(), "return".len());
}

#[test]
fn test_head_length_infix() {
    let chunk = OutputChunk::Infix {
        oper: String::from("+"),
        precedence: 1,
        args: vec![
            OutputChunk::Literal(String::from("Hello")),
            OutputChunk::Literal(String::from("world!")),
        ],
    };
    assert_eq!(chunk.head_length(), 5);
}

#[test]
fn test_head_length_fcall() {
    let chunk = OutputChunk::FCall {
        func: String::from("println"),
        args: vec![
            OutputChunk::Literal(String::from("Hello")),
            OutputChunk::Literal(String::from("world!")),
        ],
    };
    assert_eq!(chunk.head_length(), 8);
}

#[test]
fn test_flatten_literal() {
    let chunk = OutputChunk::Literal(String::from("Hello, world!"));
    let mut output = String::new();
    chunk.flatten(&mut output).unwrap();
    assert_eq!(output, "Hello, world!");
    assert_eq!(output.len(), chunk.length());
}

#[test]
fn test_flatten_str() {
    let chunk = OutputChunk::Str("Hello, world!");
    let mut output = String::new();
    chunk.flatten(&mut output).unwrap();
    assert_eq!(output, "Hello, world!");
    assert_eq!(output.len(), chunk.length());
}

#[test]
fn test_flatten_concat() {
    let chunk = OutputChunk::Concat(vec![
        OutputChunk::Literal(String::from("Hello")),
        OutputChunk::Literal(String::from(", ")),
        OutputChunk::Literal(String::from("world!")),
    ]);
    let mut output = String::new();
    chunk.flatten(&mut output).unwrap();
    assert_eq!(output, "Hello, world!");
    assert_eq!(output.len(), chunk.length());
}

#[test]
fn test_flatten_parens() {
    let chunk = OutputChunk::Parens(vec![
        OutputChunk::Literal(String::from("Hello")),
        OutputChunk::Literal(String::from("world!")),
    ]);
    let mut output = String::new();
    chunk.flatten(&mut output).unwrap();
    assert_eq!(output, "(Hello, world!)");
    assert_eq!(output.len(), chunk.length());
}

#[test]
fn test_flatten_brackets() {
    let chunk = OutputChunk::Brackets(vec![
        OutputChunk::Literal(String::from("Hello")),
        OutputChunk::Literal(String::from("world!")),
    ]);
    let mut output = String::new();
    chunk.flatten(&mut output).unwrap();
    assert_eq!(output, "[Hello, world!]");
    assert_eq!(output.len(), chunk.length());
}

#[test]
fn test_flatten_stmt() {
    let chunk = OutputChunk::Stmt(vec![
        OutputChunk::Literal(String::from("let")),
        OutputChunk::Literal(String::from("x")),
        OutputChunk::Literal(String::from("=")),
        OutputChunk::Literal(String::from("5")),
    ]);
    let mut output = String::new();
    chunk.flatten(&mut output).unwrap();
    assert_eq!(output, "let x = 5;");
    assert_eq!(output.len(), chunk.length());
}

#[test]
fn test_flatten_ret() {
    let chunk = OutputChunk::Ret(vec![
        OutputChunk::Literal(String::from("Hello")),
        OutputChunk::Literal(String::from("world!")),
    ]);
    let mut output = String::new();
    chunk.flatten(&mut output).unwrap();
    assert_eq!(output, "return Helloworld!;");
    assert_eq!(output.len(), chunk.length());
}

#[test]
fn test_flatten_infix() {
    let chunk = OutputChunk::Infix {
        oper: String::from("+"),
        precedence: 1,
        args: vec![
            OutputChunk::Literal(String::from("Hello")),
            OutputChunk::Literal(String::from("world!")),
        ],
    };
    let mut output = String::new();
    chunk.flatten(&mut output).unwrap();
    assert_eq!(output, "Hello + world!");
    assert_eq!(output.len(), chunk.length());
}

#[test]
fn test_flatten_fcall() {
    let chunk = OutputChunk::FCall {
        func: String::from("println"),
        args: vec![
            OutputChunk::Literal(String::from("Hello")),
            OutputChunk::Literal(String::from("world!")),
        ],
    };
    let mut output = String::new();
    chunk.flatten(&mut output).unwrap();
    assert_eq!(output, "println(Hello, world!)");
    assert_eq!(output.len(), chunk.length());
}

#[test]
fn test_format_parens() {
    let chunk = OutputChunk::Parens(vec![
        OutputChunk::Literal(String::from("Alpha")),
        OutputChunk::Literal(String::from("Beta")),
        OutputChunk::Literal(String::from("Gamma")),
    ]);
    let mut wrap = LineWrapping::new(80);
    let mut output = String::new();
    chunk.format(&mut output, &mut wrap).unwrap();
    assert_eq!(output, "(Alpha, Beta, Gamma)");

    let mut wrap = LineWrapping::new(16);
    let mut output = String::new();
    chunk.format(&mut output, &mut wrap).unwrap();
    assert_eq!(output, "(Alpha, Beta,\n    Gamma)");

    let mut wrap = LineWrapping::new(8);
    let mut output = String::new();
    chunk.format(&mut output, &mut wrap).unwrap();
    assert_eq!(output, "(Alpha,\n    Beta,\n    Gamma)");
}

#[test]
fn test_format_brackets() {
    let chunk = OutputChunk::Brackets(vec![
        OutputChunk::Literal(String::from("Alpha")),
        OutputChunk::Literal(String::from("Beta")),
        OutputChunk::Literal(String::from("Gamma")),
    ]);
    let mut wrap = LineWrapping::new(80);
    let mut output = String::new();
    chunk.format(&mut output, &mut wrap).unwrap();
    assert_eq!(output, "[Alpha, Beta, Gamma]");

    let mut wrap = LineWrapping::new(16);
    let mut output = String::new();
    chunk.format(&mut output, &mut wrap).unwrap();
    assert_eq!(output, "[Alpha, Beta,\n    Gamma]");

    let mut wrap = LineWrapping::new(8);
    let mut output = String::new();
    chunk.format(&mut output, &mut wrap).unwrap();
    assert_eq!(output, "[Alpha,\n    Beta,\n    Gamma]");
}
