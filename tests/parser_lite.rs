use parser_lite::models::{CodeChunk, Language};
use parser_lite::parser::{chunks_at, Parser};

#[test]
fn test_parse_function() {
    let mut parser = Parser::new().unwrap();
    let code = r#"
function hello() {
    console.log("Hello");
}
"#;

    let tree = parser.parse(code, Language::JavaScript).unwrap();
    let chunks = parser.extract_chunks(&tree, code);
    assert_eq!(chunks.len(), 1);
    assert_eq!(chunks[0].node_type, "function_declaration");
    assert!(chunks[0].code.contains("hello"));
}

#[test]
fn test_parse_class() {
    let mut parser = Parser::new().unwrap();
    let code = r#"
class Person {
    constructor(name) {
        this.name = name;
    }
}
"#;

    let tree = parser.parse(code, Language::JavaScript).unwrap();
    let chunks = parser.extract_chunks(&tree, code);
    assert_eq!(chunks.len(), 1);
    assert_eq!(chunks[0].node_type, "class_declaration");
    assert!(chunks[0].code.contains("Person"));
}

#[test]
fn test_validate_syntax() {
    let parser = Parser::new().unwrap();

    assert!(parser.validate_syntax("function f() { return 42; }", Language::JavaScript).unwrap());
    assert!(!parser.validate_syntax("function f() { return 42;", Language::JavaScript).unwrap());
    assert!(!parser.validate_syntax("function f() return 42; }", Language::JavaScript).unwrap());
}

#[test]
fn test_extract_block() {
    let parser = Parser::new().unwrap();
    let code = "function test() { return { a: 1 }; }";

    let block = parser.extract_block(code, 0);
    assert!(block.is_some());
    assert_eq!(block.unwrap(), code);
}

fn extract(code: &str) -> Vec<CodeChunk> {
    let mut parser = Parser::new().unwrap();
    let tree = parser.parse(code, Language::JavaScript).unwrap();
    parser.extract_chunks(&tree, code)
}

#[test]
fn function_scenario_exact_chunk() {
    let code = "function hello() {\n  doWork();\n}\n";
    let chunks = extract(code);
    assert_eq!(chunks.len(), 1);
    let c = &chunks[0];
    assert_eq!(c.node_type, "function_declaration");
    assert_eq!(c.code, "function hello() {\n  doWork();\n}");
    assert_eq!(c.start_byte, 0);
    assert_eq!(c.end_byte, 32);
    assert_eq!(c.start_line, 0);
    assert_eq!(c.end_line, 2);
    assert_eq!(c.parent_type, None);
    assert!(c.code.contains("hello"));
}

#[test]
fn class_scenario_nested_block_does_not_end_early() {
    let code = "class Person {\n  constructor(name) {\n    this.name = name;\n  }\n}\n";
    let chunks = extract(code);
    assert_eq!(chunks.len(), 1);
    assert_eq!(chunks[0].node_type, "class_declaration");
    assert_eq!(chunks[0].code, &code[..code.len() - 1]);
    assert!(chunks[0].code.contains("Person"));
    assert_eq!(chunks[0].end_byte, code.len() - 1);
}

#[test]
fn leading_blank_line_belongs_to_the_match() {
    let code = "\nfunction hello() {\n    console.log(\"Hello\");\n}\n";
    let chunks = extract(code);
    assert_eq!(chunks.len(), 1);
    assert_eq!(chunks[0].start_byte, 0);
    assert_eq!(chunks[0].code, &code[..code.len() - 1]);
    assert_eq!(chunks[0].start_line, 0);
    assert_eq!(chunks[0].end_line, 3);
}

#[test]
fn chunk_text_is_source_slice() {
    let code = "const a = 1;\nexport async function load(url) {\n  if (x) { y(); }\n}\nclass B extends A {\n  m() { }\n}\n";
    let chunks = extract(code);
    assert_eq!(chunks.len(), 2);
    for c in &chunks {
        assert_eq!(&code[c.start_byte..c.end_byte], c.code);
        assert_eq!(c.end_byte, c.start_byte + c.code.len());
    }
    assert_eq!(chunks[0].node_type, "function_declaration");
    assert_eq!(chunks[0].start_byte, 13);
    assert_eq!(chunks[0].start_line, 1);
    assert_eq!(chunks[0].end_line, 3);
    assert_eq!(chunks[1].node_type, "class_declaration");
    assert!(chunks[1].code.starts_with("class B extends A {"));
    assert!(chunks[1].code.ends_with("m() { }\n}"));
}

#[test]
fn functions_come_before_classes() {
    let code = "class A {\n}\nfunction f() {\n}\nfunction g() {\n}\n";
    let chunks = extract(code);
    let kinds: Vec<&str> = chunks.iter().map(|c| c.node_type.as_str()).collect();
    assert_eq!(kinds, vec!["function_declaration", "function_declaration", "class_declaration"]);
    assert!(chunks[0].code.contains("f()"));
    assert!(chunks[1].code.contains("g()"));
    assert!(chunks[2].code.contains("class A"));
}

#[test]
fn nested_declarations_give_independent_chunks() {
    let code = "function outer() {\n  function inner() {\n  }\n}\n";
    let chunks = extract(code);
    assert_eq!(chunks.len(), 2);
    assert_eq!(chunks[0].code, "function outer() {\n  function inner() {\n  }\n}");
    assert_eq!(chunks[1].code, "  function inner() {\n  }");
    assert_eq!(chunks[1].start_byte, 19);
    assert_eq!(chunks[1].start_line, 1);
}

#[test]
fn unclosed_block_is_dropped() {
    let code = "function broken() {\n  return 1;\n";
    assert!(extract(code).is_empty());
}

#[test]
fn no_declarations_gives_empty_sequence() {
    let code = "const x = 1;";
    assert!(extract(code).is_empty());
    let parser = Parser::new().unwrap();
    let whole = parser.extract_full_file(code);
    assert_eq!(whole.code, code);
    assert_eq!(whole.node_type, "program");
}

#[test]
fn brace_inside_string_is_counted() {
    let code = "function f() {\n  s = \"}\";\n}\n";
    let chunks = extract(code);
    assert_eq!(chunks.len(), 1);
    assert_eq!(chunks[0].code, "function f() {\n  s = \"}");
}

#[test]
fn full_file_of_empty_text() {
    let parser = Parser::new().unwrap();
    let c = parser.extract_full_file("");
    assert_eq!(c.start_byte, 0);
    assert_eq!(c.end_byte, 0);
    assert_eq!(c.start_line, 0);
    assert_eq!(c.end_line, 0);
    assert_eq!(c.code, "");
    assert_eq!(c.node_type, "program");
    assert_eq!(c.parent_type, None);
}

#[test]
fn full_file_spans_everything() {
    let parser = Parser::new().unwrap();
    let code = "a\nb\nc";
    let c = parser.extract_full_file(code);
    assert_eq!(c.start_byte, 0);
    assert_eq!(c.end_byte, 5);
    assert_eq!(c.end_line, 3);
    assert_eq!(c.code, code);
    let c2 = parser.extract_full_file("x\n\n");
    assert_eq!(c2.end_line, 2);
    assert_eq!(c2.end_byte, 3);
}

#[test]
fn full_file_counts_bytes_not_chars() {
    let parser = Parser::new().unwrap();
    let code = "é{}";
    let c = parser.extract_full_file(code);
    assert_eq!(c.end_byte, 4);
    assert_eq!(c.end_line, 1);
}

#[test]
fn extract_block_from_later_start() {
    let parser = Parser::new().unwrap();
    let code = "x; function f() { a { b } c } tail";
    assert_eq!(parser.extract_block(code, 3).unwrap(), "function f() { a { b } c }");
    assert_eq!(parser.extract_block(code, 0).unwrap(), "x; function f() { a { b } c }");
}

#[test]
fn extract_block_without_brace_or_close() {
    let parser = Parser::new().unwrap();
    assert_eq!(parser.extract_block("no braces here", 0), None);
    assert_eq!(parser.extract_block("open { never closed", 0), None);
    assert_eq!(parser.extract_block("", 0), None);
    assert_eq!(parser.extract_block("a { b }", 7), None);
    assert_eq!(parser.extract_block("const x = 1;", 0), None);
}

#[test]
fn extract_block_past_the_end() {
    let parser = Parser::new().unwrap();
    assert_eq!(parser.extract_block("a{}", 5), None);
    assert_eq!(parser.extract_block("a{}", 4), None);
    assert_eq!(parser.extract_block("", 1), None);
}

#[test]
fn extract_block_with_multibyte_text() {
    let parser = Parser::new().unwrap();
    let code = "função f() { \"ç\" }";
    assert_eq!(parser.extract_block(code, 0).unwrap(), code);
}

#[test]
fn chunks_at_given_starts() {
    let code = "function a() { }\nclass K { }\nfunction b() {";
    let fs: Vec<usize> = vec![0, 29];
    let cs: Vec<usize> = vec![17];
    let chunks = chunks_at(code, &fs, &cs);
    assert_eq!(chunks.len(), 2);
    assert_eq!(chunks[0].code, "function a() { }");
    assert_eq!(chunks[0].node_type, "function_declaration");
    assert_eq!(chunks[0].end_byte, 16);
    assert_eq!(chunks[0].end_line, 0);
    assert_eq!(chunks[1].code, "class K { }");
    assert_eq!(chunks[1].node_type, "class_declaration");
    assert_eq!(chunks[1].start_byte, 17);
    assert_eq!(chunks[1].start_line, 1);
    assert_eq!(chunks[1].end_line, 1);
}

#[test]
fn chunks_at_keeps_duplicates() {
    let code = "f() { }";
    let fs: Vec<usize> = vec![0, 0];
    let cs: Vec<usize> = vec![0];
    let chunks = chunks_at(code, &fs, &cs);
    assert_eq!(chunks.len(), 3);
    assert!(chunks.iter().all(|c| c.code == code));
}

#[test]
fn validator_accepts_nested_concatenations() {
    let parser = Parser::new().unwrap();
    let lang = Language::TypeScript;
    assert!(parser.validate_syntax("", lang).unwrap());
    assert!(parser.validate_syntax("x", lang).unwrap());
    assert!(parser.validate_syntax("([]{})", lang).unwrap());
    assert!(parser.validate_syntax("{[()]}()[]", lang).unwrap());
    assert!(parser.validate_syntax("a(b[c]{d})e", lang).unwrap());
}

#[test]
fn validator_rejects_missing_closer() {
    let parser = Parser::new().unwrap();
    let lang = Language::JavaScript;
    assert!(!parser.validate_syntax("([]{}", lang).unwrap());
    assert!(!parser.validate_syntax("([{})", lang).unwrap());
    assert!(!parser.validate_syntax("((", lang).unwrap());
}

#[test]
fn validator_rejects_extra_closer() {
    let parser = Parser::new().unwrap();
    let lang = Language::JavaScript;
    assert!(!parser.validate_syntax(")(", lang).unwrap());
    assert!(!parser.validate_syntax("(])[", lang).unwrap());
    assert!(!parser.validate_syntax("{}}", lang).unwrap());
}

#[test]
fn validator_counts_kinds_separately() {
    let parser = Parser::new().unwrap();
    assert!(parser.validate_syntax("([)]", Language::JavaScript).unwrap());
    assert!(parser.validate_syntax("'}' {", Language::JavaScript).unwrap() == false);
}

#[test]
fn parse_keeps_text_and_language() {
    let mut parser = Parser::new().unwrap();
    let tree = parser.parse("let a;", Language::TypeScript).unwrap();
    assert_eq!(tree.code, "let a;");
    assert_eq!(tree.language, Language::TypeScript);
}

#[test]
fn new_compiles_all_patterns() {
    assert!(Parser::new().is_ok());
}

#[test]
fn parse_leaves_parser_usable() {
    let mut parser = Parser::new().unwrap();
    let first = parser.parse("function a() {\n}", Language::JavaScript).unwrap();
    let again = parser.parse("function a() {\n}", Language::JavaScript).unwrap();
    assert_eq!(first.code, again.code);
    let chunks = parser.extract_chunks(&again, "function a() {\n}");
    assert_eq!(chunks.len(), 1);
    assert_eq!(chunks[0].start_line, 0);
    assert_eq!(chunks[0].end_line, 1);
}

#[test]
fn validator_unchanged_by_inserting_balanced_text() {
    let parser = Parser::new().unwrap();
    let lang = Language::JavaScript;
    assert!(parser.validate_syntax("f(x)", lang).unwrap());
    assert!(parser.validate_syntax("f([{}]x)", lang).unwrap());
    assert!(!parser.validate_syntax("f(x", lang).unwrap());
    assert!(!parser.validate_syntax("f([{}]x", lang).unwrap());
    assert!(!parser.validate_syntax(")(", lang).unwrap());
    assert!(!parser.validate_syntax(")()(", lang).unwrap());
}
