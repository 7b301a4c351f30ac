use uchikomi::ast::c::CSupport;
use uchikomi::ast::parser::AstParser;
use uchikomi::ast::rust::RustSupport;
use uchikomi::ast::typescript::TypeScriptSupport;
use uchikomi::ast::LanguageSupport;
use uchikomi::metrics::FunctionMetrics;
use uchikomi::score::Ratio;

fn analyze<L: LanguageSupport>(source: &str, file: &str, support: &L) -> Vec<FunctionMetrics> {
    AstParser::analyze_source(source, file, support).expect("source should parse")
}

fn typescript(source: &str) -> Vec<FunctionMetrics> {
    analyze(source, "m.ts", &TypeScriptSupport::new(false))
}

fn rust(source: &str) -> Vec<FunctionMetrics> {
    analyze(source, "m.rs", &RustSupport)
}

fn measures(function: &FunctionMetrics) -> (u32, u32, u32) {
    (
        function.cyclomatic_complexity,
        function.cognitive_complexity,
        function.nesting_depth,
    )
}

#[test]
fn sequences_of_one_operator_count_once() {
    let list = typescript("function a() { if (p && q && r || s) {} }");
    assert_eq!(measures(&list[0]), (5, 3, 1));
    let list = typescript("function a() { if (p && (q || r) && s) {} }");
    assert_eq!(list[0].cyclomatic_complexity, 5);
    assert_eq!(list[0].cognitive_complexity, 3);
}

#[test]
fn else_if_adds_no_nesting() {
    let list = typescript("function a() { if (p) {} else if (q) {} else if (r) {} else {} }");
    assert_eq!(list[0].cyclomatic_complexity, 4);
    assert_eq!(list[0].cognitive_complexity, 3);
    assert_eq!(list[0].nesting_depth, 1);
}

#[test]
fn nesting_costs_more_the_deeper_it_is() {
    let list = typescript("function a() { for (;;) { while (p) { if (q) {} } } }");
    assert_eq!(measures(&list[0]), (4, 6, 3));
    let list = typescript("function a() { switch (p) { case 1: if (q) {} case 2: } }");
    assert_eq!(measures(&list[0]), (4, 2, 1));
}

#[test]
fn question_marks_are_paths_in_rust() {
    let list = rust("fn a() -> Option<u32> { let x = b()?; let y = c()?; Some(x + y) }");
    assert_eq!(measures(&list[0]), (3, 0, 0));
    let list = rust("fn a() { loop { if p && q { break; } } }");
    assert_eq!(measures(&list[0]), (3, 4, 2));
}

#[test]
fn c_is_measured() {
    let source = "int f(int a) { switch (a) { case 1: return 1; default: return a > 2 ? 3 : 4; } }";
    let list = analyze(source, "m.c", &CSupport);
    assert_eq!(list[0].name, "f");
    assert_eq!(measures(&list[0]), (4, 2, 1));
    let list = analyze("int *g(void) { return 0; }", "m.c", &CSupport);
    assert_eq!(list[0].name, "<anonymous>");
}

#[test]
fn functions_are_named_by_what_they_are_bound_to() {
    let list = typescript(
        "const f = () => {};\nclass A { m() {} g = () => {}; }\no.h = function () {};\nrun(() => {});\n",
    );
    let names = list.iter().map(|f| f.name.as_str()).collect::<Vec<_>>();
    assert_eq!(names, vec!["f", "m", "g", "o.h", "<anonymous>"]);
}

#[test]
fn bodies_tell_their_quality() {
    let list = rust("fn a() {\n    // nothing yet\n}\nfn b() {}\nfn c() { d(); }\n");
    assert_eq!((list[0].hollow_kind.as_str(), list[0].is_hollow), ("comment_only", true));
    assert_eq!(list[0].comment_ratio, Ratio { numerator: 1, denominator: 3 });
    assert_eq!((list[1].hollow_kind.as_str(), list[1].is_hollow), ("empty", true));
    assert_eq!(list[1].executable_statements, 0);
    assert_eq!((list[2].hollow_kind.as_str(), list[2].is_hollow), ("none", false));
    assert_eq!(list[2].executable_statements, 2);
    assert_eq!(list[2].identifier_verbosity, Ratio { numerator: 2, denominator: 2 });
    assert_eq!(list[2].coupling.callees, vec!["c".to_string(), "d".to_string()]);
}

#[test]
fn documentation_is_what_stands_right_before() {
    let list = rust("/// Documented.\nfn a() {}\n\n// Not documented.\nfn b() {}\n");
    assert!(list[0].has_docstring);
    assert_eq!(list[0].documentation_quality, "adequate");
    assert!(!list[1].has_docstring);
    assert_eq!(list[1].documentation_quality, "missing");
    let list = typescript("/** Documented. */\nfunction a() {}\n");
    assert!(list[0].has_docstring);
}

#[test]
fn identity_follows_the_signature_and_the_hash_follows_the_body() {
    let one = rust("fn a(x: u32) { b(); }");
    let spaced = rust("fn a(x:   u32)   { b(); }");
    let changed = rust("fn a(x: u32) { c(); }");
    let other = rust("fn a(x: u64) { b(); }");
    assert_ne!(one[0].body_hash, spaced[0].body_hash);
    assert_eq!(one[0].id, changed[0].id);
    assert_ne!(one[0].body_hash, changed[0].body_hash);
    assert_ne!(one[0].id, other[0].id);
    assert!(one[0].id.starts_with("m.rs:a:"));
    let signature = format!("{:032x}", xxhash_rust::xxh3::xxh3_128(b"fn a(x: u32)"));
    assert_eq!(one[0].id, format!("m.rs:a:{signature}"));
    let body = format!("{:032x}", xxhash_rust::xxh3::xxh3_128(b"fn a(x: u32) { b(); }"));
    assert_eq!(one[0].body_hash, body);
}

#[test]
fn broken_sources_say_where() {
    let err = AstParser::analyze_source("fn a( {", "m.rs", &RustSupport)
        .expect_err("it should not parse");
    assert_eq!(
        err.message(),
        "Parse error: Failed to parse m.rs: syntax errors detected"
    );
    let none = AstParser::analyze_nodes(None, "", "m.rs", &RustSupport)
        .expect_err("there is no tree");
    assert_eq!(none.message(), "Parse error: Failed to parse m.rs");
}

#[test]
fn every_character_stands_in_its_place() {
    let list = rust("// ünïcödé\nfn größe() { \"→\"; }\nfn b() {}\n");
    assert_eq!(list[0].name, "größe");
    assert_eq!((list[0].line, list[0].end_line), (2, 2));
    assert_eq!((list[1].line, list[1].end_line, list[1].lines_of_code), (3, 3, 1));
    assert_eq!(rust("").len(), 0);
}
