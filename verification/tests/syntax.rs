use uchikomi::ast::calls::normalize_call_name;
use uchikomi::ast::parser::AstParser;
use uchikomi::ast::rust::RustSupport;
use uchikomi::ast::typescript::TypeScriptSupport;
use uchikomi::metrics::FunctionMetrics;

fn analyze_typescript(source: &str) -> Vec<FunctionMetrics> {
    let support = TypeScriptSupport::new(false);
    AstParser::analyze_source(source, "file.ts", &support).expect("source should parse")
}

fn analyze_rust(source: &str) -> Vec<FunctionMetrics> {
    let support = RustSupport;
    AstParser::analyze_source(source, "file.rs", &support).expect("source should parse")
}

fn find<'a>(functions: &'a [FunctionMetrics], name: &str) -> &'a FunctionMetrics {
    functions
        .iter()
        .find(|function| function.name == name)
        .expect("function should exist")
}

#[test]
fn test_normalize_call_name() {
    assert_eq!(normalize_call_name("Self::analyze"), "analyze");
    assert_eq!(normalize_call_name("git::commit::push"), "push");
    assert_eq!(normalize_call_name("this.process"), "process");
    assert_eq!(normalize_call_name("base_function"), "base_function");
    assert_eq!(normalize_call_name("Option::<T>::unwrap"), "unwrap");
    assert_eq!(normalize_call_name("ptr->method"), "method");
}

#[test]
fn normalize_call_name_strips_language_prefixes() {
    assert_eq!(normalize_call_name("Self::analyze"), "analyze");
    assert_eq!(normalize_call_name("git::commit"), "commit");
    assert_eq!(normalize_call_name("this.process"), "process");
    assert_eq!(normalize_call_name("base_function"), "base_function");
}

#[test]
fn simple_function_counts_branch_complexity() {
    let functions = analyze_typescript(
        r#"
            function a() {
                if (x) {}
            }
            "#,
    );

    let function = find(&functions, "a");

    assert_eq!(function.cyclomatic_complexity, 2);
    assert_eq!(function.cognitive_complexity, 1);
    assert_eq!(function.nesting_depth, 1);
    assert!(function.lines_of_code >= 3);
    assert!(function.lines_of_code <= 5);
}

#[test]
fn nested_function_does_not_inflate_parent_complexity() {
    let functions = analyze_typescript(
        r#"
            function outer() {
                function inner() {
                    if (x) {}
                }
            }
            "#,
    );

    let outer = find(&functions, "outer");
    let inner = find(&functions, "inner");

    assert_eq!(outer.cyclomatic_complexity, 1);
    assert_eq!(outer.cognitive_complexity, 0);
    assert_eq!(outer.nesting_depth, 0);
    assert_eq!(inner.cyclomatic_complexity, 2);
    assert_eq!(inner.cognitive_complexity, 1);
    assert_eq!(inner.nesting_depth, 1);
    assert!(outer.lines_of_code > inner.lines_of_code);
    assert!(inner.lines_of_code >= 3);
    assert!(inner.lines_of_code <= 5);
}

#[test]
fn arrow_function_counts_branch_complexity() {
    let functions = analyze_typescript(
        r#"
            const f = () => {
                if (x) {}
            };
            "#,
    );

    let function = find(&functions, "f");

    assert_eq!(function.cyclomatic_complexity, 2);
    assert_eq!(function.cognitive_complexity, 1);
    assert_eq!(function.nesting_depth, 1);
    assert!(function.lines_of_code >= 3);
    assert!(function.lines_of_code <= 5);
}

#[test]
fn rust_flat_match_counts_once() {
    let functions = analyze_rust(
        r#"
            fn a(x: u8) -> u8 {
                match x {
                    1 => 1,
                    2 => 2,
                    _ => 0,
                }
            }
            "#,
    );

    let function = find(&functions, "a");

    assert_eq!(function.cognitive_complexity, 1);
}

#[test]
fn rust_match_arm_does_not_add_nesting_penalty_to_nested_logic() {
    let functions = analyze_rust(
        r#"
            fn a(x: u8, cond: bool) {
                match x {
                    1 => {
                        if cond {
                            foo();
                        }
                    }
                    _ => {}
                }
            }
            "#,
    );

    let function = find(&functions, "a");

    assert_eq!(function.cognitive_complexity, 2);
}

#[test]
fn rust_match_nested_inside_if_pays_outer_nesting_penalty() {
    let functions = analyze_rust(
        r#"
            fn a(x: u8, cond: bool) {
                if cond {
                    match x {
                        1 => {}
                        _ => {}
                    }
                }
            }
            "#,
    );

    let function = find(&functions, "a");

    assert_eq!(function.cognitive_complexity, 3);
}

#[test]
fn rust_public_function_is_not_classified_as_private_dead_code() {
    let functions = analyze_rust(
        r#"
            pub fn get_all_file_metrics() {}

            impl GitAnalyzer {
                pub fn analyze() {}
            }
            "#,
    );

    let function = find(&functions, "get_all_file_metrics");
    let method = find(&functions, "analyze");

    assert_eq!(function.reachability.kind, "unreachable_export");
    assert_eq!(method.reachability.kind, "unreachable_export");
}

#[test]
fn rust_test_attribute_is_classified_as_test_entry() {
    let functions = analyze_rust(
        r#"
            #[test]
            fn parses_report() {}

            #[tokio::test]
            async fn loads_async_report() {}

            #[cfg(test)]
            mod tests {
                #[test]
                fn nested_test() {}
            }
            "#,
    );

    let sync_test = find(&functions, "parses_report");
    let async_test = find(&functions, "loads_async_report");
    let nested_test = find(&functions, "nested_test");

    assert_eq!(sync_test.reachability.kind, "test_entry");
    assert_eq!(async_test.reachability.kind, "test_entry");
    assert_eq!(nested_test.reachability.kind, "test_entry");
}

#[test]
fn rust_trait_impl_method_is_not_classified_as_private_dead_code() {
    let functions = analyze_rust(
        r#"
            impl std::fmt::Display for Report {
                fn fmt(&self, f: &mut std::fmt::Formatter<'_>) -> std::fmt::Result {
                    write!(f, "report")
                }
            }
            "#,
    );

    let function = find(&functions, "fmt");

    assert_eq!(function.reachability.kind, "unreachable_export");
}

#[test]
fn rust_callback_identifier_is_collected_as_callee() {
    let functions = analyze_rust(
        r#"
            pub fn caller(value: Result<(), ()>) -> Result<(), String> {
                value.map_err(callback)
            }

            fn callback(_: ()) -> String {
                "error".to_string()
            }
            "#,
    );

    let caller = find(&functions, "caller");

    assert!(caller
        .coupling
        .callees
        .iter()
        .any(|name| name == "callback"));
}

#[test]
fn parses_valid_typescript() {
    let source = r#"
            function a() {
                if (x) {}
            }
        "#;
    let support = TypeScriptSupport::new(false);

    let functions = AstParser::analyze_source(source, "file.ts", &support)
        .expect("valid TypeScript should parse");

    assert_eq!(functions.len(), 1);
    assert_eq!(functions[0].name, "a");
}

#[test]
fn parses_valid_tsx_with_jsx() {
    let source = r#"
            function View() {
                return <div>{value}</div>;
            }
        "#;
    let support = TypeScriptSupport::new(true);

    let functions =
        AstParser::analyze_source(source, "file.tsx", &support).expect("valid TSX should parse");

    assert_eq!(functions.len(), 1);
}

#[test]
fn invalid_syntax_returns_error() {
    let source = "function broken( {";
    let support = TypeScriptSupport::new(false);

    let result = AstParser::analyze_source(source, "file.ts", &support);

    assert!(result.is_err());
}
