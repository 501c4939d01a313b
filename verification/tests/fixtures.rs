use cargo_spaced::config::Config;
use cargo_spaced::format_source;

fn format(source: &str) -> String {
    format_source(source, &Config::default()).unwrap().output
}

fn non_whitespace(text: &str) -> String {
    text.chars().filter(|c| !c.is_whitespace()).collect()
}

/// Formats `source`, compares with `expected`, and checks that formatting
/// the result again changes nothing and that only whitespace moved.
fn check_fixture(source: &str, expected: &str) {
    let first = format_source(source, &Config::default()).unwrap();
    assert_eq!(first.output, expected);
    assert_eq!(first.changed, source != expected);
    let second = format_source(&first.output, &Config::default()).unwrap();
    assert_eq!(second.output, expected);
    assert!(!second.changed);
    assert_eq!(non_whitespace(&first.output), non_whitespace(source));
}

const ALREADY_FORMATTED: &str = "fn first() {}\n\nfn second() {\n    let value = builder\n        .build();\n\n    if condition() {\n        consume(value);\n    }\n\n    finish();\n}\n";

const ITEMS_MIXED: &str = "struct Thing {\n    value: usize,\n}\n\nimpl Thing {\n    fn value(&self) -> usize {\n        self.value\n    }\n}\n\ntype Value = usize;\n\nenum State {\n    Ready,\n    Done,\n}\n\nconst DEFAULT: Value = 1;\n";

const REAL_LIBRARY: &str = "// Builds a client.\n// The client owns its transport.\nuse std::time::Duration;\n\nmod support {\n    const BUFFER_SIZE: usize = 4096;\n\n    mod io;\n\n    fn default_timeout() -> Duration {\n        Duration::from_secs(5)\n    }\n}\n\npub struct Client {\n    timeout: Duration,\n}\n\nimpl Client {\n    pub fn new() -> Self {\n        let timeout = default_timeout()\n            .checked_add(Duration::from_secs(1))\n            .unwrap();\n\n        if timeout.is_zero() {\n            panic!(\"invalid timeout\");\n        }\n\n        Self { timeout }\n    }\n}\n\nfn finish() {}\n";

#[test]
fn formatted_fixture_already_formatted_is_stable() {
    check_fixture(ALREADY_FORMATTED, ALREADY_FORMATTED);
}

#[test]
fn formatted_fixture_items_mixed_is_stable() {
    check_fixture(ITEMS_MIXED, ITEMS_MIXED);
}

#[test]
fn formatted_fixture_real_library_is_stable() {
    check_fixture(REAL_LIBRARY, REAL_LIBRARY);
}

#[test]
fn fixture_block_statements() {
    let source = "fn example(items: &[usize], value: Option<usize>) {\n    if items.is_empty() {\n        return;\n    }\n    println!(\"items\");\n    for item in items {\n        println!(\"{item}\");\n    }\n    finish_loop();\n    while ready() {\n        tick();\n    }\n    finish_while();\n    loop {\n        break;\n    }\n    finish_loop_expr();\n    match value {\n        Some(value) => println!(\"{value}\"),\n        None => return,\n    }\n    finish_match();\n    unsafe {\n        do_unsafe();\n    }\n    finish_unsafe();\n}\n";
    let expected = "fn example(items: &[usize], value: Option<usize>) {\n    if items.is_empty() {\n        return;\n    }\n\n    println!(\"items\");\n    for item in items {\n        println!(\"{item}\");\n    }\n\n    finish_loop();\n    while ready() {\n        tick();\n    }\n\n    finish_while();\n    loop {\n        break;\n    }\n\n    finish_loop_expr();\n    match value {\n        Some(value) => println!(\"{value}\"),\n        None => return,\n    }\n\n    finish_match();\n    unsafe {\n        do_unsafe();\n    }\n\n    finish_unsafe();\n}\n";
    check_fixture(source, expected);
}

#[test]
fn fixture_expression_continuations() {
    let source = "fn example(condition: bool, value: Option<usize>) {\n    let result = if condition {\n        1\n    } else {\n        2\n    };\n    consume(result);\n\n    let value = match value {\n        Some(value) => value,\n        None => return,\n    }\n    .saturating_add(1);\n    consume(value);\n}\n";
    let expected = "fn example(condition: bool, value: Option<usize>) {\n    let result = if condition {\n        1\n    } else {\n        2\n    };\n\n    consume(result);\n\n    let value = match value {\n        Some(value) => value,\n        None => return,\n    }\n    .saturating_add(1);\n\n    consume(value);\n}\n";
    check_fixture(source, expected);
}

#[test]
fn fixture_let_else() {
    let source = "fn parse(value: Option<usize>) {\n    let Some(value) = value else {\n        return;\n    };\n    println!(\"{value}\");\n}\n";
    let expected = "fn parse(value: Option<usize>) {\n    let Some(value) = value else {\n        return;\n    };\n\n    println!(\"{value}\");\n}\n";
    check_fixture(source, expected);
}

#[test]
fn fixture_match_arms_unchanged() {
    let source = "fn example(value: Value) {\n    match value {\n        Value::A => {\n            first();\n        }\n        Value::B => {\n            second();\n        }\n        Value::C => {\n            third();\n        }\n    }\n}\n";
    check_fixture(source, source);
}

#[test]
fn fixture_nested_blocks() {
    let source = "fn outer() {\n    if condition() {\n        let value = builder\n            .build();\n        consume(value);\n        for item in items() {\n            let prepared = prepare(item)\n                .finish();\n            consume(prepared);\n        }\n        after_loop();\n    }\n    after_if();\n}\n";
    let expected = "fn outer() {\n    if condition() {\n        let value = builder\n            .build();\n\n        consume(value);\n        for item in items() {\n            let prepared = prepare(item)\n                .finish();\n\n            consume(prepared);\n        }\n\n        after_loop();\n    }\n\n    after_if();\n}\n";
    check_fixture(source, expected);
}

#[test]
fn fixture_rustfmt_skip() {
    let source = "#[rustfmt::skip]\nfn skipped() {\n    let value = builder\n        .build();\n    consume(value);\n}\nfn normal() {\n    let value = builder\n        .build();\n    consume(value);\n}\n";
    let expected = "#[rustfmt::skip]\nfn skipped() {\n    let value = builder\n        .build();\n    consume(value);\n}\n\nfn normal() {\n    let value = builder\n        .build();\n\n    consume(value);\n}\n";
    check_fixture(source, expected);
}

#[test]
fn formatting_twice_changes_nothing_more() {
    let sources = [
        "fn a() {}\nfn b() {}\n\n\n\nfn c() {}\n",
        "\n\n// lead\n\n\nfn main() {\n    let x = a\n        .b();\n    y();\n}\n\n\n",
        "mod a;\nmod b;\nuse c;\n",
        "fn first() {}\r\nfn second() {}\r\n",
    ];
    for source in sources {
        let once = format(source);
        assert_eq!(format(&once), once);
    }
}
