use cargo_spaced::config::{Config, Rules};
use cargo_spaced::edit::{apply_edits, validate_edits, Edit};
use cargo_spaced::format_source;

fn config(match_arm_spacing: bool, normalize_blank_lines: bool) -> Config {
    Config { ignore: Vec::new(), rules: Rules { match_arm_spacing, normalize_blank_lines } }
}

fn non_whitespace(text: &str) -> String {
    text.chars().filter(|c| !c.is_whitespace()).collect()
}

#[test]
fn no_edits_keep_the_source() {
    for source in ["", "fn main() {}\n", "é\u{3000}x"] {
        assert_eq!(apply_edits(source, &[]).unwrap(), source);
        assert!(validate_edits(source, &[]).is_ok());
    }
}

#[test]
fn without_normalization_formatting_only_inserts_line_endings() {
    let source = "fn a() {}\n\n\n\nfn b() {}\nfn c() {}\n\n\n";
    let result = format_source(source, &config(false, false)).unwrap();
    assert_eq!(result.output, "fn a() {}\n\n\n\nfn b() {}\n\nfn c() {}\n\n\n");
    assert!(!result.edits.is_empty());
    for edit in &result.edits {
        assert_eq!(edit.range.start, edit.range.end);
        assert_eq!(edit.replacement, "\n");
    }

    let crlf = "fn a() {}\r\nfn b() {}\r\n";
    let result = format_source(crlf, &config(false, false)).unwrap();
    assert_eq!(result.output, "fn a() {}\r\n\r\nfn b() {}\r\n");
    for edit in &result.edits {
        assert_eq!(edit.range.start, edit.range.end);
        assert_eq!(edit.replacement, "\r\n");
    }
}

#[test]
fn match_arm_spacing_is_opt_in() {
    let source = "fn f(v: V) {\n    match v {\n        V::A => {\n            a();\n        }\n        V::B => {\n            b();\n        }\n    }\n}\n";
    let result = format_source(source, &config(false, true)).unwrap();
    assert_eq!(result.output, source);
    assert!(!result.changed);
    let spaced = format_source(source, &config(true, true)).unwrap();
    assert_eq!(
        spaced.output,
        "fn f(v: V) {\n    match v {\n        V::A => {\n            a();\n        }\n\n        V::B => {\n            b();\n        }\n    }\n}\n"
    );
    assert!(spaced.changed);
}

#[test]
fn skipped_statements_are_untouched() {
    let source = "fn main() {\n    #[rustfmt::skip]\n    let value = thing\n        .foo();\n\n\n\n    consume(value);\n}\n";
    let result = format_source(source, &Config::default()).unwrap();
    assert_eq!(result.output, source);
}

#[test]
fn unrequired_boundaries_keep_their_spacing() {
    let source = "const A: usize = 1;\n\n\n\nconst B: usize = 2;\nuse std::fmt;\n";
    let result = format_source(source, &Config::default()).unwrap();
    assert_eq!(result.output, source);
    assert!(result.edits.is_empty());
}

#[test]
fn formatting_changes_whitespace_only() {
    let sources = [
        "fn a() {}\nfn b() {}\n",
        "\n\n\n// lead\n\n\n/// doc\nfn main() {\n    let x = y\n        .z();\n    w();\n}\n\n\n\n",
        "fn a() {}\r\n\r\n\r\n\r\nfn b() {}",
        "fn a() {\n    let s = \"é\u{3000}\";\n    if s.is_empty() {\n        t();\n    }\n    u();\n}\n",
        "mod m {\n    mod n;\n    const C: u8 = 1;\n}\n\n\n\n",
    ];
    for source in sources {
        for normalize in [false, true] {
            for arms in [false, true] {
                let result = format_source(source, &config(arms, normalize)).unwrap();
                assert_eq!(non_whitespace(&result.output), non_whitespace(source));
                assert_eq!(result.changed, result.output != source);
                assert_eq!(apply_edits(source, &result.edits).unwrap(), result.output);
            }
        }
    }
}

#[test]
fn the_order_of_the_edit_list_does_not_matter() {
    let source = "abcdef";
    let edits = [Edit::replace(1..2, "X"), Edit::insert(3, "Y"), Edit::replace(4..6, "")];
    let orders = [[0, 1, 2], [0, 2, 1], [1, 0, 2], [1, 2, 0], [2, 0, 1], [2, 1, 0]];
    for order in orders {
        let list: Vec<Edit> = order.iter().map(|&i| edits[i].clone()).collect();
        assert_eq!(apply_edits(source, &list).unwrap(), "aXcYd");
    }
    let overlapping = [Edit::replace(1..3, "X"), Edit::replace(2..4, "Y")];
    for order in [[0, 1], [1, 0]] {
        let list: Vec<Edit> = order.iter().map(|&i| overlapping[i].clone()).collect();
        assert_eq!(
            apply_edits(source, &list).unwrap_err().message,
            "overlapping edits are not allowed"
        );
    }
}

#[test]
fn applying_the_file_edits_leaves_no_more_to_do() {
    let normalize = config(false, true);
    let sources = [
        "\n\n// lead\n\n\n/// doc\nfn main() {}\n\n\n",
        "fn main() {}",
        "fn main() {}\r\n\r\n",
        "\r\n\nfn a() {}\n",
        "// only a comment\n\n",
        "  \n\t\n",
        "",
        "#[attr]\n\n\n  fn f() {}\n",
    ];
    for source in sources {
        let edits = cargo_spaced::rules::edits_for_file_boundaries(source, &normalize);
        let out = apply_edits(source, &edits).unwrap();
        assert!(cargo_spaced::rules::edits_for_file_boundaries(&out, &normalize).is_empty());
        if !source.trim().is_empty() {
            let newline = if source.contains("\r\n") { "\r\n" } else { "\n" };
            assert!(!out.lines().next().unwrap().trim().is_empty());
            assert!(out.ends_with(newline));
            assert!(!out[..out.len() - newline.len()].ends_with(['\r', '\n']));
        }
    }
}
