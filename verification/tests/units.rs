use cargo_spaced::cli::{
    file_action, invocation, is_ignored, is_rust_file, reports_progress, run_fails, run_ignores,
    run_paths, should_skip, sorted_unique_paths, Cli, FileAction, Invocation,
};
use cargo_spaced::config::Config;
use cargo_spaced::edit::{apply_edits, validate_edits, Edit};
use cargo_spaced::errors::missing_path;
use cargo_spaced::output::diff_text;
use cargo_spaced::rules::blank_lines_in;
use cargo_spaced::syntax::{collect_boundaries, line_count, ContainerKind, NodeKind};
use cargo_spaced::trivia::{leading_trivia, trailing_trivia};

fn strings(list: &[&str]) -> Vec<String> {
    list.iter().map(|s| s.to_string()).collect()
}

fn cli(check: bool, quiet: bool, verbose: bool, files_with_diff: bool) -> Cli {
    Cli { paths: Vec::new(), ignores: Vec::new(), check, quiet, verbose, files_with_diff }
}

// --- edits -----------------------------------------------------------------

#[test]
fn rejects_ranges_outside_the_source() {
    let error = apply_edits("hello", &[Edit::replace(6..20, "x")]).unwrap_err();
    assert_eq!(error.message, "edit range is outside source bounds: 6..20");
    let error = apply_edits("hello", &[Edit::replace(3..1, "x")]).unwrap_err();
    assert_eq!(error.message, "edit range is outside source bounds: 3..1");
    assert!(validate_edits("hello", &[Edit::insert(5, "!")]).is_ok());
}

#[test]
fn rejects_ranges_inside_a_character() {
    let error = apply_edits("aéb", &[Edit::replace(2..3, "x")]).unwrap_err();
    assert_eq!(error.message, "edit range is not on UTF-8 character boundaries");
    assert_eq!(apply_edits("aéb", &[Edit::replace(1..3, "e")]).unwrap(), "aeb");
}

#[test]
fn reports_overlaps_with_their_message() {
    let error = apply_edits("abcdef", &[Edit::replace(1..4, "x"), Edit::replace(3..5, "y")])
        .unwrap_err();
    assert_eq!(error.message, "overlapping edits are not allowed");
    // Touching ranges do not overlap.
    assert_eq!(
        apply_edits("abcdef", &[Edit::replace(3..5, "y"), Edit::replace(1..3, "x")]).unwrap(),
        "axyf"
    );
}

#[test]
fn orders_edits_before_applying_them() {
    assert_eq!(
        apply_edits("ab", &[Edit::insert(2, "Y"), Edit::insert(1, "X")]).unwrap(),
        "aXbY"
    );
    // Insertions at one offset keep the order in which they were given.
    assert_eq!(
        apply_edits("ab", &[Edit::insert(1, "A"), Edit::insert(1, "B")]).unwrap(),
        "aABb"
    );
    assert_eq!(
        apply_edits("ab", &[Edit::insert(1, "B"), Edit::insert(1, "A")]).unwrap(),
        "aBAb"
    );
}

#[test]
fn the_first_fault_in_order_is_reported() {
    let error = apply_edits("abc", &[Edit::replace(2..9, "x"), Edit::replace(0..2, "y")])
        .unwrap_err();
    assert_eq!(error.message, "edit range is outside source bounds: 2..9");
}

// --- counting --------------------------------------------------------------

#[test]
fn counts_blank_lines_in_regions() {
    assert_eq!(blank_lines_in(""), 0);
    assert_eq!(blank_lines_in("a\n\nb"), 0);
    assert_eq!(blank_lines_in(" \n\t\n"), 1);
    assert_eq!(blank_lines_in("\r\n\r\n\r\n"), 2);
}

#[test]
fn counts_lines_of_a_range() {
    let source = "a\nb\nc";
    assert_eq!(line_count(source, &(2..5)), 2);
    assert_eq!(line_count(source, &(1..1)), 1);
    assert_eq!(line_count("\n\n", &(0..2)), 3);
}

// --- diffs -----------------------------------------------------------------

#[test]
fn diff_of_equal_texts_is_empty() {
    assert_eq!(diff_text("p", "a\nb\n", "a\nb\n"), "");
    assert_eq!(diff_text("p", "", ""), "");
}

#[test]
fn diff_replaces_a_line() {
    assert_eq!(diff_text("p", "a\nb\nc\n", "a\nX\nc\n"), "Diff in p:2:\n a\n-b\n+X\n c\n");
}

#[test]
fn diff_shows_far_apart_changes_in_groups() {
    let old = "l1\nl2\nl3\nl4\nl5\nl6\nl7\nl8\nl9\nl10\nl11\nl12\n";
    let new = "x1\nl2\nl3\nl4\nl5\nl6\nl7\nl8\nl9\nl10\nl11\nx12\n";
    assert_eq!(
        diff_text("f.rs", old, new),
        "Diff in f.rs:1:\n-l1\n+x1\n l2\n l3\n l4\nDiff in f.rs:12:\n l9\n l10\n l11\n-l12\n+x12\n"
    );
}

#[test]
fn diff_ends_every_line() {
    assert_eq!(diff_text("p", "a", "a\n"), "Diff in p:1:\n-a\n+a\n");
    assert_eq!(diff_text("p", "", "x\n"), "Diff in p:1:\n+x\n");
}

// --- paths -----------------------------------------------------------------

#[test]
fn recognizes_rust_files_by_extension() {
    assert!(is_rust_file("a/b/c.rs"));
    assert!(!is_rust_file("a/b.rs/c"));
    assert!(!is_rust_file("a/.rs"));
    assert!(!is_rust_file("a/b.rsx"));
}

#[test]
fn skips_only_git_and_target_names() {
    assert!(should_skip("a/b/target"));
    assert!(should_skip("a/.git"));
    assert!(!should_skip("a/targets"));
    assert!(!should_skip("target/src"));
}

#[test]
fn ignores_paths_below_ignored_ones() {
    let ignores = strings(&["generated/", "src/legacy.rs", "/tmp/elsewhere"]);
    let root = "/home/u/project";
    assert!(is_ignored("/home/u/project/generated", root, &ignores));
    assert!(is_ignored("/home/u/project/generated/a/b.rs", root, &ignores));
    assert!(is_ignored("/home/u/project/src/legacy.rs", root, &ignores));
    assert!(is_ignored("/tmp/elsewhere/x.rs", root, &ignores));
    assert!(!is_ignored("/home/u/project/generated_more.rs", root, &ignores));
    assert!(!is_ignored("/home/u/project/src/legacy.rs.bak", root, &ignores));
    assert!(!is_ignored("/home/u/project/src/lib.rs", root, &ignores));
    assert!(!is_ignored("/home/u/project/src/lib.rs", root, &[]));
}

#[test]
fn missing_paths_are_reported() {
    assert_eq!(missing_path("nope").message, "path does not exist: nope");
}

// --- command line ----------------------------------------------------------

#[test]
fn ignore_needs_a_path() {
    let error = Cli::parse_from(&strings(&["cargo-spaced", "--ignore"])).unwrap_err();
    assert_eq!(error.message, "--ignore requires a path");
}

#[test]
fn short_options_are_recognized() {
    let cli = Cli::parse_from(&strings(&["cargo-spaced", "-q", "-l", "x.rs"])).unwrap();
    assert!(cli.quiet && cli.files_with_diff && !cli.check && !cli.verbose);
    assert_eq!(cli.paths, strings(&["x.rs"]));
}

#[test]
fn invocation_drops_the_subcommand_name() {
    let (what, args) = invocation(strings(&["cargo-spaced", "spaced", "--check"]));
    assert_eq!(what, Invocation::Format);
    assert_eq!(args, strings(&["cargo-spaced", "--check"]));
    let (what, _) = invocation(strings(&["cargo-spaced", "spaced", "x", "-h"]));
    assert_eq!(what, Invocation::Help);
    let (what, _) = invocation(strings(&["cargo-spaced", "-V"]));
    assert_eq!(what, Invocation::Version);
    let (what, _) = invocation(strings(&["cargo-spaced", "--version", "--help"]));
    assert_eq!(what, Invocation::Help);
    let (_, args) = invocation(strings(&["cargo-spaced", "src", "spaced"]));
    assert_eq!(args, strings(&["cargo-spaced", "src", "spaced"]));
}

#[test]
fn decides_what_to_do_with_each_file() {
    assert_eq!(file_action(&cli(true, false, false, false), false), FileAction::Leave);
    assert_eq!(file_action(&cli(true, false, false, false), true), FileAction::PrintDiff);
    assert_eq!(file_action(&cli(true, false, false, true), true), FileAction::PrintPath);
    assert_eq!(file_action(&cli(false, false, false, false), true), FileAction::Write);
    assert_eq!(file_action(&cli(false, false, false, true), true), FileAction::WriteAndPrintPath);
    assert!(reports_progress(&cli(false, false, true, false)));
    assert!(!reports_progress(&cli(false, true, true, false)));
    assert!(run_fails(&cli(true, false, false, false), true));
    assert!(!run_fails(&cli(true, false, false, false), false));
    assert!(!run_fails(&cli(false, false, false, false), true));
}

#[test]
fn run_defaults_to_the_current_directory() {
    assert_eq!(run_paths(&cli(false, false, false, false)), strings(&["."]));
    let mut with_paths = cli(false, false, false, false);
    with_paths.paths = strings(&["a", "b"]);
    assert_eq!(run_paths(&with_paths), strings(&["a", "b"]));
    with_paths.ignores = strings(&["c"]);
    assert_eq!(run_ignores(&strings(&["x", "y"]), &with_paths), strings(&["x", "y", "c"]));
}

#[test]
fn default_configuration_normalizes() {
    let config = Config::default();
    assert!(config.ignore.is_empty());
    assert!(!config.rules.match_arm_spacing);
    assert!(config.rules.normalize_blank_lines);
}

// --- syntax ----------------------------------------------------------------

#[test]
fn trailing_comments_belong_to_the_line_before() {
    let source = "fn a() {} // note\nfn b() {}\n";
    assert_eq!(trailing_trivia(source, 0..9), 9..17);
    let source = "x /* a */ /* b */\ny";
    assert_eq!(trailing_trivia(source, 0..1), 1..17);
    assert_eq!(trailing_trivia("x\n// next line\n", 0..1), 1..1);
}

#[test]
fn leading_attributes_and_comments_belong_to_the_node() {
    let source = "fn a() {}\n/// doc\n#[inline]\nfn b() {}\n";
    assert_eq!(leading_trivia(source, 28..37), 10..28);
    let source = "fn a() {} // mine\nfn b() {}\n";
    assert_eq!(leading_trivia(source, 18..27), 18..18);
}

#[test]
fn classifies_the_nodes_around_boundaries() {
    let source = "const A: u8 = 1;\nfn b() {\n    let x = y\n        .z();\n    w();\n}\n";
    let boundaries = collect_boundaries(source).unwrap();
    assert_eq!(boundaries.len(), 2);
    let items = &boundaries[0];
    assert_eq!(items.parent_kind, ContainerKind::Items);
    assert_eq!(items.previous.kind, NodeKind::Other);
    assert_eq!(items.next.kind, NodeKind::BlockBodiedItem);
    assert_eq!(items.range, 16..17);
    assert_eq!(items.insertion_offset, 17);
    let statements = &boundaries[1];
    assert_eq!(statements.parent_kind, ContainerKind::Statements);
    assert_eq!(statements.previous.kind, NodeKind::LetStatement);
    assert!(statements.previous.multiline);
    assert!(!statements.next.multiline);
    // "fn b() {\n" ends at 17 + 9 = 26; the `let` line and its continuation
    // follow; the indented `w();` line starts at 54 and `w` at 58.
    assert_eq!(statements.range, 53..54);
    assert_eq!(statements.next.leading_range.start, 54);
    assert_eq!(statements.next.range.start, 58);
    assert_eq!(statements.insertion_offset, 54);
    for b in &boundaries {
        assert_eq!(b.range.start, b.previous.trailing_range.end);
        assert_eq!(b.range.end, b.next.leading_range.start);
    }
}

#[test]
fn a_leading_current_directory_is_a_component() {
    assert!(!is_ignored("./gen/a.rs", "", &strings(&["gen"])));
    assert!(is_ignored("./gen/a.rs", "", &strings(&["./gen"])));
    assert!(is_ignored("/p/gen/a.rs", "/p", &strings(&["./gen"])));
    assert!(!is_ignored("/p/gen/a.rs", "/p", &strings(&["./other"])));
    assert!(!is_rust_file("."));
}

#[test]
fn file_lists_are_sorted_by_components_without_repeats() {
    let files = strings(&["b.rs", "a/c.rs", "a.rs", "a//c.rs", "./x.rs", "/abs.rs", "a.rs"]);
    assert_eq!(
        sorted_unique_paths(files),
        strings(&["/abs.rs", "./x.rs", "a/c.rs", "a.rs", "b.rs"])
    );
    assert_eq!(sorted_unique_paths(Vec::new()), Vec::<String>::new());
}
