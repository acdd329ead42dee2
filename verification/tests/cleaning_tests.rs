use cnlint::cleaner::{
    clean_content, clean_selection, cleaned_if_changed, dry_run_results, format_dry_run_line,
    normalize_empty_lines,
};
use cnlint::syntax::{comment_syntax_for_extension, CommentSyntax, Language};
use cnlint::utils::LoadedSourceFile;

fn syntax(ext: &str) -> CommentSyntax {
    comment_syntax_for_extension(ext).unwrap()
}

const C_SAMPLE: &str = "int a = 1; // 中文注释\n/* block\n 中文 */\nint b; // english\n";

#[test]
fn removes_chinese_comments_of_both_kinds() {
    assert_eq!(
        clean_content(C_SAMPLE, syntax("c"), true, true, false),
        "int a = 1; \n\nint b; // english\n"
    );
}

#[test]
fn removes_only_the_selected_kind() {
    assert_eq!(
        clean_content(C_SAMPLE, syntax("c"), true, false, false),
        "int a = 1; \n/* block\n 中文 */\nint b; // english\n"
    );
    assert_eq!(
        clean_content(C_SAMPLE, syntax("c"), false, true, false),
        "int a = 1; // 中文注释\n\nint b; // english\n"
    );
    assert_eq!(clean_content(C_SAMPLE, syntax("c"), false, false, false), C_SAMPLE);
}

#[test]
fn content_without_chinese_comments_is_unchanged() {
    let content = "fn main() { // english\n    let s = \"中文\";\n}\n";
    assert_eq!(clean_content(content, syntax("rs"), true, true, false), content);
    assert_eq!(clean_content("", syntax("rs"), true, true, true), "");
}

#[test]
fn trim_empty_collapses_blank_lines() {
    let content = "// 中文\n\n\ncode\n\n\n// 注释\nmore\n";
    assert_eq!(clean_content(content, syntax("go"), true, true, false), "\n\n\ncode\n\n\n\nmore\n");
    assert_eq!(clean_content(content, syntax("go"), true, true, true), "code\n\nmore\n");
}

#[test]
fn trim_empty_deletes_lines_left_by_removed_comments() {
    let content = "a\n// 注释\nb\n";
    assert_eq!(clean_content(content, syntax("rs"), true, true, false), "a\n\nb\n");
    assert_eq!(clean_content(content, syntax("rs"), true, true, true), "a\nb\n");
    let indented = "    // 注释\ncode\n\n\nmore\n";
    assert_eq!(clean_content(indented, syntax("rs"), true, true, true), "code\n\nmore\n");
    let block = "a\n/* 中\n文 */\nb\n";
    assert_eq!(clean_content(block, syntax("c"), true, true, true), "a\nb\n");
    let crlf = "a\r\n  // 注释\r\nb\r\n";
    assert_eq!(clean_content(crlf, syntax("rs"), true, true, true), "a\nb\n");
}

#[test]
fn trim_empty_keeps_lines_with_code_and_existing_single_blank_lines() {
    let content = "x = 1; // 注释\ny\n\nz\n";
    assert_eq!(clean_content(content, syntax("rs"), true, true, true), "x = 1; \ny\n\nz\n");
    let only_comment = "// 注释\n";
    assert_eq!(clean_content(only_comment, syntax("rs"), true, true, true), "\n");
}

#[test]
fn final_newline_is_kept_but_not_added() {
    assert_eq!(clean_content("x // 中\n", syntax("rs"), true, true, true), "x \n");
    assert_eq!(clean_content("a\n// 中", syntax("rs"), true, true, false), "a\n");
    assert_eq!(clean_content("a\n// 中", syntax("rs"), true, true, true), "a");
}

#[test]
fn markers_in_strings_survive_cleaning() {
    let content = "print('# 中文')  # 注释\n";
    assert_eq!(clean_content(content, syntax("py"), true, true, false), "print('# 中文')  \n");
}

#[test]
fn normalize_collapses_runs_and_trims_ends() {
    assert_eq!(normalize_empty_lines("\n\na\n\n\nb\n\n"), "a\n\nb");
    assert_eq!(normalize_empty_lines("  \t\n x \r\n\r\ny"), " x \n\ny");
    assert_eq!(normalize_empty_lines("a\n\u{3000}\nb"), "a\n\nb");
    assert_eq!(normalize_empty_lines("a\r"), "a\r");
    assert_eq!(normalize_empty_lines(""), "");
    assert_eq!(normalize_empty_lines(" \n\t\n"), "");
    assert_eq!(normalize_empty_lines("one\ntwo\n"), "one\ntwo");
}

#[test]
fn collapsed_text_has_no_double_blank_lines() {
    let out = normalize_empty_lines("\n x\n\n \n\t\ny \n\n\n\nz\n \n");
    assert_eq!(out, " x\n\ny \n\nz");
    assert!(!out.contains("\n\n\n"));
    assert!(!out.starts_with('\n') && !out.ends_with('\n'));
}

#[test]
fn selection_flags() {
    assert_eq!(clean_selection(false, false), (true, true));
    assert_eq!(clean_selection(true, false), (true, false));
    assert_eq!(clean_selection(false, true), (false, true));
    assert_eq!(clean_selection(true, true), (true, true));
}

fn file(path: &str, content: &str) -> LoadedSourceFile {
    LoadedSourceFile {
        path: path.to_string(),
        syntax: cnlint::syntax::comment_syntax_for_path(path).unwrap(),
        content: content.to_string(),
    }
}

#[test]
fn dry_run_lists_what_clean_removes() {
    let f = file("src/a.c", C_SAMPLE);
    let both = dry_run_results(&f, true, true);
    assert_eq!(both.len(), 2);
    assert_eq!(format_dry_run_line(&both[0]), "src/a.c:1 Line");
    assert_eq!(format_dry_run_line(&both[1]), "src/a.c:2-3 Block");
    let lines_only = dry_run_results(&f, true, false);
    assert_eq!(lines_only.len(), 1);
    assert_eq!(lines_only[0].kind, "Line");
    let blocks_only = dry_run_results(&f, false, true);
    assert_eq!(blocks_only.len(), 1);
    assert_eq!(blocks_only[0].kind, "Block");
}

#[test]
fn cleaned_text_only_when_changed() {
    let f = file("a.c", C_SAMPLE);
    assert_eq!(
        cleaned_if_changed(&f, true, true, false),
        Some("int a = 1; \n\nint b; // english\n".to_string())
    );
    let g = file("b.c", "int x; // english\n");
    assert_eq!(cleaned_if_changed(&g, true, true, true), None);
}

#[test]
fn cleaning_without_trim_only_cuts_out_comments() {
    let content = "a /* 中 */ b // 中\nc\n";
    assert_eq!(clean_content(content, syntax("rs"), true, true, false), "a  b \nc\n");
    assert_eq!(clean_content(content, syntax("rs"), false, true, false), "a  b // 中\nc\n");
}

#[test]
fn final_newline_inside_a_removed_comment_is_restored() {
    let newline_end = CommentSyntax {
        language: Language::CStyle,
        line_markers: &["//"],
        block_marker: Some(("/*", "*\n")),
        supports_regex_literals: false,
        supports_backticks: false,
    };
    assert_eq!(clean_content("/* 中 *\n", newline_end, true, true, false), "\n");
    assert_eq!(clean_content("x /* 中 *\n", newline_end, true, true, false), "x \n");
}

#[test]
fn unclosed_block_comment_is_left_alone() {
    assert_eq!(clean_content("/* 中文\n", syntax("c"), true, true, false), "/* 中文\n");
    assert_eq!(clean_content("x\n/* 中文\n", syntax("c"), true, true, true), "x\n/* 中文\n");
}

#[test]
fn normalizing_twice_changes_nothing() {
    for text in ["\n\na\n\n\nb\n\n", " x \n\n \n\ty\n", "", "a", "  \n", "a\n\u{3000}\n\nb\n"] {
        let once = normalize_empty_lines(text);
        assert_eq!(normalize_empty_lines(&once), once);
    }
}

#[test]
fn trimmed_output_has_no_double_blank_lines_and_keeps_code_lines() {
    let content = "\n// 中\n\nfn a() {}\n\n\n/* 文 */\n\n\nfn b() {}\n// 注释\n\n";
    let untrimmed = clean_content(content, syntax("rs"), true, true, false);
    let trimmed = clean_content(content, syntax("rs"), true, true, true);
    assert_eq!(trimmed, "fn a() {}\n\nfn b() {}\n");
    let kept: Vec<&str> = trimmed.lines().filter(|l| !l.trim().is_empty()).collect();
    let before: Vec<&str> = untrimmed.lines().filter(|l| !l.trim().is_empty()).collect();
    assert_eq!(kept, before);
    let lines: Vec<&str> = trimmed.lines().collect();
    for pair in lines.windows(2) {
        assert!(!(pair[0].trim().is_empty() && pair[1].trim().is_empty()));
    }
    assert!(trimmed.ends_with('\n'));
}
