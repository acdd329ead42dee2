use cnlint::comment::{CommentKind, CommentMatch, LintResult};
use cnlint::scanner::{check_files, file_has_chinese_comment, format_scan_line, scan_results};
use cnlint::syntax::comment_syntax_for_path;
use cnlint::text::decimal_string;
use cnlint::utils::{
    finish_with_collected_errors, format_io_error, format_walkdir_error, should_skip_dir,
    LoadedSourceFile,
};

fn file(path: &str, content: &str) -> LoadedSourceFile {
    LoadedSourceFile {
        path: path.to_string(),
        syntax: comment_syntax_for_path(path).unwrap(),
        content: content.to_string(),
    }
}

fn lint(file: &str, start_line: usize, end_line: usize, kind: &str) -> LintResult {
    LintResult { file: file.to_string(), start_line, end_line, kind: kind.to_string() }
}

#[test]
fn check_reports_any_chinese_comment() {
    let clean = file("a.rs", "// english\nfn main() {}\n");
    let dirty = file("b.py", "x = 1  # 中文\n");
    assert!(!file_has_chinese_comment(&clean));
    assert!(file_has_chinese_comment(&dirty));
    assert_eq!(check_files(&vec![], vec![]), Ok(false));
    assert_eq!(check_files(&vec![clean], vec![]), Ok(false));
    let clean = file("a.rs", "// english\n");
    assert_eq!(check_files(&vec![clean, dirty], vec![]), Ok(true));
}

#[test]
fn check_fails_when_files_could_not_be_read() {
    let dirty = file("b.py", "# 中文\n");
    assert_eq!(
        check_files(&vec![dirty], vec!["failed to read x.rs: denied".to_string()]),
        Err("check completed with 1 file processing error(s):\nfailed to read x.rs: denied".to_string())
    );
}

#[test]
fn scan_lists_comments_file_by_file() {
    let a = file("a.sql", "-- 中\nSELECT 1; /* 文\n字 */\n");
    let b = file("b.js", "x(); // 注\n");
    let results = scan_results(&vec![a, b]);
    assert_eq!(results.len(), 3);
    let expected = [("a.sql", 1, 1, "Line"), ("a.sql", 2, 3, "Block"), ("b.js", 1, 1, "Line")];
    for (r, (f, s, e, k)) in results.iter().zip(expected.iter()) {
        assert_eq!(&r.file, f);
        assert_eq!(r.start_line, *s);
        assert_eq!(r.end_line, *e);
        assert_eq!(&r.kind, k);
    }
    assert_eq!(format_scan_line(&results[0]), "a.sql:1");
    assert_eq!(format_scan_line(&results[1]), "a.sql:2-3");
}

#[test]
fn scan_line_formats() {
    assert_eq!(format_scan_line(&lint("src/x.rs", 12, 12, "Line")), "src/x.rs:12");
    assert_eq!(format_scan_line(&lint("src/x.rs", 9, 105, "Block")), "src/x.rs:9-105");
}

#[test]
fn decimal_numbers() {
    assert_eq!(decimal_string(0), "0");
    assert_eq!(decimal_string(7), "7");
    assert_eq!(decimal_string(10), "10");
    assert_eq!(decimal_string(40213), "40213");
    assert_eq!(decimal_string(usize::MAX), usize::MAX.to_string());
}

#[test]
fn no_errors_is_ok() {
    assert_eq!(finish_with_collected_errors("scan", vec![]), Ok(()));
}

#[test]
fn errors_are_summarised() {
    let errors = vec!["e1".to_string(), "e2".to_string()];
    assert_eq!(
        finish_with_collected_errors("check", errors),
        Err("check completed with 2 file processing error(s):\ne1\ne2".to_string())
    );
}

#[test]
fn only_ten_errors_are_listed() {
    let errors: Vec<String> = (1..=12).map(|i| format!("e{i}")).collect();
    let expected = "clean completed with 12 file processing error(s):\ne1\ne2\ne3\ne4\ne5\ne6\ne7\ne8\ne9\ne10\n... and 2 more error(s)";
    assert_eq!(finish_with_collected_errors("clean", errors), Err(expected.to_string()));
    let ten: Vec<String> = (1..=10).map(|i| format!("e{i}")).collect();
    let out = finish_with_collected_errors("scan", ten).unwrap_err();
    assert!(out.ends_with("\ne10"));
}

#[test]
fn io_and_traversal_messages() {
    assert_eq!(format_io_error("a.rs", "read", "oops"), "failed to read a.rs: oops");
    assert_eq!(format_io_error("b.py", "write", "denied"), "failed to write b.py: denied");
    assert_eq!(format_walkdir_error(Some("dir/x"), "boom"), "failed to traverse dir/x: boom");
    assert_eq!(format_walkdir_error(None, "boom"), "failed to traverse directory: boom");
}

#[test]
fn skipped_directories() {
    for name in [".git", "node_modules", "target", "dist", "build", ".idea", ".vscode"] {
        assert!(should_skip_dir(name), "{name}");
    }
    for name in ["src", "Target", "git", "builds", ""] {
        assert!(!should_skip_dir(name), "{name}");
    }
}

#[test]
fn comment_match_fields() {
    let c = CommentMatch { kind: CommentKind::Block, start_line: 1, end_line: 2, start_byte: 0, end_byte: 9 };
    let copy = c;
    assert_eq!(copy, c);
}

#[test]
fn check_agrees_with_scan() {
    let sets = vec![
        vec![file("a.rs", "// fine\n"), file("b.sh", "echo hi # fine\n")],
        vec![file("a.rs", "// fine\n"), file("b.sh", "echo `# 中` # 注\n")],
        vec![file("c.yml", "key: \"# 中\"\n")],
    ];
    for files in sets {
        let listed = scan_results(&files).len() > 0;
        assert_eq!(check_files(&files, vec![]), Ok(listed));
    }
}
