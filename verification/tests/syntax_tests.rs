use cnlint::syntax::{comment_syntax_for_extension, comment_syntax_for_path, CommentSyntax, Language};

fn expect(path: &str, language: Language, regex: bool) {
    let s = comment_syntax_for_path(path).expect("supported extension");
    assert_eq!(s.language, language, "{path}");
    assert_eq!(s.supports_regex_literals, regex, "{path}");
}

#[test]
fn rust_files_use_rust_syntax() {
    let s = comment_syntax_for_path("src/main.rs").unwrap();
    assert_eq!(s.language, Language::Rust);
    assert_eq!(s.line_markers, &["//"]);
    assert_eq!(s.block_marker, Some(("/*", "*/")));
    assert!(!s.supports_regex_literals);
    assert!(!s.supports_backticks);
}

#[test]
fn c_style_extensions() {
    for ext in ["java", "go", "kt", "c", "cc", "cpp", "h", "hpp"] {
        expect(&format!("dir/file.{ext}"), Language::CStyle, false);
    }
    for ext in ["js", "jsx", "ts", "tsx"] {
        expect(&format!("dir/file.{ext}"), Language::CStyle, true);
    }
}

#[test]
fn hash_shell_and_sql_extensions() {
    expect("a.py", Language::HashLine, false);
    expect("a.yaml", Language::HashLine, false);
    expect("conf/a.yml", Language::HashLine, false);
    expect("run.sh", Language::Shell, false);
    expect("run.bash", Language::Shell, false);
    expect("run.zsh", Language::Shell, false);
    expect("db/schema.sql", Language::Sql, false);
    let shell = comment_syntax_for_path("run.sh").unwrap();
    assert!(shell.supports_backticks);
    assert_eq!(shell.line_markers, &["#"]);
    assert_eq!(shell.block_marker, None);
    let sql = comment_syntax_for_path("q.sql").unwrap();
    assert_eq!(sql.line_markers, &["--"]);
    assert_eq!(sql.block_marker, Some(("/*", "*/")));
}

#[test]
fn extension_case_is_ignored() {
    expect("Main.RS", Language::Rust, false);
    expect("App.TSX", Language::CStyle, true);
    expect("X.Sql", Language::Sql, false);
    let lower = comment_syntax_for_extension("rs").unwrap();
    let upper = comment_syntax_for_extension("RS").unwrap();
    assert_eq!(lower, upper);
}

#[test]
fn unsupported_paths_have_no_syntax() {
    assert_eq!(comment_syntax_for_path("README.md"), None);
    assert_eq!(comment_syntax_for_path("Makefile"), None);
    assert_eq!(comment_syntax_for_path(".bashrc"), None);
    assert_eq!(comment_syntax_for_path("dir.rs/"), comment_syntax_for_path("dir.rs"));
    assert_eq!(comment_syntax_for_extension("swift"), None);
    assert_eq!(comment_syntax_for_extension(""), None);
}

#[test]
fn extension_is_taken_from_the_file_name() {
    // The wrapped extension lookup must not hand back the whole path.
    expect("some.dir/file.py", Language::HashLine, false);
    assert_eq!(comment_syntax_for_path("archive.tar.gz"), None);
    expect("archive.gz.rs", Language::Rust, false);
}

#[test]
fn built_in_syntaxes_are_scannable() {
    for path in ["a.rs", "a.js", "a.py", "a.sh", "a.sql"] {
        assert!(comment_syntax_for_path(path).unwrap().is_scannable());
    }
    let open_ended = CommentSyntax {
        language: Language::CStyle,
        line_markers: &["//"],
        block_marker: Some(("/*", "")),
        supports_regex_literals: false,
        supports_backticks: false,
    };
    assert!(open_ended.is_scannable());
    let broken = CommentSyntax {
        language: Language::CStyle,
        line_markers: &["//"],
        block_marker: Some(("", "")),
        supports_regex_literals: false,
        supports_backticks: false,
    };
    assert!(!broken.is_scannable());
    let nesting_without_start = CommentSyntax {
        language: Language::Swift,
        line_markers: &["//"],
        block_marker: Some(("", "*/")),
        supports_regex_literals: false,
        supports_backticks: false,
    };
    assert!(!nesting_without_start.is_scannable());
    let without_start = CommentSyntax {
        language: Language::CStyle,
        line_markers: &["//"],
        block_marker: Some(("", "*/")),
        supports_regex_literals: false,
        supports_backticks: false,
    };
    assert!(without_start.is_scannable());
}
