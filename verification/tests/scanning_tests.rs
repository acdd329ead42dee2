use cnlint::comment::{
    contains_chinese, extract_chinese_comments, extract_comments, to_lint_result, CommentKind,
    CommentMatch,
};
use cnlint::syntax::{comment_syntax_for_extension, CommentSyntax, Language};

fn syntax(ext: &str) -> CommentSyntax {
    comment_syntax_for_extension(ext).unwrap()
}

fn swift() -> CommentSyntax {
    CommentSyntax {
        language: Language::Swift,
        line_markers: &["//"],
        block_marker: Some(("/*", "*/")),
        supports_regex_literals: false,
        supports_backticks: false,
    }
}

fn m(kind: CommentKind, start_line: usize, end_line: usize, start_byte: usize, end_byte: usize) -> CommentMatch {
    CommentMatch { kind, start_line, end_line, start_byte, end_byte }
}

const C_SAMPLE: &str = "int a = 1; // 中文注释\n/* block\n 中文 */\nint b; // english\n";

#[test]
fn line_and_block_comments_with_lines_and_bytes() {
    let found = extract_comments(C_SAMPLE, syntax("c"));
    assert_eq!(
        found,
        vec![
            m(CommentKind::Line, 1, 1, 11, 26),
            m(CommentKind::Block, 2, 3, 27, 46),
            m(CommentKind::Line, 4, 4, 54, 64),
        ]
    );
    assert_eq!(&C_SAMPLE[11..26], "// 中文注释");
    assert_eq!(&C_SAMPLE[27..46], "/* block\n 中文 */");
}

#[test]
fn only_chinese_comments_are_selected() {
    let found = extract_chinese_comments(C_SAMPLE, syntax("c"));
    assert_eq!(
        found,
        vec![m(CommentKind::Line, 1, 1, 11, 26), m(CommentKind::Block, 2, 3, 27, 46)]
    );
    assert!(extract_chinese_comments("// only english\n/* here */", syntax("c")).is_empty());
    assert!(extract_chinese_comments("", syntax("rs")).is_empty());
}

#[test]
fn markers_inside_strings_are_not_comments() {
    let content = "let s = \"// 中文\"; // 注释\n";
    assert_eq!(extract_comments(content, syntax("rs")), vec![m(CommentKind::Line, 1, 1, 21, 30)]);
    let single = "x = '# 中'  # 注\n";
    let found = extract_comments(single, syntax("py"));
    assert_eq!(found.len(), 1);
    assert_eq!(&single[found[0].start_byte..found[0].end_byte], "# 注");
}

#[test]
fn escaped_quotes_do_not_end_strings() {
    let content = "s = \"a\\\" // 中\" // x\n";
    let found = extract_comments(content, syntax("js"));
    assert_eq!(found.len(), 1);
    assert_eq!(&content[found[0].start_byte..found[0].end_byte], "// x");
}

#[test]
fn rust_raw_strings_hide_markers() {
    let content = "let r = r#\"/* 中文 */\"#; // 中\n";
    assert_eq!(extract_comments(content, syntax("rs")), vec![m(CommentKind::Line, 1, 1, 27, 33)]);
    // In a raw string a backslash escapes nothing, so the string ends before the comment;
    // read as a C string, the escaped quote keeps the string open to the end of the line.
    let path = "let p = r\"C:\\\"; // 中\n";
    assert_eq!(extract_comments(path, syntax("rs")), vec![m(CommentKind::Line, 1, 1, 16, 22)]);
    assert!(extract_comments(path, syntax("c")).is_empty());
}

#[test]
fn regex_literals_hide_markers_in_javascript() {
    let content = "a = /[/*]/; // 中\n";
    assert_eq!(extract_comments(content, syntax("js")), vec![m(CommentKind::Line, 1, 1, 12, 18)]);
    // In C the same text opens a block comment that never closes.
    assert!(extract_comments(content, syntax("c")).is_empty());
    let escaped = "const re = /\\/\\/ 中/; // 注\n";
    assert_eq!(extract_comments(escaped, syntax("ts")), vec![m(CommentKind::Line, 1, 1, 23, 29)]);
}

#[test]
fn regex_after_keyword_but_not_after_identifier() {
    let after_return = "return /x\\/y/; // 中\n";
    let found = extract_comments(after_return, syntax("js"));
    assert_eq!(found.len(), 1);
    assert_eq!(&after_return[found[0].start_byte..found[0].end_byte], "// 中");
    // After an identifier a slash is division, so `/ b; // 中` is code and a comment.
    let division = "x = a / b; // 中\n";
    let found = extract_comments(division, syntax("js"));
    assert_eq!(found.len(), 1);
    assert_eq!(&division[found[0].start_byte..found[0].end_byte], "// 中");
}

#[test]
fn sql_line_comments() {
    assert_eq!(
        extract_comments("SELECT 1; -- 中文\n", syntax("sql")),
        vec![m(CommentKind::Line, 1, 1, 10, 19)]
    );
}

#[test]
fn shell_backticks_are_strings() {
    let content = "echo `# 中`\n# 注\n";
    assert_eq!(extract_comments(content, syntax("sh")), vec![m(CommentKind::Line, 2, 2, 13, 18)]);
    assert_eq!(
        extract_comments(content, syntax("py")),
        vec![m(CommentKind::Line, 1, 1, 6, 12), m(CommentKind::Line, 2, 2, 13, 18)]
    );
}

#[test]
fn swift_block_comments_nest() {
    let content = "/* a /* 中 */ b */\n";
    assert_eq!(extract_comments(content, swift()), vec![m(CommentKind::Block, 1, 1, 0, 19)]);
    assert_eq!(extract_comments(content, syntax("c")), vec![m(CommentKind::Block, 1, 1, 0, 14)]);
}

#[test]
fn swift_strings_hide_markers() {
    let content = "let s = \"// 中\" // 注\n";
    assert_eq!(extract_comments(content, swift()), vec![m(CommentKind::Line, 1, 1, 17, 23)]);
    let multi = "let t = \"\"\"\n// 中\n\"\"\"\n// 注\n";
    let found = extract_comments(multi, swift());
    assert_eq!(found.len(), 1);
    assert_eq!(found[0].start_line, 4);
    let raw = "let r = #\"a\"b\"# // 注\n";
    let found = extract_comments(raw, swift());
    assert_eq!(found.len(), 1);
    assert_eq!(&raw[found[0].start_byte..found[0].end_byte], "// 注");
}

#[test]
fn unterminated_block_comment_is_not_reported() {
    assert!(extract_comments("x /* 中文 never closed\n", syntax("c")).is_empty());
}

#[test]
fn comment_at_end_without_newline() {
    let content = "x // 中";
    assert_eq!(extract_comments(content, syntax("go")), vec![m(CommentKind::Line, 1, 1, 2, 8)]);
}

#[test]
fn chinese_detection_ranges() {
    assert!(!contains_chinese("hello"));
    assert!(!contains_chinese(""));
    assert!(contains_chinese("a中b"));
    assert!(contains_chinese("\u{3400}"));
    assert!(contains_chinese("\u{20000}"));
    assert!(contains_chinese("\u{2B820}"));
    assert!(contains_chinese("\u{F900}"));
    assert!(!contains_chinese("\u{3007}"));
    assert!(!contains_chinese("ｈｅｌｌｏ、。"));
    assert!(!contains_chinese("こんにちは"));
}

#[test]
fn lint_result_names_the_kind() {
    let line = to_lint_result("src/a.rs", &m(CommentKind::Line, 3, 3, 0, 5));
    assert_eq!(line.file, "src/a.rs");
    assert_eq!((line.start_line, line.end_line), (3, 3));
    assert_eq!(line.kind, "Line");
    let block = to_lint_result("b.c", &m(CommentKind::Block, 2, 7, 0, 5));
    assert_eq!(block.kind, "Block");
    assert_eq!((block.start_line, block.end_line), (2, 7));
}

#[test]
fn comments_are_ordered_and_disjoint() {
    let content = "a /* 1 */ b // 2\n/* 3\n */ // 4 /* not */\n'/*' // 5";
    let found = extract_comments(content, syntax("c"));
    assert_eq!(found.len(), 5);
    for w in found.windows(2) {
        assert!(w[0].end_byte <= w[1].start_byte);
    }
    for c in &found {
        assert!(c.start_byte < c.end_byte && c.end_byte <= content.len());
        let newlines = content[..c.start_byte].matches('\n').count();
        assert_eq!(c.start_line, newlines + 1);
    }
}

#[test]
fn comment_after_rust_lifetime_is_found() {
    let found = extract_chinese_comments("fn f(x: &'static str) {} // 注释", syntax("rs"));
    assert_eq!(found, vec![m(CommentKind::Line, 1, 1, 25, 34)]);
    let generic = "struct S<'a> { x: &'a str } // 中文";
    assert_eq!(extract_chinese_comments(generic, syntax("rs")).len(), 1);
}

#[test]
fn rust_char_literals_hide_their_contents() {
    assert_eq!(extract_chinese_comments("let c = '\"'; // 注释", syntax("rs")).len(), 1);
    assert_eq!(extract_chinese_comments("let c = '\\''; // 注释", syntax("rs")).len(), 1);
    assert_eq!(extract_chinese_comments("let c = '中'; // 注释", syntax("rs")).len(), 1);
    assert_eq!(extract_chinese_comments("let c = '\\n'; /* 中文 */", syntax("rs")).len(), 1);
}

#[test]
fn empty_block_end_marker_closes_right_after_the_start() {
    let open_ended = CommentSyntax {
        language: Language::CStyle,
        line_markers: &["//"],
        block_marker: Some(("/*", "")),
        supports_regex_literals: false,
        supports_backticks: false,
    };
    assert_eq!(extract_comments("a /* b", open_ended), vec![m(CommentKind::Block, 1, 1, 2, 4)]);
    assert_eq!(extract_comments("x /*\ny", open_ended), vec![m(CommentKind::Block, 1, 2, 2, 5)]);
}
