//! Comment syntaxes of the supported languages, chosen by a file's extension.
use vstd::prelude::*;
use vstd::string::StringSliceAdditionalSpecFns;

use crate::text::{chars_equal_str, str_chars};

verus! {

/// The language family of a comment syntax.
///
/// `Swift` selects the scanner's Swift rules (nested block comments, `#`-delimited and
/// multi-line string literals); no file extension maps to it.
#[derive(Debug, Clone, Copy, PartialEq, Eq, Structural)]
pub enum Language {
    CStyle,
    HashLine,
    Sql,
    Rust,
    Shell,
    Swift,
}

/// How comments and the literals that can hide comment markers are written in a language.
#[derive(Debug, Clone, Copy, PartialEq, Eq)]
pub struct CommentSyntax {
    pub language: Language,
    pub line_markers: &'static [&'static str],
    pub block_marker: Option<(&'static str, &'static str)>,
    pub supports_regex_literals: bool,
    pub supports_backticks: bool,
}

impl CommentSyntax {
    /// The scanner makes progress on every input with this syntax: the block start marker is
    /// not empty where the end marker is empty or where block comments nest (Swift). With an
    /// empty start marker and an empty end marker the scan would open and close block
    /// comments without moving; with an empty start marker and nesting it would open nested
    /// comments without moving.
    pub open spec fn scannable(self) -> bool {
        match self.block_marker {
            Some((start, end)) => (end.spec_bytes().len() == 0 || self.language == Language::Swift)
                ==> start.spec_bytes().len() > 0,
            None => true,
        }
    }

    /// Whether the scanner makes progress with this syntax (see [`CommentSyntax::scannable`]).
    pub fn is_scannable(&self) -> (r: bool)
        ensures
            r == self.scannable(),
    {
        let nesting = match self.language {
            Language::Swift => true,
            _ => false,
        };
        match self.block_marker {
            Some((start, end)) => (end.as_bytes().len() > 0 && !nesting) || start.as_bytes().len()
                > 0,
            None => true,
        }
    }

    /// No comment marker contains a newline, so that line numbers count every newline.
    pub open spec fn markers_single_line(self) -> bool {
        &&& forall|k: int|
            0 <= k < self.line_markers@.len() ==> !(#[trigger] self.line_markers@[k]).spec_bytes().contains(10u8)
        &&& match self.block_marker {
            Some((start, end)) => !start.spec_bytes().contains(10u8) && !end.spec_bytes().contains(10u8),
            None => true,
        }
    }
}

/// `s` is the built-in syntax of `language`, with regex literals recognised iff `regex`.
pub open spec fn standard_syntax(s: CommentSyntax, language: Language, regex: bool) -> bool {
    &&& s.language == language
    &&& s.supports_regex_literals == regex
    &&& s.supports_backticks == (language == Language::Shell)
    &&& s.line_markers@ == if language == Language::HashLine || language == Language::Shell {
        seq!["#"]
    } else if language == Language::Sql {
        seq!["--"]
    } else {
        seq!["//"]
    }
    &&& s.block_marker == if language == Language::HashLine || language == Language::Shell {
        None
    } else {
        Some(("/*", "*/"))
    }
}

fn standard(language: Language, regex: bool) -> (s: CommentSyntax)
    requires
        language != Language::Swift,
    ensures
        standard_syntax(s, language, regex),
        s.scannable(),
        s.markers_single_line(),
{
    proof {
        reveal_strlit("#");
        reveal_strlit("--");
        reveal_strlit("//");
        reveal_strlit("/*");
        reveal_strlit("*/");
    }
    broadcast use vstd::string::group_string_axioms;
    assert(vstd::string::is_ascii("#"));
    assert("#".spec_bytes() =~= seq![35u8]);
    assert(vstd::string::is_ascii("--"));
    assert("--".spec_bytes() =~= seq![45u8, 45u8]);
    assert(vstd::string::is_ascii("//"));
    assert("//".spec_bytes() =~= seq![47u8, 47u8]);
    assert(vstd::string::is_ascii("/*"));
    assert("/*".spec_bytes() =~= seq![47u8, 42u8]);
    assert(vstd::string::is_ascii("*/"));
    assert("*/".spec_bytes() =~= seq![42u8, 47u8]);
    if language == Language::HashLine || language == Language::Shell {
        let markers: &'static [&'static str] = &["#"];
        assert(markers@ == seq!["#"]);
        CommentSyntax {
            language,
            line_markers: markers,
            block_marker: None,
            supports_regex_literals: regex,
            supports_backticks: language == Language::Shell,
        }
    } else if language == Language::Sql {
        let markers: &'static [&'static str] = &["--"];
        assert(markers@ == seq!["--"]);
        CommentSyntax {
            language,
            line_markers: markers,
            block_marker: Some(("/*", "*/")),
            supports_regex_literals: regex,
            supports_backticks: false,
        }
    } else {
        let markers: &'static [&'static str] = &["//"];
        assert(markers@ == seq!["//"]);
        CommentSyntax {
            language,
            line_markers: markers,
            block_marker: Some(("/*", "*/")),
            supports_regex_literals: regex,
            supports_backticks: false,
        }
    }
}

/// ASCII lower-casing of one character (`char::to_ascii_lowercase`).
pub open spec fn ascii_lower(c: char) -> char {
    if 'A' <= c <= 'Z' {
        ((c as u32) + 32) as char
    } else {
        c
    }
}

/// ASCII lower-casing of a text (`str::to_ascii_lowercase`).
pub open spec fn ascii_lowercase(s: Seq<char>) -> Seq<char> {
    s.map_values(|c: char| ascii_lower(c))
}

/// The language of an already lower-cased file extension, if it is a supported one.
pub open spec fn extension_language(e: Seq<char>) -> Option<Language> {
    if e == "java"@ || e == "go"@ || e == "js"@ || e == "jsx"@ || e == "ts"@ || e == "tsx"@
        || e == "kt"@ || e == "c"@ || e == "cc"@ || e == "cpp"@ || e == "h"@ || e == "hpp"@ {
        Some(Language::CStyle)
    } else if e == "rs"@ {
        Some(Language::Rust)
    } else if e == "py"@ || e == "yaml"@ || e == "yml"@ {
        Some(Language::HashLine)
    } else if e == "sh"@ || e == "bash"@ || e == "zsh"@ {
        Some(Language::Shell)
    } else if e == "sql"@ {
        Some(Language::Sql)
    } else {
        None
    }
}

/// JavaScript and TypeScript extensions, whose syntax has regex literals.
pub open spec fn extension_has_regex(e: Seq<char>) -> bool {
    e == "js"@ || e == "jsx"@ || e == "ts"@ || e == "tsx"@
}

/// `r` is the comment syntax for a file with extension `ext` (compared without regard to
/// ASCII case): the built-in syntax of its language, or none for an unsupported extension.
pub open spec fn syntax_for_extension(ext: Seq<char>, r: Option<CommentSyntax>) -> bool {
    let e = ascii_lowercase(ext);
    match extension_language(e) {
        None => r is None,
        Some(language) => r matches Some(s) && standard_syntax(
            s,
            language,
            language == Language::CStyle && extension_has_regex(e),
        ),
    }
}

/// The text of `path`'s extension as `std::path::Path::extension` finds it.
pub uninterp spec fn path_extension(path: Seq<char>) -> Option<Seq<char>>;

/// The extension of `path` by std's `Path::extension` (the part of the file name after its
/// last dot, when there is one and the name is not a dot file). The contract claims only
/// that the result is the named function of the path's characters; how std splits a path
/// into components is not restated.
#[verifier::external_body]
fn extension_of(path: &str) -> (r: Option<String>)
    ensures
        r.is_some() == path_extension(path@).is_some(),
        r matches Some(e) ==> e@ == path_extension(path@).unwrap(),
{
    match std::path::Path::new(path).extension() {
        Some(ext) => match ext.to_str() {
            Some(text) => Some(text.to_owned()),
            None => None,
        },
        None => None,
    }
}

fn lowercase_chars(s: &str) -> (v: Vec<char>)
    ensures
        v@ == ascii_lowercase(s@),
{
    let w = str_chars(s);
    let mut v: Vec<char> = Vec::new();
    let mut i: usize = 0;
    while i < w.len()
        invariant
            w@ == s@,
            i <= w.len(),
            v@ == ascii_lowercase(s@).take(i as int),
        decreases w.len() - i,
    {
        let c = w[i];
        let l = if 'A' <= c && c <= 'Z' {
            let b: u8 = (c as u32 + 32) as u8;
            b as char
        } else {
            c
        };
        v.push(l);
        assert(ascii_lowercase(s@).take(i + 1) =~= ascii_lowercase(s@).take(i as int).push(l));
        i = i + 1;
    }
    assert(ascii_lowercase(s@).take(w.len() as int) =~= ascii_lowercase(s@));
    v
}

/// The comment syntax for a file extension given without its dot, e.g. `"rs"` or `"TSX"`.
pub fn comment_syntax_for_extension(ext: &str) -> (r: Option<CommentSyntax>)
    ensures
        syntax_for_extension(ext@, r),
        r matches Some(s) ==> s.scannable() && s.markers_single_line(),
{
    let e = lowercase_chars(ext);
    if chars_equal_str(&e, "java") || chars_equal_str(&e, "go") || chars_equal_str(&e, "js")
        || chars_equal_str(&e, "jsx") || chars_equal_str(&e, "ts") || chars_equal_str(&e, "tsx")
        || chars_equal_str(&e, "kt") || chars_equal_str(&e, "c") || chars_equal_str(&e, "cc")
        || chars_equal_str(&e, "cpp") || chars_equal_str(&e, "h") || chars_equal_str(&e, "hpp") {
        let regex = chars_equal_str(&e, "js") || chars_equal_str(&e, "jsx") || chars_equal_str(
            &e,
            "ts",
        ) || chars_equal_str(&e, "tsx");
        Some(standard(Language::CStyle, regex))
    } else if chars_equal_str(&e, "rs") {
        Some(standard(Language::Rust, false))
    } else if chars_equal_str(&e, "py") || chars_equal_str(&e, "yaml") || chars_equal_str(
        &e,
        "yml",
    ) {
        Some(standard(Language::HashLine, false))
    } else if chars_equal_str(&e, "sh") || chars_equal_str(&e, "bash") || chars_equal_str(
        &e,
        "zsh",
    ) {
        Some(standard(Language::Shell, false))
    } else if chars_equal_str(&e, "sql") {
        Some(standard(Language::Sql, false))
    } else {
        None
    }
}

/// The comment syntax for a file, chosen by its path's extension (ASCII case ignored);
/// `None` for a path without a supported extension.
pub fn comment_syntax_for_path(path: &str) -> (r: Option<CommentSyntax>)
    ensures
        match path_extension(path@) {
            None => r is None,
            Some(ext) => syntax_for_extension(ext, r),
        },
        r matches Some(s) ==> s.scannable() && s.markers_single_line(),
{
    match extension_of(path) {
        None => None,
        Some(ext) => comment_syntax_for_extension(ext.as_str()),
    }
}

} // verus!
