//! Source files loaded for scanning, directory filtering, and error messages.
use vstd::prelude::*;

use crate::cleaner::join_lines;
use crate::syntax::CommentSyntax;
use crate::text::{chars_equal_str, decimal, decimal_string, str_chars};

verus! {

/// A source file read for scanning: its path, the comment syntax chosen for it, and its
/// text.
#[derive(Debug)]
pub struct LoadedSourceFile {
    pub path: String,
    pub syntax: CommentSyntax,
    pub content: String,
}

/// Directories that traversal does not enter.
pub open spec fn skipped_dir(name: Seq<char>) -> bool {
    name == ".git"@ || name == "node_modules"@ || name == "target"@ || name == "dist"@ || name
        == "build"@ || name == ".idea"@ || name == ".vscode"@
}

/// Whether a directory of this name is skipped: version control, dependency, build output
/// and editor directories.
pub fn should_skip_dir(name: &str) -> (r: bool)
    ensures
        r == skipped_dir(name@),
{
    let n = str_chars(name);
    chars_equal_str(&n, ".git") || chars_equal_str(&n, "node_modules") || chars_equal_str(
        &n,
        "target",
    ) || chars_equal_str(&n, "dist") || chars_equal_str(&n, "build") || chars_equal_str(
        &n,
        ".idea",
    ) || chars_equal_str(&n, ".vscode")
}

/// The message for a failed directory traversal: `failed to traverse <path>: <error>`, or
/// `failed to traverse directory: <error>` when the failure has no path.
pub fn format_walkdir_error(path: Option<&str>, error: &str) -> (r: String)
    ensures
        r@ == match path {
            Some(p) => "failed to traverse "@ + p@ + ": "@ + error@,
            None => "failed to traverse directory: "@ + error@,
        },
{
    match path {
        Some(p) => {
            let mut s = String::new();
            s.append("failed to traverse ");
            s.append(p);
            s.append(": ");
            s.append(error);
            s
        },
        None => {
            let mut s = String::new();
            s.append("failed to traverse directory: ");
            s.append(error);
            s
        },
    }
}

/// The message for a failed file operation: `failed to <action> <path>: <error>`.
pub fn format_io_error(path: &str, action: &str, error: &str) -> (r: String)
    ensures
        r@ == "failed to "@ + action@ + " "@ + path@ + ": "@ + error@,
{
    let mut s = String::new();
    s.append("failed to ");
    s.append(action);
    s.append(" ");
    s.append(path);
    s.append(": ");
    s.append(error);
    s
}

/// The texts of a list of strings.
pub open spec fn texts(v: Seq<String>) -> Seq<Seq<char>> {
    v.map_values(|e: String| e@)
}

/// The most errors that a summary lists.
pub const MAX_LISTED_ERRORS: usize = 10;

/// The summary of the errors of a command: how many there were, the first ten, one per
/// line, and how many more there were, if any.
pub open spec fn error_summary(command: Seq<char>, errors: Seq<Seq<char>>) -> Seq<char> {
    let n = errors.len();
    let shown = if n <= 10 {
        n
    } else {
        10
    };
    command + " completed with "@ + decimal(n) + " file processing error(s):\n"@ + join_lines(
        errors.take(shown as int),
    ) + if n > shown {
        "\n... and "@ + decimal((n - shown) as nat) + " more error(s)"@
    } else {
        Seq::<char>::empty()
    }
}

/// `Ok` when there were no errors; otherwise an error that summarises them (see
/// [`error_summary`]).
pub fn finish_with_collected_errors(command: &str, errors: Vec<String>) -> (r: Result<(), String>)
    ensures
        errors@.len() == 0 ==> r is Ok,
        errors@.len() > 0 ==> (r matches Err(m) && m@ == error_summary(command@, texts(errors@))),
{
    if errors.len() == 0 {
        return Ok(());
    }
    let n = errors.len();
    let shown: usize = if n <= MAX_LISTED_ERRORS {
        n
    } else {
        MAX_LISTED_ERRORS
    };
    let mut message = String::new();
    message.append(command);
    message.append(" completed with ");
    let count = decimal_string(n);
    message.append(count.as_str());
    message.append(" file processing error(s):\n");
    let ghost head = message@;
    let mut k: usize = 0;
    while k < shown
        invariant
            shown <= errors@.len(),
            k <= shown,
            message@ == head + join_lines(texts(errors@).take(k as int)),
        decreases shown - k,
    {
        if k > 0 {
            message.append("\n");
        }
        message.append(errors[k].as_str());
        proof {
            reveal_strlit("\n");
            assert(texts(errors@).take(k + 1).drop_last() =~= texts(errors@).take(k as int));
            assert(texts(errors@).take(k + 1).last() == errors@[k as int]@);
            assert(texts(errors@).take(k + 1).len() == k + 1);
        }
        k = k + 1;
    }
    if n > shown {
        message.append("\n... and ");
        let more = decimal_string(n - shown);
        message.append(more.as_str());
        message.append(" more error(s)");
    }
    assert(message@ =~= error_summary(command@, texts(errors@)));
    Err(message)
}

} // verus!
