//! Checking and scanning loaded source files for Chinese comments.
use vstd::prelude::*;
use vstd::string::StringSliceAdditionalSpecFns;
use vstd::utf8::encode_utf8;

use crate::comment::{chinese_comments_in, extract_chinese_comments, reports, to_lint_result, CommentMatch, LintResult};
use crate::text::{decimal, decimal_string};
use crate::utils::{error_summary, finish_with_collected_errors, texts, LoadedSourceFile};

verus! {

/// A loaded file can be scanned: its syntax is scannable and its text's length fits.
pub open spec fn file_ok(f: LoadedSourceFile) -> bool {
    &&& f.syntax.scannable()
    &&& encode_utf8(f.content@).len() < usize::MAX
}

/// The comments of a loaded file that contain Chinese characters.
pub open spec fn file_chinese_comments(f: LoadedSourceFile) -> Seq<CommentMatch> {
    chinese_comments_in(encode_utf8(f.content@), f.syntax)
}

/// Whether the file holds a comment with a Chinese character.
pub fn file_has_chinese_comment(file: &LoadedSourceFile) -> (r: bool)
    requires
        file_ok(*file),
    ensures
        r == (file_chinese_comments(*file).len() > 0),
{
    let matches = extract_chinese_comments(file.content.as_str(), file.syntax);
    matches.len() > 0
}

/// The result of `check` on the loaded files: whether any of them holds a comment with a
/// Chinese character, or, when files could not be read, an error that summarises that.
pub fn check_files(files: &Vec<LoadedSourceFile>, errors: Vec<String>) -> (r: Result<bool, String>)
    requires
        forall|k: int| 0 <= k < files@.len() ==> file_ok(#[trigger] files@[k]),
    ensures
        errors@.len() == 0 ==> r == Ok::<bool, String>(
            exists|k: int| 0 <= k < files@.len() && file_chinese_comments(#[trigger] files@[k]).len() > 0,
        ),
        errors@.len() > 0 ==> (r matches Err(m) && m@ == error_summary("check"@, texts(errors@))),
{
    let mut has_issue = false;
    let mut i: usize = 0;
    while i < files.len()
        invariant
            i <= files.len(),
            forall|k: int| 0 <= k < files@.len() ==> file_ok(#[trigger] files@[k]),
            has_issue == exists|k: int| 0 <= k < i && file_chinese_comments(#[trigger] files@[k]).len() > 0,
        decreases files.len() - i,
    {
        if file_has_chinese_comment(&files[i]) {
            has_issue = true;
        }
        i = i + 1;
    }
    match finish_with_collected_errors("check", errors) {
        Ok(()) => Ok(has_issue),
        Err(message) => Err(message),
    }
}

/// The comments with Chinese characters of the files, each with its file's path, file by
/// file and in order within each file.
pub open spec fn found_in(files: Seq<LoadedSourceFile>) -> Seq<(Seq<char>, CommentMatch)>
    decreases files.len(),
{
    if files.len() == 0 {
        seq![]
    } else {
        let f = files.last();
        found_in(files.drop_last()) + file_chinese_comments(f).map_values(
            |c: CommentMatch| (f.path@, c),
        )
    }
}

/// The records that `scan` reports: one for each comment with a Chinese character, file by
/// file and in order within each file.
pub fn scan_results(files: &Vec<LoadedSourceFile>) -> (r: Vec<LintResult>)
    requires
        forall|k: int| 0 <= k < files@.len() ==> file_ok(#[trigger] files@[k]),
    ensures
        r@.len() == found_in(files@).len(),
        forall|k: int| 0 <= k < r@.len() ==> reports(#[trigger] r@[k], found_in(files@)[k].0, found_in(files@)[k].1),
{
    let mut results: Vec<LintResult> = Vec::new();
    let mut i: usize = 0;
    while i < files.len()
        invariant
            i <= files.len(),
            forall|k: int| 0 <= k < files@.len() ==> file_ok(#[trigger] files@[k]),
            results@.len() == found_in(files@.take(i as int)).len(),
            forall|k: int| 0 <= k < results@.len() ==> reports(#[trigger] results@[k], found_in(files@.take(i as int))[k].0, found_in(files@.take(i as int))[k].1),
        decreases files.len() - i,
    {
        let file = &files[i];
        let matches = extract_chinese_comments(file.content.as_str(), file.syntax);
        let ghost base = found_in(files@.take(i as int));
        let ghost tagged = file_chinese_comments(*file).map_values(|c: CommentMatch| (file.path@, c));
        assert(files@.take(i + 1).drop_last() =~= files@.take(i as int));
        assert(files@.take(i + 1).last() == *file);
        assert(found_in(files@.take(i + 1)) == base + tagged);
        let mut j: usize = 0;
        while j < matches.len()
            invariant
                j <= matches.len(),
                matches@ == file_chinese_comments(*file),
                tagged == file_chinese_comments(*file).map_values(|c: CommentMatch| (file.path@, c)),
                results@.len() == base.len() + j,
                forall|k: int| 0 <= k < results@.len() ==> reports(#[trigger] results@[k], (base + tagged)[k].0, (base + tagged)[k].1),
            decreases matches.len() - j,
        {
            let item = to_lint_result(file.path.as_str(), &matches[j]);
            results.push(item);
            j = j + 1;
        }
        i = i + 1;
    }
    assert(files@.take(files.len() as int) =~= files@);
    results
}

/// The line that `scan` prints for a record: `<file>:<line>`, or `<file>:<first>-<last>`
/// for a comment over several lines.
pub open spec fn scan_line(file: Seq<char>, start: nat, end: nat) -> Seq<char> {
    if start == end {
        file + ":"@ + decimal(start)
    } else {
        file + ":"@ + decimal(start) + "-"@ + decimal(end)
    }
}

/// The line that `scan` prints for `item` (see [`scan_line`]).
pub fn format_scan_line(item: &LintResult) -> (r: String)
    ensures
        r@ == scan_line(item.file@, item.start_line as nat, item.end_line as nat),
{
    let mut s = String::new();
    s.append(item.file.as_str());
    s.append(":");
    let start = decimal_string(item.start_line);
    s.append(start.as_str());
    if item.start_line != item.end_line {
        s.append("-");
        let end = decimal_string(item.end_line);
        s.append(end.as_str());
    }
    s
}

/// `check` finds an issue exactly when `scan` has something to list.
pub proof fn lemma_check_agrees_with_scan(files: Seq<LoadedSourceFile>)
    ensures
        (found_in(files).len() > 0) == exists|k: int|
            0 <= k < files.len() && file_chinese_comments(#[trigger] files[k]).len() > 0,
    decreases files.len(),
{
    if files.len() > 0 {
        let d = files.drop_last();
        lemma_check_agrees_with_scan(d);
        let f = files.last();
        if exists|k: int| 0 <= k < d.len() && file_chinese_comments(#[trigger] d[k]).len() > 0 {
            let k = choose|k: int| 0 <= k < d.len() && file_chinese_comments(#[trigger] d[k]).len() > 0;
            assert(files[k] == d[k]);
        }
        if exists|k: int| 0 <= k < files.len() && file_chinese_comments(#[trigger] files[k]).len() > 0 {
            let k = choose|k: int| 0 <= k < files.len() && file_chinese_comments(#[trigger] files[k]).len() > 0;
            if k < files.len() - 1 {
                assert(d[k] == files[k]);
            }
        }
    }
}

} // verus!
