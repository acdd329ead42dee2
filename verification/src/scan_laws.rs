//! How the scanner treats literals: what it skips, where it resumes, and where a `/` is not
//! the start of a regular expression.
use vstd::prelude::*;

use crate::lexer::{
    hash_run, is_ws, previous_significant, scan, skip_word_back, skip_ws_back, step,
    ScanState,
};
use crate::scan_facts::newlines_before;
use crate::syntax::{CommentSyntax, Language};

verus! {

/// Exactly `n` `#` bytes follow position `j` before a byte that is not `#`.
proof fn lemma_hash_run_exact(b: Seq<u8>, j: int, n: int)
    requires
        0 <= j,
        0 <= n,
        j + n < b.len(),
        forall|k: int| j <= k < j + n ==> b[k] == 35u8,
        b[j + n] != 35u8,
    ensures
        hash_run(b, j) == n,
    decreases n,
{
    if n > 0 {
        lemma_hash_run_exact(b, j + 1, n - 1);
    }
}

/// Inside a raw string opened with `n` hashes, the scanner stays in the string up to the
/// first `"` followed by `n` hashes, at `j`, and goes on in code after them.
proof fn lemma_raw_string_inside(
    b: Seq<u8>,
    syntax: CommentSyntax,
    n: usize,
    k: int,
    j: int,
    line: int,
)
    requires
        0 <= k <= j,
        j + n < b.len(),
        b[j] == 34u8,
        forall|m: int| j + 1 <= m <= j + n ==> b[m] == 35u8,
        forall|p: int|
            k <= p < j && #[trigger] b[p] == 34u8 ==> exists|m: int| p < m <= p + n && b[m] != 35u8,
    ensures
        scan(b, syntax, ScanState::RustRawString { hashes: n }, k, line) == scan(
            b,
            syntax,
            ScanState::Code,
            j + n + 1,
            line + newlines_before(b, j) - newlines_before(b, k),
        ),
    decreases j - k,
{
    let st = ScanState::RustRawString { hashes: n };
    if k == j {
        assert(crate::lexer::raw_string_end(b, j, n as int));
    } else {
        if b[k] == 34u8 {
            let m = choose|m: int| k < m <= k + n && b[m] != 35u8;
            assert(!crate::lexer::raw_string_end(b, k, n as int));
        }
        lemma_raw_string_inside(b, syntax, n, k + 1, j, if b[k] == 10u8 {
            line + 1
        } else {
            line
        });
        assert(newlines_before(b, k + 1) == newlines_before(b, k) + if b[k] == 10u8 {
            1int
        } else {
            0int
        });
    }
}

/// A Rust raw string `r#…#"…"#…#` with `n` hashes, met in code, is skipped whole: the
/// scanner reports no comment that starts inside it, and goes on in code right after its
/// closing `"` and `n` hashes, the first `"` followed by `n` hashes after the opening one.
pub proof fn lemma_raw_string_skipped(b: Seq<u8>, syntax: CommentSyntax, i: int, n: int, j: int, line: int)
    requires
        syntax.language == Language::Rust,
        b.len() <= usize::MAX,
        0 <= i,
        0 <= n,
        i + n + 1 < j,
        j + n < b.len(),
        b[i] == 114u8,
        forall|k: int| i + 1 <= k <= i + n ==> b[k] == 35u8,
        b[i + n + 1] == 34u8,
        b[j] == 34u8,
        forall|k: int| j + 1 <= k <= j + n ==> b[k] == 35u8,
        forall|p: int|
            i + n + 1 < p < j && #[trigger] b[p] == 34u8 ==> exists|m: int|
                p < m <= p + n && b[m] != 35u8,
    ensures
        scan(b, syntax, ScanState::Code, i, line) == scan(
            b,
            syntax,
            ScanState::Code,
            j + n + 1,
            line + newlines_before(b, j) - newlines_before(b, i),
        ),
{
    lemma_hash_run_exact(b, i + 1, n);
    let h = n as usize;
    assert(crate::lexer::raw_string_start(b, i, syntax.language) == Some(n));
    lemma_raw_string_inside(b, syntax, h, i + n + 2, j, line);
    crate::scan_facts::lemma_newlines_flat(b, i, i + n + 2);
}

/// In a quoted string a backslash escapes exactly the one byte after it (a newline aside):
/// from an unescaped `\` the scanner is, two bytes on, in the same string and unescaped
/// again, with no comment in between.
pub proof fn lemma_escape_covers_one_byte(b: Seq<u8>, syntax: CommentSyntax, quote: u8, i: int, line: int)
    requires
        0 <= i,
        i + 1 < b.len(),
        b[i] == 92u8,
        b[i + 1] != 10u8,
    ensures
        scan(b, syntax, ScanState::String { quote, escape: false }, i, line) == scan(
            b,
            syntax,
            ScanState::String { quote, escape: false },
            i + 2,
            line,
        ),
{
    assert(scan(b, syntax, ScanState::String { quote, escape: false }, i, line) == scan(
        b,
        syntax,
        ScanState::String { quote, escape: true },
        i + 1,
        line,
    ));
}

/// An unescaped closing quote ends its string: the scanner goes on in code right after it.
pub proof fn lemma_quote_closes_string(b: Seq<u8>, syntax: CommentSyntax, quote: u8, i: int, line: int)
    requires
        0 <= i < b.len(),
        b[i] == quote,
        quote != 92u8,
        quote != 10u8,
    ensures
        scan(b, syntax, ScanState::String { quote, escape: false }, i, line) == scan(
            b,
            syntax,
            ScanState::Code,
            i + 1,
            line,
        ),
{
}

/// Skipping whitespace back from `i` stops right after `j`, the last byte that is not
/// whitespace.
proof fn lemma_back_over_ws(b: Seq<u8>, i: int, j: int)
    requires
        0 <= j < i <= b.len(),
        !is_ws(b[j]),
        forall|m: int| j < m < i ==> is_ws(#[trigger] b[m]),
    ensures
        previous_significant(b, i) == Some(b[j]),
        skip_ws_back(b, i) == j + 1,
    decreases i - j,
{
    if i > j + 1 {
        lemma_back_over_ws(b, i - 1, j);
    }
}

/// Skipping a word back from after its last byte stays within the word.
proof fn lemma_word_back_bound(b: Seq<u8>, k: int)
    requires
        0 <= k <= b.len(),
    ensures
        0 <= skip_word_back(b, k) <= k,
    decreases k,
{
    if k > 0 && crate::lexer::is_word_byte(b[k - 1]) {
        lemma_word_back_bound(b, k - 1);
    }
}

/// A `/` whose previous non-whitespace byte ends an operand (`)`, `]`, `}` or a digit) is
/// division: the scanner does not enter a regular-expression literal there.
pub proof fn lemma_no_regex_after_operand(b: Seq<u8>, syntax: CommentSyntax, i: int, j: int, line: int)
    requires
        0 <= j < i < b.len(),
        b[i] == 47u8,
        b[j] == 41u8 || b[j] == 93u8 || b[j] == 125u8 || (48u8 <= b[j] <= 57u8),
        forall|m: int| j < m < i ==> is_ws(#[trigger] b[m]),
    ensures
        !(step(b, syntax, ScanState::Code, i, line).0 is Regex),
{
    lemma_back_over_ws(b, i, j);
    let start = skip_word_back(b, j + 1);
    lemma_word_back_bound(b, j + 1);
    if start != j + 1 {
        let w = b.subrange(start, j + 1);
        assert(w.last() == b[j]);
        assert(!crate::lexer::is_regex_keyword(w)) by {
            if w == seq![114u8, 101u8, 116u8, 117u8, 114u8, 110u8] {
                assert(w.last() == 110u8);
            }
            if w == seq![99u8, 97u8, 115u8, 101u8] {
                assert(w.last() == 101u8);
            }
            if w == seq![116u8, 104u8, 114u8, 111u8, 119u8] {
                assert(w.last() == 119u8);
            }
            if w == seq![105u8, 110u8] {
                assert(w.last() == 110u8);
            }
            if w == seq![111u8, 102u8] {
                assert(w.last() == 102u8);
            }
        }
    }
    assert(!crate::lexer::previous_word_is_regex_keyword(b, i));
    assert(!crate::lexer::regex_start_at(b, i, syntax));
}

/// A newline ends a string quoted with `'` or `"` (escaped or not): the scanner goes on in
/// code on the next line. A string in backticks goes on over the newline.
pub proof fn lemma_newline_in_string(b: Seq<u8>, syntax: CommentSyntax, quote: u8, escape: bool, i: int, line: int)
    requires
        0 <= i < b.len(),
        b[i] == 10u8,
    ensures
        quote != 96u8 ==> scan(b, syntax, ScanState::String { quote, escape }, i, line) == scan(
            b,
            syntax,
            ScanState::Code,
            i + 1,
            line + 1,
        ),
        quote == 96u8 ==> scan(b, syntax, ScanState::String { quote, escape }, i, line) == scan(
            b,
            syntax,
            ScanState::String { quote, escape },
            i + 1,
            line + 1,
        ),
{
}

/// Skipping a word back from the end of a word that starts at `s` stops at `s`.
proof fn lemma_word_back_exact(b: Seq<u8>, s: int, k: int)
    requires
        0 <= s <= k <= b.len(),
        s == 0 || !crate::lexer::is_word_byte(b[s - 1]),
        forall|m: int| s <= m < k ==> crate::lexer::is_word_byte(#[trigger] b[m]),
    ensures
        skip_word_back(b, k) == s,
    decreases k - s,
{
    if k > s {
        lemma_word_back_exact(b, s, k - 1);
    }
}

/// A `/` after an identifier or a number (whitespace between allowed) is division, unless
/// the word is `return`, `case`, `throw`, `in` or `of`: the scanner does not enter a
/// regular-expression literal there.
pub proof fn lemma_no_regex_after_word(b: Seq<u8>, syntax: CommentSyntax, s: int, j: int, i: int, line: int)
    requires
        0 <= s <= j < i < b.len(),
        b[i] == 47u8,
        s == 0 || !crate::lexer::is_word_byte(b[s - 1]),
        forall|m: int| s <= m <= j ==> crate::lexer::is_word_byte(#[trigger] b[m]),
        forall|m: int| j < m < i ==> is_ws(#[trigger] b[m]),
        b.subrange(s, j + 1) != seq![114u8, 101u8, 116u8, 117u8, 114u8, 110u8],
        b.subrange(s, j + 1) != seq![99u8, 97u8, 115u8, 101u8],
        b.subrange(s, j + 1) != seq![116u8, 104u8, 114u8, 111u8, 119u8],
        b.subrange(s, j + 1) != seq![105u8, 110u8],
        b.subrange(s, j + 1) != seq![111u8, 102u8],
    ensures
        !(step(b, syntax, ScanState::Code, i, line).0 is Regex),
{
    assert(crate::lexer::is_word_byte(b[j]));
    assert(!is_ws(b[j]));
    lemma_back_over_ws(b, i, j);
    lemma_word_back_exact(b, s, j + 1);
    assert(!crate::lexer::previous_word_is_regex_keyword(b, i));
    assert(!crate::lexer::is_regex_prefix_punct(b[j]));
    assert(!crate::lexer::regex_start_at(b, i, syntax));
}

/// Where regular-expression literals exist, a `/` that starts no comment and is followed by
/// a byte other than `/`, `*` or whitespace opens one after an operator or opening
/// punctuation (`=([{!?:;,<>+-*%^&|~`, whitespace between allowed) or at the very start.
pub proof fn lemma_regex_after_operator(b: Seq<u8>, syntax: CommentSyntax, i: int, line: int)
    requires
        syntax.supports_regex_literals,
        0 <= i,
        i + 1 < b.len(),
        b[i] == 47u8,
        b[i + 1] != 47u8 && b[i + 1] != 42u8 && !is_ws(b[i + 1]),
        crate::lexer::comment_start_at(b, i, syntax) is None,
        (forall|m: int| 0 <= m < i ==> is_ws(#[trigger] b[m])) || exists|j: int|
            0 <= j < i && (forall|m: int| j < m < i ==> is_ws(#[trigger] b[m])) && ({
                let p = #[trigger] b[j];
                ||| p == 61u8 || p == 40u8 || p == 91u8 || p == 123u8 || p == 33u8 || p == 63u8
                ||| p == 58u8 || p == 59u8 || p == 44u8 || p == 60u8 || p == 62u8 || p == 43u8
                ||| p == 45u8 || p == 42u8 || p == 37u8 || p == 94u8 || p == 38u8 || p == 124u8
                ||| p == 126u8
            }),
    ensures
        step(b, syntax, ScanState::Code, i, line).0 == (ScanState::Regex { escape: false, in_char_class: false }),
{
    if forall|m: int| 0 <= m < i ==> is_ws(#[trigger] b[m]) {
        lemma_all_ws_back(b, i);
    } else {
        let j = choose|j: int|
            0 <= j < i && (forall|m: int| j < m < i ==> is_ws(#[trigger] b[m])) && ({
                let p = #[trigger] b[j];
                ||| p == 61u8 || p == 40u8 || p == 91u8 || p == 123u8 || p == 33u8 || p == 63u8
                ||| p == 58u8 || p == 59u8 || p == 44u8 || p == 60u8 || p == 62u8 || p == 43u8
                ||| p == 45u8 || p == 42u8 || p == 37u8 || p == 94u8 || p == 38u8 || p == 124u8
                ||| p == 126u8
            });
        lemma_back_over_ws(b, i, j);
    }
    assert(crate::lexer::regex_start_at(b, i, syntax));
}

/// With only whitespace before `k`, there is no previous significant byte.
proof fn lemma_all_ws_back(b: Seq<u8>, k: int)
    requires
        0 <= k <= b.len(),
        forall|m: int| 0 <= m < k ==> is_ws(#[trigger] b[m]),
    ensures
        previous_significant(b, k) is None,
    decreases k,
{
    if k > 0 {
        lemma_all_ws_back(b, k - 1);
    }
}

} // verus!
