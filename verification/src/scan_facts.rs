//! What holds of every comment the scanner reports: where it lies, how it is delimited, on
//! which lines it starts and ends, and that comments come in order without overlapping.
use vstd::prelude::*;
use vstd::string::StringSliceAdditionalSpecFns;
use vstd::utf8::{is_char_boundary, valid_utf8};

use crate::comment::{CommentKind, CommentMatch};
use crate::lexer::{comments_in, measure, scan, comment_start_at, first_marker_at, hash_at, lemma_hash_run_bounds, lemma_line_end_bounds, lemma_step_progress, line_end, raw_string_end, raw_string_start, starts_with_at, state_ok, step, swift_string_closes, swift_string_start, triple_quote, ScanState, BACKSLASH, DOUBLE_QUOTE, HASH, NEWLINE, SLASH};
use crate::syntax::CommentSyntax;
use crate::utf8_facts::{lemma_boundary_after_encoded, lemma_boundary_around_ascii, lemma_boundary_at_encoded, lemma_boundary_ends};

verus! {

/// The number of newline bytes before position `k`.
pub open spec fn newlines_before(b: Seq<u8>, k: int) -> int
    decreases k,
{
    if k <= 0 {
        0
    } else {
        newlines_before(b, k - 1) + if b[k - 1] == NEWLINE {
            1int
        } else {
            0int
        }
    }
}

/// Some comment marker of the syntax is empty, so that a comment can start anywhere.
pub open spec fn comment_anywhere(syntax: CommentSyntax) -> bool {
    ||| exists|k: int|
        0 <= k < syntax.line_markers@.len() && (#[trigger] syntax.line_markers@[k]).spec_bytes().len() == 0
    ||| syntax.block_marker matches Some((start, _)) && start.spec_bytes().len() == 0
}

/// A reported comment is delimited as its kind requires: a line comment starts with one of
/// the line markers and runs to the end of its line (which it does not include); a block
/// comment starts with the start marker and ends with the end marker, which do not overlap.
pub open spec fn comment_shape_ok(b: Seq<u8>, syntax: CommentSyntax, c: CommentMatch) -> bool {
    &&& c.start_byte < c.end_byte <= b.len()
    &&& 1 <= c.start_line <= c.end_line
    &&& match c.kind {
        CommentKind::Line => {
            &&& c.start_line == c.end_line
            &&& c.end_byte as int == line_end(b, c.start_byte as int)
            &&& first_marker_at(b, c.start_byte as int, syntax.line_markers@) is Some
        },
        CommentKind::Block => {
            &&& syntax.block_marker is Some
            &&& {
                let (s, e) = syntax.block_marker.unwrap();
                &&& starts_with_at(b, c.start_byte as int, s.spec_bytes())
                &&& c.start_byte + s.spec_bytes().len() + e.spec_bytes().len() <= c.end_byte
                &&& starts_with_at(b, c.end_byte - e.spec_bytes().len(), e.spec_bytes())
            }
        },
    }
}

/// A comment's line numbers count the newlines before its first and its last byte.
pub open spec fn comment_lines_ok(b: Seq<u8>, c: CommentMatch) -> bool {
    &&& c.start_line == 1 + newlines_before(b, c.start_byte as int)
    &&& c.end_line == 1 + newlines_before(b, c.end_byte as int)
}

/// A comment starts and ends on character boundaries.
pub open spec fn comment_on_boundaries(b: Seq<u8>, c: CommentMatch) -> bool {
    &&& is_char_boundary(b, c.start_byte as int)
    &&& is_char_boundary(b, c.end_byte as int)
}

/// Everything that holds of one reported comment.
pub open spec fn comment_ok(b: Seq<u8>, syntax: CommentSyntax, c: CommentMatch) -> bool {
    &&& comment_shape_ok(b, syntax, c)
    &&& syntax.markers_single_line() ==> comment_lines_ok(b, c)
    &&& valid_utf8(b) ==> comment_on_boundaries(b, c)
}

/// Comments come in order of position and do not overlap.
pub open spec fn in_order(cs: Seq<CommentMatch>) -> bool {
    forall|k: int, l: int| 0 <= k < l < cs.len() ==> #[trigger] cs[k].end_byte <= #[trigger] cs[l].start_byte
}

/// What holds of the scanner's configuration: `lb` bounds the starts of the comments still
/// to come.
pub open spec fn config_inv(b: Seq<u8>, syntax: CommentSyntax, st: ScanState, i: int, line: int, lb: int) -> bool {
    &&& 0 <= lb <= i <= b.len() <= usize::MAX
    &&& 1 <= line <= i + 1
    &&& state_ok(syntax, st, i)
    &&& syntax.markers_single_line() ==> line == 1 + newlines_before(b, i)
    &&& match st {
        ScanState::BlockComment { start_byte, start_line, start_marker, end_marker, .. } => {
            &&& lb <= start_byte
            &&& valid_utf8(b) && end_marker.spec_bytes().len() == 0 ==> is_char_boundary(b, i)
            &&& starts_with_at(b, start_byte as int, start_marker.spec_bytes())
            &&& start_byte + start_marker.spec_bytes().len() <= i
            &&& 1 <= start_line <= line
            &&& syntax.markers_single_line() ==> start_line == 1 + newlines_before(b, start_byte as int)
            &&& valid_utf8(b) ==> is_char_boundary(b, start_byte as int)
        },
        ScanState::Code => valid_utf8(b) && comment_anywhere(syntax) ==> is_char_boundary(b, i),
        ScanState::String { quote, .. } => quote < 128,
        _ => true,
    }
}

pub proof fn lemma_newlines_flat(b: Seq<u8>, i: int, j: int)
    requires
        0 <= i <= j <= b.len(),
        forall|k: int| i <= k < j ==> b[k] != NEWLINE,
    ensures
        newlines_before(b, j) == newlines_before(b, i),
    decreases j - i,
{
    if j > i {
        lemma_newlines_flat(b, i, j - 1);
    }
}

pub proof fn lemma_marker_no_newline(b: Seq<u8>, i: int, m: Seq<u8>)
    requires
        starts_with_at(b, i, m),
        !m.contains(NEWLINE),
    ensures
        forall|k: int| i <= k < i + m.len() ==> b[k] != NEWLINE,
{
    assert forall|k: int| i <= k < i + m.len() implies b[k] != NEWLINE by {
        assert(b[k] == b.subrange(i, i + m.len())[k - i]);
        assert(m[k - i] != NEWLINE);
    }
}

pub proof fn lemma_first_marker(b: Seq<u8>, i: int, ms: Seq<&'static str>)
    ensures
        first_marker_at(b, i, ms) matches Some(m) ==> starts_with_at(b, i, m.spec_bytes()) && ms.contains(m),
        (exists|k: int| 0 <= k < ms.len() && (#[trigger] ms[k]).spec_bytes().len() == 0) && 0 <= i <= b.len()
            ==> first_marker_at(b, i, ms) is Some,
    decreases ms.len(),
{
    if ms.len() > 0 {
        lemma_first_marker(b, i, ms.drop_first());
        if let Some(m) = first_marker_at(b, i, ms) {
            if m != ms[0] {
                let k = choose|k: int| 0 <= k < ms.drop_first().len() && ms.drop_first()[k] == m;
                assert(ms[k + 1] == m);
            }
        }
        if (exists|k: int| 0 <= k < ms.len() && (#[trigger] ms[k]).spec_bytes().len() == 0) && 0 <= i <= b.len() {
            let k = choose|k: int| 0 <= k < ms.len() && (#[trigger] ms[k]).spec_bytes().len() == 0;
            if k == 0 {
                assert(b.subrange(i, i) =~= ms[0].spec_bytes());
            } else {
                assert(ms.drop_first()[k - 1] == ms[k]);
            }
        }
    }
}

/// Where a comment may start anywhere, one starts at every position.
pub proof fn lemma_comment_anywhere(b: Seq<u8>, syntax: CommentSyntax, i: int)
    requires
        comment_anywhere(syntax),
        0 <= i <= b.len(),
    ensures
        comment_start_at(b, i, syntax) is Some,
{
    lemma_first_marker(b, i, syntax.line_markers@);
    if let Some((s, _)) = syntax.block_marker {
        if s.spec_bytes().len() == 0 {
            assert(b.subrange(i, i) =~= s.spec_bytes());
        }
    }
}

/// A step from a configuration that satisfies [`config_inv`] reaches one that satisfies it,
/// with the end of the comment it reports, if any, as the new bound; that comment satisfies
/// [`comment_ok`], starts at or after the old bound, and ends where the step ends.
pub proof fn lemma_step_inv(b: Seq<u8>, syntax: CommentSyntax, st: ScanState, i: int, line: int, lb: int)
    requires
        syntax.scannable(),
        config_inv(b, syntax, st, i, line, lb),
        i < b.len(),
    ensures
        ({
            let s = step(b, syntax, st, i, line);
            let nlb = match s.3 {
                Some(c) => c.end_byte as int,
                None => lb,
            };
            &&& config_inv(b, syntax, s.0, s.1, s.2, nlb)
            &&& s.3 matches Some(c) ==> comment_ok(b, syntax, c) && lb <= c.start_byte && c.end_byte == s.1
        }),
{
    lemma_step_progress(b, syntax, st, i, line);
    let s = step(b, syntax, st, i, line);
    let single = syntax.markers_single_line();
    let valid = valid_utf8(b);
    if b[i] == NEWLINE {
        if valid {
            lemma_boundary_around_ascii(b, i);
        }
        assert(newlines_before(b, i + 1) == newlines_before(b, i) + 1);
        return ;
    }
    match st {
        ScanState::Code => {
            if let Some(h) = raw_string_start(b, i, syntax.language) {
                lemma_hash_run_bounds(b, i + 1);
                if single {
                    lemma_newlines_flat(b, i, i + h + 2);
                }
            } else if let Some((h, multiline, len)) = swift_string_start(b, i, syntax.language) {
                lemma_hash_run_bounds(b, i);
                if single {
                    if multiline {
                        assert(b.subrange(i + h, i + h + 3) == triple_quote());
                        assert forall|k: int| i <= k < i + len implies b[k] != NEWLINE by {
                            if k >= i + h {
                                assert(b[k] == b.subrange(i + h, i + h + 3)[k - i - h]);
                            }
                        }
                    }
                    lemma_newlines_flat(b, i, i + len);
                }
            } else if let Some((marker, kind)) = comment_start_at(b, i, syntax) {
                lemma_first_marker(b, i, syntax.line_markers@);
                let m = marker.spec_bytes();
                assert(starts_with_at(b, i, m));
                if valid {
                    if m.len() > 0 {
                        lemma_boundary_at_encoded(b, i, marker@);
                    } else {
                        assert(comment_anywhere(syntax)) by {
                            if kind == CommentKind::Line {
                                let k = choose|k: int| 0 <= k < syntax.line_markers@.len() && syntax.line_markers@[k] == marker;
                                assert(syntax.line_markers@[k].spec_bytes().len() == 0);
                            }
                        }
                    }
                }
                match kind {
                    CommentKind::Line => {
                        lemma_line_end_bounds(b, i);
                        let end = line_end(b, i);
                        if single {
                            lemma_newlines_flat(b, i, end);
                        }
                        if valid {
                            if end < b.len() {
                                lemma_boundary_around_ascii(b, end);
                            } else {
                                lemma_boundary_ends(b);
                            }
                        }
                    },
                    CommentKind::Block => {
                        if single {
                            lemma_marker_no_newline(b, i, m);
                            lemma_newlines_flat(b, i, i + m.len());
                        }
                        if valid && m.len() > 0 {
                            lemma_boundary_after_encoded(b, i, marker@);
                        }
                    },
                }
            } else {
                if valid && comment_anywhere(syntax) {
                    lemma_comment_anywhere(b, syntax, i);
                }
                assert(b[i] != NEWLINE);
            }
        },
        ScanState::String { quote, escape } => {
            if valid && !escape && b[i] != BACKSLASH && b[i] == quote {
                lemma_boundary_around_ascii(b, i);
            }
        },
        ScanState::Regex { escape, in_char_class } => {
            if valid && !escape && b[i] == SLASH {
                lemma_boundary_around_ascii(b, i);
            }
        },
        ScanState::BlockComment { start_byte, start_line, start_marker, end_marker, depth, allow_nesting } => {
            let sm = start_marker.spec_bytes();
            let em = end_marker.spec_bytes();
            if allow_nesting && starts_with_at(b, i, sm) {
                if single {
                    lemma_marker_no_newline(b, i, sm);
                    lemma_newlines_flat(b, i, i + sm.len());
                }
                if valid && em.len() == 0 {
                    lemma_boundary_after_encoded(b, i, start_marker@);
                }
            } else if starts_with_at(b, i, em) {
                if single {
                    lemma_marker_no_newline(b, i, em);
                    lemma_newlines_flat(b, i, i + em.len());
                }
                if valid && em.len() > 0 {
                    lemma_boundary_at_encoded(b, i, end_marker@);
                    lemma_boundary_after_encoded(b, i, end_marker@);
                }
            } else {
                assert(em.len() > 0) by {
                    if em.len() == 0 {
                        assert(b.subrange(i, i) =~= em);
                    }
                }
            }
        },
        ScanState::RustRawString { hashes } => {
            if b[i] == DOUBLE_QUOTE && raw_string_end(b, i, hashes as int) {
                if single {
                    lemma_newlines_flat(b, i, i + hashes + 1);
                }
                if valid {
                    if hashes > 0 {
                        assert(b[i + hashes] == HASH);
                    }
                    lemma_boundary_around_ascii(b, i + hashes);
                }
            }
        },
        ScanState::SwiftString { hashes, multiline, escape } => {
            let q: int = if multiline {
                3
            } else {
                1
            };
            if multiline && swift_string_closes(b, i, hashes as int, true) || !multiline && !(hashes == 0
                && escape) && !(hashes == 0 && b[i] == BACKSLASH) && swift_string_closes(
                b,
                i,
                hashes as int,
                false,
            ) {
                if multiline {
                    assert(b.subrange(i, i + 3) == triple_quote());
                }
                assert forall|k: int| i <= k < i + q + hashes implies b[k] != NEWLINE && b[k] < 128 by {
                    if k < i + q {
                        if multiline {
                            assert(b[k] == b.subrange(i, i + 3)[k - i]);
                        }
                    } else {
                        assert(hash_at(b, k));
                    }
                }
                if single {
                    lemma_newlines_flat(b, i, i + q + hashes);
                }
                if valid {
                    lemma_boundary_around_ascii(b, i + q + hashes - 1);
                }
            }
        },
    }
}

/// From a configuration that satisfies [`config_inv`], every comment still to be reported
/// satisfies [`comment_ok`] and starts at or after the bound, and they come in order.
pub proof fn lemma_scan_inv(b: Seq<u8>, syntax: CommentSyntax, st: ScanState, i: int, line: int, lb: int)
    requires
        syntax.scannable(),
        config_inv(b, syntax, st, i, line, lb),
    ensures
        ({
            let cs = scan(b, syntax, st, i, line);
            &&& forall|k: int| 0 <= k < cs.len() ==> comment_ok(b, syntax, #[trigger] cs[k]) && lb <= cs[k].start_byte
            &&& in_order(cs)
        }),
    decreases measure(b.len() as int, syntax, st, i),
{
    if i < b.len() {
        lemma_step_progress(b, syntax, st, i, line);
        lemma_step_inv(b, syntax, st, i, line, lb);
        let s = step(b, syntax, st, i, line);
        let nlb = match s.3 {
            Some(c) => c.end_byte as int,
            None => lb,
        };
        lemma_scan_inv(b, syntax, s.0, s.1, s.2, nlb);
        let rest = scan(b, syntax, s.0, s.1, s.2);
        let cs = scan(b, syntax, st, i, line);
        if let Some(c) = s.3 {
            assert(cs == seq![c] + rest);
            assert forall|k: int| 0 <= k < cs.len() implies comment_ok(b, syntax, #[trigger] cs[k]) && lb <= cs[k].start_byte by {
                if k > 0 {
                    assert(cs[k] == rest[k - 1]);
                }
            }
            assert forall|k: int, l: int| 0 <= k < l < cs.len() implies #[trigger] cs[k].end_byte <= #[trigger] cs[l].start_byte by {
                assert(cs[l] == rest[l - 1]);
                if k > 0 {
                    assert(cs[k] == rest[k - 1]);
                }
            }
        } else {
            assert(cs == rest);
        }
    }
}

/// The comments of a text lie inside it, each delimited as its kind requires and on
/// character boundaries of valid text, with line numbers that count the newlines before
/// their first and last byte (when no marker holds a newline); they come in order of
/// position and do not overlap.
pub proof fn lemma_comments_well_formed(b: Seq<u8>, syntax: CommentSyntax)
    requires
        syntax.scannable(),
        b.len() <= usize::MAX,
    ensures
        forall|k: int| 0 <= k < comments_in(b, syntax).len() ==> comment_ok(b, syntax, #[trigger] comments_in(b, syntax)[k]),
        in_order(comments_in(b, syntax)),
{
    if valid_utf8(b) {
        lemma_boundary_ends(b);
    }
    lemma_scan_inv(b, syntax, ScanState::Code, 0, 1, 0);
}

/// Keeping some of the comments keeps them in order, and keeps only comments that were
/// there.
pub proof fn lemma_filter_in_order(s: Seq<CommentMatch>, pred: spec_fn(CommentMatch) -> bool)
    requires
        in_order(s),
    ensures
        in_order(s.filter(pred)),
        forall|k: int| 0 <= k < s.filter(pred).len() ==> s.contains(#[trigger] s.filter(pred)[k]),
    decreases s.len(),
{
    reveal(Seq::filter);
    if s.len() > 0 {
        let d = s.drop_last();
        assert forall|k: int, l: int| 0 <= k < l < d.len() implies #[trigger] d[k].end_byte <= #[trigger] d[l].start_byte by {
            assert(d[k] == s[k] && d[l] == s[l]);
        }
        lemma_filter_in_order(d, pred);
        let fd = d.filter(pred);
        let f = s.filter(pred);
        assert forall|k: int| 0 <= k < fd.len() implies s.contains(#[trigger] fd[k]) by {
            let j = choose|j: int| 0 <= j < d.len() && d[j] == fd[k];
            assert(s[j] == fd[k]);
        }
        if pred(s.last()) {
            assert(f == fd.push(s.last()));
            assert forall|k: int, l: int| 0 <= k < l < f.len() implies #[trigger] f[k].end_byte <= #[trigger] f[l].start_byte by {
                if l == f.len() - 1 {
                    let j = choose|j: int| 0 <= j < d.len() && d[j] == fd[k];
                    assert(s[j] == f[k]);
                    assert(s[s.len() - 1] == f[l]);
                } else {
                    assert(f[k] == fd[k] && f[l] == fd[l]);
                }
            }
            assert forall|k: int| 0 <= k < f.len() implies s.contains(#[trigger] f[k]) by {
                if k == f.len() - 1 {
                    assert(s[s.len() - 1] == f[k]);
                } else {
                    assert(f[k] == fd[k]);
                }
            }
        } else {
            assert(f == fd);
        }
    }
}

} // verus!
