//! Removing comments from a text, and collapsing the blank lines that removal leaves.
use vstd::prelude::*;
use vstd::string::StringSliceAdditionalSpecFns;

use crate::comment::{chinese_comments_in, extract_chinese_comments, reports, to_lint_result, CommentKind, CommentMatch, LintResult};
use crate::lexer::comments_in;
use crate::scan_facts::{comment_ok, in_order, lemma_comments_well_formed, lemma_filter_in_order};
use crate::syntax::CommentSyntax;
use crate::scanner::file_ok;
use crate::text::{decimal, decimal_string, str_chars, string_from_chars};
use crate::utils::LoadedSourceFile;
use vstd::utf8::encode_utf8;
use vstd::utf8::{decode_utf8, is_char_boundary, valid_utf8};

verus! {

// ---------------------------------------------------------------------------------------
// Lines
// ---------------------------------------------------------------------------------------
/// Unicode `White_Space`, as `char::is_whitespace` tests it.
pub open spec fn is_whitespace(c: char) -> bool {
    let u = c as u32;
    ||| 0x09 <= u <= 0x0D
    ||| u == 0x20
    ||| u == 0x85
    ||| u == 0xA0
    ||| u == 0x1680
    ||| 0x2000 <= u <= 0x200A
    ||| u == 0x2028
    ||| u == 0x2029
    ||| u == 0x202F
    ||| u == 0x205F
    ||| u == 0x3000
}

/// Whether `c` is Unicode whitespace.
pub fn is_unicode_whitespace(c: char) -> (r: bool)
    ensures
        r == is_whitespace(c),
{
    let u = c as u32;
    (0x09 <= u && u <= 0x0D) || u == 0x20 || u == 0x85 || u == 0xA0 || u == 0x1680 || (0x2000
        <= u && u <= 0x200A) || u == 0x2028 || u == 0x2029 || u == 0x202F || u == 0x205F || u
        == 0x3000
}

/// A line that holds nothing but whitespace (so `trim()` leaves it empty).
pub open spec fn is_blank(l: Seq<char>) -> bool {
    forall|k: int| 0 <= k < l.len() ==> is_whitespace(#[trigger] l[k])
}

/// The position of the first newline at or after `j`, or the end of the text.
pub open spec fn next_newline(s: Seq<char>, j: int) -> int
    decreases s.len() - j,
{
    if 0 <= j < s.len() && s[j] != '\n' {
        next_newline(s, j + 1)
    } else {
        j
    }
}

/// A line without the carriage return that ends it, if any.
pub open spec fn strip_cr(l: Seq<char>) -> Seq<char> {
    if l.len() > 0 && l.last() == '\r' {
        l.drop_last()
    } else {
        l
    }
}

/// The lines of `s` from position `j` on, as `str::lines` splits them: at each `\n`, with a
/// `\r` right before it dropped too; a last line without `\n` is kept whole, and a final
/// `\n` does not start another line.
pub open spec fn lines_from(s: Seq<char>, j: int) -> Seq<Seq<char>>
    decreases s.len() - j,
{
    if j < 0 || j >= s.len() {
        seq![]
    } else {
        let e = next_newline(s, j);
        if e >= s.len() {
            seq![s.subrange(j, s.len() as int)]
        } else {
            proof {
                lemma_next_newline(s, j);
            }
            seq![strip_cr(s.subrange(j, e))] + lines_from(s, e + 1)
        }
    }
}

/// The lines of a text, as `str::lines` splits them.
pub open spec fn text_lines(s: Seq<char>) -> Seq<Seq<char>> {
    lines_from(s, 0)
}

/// The lines kept from `ls` when blank lines are collapsed: each non-blank line, and one
/// empty line for each run of blank lines that follows a non-blank line. `prev_blank` tells
/// whether the line before `ls` was blank, `started` whether a non-blank line came before.
pub open spec fn collapse(ls: Seq<Seq<char>>, prev_blank: bool, started: bool) -> Seq<Seq<char>>
    decreases ls.len(),
{
    if ls.len() == 0 {
        seq![]
    } else if is_blank(ls[0]) {
        (if started && !prev_blank {
            seq![Seq::<char>::empty()]
        } else {
            seq![]
        }) + collapse(ls.drop_first(), true, started)
    } else {
        seq![ls[0]] + collapse(ls.drop_first(), false, true)
    }
}

/// `ls` without the empty lines at its end.
pub open spec fn drop_trailing_empty(ls: Seq<Seq<char>>) -> Seq<Seq<char>>
    decreases ls.len(),
{
    if ls.len() > 0 && ls.last().len() == 0 {
        drop_trailing_empty(ls.drop_last())
    } else {
        ls
    }
}

/// The lines joined with `\n` between them.
pub open spec fn join_lines(ls: Seq<Seq<char>>) -> Seq<char>
    decreases ls.len(),
{
    if ls.len() == 0 {
        seq![]
    } else if ls.len() == 1 {
        ls[0]
    } else {
        join_lines(ls.drop_last()) + seq!['\n'] + ls.last()
    }
}

/// The lines of a text after blank lines are collapsed: leading and trailing blank lines
/// removed, each inner run of blank lines replaced by one empty line.
pub open spec fn collapsed_lines(s: Seq<char>) -> Seq<Seq<char>> {
    drop_trailing_empty(collapse(text_lines(s), false, false))
}

/// A text with its blank lines collapsed, lines joined with `\n` (no final newline).
pub open spec fn normalized(s: Seq<char>) -> Seq<char> {
    join_lines(collapsed_lines(s))
}

/// Whether one of the positions `cuts` falls on the line that runs from `j` to `e` (`e`, the
/// position of the newline that ends the line or the end of the text, included).
pub open spec fn cut_in(cuts: Seq<int>, j: int, e: int) -> bool {
    exists|k: int| 0 <= k < cuts.len() && j <= #[trigger] cuts[k] <= e
}

/// The lines of `s` from position `j` on (as [`lines_from`] splits them), without the blank
/// lines on which one of the positions `cuts` falls: the lines that were left empty where a
/// comment was cut out.
pub open spec fn kept_lines_from(s: Seq<char>, j: int, cuts: Seq<int>) -> Seq<Seq<char>>
    decreases s.len() - j,
{
    if j < 0 || j >= s.len() {
        seq![]
    } else {
        let e = next_newline(s, j);
        if e >= s.len() {
            let l = s.subrange(j, s.len() as int);
            if is_blank(l) && cut_in(cuts, j, s.len() as int) {
                seq![]
            } else {
                seq![l]
            }
        } else {
            proof {
                lemma_next_newline(s, j);
            }
            let l = strip_cr(s.subrange(j, e));
            (if is_blank(l) && cut_in(cuts, j, e) {
                seq![]
            } else {
                seq![l]
            }) + kept_lines_from(s, e + 1, cuts)
        }
    }
}

/// A text after a removal of comments, tidied: the blank lines left where a comment was cut
/// out (at the positions `cuts`) dropped, then the other blank lines collapsed as in
/// [`normalized`].
pub open spec fn trimmed(s: Seq<char>, cuts: Seq<int>) -> Seq<char> {
    join_lines(drop_trailing_empty(collapse(kept_lines_from(s, 0, cuts), false, false)))
}

/// With no cut positions no line is dropped.
pub proof fn lemma_no_cuts(s: Seq<char>, j: int)
    ensures
        kept_lines_from(s, j, seq![]) == lines_from(s, j),
    decreases s.len() - j,
{
    if 0 <= j < s.len() {
        let e = next_newline(s, j);
        lemma_next_newline(s, j);
        if e < s.len() {
            lemma_no_cuts(s, e + 1);
        }
    }
}

/// The positions `v` as integers.
pub open spec fn positions(v: Seq<usize>) -> Seq<int> {
    v.map_values(|c: usize| c as int)
}

pub open spec fn line_views(v: Seq<Vec<char>>) -> Seq<Seq<char>> {
    v.map_values(|l: Vec<char>| l@)
}

fn line_is_blank(text: &Vec<char>, start: usize, end: usize) -> (r: bool)
    requires
        start <= end <= text.len(),
    ensures
        r == is_blank(text@.subrange(start as int, end as int)),
{
    let mut k = start;
    while k < end
        invariant
            start <= k <= end <= text.len(),
            forall|j: int| start <= j < k ==> is_whitespace(#[trigger] text@[j]),
        decreases end - k,
    {
        if !is_unicode_whitespace(text[k]) {
            assert(!is_whitespace(text@.subrange(start as int, end as int)[k - start]));
            return false;
        }
        k = k + 1;
    }
    assert forall|j: int| 0 <= j < end - start implies is_whitespace(
        #[trigger] text@.subrange(start as int, end as int)[j],
    ) by {
        assert(text@.subrange(start as int, end as int)[j] == text@[start + j]);
    }
    true
}

fn copy_range(text: &Vec<char>, start: usize, end: usize) -> (r: Vec<char>)
    requires
        start <= end <= text.len(),
    ensures
        r@ == text@.subrange(start as int, end as int),
{
    let mut r: Vec<char> = Vec::new();
    let mut k = start;
    while k < end
        invariant
            start <= k <= end <= text.len(),
            r@ == text@.subrange(start as int, k as int),
        decreases end - k,
    {
        r.push(text[k]);
        assert(text@.subrange(start as int, k + 1) =~= text@.subrange(start as int, k as int).push(
            text@[k as int],
        ));
        k = k + 1;
    }
    r
}

pub proof fn lemma_next_newline(s: Seq<char>, j: int)
    requires
        0 <= j <= s.len(),
    ensures
        j <= next_newline(s, j) <= s.len(),
        next_newline(s, j) < s.len() ==> s[next_newline(s, j)] == '\n',
    decreases s.len() - j,
{
    if j < s.len() && s[j] != '\n' {
        lemma_next_newline(s, j + 1);
    }
}

/// The positions `v` come in order.
pub open spec fn ascending(v: Seq<usize>) -> bool {
    forall|a: int, b: int| 0 <= a <= b < v.len() ==> v[a] <= v[b]
}

/// The text's lines without the blank ones on which a cut falls, with blank lines collapsed.
fn collapse_lines(text: &Vec<char>, cuts: &Vec<usize>) -> (r: Vec<Vec<char>>)
    requires
        ascending(cuts@),
    ensures
        line_views(r@) == collapse(kept_lines_from(text@, 0, positions(cuts@)), false, false),
{
    let ghost cs = positions(cuts@);
    let mut result: Vec<Vec<char>> = Vec::new();
    let mut prev_empty = false;
    let mut started = false;
    let mut pos: usize = 0;
    // The cuts before `next_cut` fall before `pos`.
    let mut next_cut: usize = 0;
    while pos < text.len()
        invariant
            pos <= text.len(),
            cs == positions(cuts@),
            ascending(cuts@),
            next_cut <= cuts.len(),
            forall|m: int| 0 <= m < next_cut ==> #[trigger] cuts@[m] < pos,
            line_views(result@) + collapse(kept_lines_from(text@, pos as int, cs), prev_empty, started)
                == collapse(kept_lines_from(text@, 0, cs), false, false),
        decreases text.len() - pos,
    {
        let mut e = pos;
        while e < text.len() && text[e] != '\n'
            invariant
                pos <= e <= text.len(),
                next_newline(text@, pos as int) == next_newline(text@, e as int),
            decreases text.len() - e,
        {
            e = e + 1;
        }
        let ghost rest = kept_lines_from(text@, pos as int, cs);
        let mut line_end = e;
        if e < text.len() && e > pos && text[e - 1] == '\r' {
            line_end = e - 1;
        }
        let ghost line_seq = if e >= text.len() {
            text@.subrange(pos as int, text.len() as int)
        } else {
            strip_cr(text@.subrange(pos as int, e as int))
        };
        assert(text@.subrange(pos as int, line_end as int) =~= line_seq);
        let next = if e < text.len() {
            e + 1
        } else {
            e
        };
        let ghost before = line_views(result@);
        let is_empty = line_is_blank(text, pos, line_end);
        while next_cut < cuts.len() && cuts[next_cut] < pos
            invariant
                next_cut <= cuts.len(),
                forall|m: int| 0 <= m < next_cut ==> #[trigger] cuts@[m] < pos,
            decreases cuts.len() - next_cut,
        {
            next_cut = next_cut + 1;
        }
        let cut_here = next_cut < cuts.len() && cuts[next_cut] <= e;
        assert(cut_here == cut_in(cs, pos as int, e as int)) by {
            if cut_here {
                assert(cs[next_cut as int] == cuts@[next_cut as int] as int);
            } else {
                assert forall|m: int| 0 <= m < cs.len() implies !(pos <= #[trigger] cs[m] <= e) by {
                    assert(cs[m] == cuts@[m] as int);
                    if m >= next_cut {
                        assert(cuts@[next_cut as int] <= cuts@[m]);
                    }
                }
            }
        }
        let dropped = is_empty && cut_here;
        if dropped {
            assert(rest =~= kept_lines_from(text@, next as int, cs));
        } else if is_empty {
            assert(rest =~= seq![line_seq] + kept_lines_from(text@, next as int, cs));
            assert(rest.drop_first() =~= kept_lines_from(text@, next as int, cs));
            if started && !prev_empty {
                result.push(Vec::new());
                assert(line_views(result@) =~= before + seq![Seq::<char>::empty()]);
            } else {
                assert(line_views(result@) =~= before + seq![]);
            }
            prev_empty = true;
        } else {
            assert(rest =~= seq![line_seq] + kept_lines_from(text@, next as int, cs));
            assert(rest.drop_first() =~= kept_lines_from(text@, next as int, cs));
            let line = copy_range(text, pos, line_end);
            result.push(line);
            assert(line_views(result@) =~= before + seq![line_seq]);
            started = true;
            prev_empty = false;
        }
        pos = next;
    }
    assert(kept_lines_from(text@, pos as int, cs) =~= seq![]);
    assert(line_views(result@) + seq![] =~= line_views(result@));
    result
}

/// A text with its blank lines collapsed (see [`normalized`]), as characters.
pub fn normalize_chars(text: &Vec<char>) -> (r: Vec<char>)
    ensures
        r@ == normalized(text@),
{
    let no_cuts: Vec<usize> = Vec::new();
    proof {
        lemma_no_cuts(text@, 0);
        assert(positions(no_cuts@) =~= seq![]);
    }
    trim_chars(text, &no_cuts)
}

/// A text tidied after a removal of comments at the positions `cuts` (see [`trimmed`]).
fn trim_chars(text: &Vec<char>, cuts: &Vec<usize>) -> (r: Vec<char>)
    requires
        ascending(cuts@),
    ensures
        r@ == trimmed(text@, positions(cuts@)),
{
    let mut lines = collapse_lines(text, cuts);
    let ghost all = line_views(lines@);
    while lines.len() > 0 && lines[lines.len() - 1].len() == 0
        invariant
            drop_trailing_empty(line_views(lines@)) == drop_trailing_empty(all),
        decreases lines.len(),
    {
        let ghost before = lines@;
        lines.pop();
        assert(line_views(before).drop_last() =~= line_views(lines@));
    }
    let mut out: Vec<char> = Vec::new();
    let mut k: usize = 0;
    while k < lines.len()
        invariant
            k <= lines.len(),
            line_views(lines@) == drop_trailing_empty(all),
            all == collapse(kept_lines_from(text@, 0, positions(cuts@)), false, false),
            out@ == join_lines(line_views(lines@).take(k as int)),
        decreases lines.len() - k,
    {
        let ghost before = out@;
        if k > 0 {
            out.push('\n');
        }
        let line = &lines[k];
        let mut j: usize = 0;
        while j < line.len()
            invariant
                j <= line.len(),
                out@ == (if k > 0 {
                    before + seq!['\n']
                } else {
                    before
                }) + line@.take(j as int),
            decreases line.len() - j,
        {
            out.push(line[j]);
            assert(line@.take(j + 1) =~= line@.take(j as int).push(line@[j as int]));
            j = j + 1;
        }
        assert(line@.take(line.len() as int) =~= line@);
        assert(line_views(lines@).take(k + 1).drop_last() =~= line_views(lines@).take(k as int));
        assert(line_views(lines@).take(k + 1).last() == line@);
        k = k + 1;
    }
    assert(line_views(lines@).take(lines.len() as int) =~= line_views(lines@));
    out
}

/// `content` with its blank lines collapsed: leading and trailing blank lines removed and
/// each run of blank lines between two other lines replaced by one empty line; the lines are
/// joined with `\n`, without a final newline.
pub fn normalize_empty_lines(content: &str) -> (r: String)
    ensures
        r@ == normalized(content@),
{
    let text = str_chars(content);
    let out = normalize_chars(&text);
    string_from_chars(&out)
}

// ---------------------------------------------------------------------------------------
// Removing comments
// ---------------------------------------------------------------------------------------
/// The kinds of comment that `--line` and `--block` select: the one named, both when both
/// or neither are named.
pub fn clean_selection(line: bool, block: bool) -> (r: (bool, bool))
    ensures
        r.0 == (line || !block),
        r.1 == (block || !line),
{
    (line || !block, block || !line)
}

/// Comment `c` is of a selected kind.
pub open spec fn selected(c: CommentMatch, clean_line: bool, clean_block: bool) -> bool {
    match c.kind {
        CommentKind::Line => clean_line,
        CommentKind::Block => clean_block,
    }
}

/// The comments that cleaning removes: those of the selected kinds that contain a Chinese
/// character, in order.
pub open spec fn comments_to_remove(b: Seq<u8>, syntax: CommentSyntax, clean_line: bool, clean_block: bool) -> Seq<CommentMatch> {
    chinese_comments_in(b, syntax).filter(|c: CommentMatch| selected(c, clean_line, clean_block))
}

/// The text of `b` from `cursor` on, with the byte ranges of the comments `cs` (which come in
/// order, at or after `cursor`) left out.
pub open spec fn without_comments(b: Seq<u8>, cs: Seq<CommentMatch>, cursor: int) -> Seq<char>
    decreases cs.len(),
{
    if cs.len() == 0 {
        decode_utf8(b.subrange(cursor, b.len() as int))
    } else {
        decode_utf8(b.subrange(cursor, cs[0].start_byte as int)) + without_comments(
            b,
            cs.drop_first(),
            cs[0].end_byte as int,
        )
    }
}

/// The positions, in the text that [`without_comments`]`(b, cs, cursor)` gives and counted
/// from `at`, at which the comments `cs` were cut out.
pub open spec fn cut_points(b: Seq<u8>, cs: Seq<CommentMatch>, cursor: int, at: int) -> Seq<int>
    decreases cs.len(),
{
    if cs.len() == 0 {
        seq![]
    } else {
        let p = at + decode_utf8(b.subrange(cursor, cs[0].start_byte as int)).len();
        seq![p] + cut_points(b, cs.drop_first(), cs[0].end_byte as int, p)
    }
}

/// The text that cleaning leaves: the content without the removed comments; when
/// `trim_empty`, without the lines that the removal left blank and with its other blank lines
/// collapsed (see [`trimmed`]); and with a final newline restored where the content ended
/// with one and the result does not.
pub open spec fn cleaned(b: Seq<u8>, syntax: CommentSyntax, clean_line: bool, clean_block: bool, trim_empty: bool) -> Seq<char> {
    let cs = comments_to_remove(b, syntax, clean_line, clean_block);
    let base = without_comments(b, cs, 0);
    let t = if trim_empty {
        trimmed(base, cut_points(b, cs, 0, 0))
    } else {
        base
    };
    if b.len() > 0 && b.last() == 10 && !(t.len() > 0 && t.last() == '\n') {
        t.push('\n')
    } else {
        t
    }
}

/// The text of `content` between two character boundaries.
fn text_between<'a>(content: &'a str, start: usize, end: usize) -> (r: &'a str)
    requires
        start <= end <= content.spec_bytes().len(),
        is_char_boundary(content.spec_bytes(), start as int),
        is_char_boundary(content.spec_bytes(), end as int),
    ensures
        r@ == decode_utf8(content.spec_bytes().subrange(start as int, end as int)),
{
    broadcast use vstd::utf8::encode_utf8_valid_utf8, vstd::utf8::encode_utf8_decode_utf8;

    proof {
        crate::utf8_facts::lemma_piece_valid(content.spec_bytes(), start as int, end as int);
    }
    let (_, tail) = content.split_at(start);
    assert(tail.spec_bytes() =~= content.spec_bytes().subrange(
        start as int,
        content.spec_bytes().len() as int,
    ));
    let (piece, _) = tail.split_at(end - start);
    assert(piece.spec_bytes() =~= content.spec_bytes().subrange(start as int, end as int));
    piece
}

/// `content` with the comments that contain Chinese characters removed: line comments if
/// `clean_line`, block comments if `clean_block`. With `trim_empty` the lines that the removal
/// left blank are deleted and the other blank lines collapsed (see [`trimmed`]); a final
/// newline of `content` is kept.
pub fn clean_content(
    content: &str,
    syntax: CommentSyntax,
    clean_line: bool,
    clean_block: bool,
    trim_empty: bool,
) -> (r: String)
    requires
        syntax.scannable(),
        content.spec_bytes().len() < usize::MAX,
    ensures
        r@ == cleaned(content.spec_bytes(), syntax, clean_line, clean_block, trim_empty),
{
    broadcast use vstd::utf8::encode_utf8_valid_utf8;

    let ghost b = content.spec_bytes();
    let chinese = extract_chinese_comments(content, syntax);
    // The comments come in order of position and do not overlap, so the ranges to remove
    // need no sorting.
    let ghost sel_pred = |c: CommentMatch| selected(c, clean_line, clean_block);
    let ghost chinese_pred = |c: CommentMatch| crate::comment::has_chinese(crate::comment::comment_text(b, c));
    proof {
        vstd::utf8::encode_utf8_valid_utf8(content@);
        lemma_comments_well_formed(b, syntax);
        lemma_filter_in_order(comments_in(b, syntax), chinese_pred);
        lemma_filter_in_order(chinese@, sel_pred);
        assert forall|k: int| 0 <= k < chinese@.len() implies comment_ok(b, syntax, #[trigger] chinese@[k]) by {
            let j = choose|j: int| 0 <= j < comments_in(b, syntax).len() && comments_in(b, syntax)[j] == chinese@[k];
            assert(comment_ok(b, syntax, comments_in(b, syntax)[j]));
        }
    }
    let mut ranges: Vec<(usize, usize)> = Vec::new();
    let ghost mut removed: Seq<CommentMatch> = seq![];
    let mut i: usize = 0;
    while i < chinese.len()
        invariant
            i <= chinese.len(),
            removed == chinese@.take(i as int).filter(sel_pred),
            sel_pred == (|c: CommentMatch| selected(c, clean_line, clean_block)),
            ranges@.len() == removed.len(),
            forall|k: int| 0 <= k < removed.len() ==> (#[trigger] ranges@[k]).0 == removed[k].start_byte && ranges@[k].1 == removed[k].end_byte,
        decreases chinese.len() - i,
    {
        let c = chinese[i];
        let keep = match c.kind {
            CommentKind::Line => clean_line,
            CommentKind::Block => clean_block,
        };
        assert(keep == sel_pred(chinese@[i as int]));
        proof {
            reveal_with_fuel(Seq::<_>::filter, 1);
            assert(chinese@.take(i + 1).drop_last() =~= chinese@.take(i as int));
        }
        if keep {
            ranges.push((c.start_byte, c.end_byte));
            proof {
                removed = removed.push(c);
            }
        }
        i = i + 1;
    }
    assert(chinese@.take(chinese.len() as int) =~= chinese@);
    assert(removed == comments_to_remove(b, syntax, clean_line, clean_block));
    let ghost sel = removed;
    assert forall|k: int| 0 <= k < sel.len() implies comment_ok(b, syntax, #[trigger] sel[k]) by {
        assert(chinese@.contains(sel[k]));
    }
    let mut text: Vec<char> = Vec::new();
    let mut cuts: Vec<usize> = Vec::new();
    let mut cursor: usize = 0;
    let mut k: usize = 0;
    proof {
        crate::utf8_facts::lemma_boundary_ends(b);
        assert(sel.skip(0) =~= sel);
        assert(text@ + without_comments(b, sel, 0) =~= without_comments(b, sel, 0));
        assert(positions(cuts@) + cut_points(b, sel, 0, 0) =~= cut_points(b, sel, 0, 0));
        if sel.len() > 0 {
            assert(comment_ok(b, syntax, sel[0]));
        }
    }
    while k < ranges.len()
        invariant
            b == content.spec_bytes(),
            valid_utf8(b),
            b.len() < usize::MAX,
            ranges@.len() == sel.len(),
            forall|j: int| 0 <= j < sel.len() ==> (#[trigger] ranges@[j]).0 == sel[j].start_byte && ranges@[j].1 == sel[j].end_byte,
            forall|j: int| 0 <= j < sel.len() ==> comment_ok(b, syntax, #[trigger] sel[j]),
            in_order(sel),
            k <= ranges.len(),
            cursor <= b.len(),
            is_char_boundary(b, cursor as int),
            k < sel.len() ==> cursor <= sel[k as int].start_byte,
            text@ + without_comments(b, sel.skip(k as int), cursor as int) == without_comments(b, sel, 0),
            positions(cuts@) + cut_points(b, sel.skip(k as int), cursor as int, text@.len() as int)
                == cut_points(b, sel, 0, 0),
            ascending(cuts@),
            forall|m: int| 0 <= m < cuts@.len() ==> #[trigger] cuts@[m] <= text@.len(),
        decreases ranges.len() - k,
    {
        let (start, end) = ranges[k];
        assert(comment_ok(b, syntax, sel[k as int]));
        if start < cursor {
            k = k + 1;
            continue;
        }
        let piece = text_between(content, cursor, start);
        let ghost before = text@;
        let ghost cuts_before = positions(cuts@);
        let mut piece_chars = str_chars(piece);
        text.append(&mut piece_chars);
        cuts.push(text.len());
        proof {
            assert(positions(cuts@) =~= cuts_before.push(text@.len() as int));
            let rest = sel.skip(k as int);
            assert(rest[0] == sel[k as int]);
            assert(rest.drop_first() =~= sel.skip(k + 1));
            if k + 1 < sel.len() {
                assert(sel[k as int].end_byte <= sel[k + 1].start_byte);
            }
        }
        cursor = end;
        k = k + 1;
    }
    assert(cursor <= b.len());
    proof {
        crate::utf8_facts::lemma_boundary_ends(b);
    }
    let piece = text_between(content, cursor, content.len());
    let mut piece_chars = str_chars(piece);
    text.append(&mut piece_chars);
    assert(sel.skip(k as int) =~= seq![]);
    assert(b.subrange(cursor as int, content.len() as int) =~= b.subrange(cursor as int, b.len() as int));
    assert(positions(cuts@) =~= cut_points(b, sel, 0, 0));
    if trim_empty {
        text = trim_chars(&text, &cuts);
    }
    let bytes = content.as_bytes();
    let content_ends_with_newline = bytes.len() > 0 && bytes[bytes.len() - 1] == 10;
    let output_ends_with_newline = text.len() > 0 && text[text.len() - 1] == '\n';
    if content_ends_with_newline && !output_ends_with_newline {
        text.push('\n');
    }
    string_from_chars(&text)
}

// ---------------------------------------------------------------------------------------
// Cleaning loaded files
// ---------------------------------------------------------------------------------------
/// The records that a dry run of `clean` reports for a file: one for each comment that
/// cleaning would remove, in order.
pub fn dry_run_results(file: &LoadedSourceFile, clean_line: bool, clean_block: bool) -> (r: Vec<LintResult>)
    requires
        file_ok(*file),
    ensures
        r@.len() == comments_to_remove(encode_utf8(file.content@), file.syntax, clean_line, clean_block).len(),
        forall|k: int| 0 <= k < r@.len() ==> reports(#[trigger] r@[k], file.path@, comments_to_remove(encode_utf8(file.content@), file.syntax, clean_line, clean_block)[k]),
{
    let matches = extract_chinese_comments(file.content.as_str(), file.syntax);
    let ghost sel_pred = |c: CommentMatch| selected(c, clean_line, clean_block);
    let mut results: Vec<LintResult> = Vec::new();
    let ghost mut kept: Seq<CommentMatch> = seq![];
    let mut i: usize = 0;
    while i < matches.len()
        invariant
            i <= matches.len(),
            kept == matches@.take(i as int).filter(sel_pred),
            sel_pred == (|c: CommentMatch| selected(c, clean_line, clean_block)),
            results@.len() == kept.len(),
            forall|k: int| 0 <= k < results@.len() ==> reports(#[trigger] results@[k], file.path@, kept[k]),
        decreases matches.len() - i,
    {
        let m = matches[i];
        let should_include = match m.kind {
            CommentKind::Line => clean_line,
            CommentKind::Block => clean_block,
        };
        assert(should_include == sel_pred(matches@[i as int]));
        proof {
            reveal_with_fuel(Seq::<_>::filter, 1);
            assert(matches@.take(i + 1).drop_last() =~= matches@.take(i as int));
        }
        if should_include {
            let item = to_lint_result(file.path.as_str(), &m);
            results.push(item);
            proof {
                kept = kept.push(m);
            }
        }
        i = i + 1;
    }
    assert(matches@.take(matches.len() as int) =~= matches@);
    results
}

/// The line that a dry run of `clean` prints for a record: `<file>:<line> <kind>`, or
/// `<file>:<first>-<last> <kind>` for a comment over several lines.
pub open spec fn dry_run_line(file: Seq<char>, start: nat, end: nat, kind: Seq<char>) -> Seq<char> {
    if start == end {
        file + ":"@ + decimal(start) + " "@ + kind
    } else {
        file + ":"@ + decimal(start) + "-"@ + decimal(end) + " "@ + kind
    }
}

/// The line that a dry run of `clean` prints for `item` (see [`dry_run_line`]).
pub fn format_dry_run_line(item: &LintResult) -> (r: String)
    ensures
        r@ == dry_run_line(item.file@, item.start_line as nat, item.end_line as nat, item.kind@),
{
    let mut s = String::new();
    s.append(item.file.as_str());
    s.append(":");
    let start = decimal_string(item.start_line);
    s.append(start.as_str());
    if item.start_line != item.end_line {
        s.append("-");
        let end = decimal_string(item.end_line);
        s.append(end.as_str());
    }
    s.append(" ");
    s.append(item.kind.as_str());
    s
}

/// The cleaned text of a file, if cleaning changes it (see [`clean_content`]).
pub fn cleaned_if_changed(file: &LoadedSourceFile, clean_line: bool, clean_block: bool, trim_empty: bool) -> (r: Option<String>)
    requires
        file_ok(*file),
    ensures
        ({
            let c = cleaned(encode_utf8(file.content@), file.syntax, clean_line, clean_block, trim_empty);
            if c == file.content@ {
                r is None
            } else {
                r matches Some(s) && s@ == c
            }
        }),
{
    let cleaned_text = clean_content(file.content.as_str(), file.syntax, clean_line, clean_block, trim_empty);
    if cleaned_text == file.content {
        None
    } else {
        Some(cleaned_text)
    }
}

// ---------------------------------------------------------------------------------------
// Laws
// ---------------------------------------------------------------------------------------
/// A valid text whose last byte is a newline decodes to characters that end with `\n`.
pub proof fn lemma_decoded_last_newline(b: Seq<u8>)
    requires
        valid_utf8(b),
        b.len() > 0,
        b.last() == 10,
    ensures
        decode_utf8(b).len() > 0 && decode_utf8(b).last() == '\n',
{
    let n = b.len() - 1;
    crate::utf8_facts::lemma_boundary_around_ascii(b, n);
    vstd::utf8::decode_utf8_split(b, n);
    vstd::utf8::valid_utf8_split(b, n);
    let tail = b.subrange(n, b.len() as int);
    assert(tail =~= seq![10u8]);
    assert(valid_utf8(tail));
    assert(vstd::utf8::pop_first_scalar(tail) =~= Seq::<u8>::empty());
    assert(10u8 & 0x7Fu8 == 10u8) by (bit_vector);
    assert(tail[0] == 10u8);
    assert(vstd::utf8::decode_first_scalar(tail) == 10);
    vstd::utf8::char_u32_cast('\n', 10);
    let popped = vstd::utf8::pop_first_scalar(tail);
    assert(valid_utf8(popped));
    assert(decode_utf8(popped) =~= Seq::<char>::empty());
    assert(decode_utf8(tail) == seq![vstd::utf8::decode_first_scalar(tail) as char] + decode_utf8(popped));
    assert((10u32 as char) == '\n');
    assert(decode_utf8(tail) =~= seq!['\n']);
}

/// Cleaning without collapsing blank lines changes nothing in a text where no comment is to
/// be removed (for example one without Chinese comments, or when neither kind is selected).
pub proof fn lemma_clean_nothing_to_remove(content: Seq<char>, syntax: CommentSyntax, clean_line: bool, clean_block: bool)
    requires
        comments_to_remove(encode_utf8(content), syntax, clean_line, clean_block).len() == 0,
    ensures
        cleaned(encode_utf8(content), syntax, clean_line, clean_block, false) == content,
{
    broadcast use vstd::utf8::encode_utf8_valid_utf8, vstd::utf8::encode_utf8_decode_utf8;

    let b = encode_utf8(content);
    assert(b.subrange(0, b.len() as int) =~= b);
    if b.len() > 0 && b.last() == 10 {
        lemma_decoded_last_newline(b);
    }
}

/// When neither kind of comment is selected, nothing is to be removed.
pub proof fn lemma_nothing_selected(b: Seq<u8>, syntax: CommentSyntax)
    ensures
        comments_to_remove(b, syntax, false, false).len() == 0,
{
    broadcast use vstd::seq_lib::group_filter_ensures;

    let cs = comments_to_remove(b, syntax, false, false);
    if cs.len() > 0 {
        assert(selected(cs[0], false, false));
    }
}

/// A line that is not blank.
pub open spec fn non_blank(l: Seq<char>) -> bool {
    !is_blank(l)
}

pub(crate) proof fn lemma_collapse_shape(ls: Seq<Seq<char>>, prev_blank: bool, started: bool)
    ensures
        ({
            let o = collapse(ls, prev_blank, started);
            &&& forall|k: int| 0 <= k < o.len() ==> (#[trigger] o[k]).len() == 0 || non_blank(o[k])
            &&& o.len() > 0 && o[0].len() == 0 ==> started && !prev_blank
            &&& !started ==> (o.len() == 0 || non_blank(o[0]))
            &&& forall|k: int| 0 <= k < o.len() - 1 ==> !((#[trigger] o[k]).len() == 0 && o[k + 1].len() == 0)
            &&& o.filter(|l: Seq<char>| non_blank(l)) == ls.filter(|l: Seq<char>| non_blank(l))
        }),
    decreases ls.len(),
{
    broadcast use Seq::filter_distributes_over_add;

    let f = |l: Seq<char>| non_blank(l);
    if ls.len() == 0 {
        reveal_with_fuel(Seq::<_>::filter, 1);
    } else {
        let rest = ls.drop_first();
        assert(ls =~= seq![ls[0]] + rest);
        reveal_with_fuel(Seq::<_>::filter, 2);
        if is_blank(ls[0]) {
            lemma_collapse_shape(rest, true, started);
            let r = collapse(rest, true, started);
            let e: Seq<Seq<char>> = if started && !prev_blank {
                seq![Seq::<char>::empty()]
            } else {
                seq![]
            };
            let o = e + r;
            assert(o == collapse(ls, prev_blank, started));
            assert forall|k: int| 0 <= k < o.len() implies (#[trigger] o[k]).len() == 0 || non_blank(o[k]) by {
                if k >= e.len() {
                    assert(o[k] == r[k - e.len()]);
                }
            }
            assert forall|k: int| 0 <= k < o.len() - 1 implies !((#[trigger] o[k]).len() == 0 && o[k + 1].len() == 0) by {
                if k >= e.len() {
                    assert(o[k] == r[k - e.len()]);
                    assert(o[k + 1] == r[k + 1 - e.len()]);
                } else {
                    assert(o[k + 1] == r[0]);
                }
            }
            assert(e.filter(f) =~= seq![]) by {
                if e.len() > 0 {
                    assert(e.drop_last() =~= seq![]);
                    assert(!non_blank(e[0]));
                }
            }
            assert(seq![ls[0]].filter(f) =~= seq![]) by {
                assert(seq![ls[0]].drop_last() =~= seq![]);
            }
            assert(o.filter(f) == e.filter(f) + r.filter(f));
            assert(ls.filter(f) == seq![ls[0]].filter(f) + rest.filter(f));
        } else {
            lemma_collapse_shape(rest, false, true);
            let r = collapse(rest, false, true);
            let o = seq![ls[0]] + r;
            assert(o == collapse(ls, prev_blank, started));
            assert(ls[0].len() > 0);
            assert forall|k: int| 0 <= k < o.len() implies (#[trigger] o[k]).len() == 0 || non_blank(o[k]) by {
                if k >= 1 {
                    assert(o[k] == r[k - 1]);
                }
            }
            assert forall|k: int| 0 <= k < o.len() - 1 implies !((#[trigger] o[k]).len() == 0 && o[k + 1].len() == 0) by {
                if k >= 1 {
                    assert(o[k] == r[k - 1]);
                    assert(o[k + 1] == r[k]);
                }
            }
            assert(seq![ls[0]].filter(f) =~= seq![ls[0]]) by {
                assert(seq![ls[0]].drop_last() =~= seq![]);
            }
            assert(o.filter(f) == seq![ls[0]].filter(f) + r.filter(f));
            assert(ls.filter(f) == seq![ls[0]].filter(f) + rest.filter(f));
        }
    }
}

pub(crate) proof fn lemma_drop_trailing_empty(ls: Seq<Seq<char>>)
    ensures
        ({
            let d = drop_trailing_empty(ls);
            &&& d.len() <= ls.len()
            &&& d =~= ls.take(d.len() as int)
            &&& d.len() > 0 ==> d.last().len() > 0
            &&& forall|k: int| d.len() <= k < ls.len() ==> (#[trigger] ls[k]).len() == 0
        }),
    decreases ls.len(),
{
    if ls.len() > 0 && ls.last().len() == 0 {
        let p = ls.drop_last();
        lemma_drop_trailing_empty(p);
        let d = drop_trailing_empty(p);
        assert(d =~= ls.take(d.len() as int));
        assert forall|k: int| d.len() <= k < ls.len() implies (#[trigger] ls[k]).len() == 0 by {
            if k < ls.len() - 1 {
                assert(ls[k] == p[k]);
            }
        }
    } else {
        assert(ls =~= ls.take(ls.len() as int));
    }
}

/// Collapsing blank lines (`--trim-empty`) leaves lines that are either empty or not blank,
/// never two empty lines in a row, no blank line first or last, and the text's non-blank
/// lines, all of them and in order.
pub proof fn lemma_collapsed_lines(s: Seq<char>)
    ensures
        ({
            let l = collapsed_lines(s);
            &&& forall|k: int| 0 <= k < l.len() ==> (#[trigger] l[k]).len() == 0 || non_blank(l[k])
            &&& forall|k: int| 0 <= k < l.len() - 1 ==> !((#[trigger] l[k]).len() == 0 && l[k + 1].len() == 0)
            &&& l.len() > 0 ==> non_blank(l[0]) && non_blank(l.last())
            &&& l.filter(|x: Seq<char>| non_blank(x)) == text_lines(s).filter(|x: Seq<char>| non_blank(x))
        }),
{
    lemma_tidy_shape(text_lines(s));
}

/// The shape of lines after collapsing and dropping the trailing empty ones (see
/// [`lemma_collapsed_lines`]), for any lines.
pub(crate) proof fn lemma_tidy_shape(ls: Seq<Seq<char>>)
    ensures
        ({
            let l = drop_trailing_empty(collapse(ls, false, false));
            &&& forall|k: int| 0 <= k < l.len() ==> (#[trigger] l[k]).len() == 0 || non_blank(l[k])
            &&& forall|k: int| 0 <= k < l.len() - 1 ==> !((#[trigger] l[k]).len() == 0 && l[k + 1].len() == 0)
            &&& l.len() > 0 ==> non_blank(l[0]) && non_blank(l.last())
            &&& l.filter(|x: Seq<char>| non_blank(x)) == ls.filter(|x: Seq<char>| non_blank(x))
        }),
{
    broadcast use Seq::filter_distributes_over_add;

    let f = |x: Seq<char>| non_blank(x);
    let o = collapse(ls, false, false);
    lemma_collapse_shape(ls, false, false);
    lemma_drop_trailing_empty(o);
    let l = drop_trailing_empty(o);
    assert forall|k: int| 0 <= k < l.len() implies (#[trigger] l[k]).len() == 0 || non_blank(l[k]) by {
        assert(l[k] == o[k]);
    }
    assert forall|k: int| 0 <= k < l.len() - 1 implies !((#[trigger] l[k]).len() == 0 && l[k + 1].len() == 0) by {
        assert(l[k] == o[k]);
        assert(l[k + 1] == o[k + 1]);
    }
    if l.len() > 0 {
        assert(l[0] == o[0]);
        assert(l.last() == o[l.len() - 1]);
    }
    let tail = o.subrange(l.len() as int, o.len() as int);
    assert(o =~= l + tail);
    assert(tail.filter(f) =~= seq![]) by {
        lemma_no_non_blank(tail);
    }
}

proof fn lemma_no_non_blank(t: Seq<Seq<char>>)
    requires
        forall|k: int| 0 <= k < t.len() ==> (#[trigger] t[k]).len() == 0,
    ensures
        t.filter(|x: Seq<char>| non_blank(x)) =~= seq![],
    decreases t.len(),
{
    reveal_with_fuel(Seq::<_>::filter, 1);
    if t.len() > 0 {
        lemma_no_non_blank(t.drop_last());
        assert(!non_blank(t.last()));
    }
}

/// Collapsing the blank lines of a text without carriage returns a second time changes
/// nothing: `normalize_empty_lines` is idempotent on such texts.
pub proof fn lemma_normalize_idempotent(s: Seq<char>)
    requires
        !s.contains('\r'),
    ensures
        normalized(normalized(s)) == normalized(s),
{
    let l = collapsed_lines(s);
    lemma_collapsed_lines(s);
    lemma_no_cuts(s, 0);
    crate::line_facts::lemma_kept_lines_no_breaks(s, 0, seq![]);
    crate::line_facts::lemma_tidy_no_breaks(text_lines(s));
    let t = normalized(s);
    if l.len() == 0 {
        assert(t =~= Seq::<char>::empty());
        assert(text_lines(t) =~= Seq::<Seq<char>>::empty());
        assert(collapse(text_lines(t), false, false) =~= Seq::<Seq<char>>::empty());
    } else {
        assert(l.last().len() > 0) by {
            if l.last().len() == 0 {
                assert(is_blank(l.last()));
            }
        }
        crate::line_facts::lemma_lines_of_join(l);
        assert(text_lines(t) == l);
        assert(l[0].len() > 0) by {
            if l[0].len() == 0 {
                assert(is_blank(l[0]));
            }
        }
        crate::line_facts::lemma_collapse_fixpoint(l, false, false);
        assert(collapsed_lines(t) == drop_trailing_empty(l));
    }
}

/// The comments that cleaning removes are well formed and in order.
pub(crate) proof fn lemma_removed_ok(b: Seq<u8>, syntax: CommentSyntax, clean_line: bool, clean_block: bool)
    requires
        syntax.scannable(),
        b.len() <= usize::MAX,
    ensures
        in_order(comments_to_remove(b, syntax, clean_line, clean_block)),
        forall|k: int| 0 <= k < comments_to_remove(b, syntax, clean_line, clean_block).len() ==> comment_ok(
            b,
            syntax,
            #[trigger] comments_to_remove(b, syntax, clean_line, clean_block)[k],
        ),
{
    let chinese_pred = |c: CommentMatch| crate::comment::has_chinese(crate::comment::comment_text(b, c));
    let sel_pred = |c: CommentMatch| selected(c, clean_line, clean_block);
    let all = comments_in(b, syntax);
    let chinese = all.filter(chinese_pred);
    let cs = chinese.filter(sel_pred);
    lemma_comments_well_formed(b, syntax);
    lemma_filter_in_order(all, chinese_pred);
    lemma_filter_in_order(chinese, sel_pred);
    assert(cs == comments_to_remove(b, syntax, clean_line, clean_block));
    assert forall|k: int| 0 <= k < cs.len() implies comment_ok(b, syntax, #[trigger] cs[k]) by {
        assert(chinese.contains(cs[k]));
        let j = choose|j: int| 0 <= j < chinese.len() && chinese[j] == cs[k];
        assert(all.contains(chinese[j]));
        let i = choose|i: int| 0 <= i < all.len() && all[i] == chinese[j];
        assert(comment_ok(b, syntax, all[i]));
    }
}

/// The text between two boundaries of a valid text holds only characters of the whole.
proof fn lemma_piece_no_cr(b: Seq<u8>, s: int, e: int)
    requires
        valid_utf8(b),
        0 <= s <= e <= b.len(),
        is_char_boundary(b, s),
        is_char_boundary(b, e),
        !decode_utf8(b).contains('\r'),
    ensures
        !decode_utf8(b.subrange(s, e)).contains('\r'),
{
    crate::utf8_facts::lemma_piece_valid(b, s, e);
    crate::utf8_facts::lemma_boundary_shift(b, s, e - s);
    vstd::utf8::valid_utf8_split(b, s);
    vstd::utf8::decode_utf8_split(b, s);
    let b2 = b.subrange(s, b.len() as int);
    vstd::utf8::decode_utf8_split(b2, e - s);
    assert(b2.subrange(0, e - s) =~= b.subrange(s, e));
    let whole = decode_utf8(b);
    let pre = decode_utf8(b.subrange(0, s));
    let piece = decode_utf8(b.subrange(s, e));
    let post = decode_utf8(b2.subrange(e - s, b2.len() as int));
    assert(whole =~= pre + piece + post);
    if piece.contains('\r') {
        let i = choose|i: int| 0 <= i < piece.len() && piece[i] == '\r';
        assert(whole[pre.len() + i] == '\r');
        assert(whole.contains('\r'));
    }
}

/// Cutting comments out of a text without carriage returns leaves none.
proof fn lemma_without_comments_no_cr(b: Seq<u8>, syntax: CommentSyntax, cs: Seq<CommentMatch>, cursor: int)
    requires
        valid_utf8(b),
        !decode_utf8(b).contains('\r'),
        0 <= cursor <= b.len(),
        is_char_boundary(b, cursor),
        in_order(cs),
        forall|k: int| 0 <= k < cs.len() ==> comment_ok(b, syntax, #[trigger] cs[k]),
        cs.len() > 0 ==> cursor <= cs[0].start_byte,
    ensures
        !without_comments(b, cs, cursor).contains('\r'),
    decreases cs.len(),
{
    crate::utf8_facts::lemma_boundary_ends(b);
    if cs.len() == 0 {
        lemma_piece_no_cr(b, cursor, b.len() as int);
    } else {
        assert(comment_ok(b, syntax, cs[0]));
        let rest = cs.drop_first();
        lemma_piece_no_cr(b, cursor, cs[0].start_byte as int);
        assert(in_order(rest)) by {
            assert forall|k: int, l: int| 0 <= k < l < rest.len() implies #[trigger] rest[k].end_byte
                <= #[trigger] rest[l].start_byte by {
                assert(rest[k] == cs[k + 1] && rest[l] == cs[l + 1]);
            }
        }
        assert forall|k: int| 0 <= k < rest.len() implies comment_ok(b, syntax, #[trigger] rest[k]) by {
            assert(rest[k] == cs[k + 1]);
        }
        if rest.len() > 0 {
            assert(rest[0] == cs[1]);
        }
        lemma_without_comments_no_cr(b, syntax, rest, cs[0].end_byte as int);
        let a = decode_utf8(b.subrange(cursor, cs[0].start_byte as int));
        let r = without_comments(b, rest, cs[0].end_byte as int);
        if (a + r).contains('\r') {
            let i = choose|i: int| 0 <= i < (a + r).len() && (a + r)[i] == '\r';
            if i < a.len() {
                assert(a[i] == '\r');
                assert(a.contains('\r'));
            } else {
                assert(r[i - a.len()] == '\r');
                assert(r.contains('\r'));
            }
        }
    }
}

/// Where the text after the last of the comments `cs` begins.
spec fn last_cursor(cs: Seq<CommentMatch>, cursor: int) -> int {
    if cs.len() == 0 {
        cursor
    } else {
        cs.last().end_byte as int
    }
}

/// The text left by cutting comments out ends with what follows the last of them.
proof fn lemma_without_comments_tail(b: Seq<u8>, cs: Seq<CommentMatch>, cursor: int) -> (p: Seq<char>)
    ensures
        without_comments(b, cs, cursor) == p + decode_utf8(
            b.subrange(last_cursor(cs, cursor), b.len() as int),
        ),
    decreases cs.len(),
{
    if cs.len() == 0 {
        let p = Seq::<char>::empty();
        assert(without_comments(b, cs, cursor) =~= p + decode_utf8(b.subrange(cursor, b.len() as int)));
        p
    } else {
        let rest = cs.drop_first();
        let q = lemma_without_comments_tail(b, rest, cs[0].end_byte as int);
        assert(last_cursor(rest, cs[0].end_byte as int) == last_cursor(cs, cursor)) by {
            if rest.len() > 0 {
                assert(rest.last() == cs.last());
            }
        }
        let a = decode_utf8(b.subrange(cursor, cs[0].start_byte as int));
        let p = a + q;
        assert(without_comments(b, cs, cursor) =~= p + decode_utf8(
            b.subrange(last_cursor(cs, cursor), b.len() as int),
        ));
        p
    }
}

/// Without `--trim-empty`, cleaning leaves exactly the content outside the removed comments,
/// in order: the final newline never needs restoring. The one exception is a content whose
/// final newline belongs to a removed comment, which only a block end marker that ends with
/// a newline allows.
pub proof fn lemma_clean_is_removal(content: Seq<char>, syntax: CommentSyntax, clean_line: bool, clean_block: bool)
    requires
        syntax.scannable(),
        encode_utf8(content).len() <= usize::MAX,
        ({
            let b = encode_utf8(content);
            let cs = comments_to_remove(b, syntax, clean_line, clean_block);
            b.len() > 0 && b.last() == 10 ==> forall|k: int| 0 <= k < cs.len() ==> (#[trigger] cs[k]).end_byte < b.len()
        }),
    ensures
        cleaned(encode_utf8(content), syntax, clean_line, clean_block, false) == without_comments(
            encode_utf8(content),
            comments_to_remove(encode_utf8(content), syntax, clean_line, clean_block),
            0,
        ),
{
    broadcast use vstd::utf8::encode_utf8_valid_utf8;

    let b = encode_utf8(content);
    let cs = comments_to_remove(b, syntax, clean_line, clean_block);
    let base = without_comments(b, cs, 0);
    if b.len() > 0 && b.last() == 10 {
        lemma_removed_ok(b, syntax, clean_line, clean_block);
        crate::utf8_facts::lemma_boundary_ends(b);
        let lc = last_cursor(cs, 0);
        if cs.len() > 0 {
            assert(comment_ok(b, syntax, cs[cs.len() - 1]));
            assert(cs[cs.len() - 1].end_byte < b.len());
        }
        assert(0 <= lc < b.len() && is_char_boundary(b, lc));
        crate::utf8_facts::lemma_piece_valid(b, lc, b.len() as int);
        let tail = b.subrange(lc, b.len() as int);
        assert(tail.last() == 10);
        lemma_decoded_last_newline(tail);
        let p = lemma_without_comments_tail(b, cs, 0);
        let d = decode_utf8(tail);
        assert(base == p + d);
        assert(base.len() > 0 && base.last() == d.last());
    }
}

/// With `--trim-empty`, over the lines of what cleaning gives (for a content without carriage
/// returns): the non-blank lines are those that cleaning without it leaves, all of them and in
/// order; no two blank lines follow each other; the first and the last line are not blank
/// where any line is not; and the text ends with a newline exactly when the content does.
pub proof fn lemma_trimmed_lines(content: Seq<char>, syntax: CommentSyntax, clean_line: bool, clean_block: bool)
    requires
        syntax.scannable(),
        encode_utf8(content).len() <= usize::MAX,
        !content.contains('\r'),
    ensures
        ({
            let b = encode_utf8(content);
            let r = cleaned(b, syntax, clean_line, clean_block, true);
            let l = text_lines(r);
            &&& l.filter(|x: Seq<char>| non_blank(x)) == text_lines(
                cleaned(b, syntax, clean_line, clean_block, false),
            ).filter(|x: Seq<char>| non_blank(x))
            &&& forall|k: int| 0 <= k < l.len() - 1 ==> !(is_blank(#[trigger] l[k]) && is_blank(l[k + 1]))
            &&& (exists|k: int| 0 <= k < l.len() && non_blank(#[trigger] l[k])) ==> non_blank(l[0]) && non_blank(l.last())
            &&& (r.len() > 0 && r.last() == '\n') == (b.len() > 0 && b.last() == 10)
        }),
{
    broadcast use vstd::utf8::encode_utf8_valid_utf8, vstd::utf8::encode_utf8_decode_utf8;

    let f = |x: Seq<char>| non_blank(x);
    let b = encode_utf8(content);
    let cs = comments_to_remove(b, syntax, clean_line, clean_block);
    let base = without_comments(b, cs, 0);
    let cuts = cut_points(b, cs, 0, 0);
    let ks = kept_lines_from(base, 0, cuts);
    let l = drop_trailing_empty(collapse(ks, false, false));
    let t = join_lines(l);
    let ends = b.len() > 0 && b.last() == 10;
    let r = cleaned(b, syntax, clean_line, clean_block, true);
    let s = cleaned(b, syntax, clean_line, clean_block, false);
    // The text left by the removal has no carriage return either.
    lemma_removed_ok(b, syntax, clean_line, clean_block);
    crate::utf8_facts::lemma_boundary_ends(b);
    if cs.len() > 0 {
        assert(comment_ok(b, syntax, cs[0]));
    }
    assert(decode_utf8(b) == content);
    lemma_without_comments_no_cr(b, syntax, cs, 0);
    // The shape of the kept, collapsed lines.
    crate::line_facts::lemma_kept_lines_no_breaks(base, 0, cuts);
    crate::line_facts::lemma_tidy_no_breaks(ks);
    lemma_tidy_shape(ks);
    crate::line_facts::lemma_kept_non_blank(base, 0, cuts);
    assert(l.filter(f) == text_lines(base).filter(f));
    // Cleaning without trimming: its non-blank lines are those of the text left.
    if ends && !(base.len() > 0 && base.last() == '\n') {
        assert(s == base.push('\n'));
        assert(base.push('\n') =~= base + seq!['\n']);
        if base.len() > 0 {
            crate::line_facts::lemma_lines_add_newline(base, 0);
        } else {
            assert(s =~= seq!['\n']);
            assert(s.subrange(0, 0) =~= Seq::<char>::empty());
            assert(lines_from(s, 1) =~= Seq::<Seq<char>>::empty());
            assert(text_lines(s) =~= seq![Seq::<char>::empty()]);
            assert(text_lines(base) =~= Seq::<Seq<char>>::empty());
            reveal_with_fuel(Seq::<_>::filter, 2);
            assert(!non_blank(Seq::<char>::empty()));
            assert(seq![Seq::<char>::empty()].drop_last() =~= Seq::<Seq<char>>::empty());
            assert(text_lines(s).filter(f) =~= Seq::<Seq<char>>::empty());
            assert(text_lines(base).filter(f) =~= Seq::<Seq<char>>::empty());
        }
    } else {
        assert(s == base);
    }
    assert(text_lines(s).filter(f) == text_lines(base).filter(f));
    if l.len() == 0 {
        assert(t =~= Seq::<char>::empty());
        assert(l.filter(f) =~= Seq::<Seq<char>>::empty()) by {
            reveal_with_fuel(Seq::<_>::filter, 1);
        }
        if ends {
            assert(r =~= seq!['\n']);
            assert(r.subrange(0, 0) =~= Seq::<char>::empty());
            assert(lines_from(r, 1) =~= Seq::<Seq<char>>::empty());
            assert(text_lines(r) =~= seq![Seq::<char>::empty()]);
            reveal_with_fuel(Seq::<_>::filter, 2);
            assert(seq![Seq::<char>::empty()].drop_last() =~= Seq::<Seq<char>>::empty());
            assert(!non_blank(Seq::<char>::empty()));
            assert(text_lines(r).filter(f) =~= Seq::<Seq<char>>::empty());
            assert(!non_blank(text_lines(r)[0]));
        } else {
            assert(r == t);
            assert(text_lines(r) =~= Seq::<Seq<char>>::empty());
            reveal_with_fuel(Seq::<_>::filter, 1);
        }
    } else {
        assert(l.last().len() > 0) by {
            if l.last().len() == 0 {
                assert(is_blank(l.last()));
            }
        }
        crate::line_facts::lemma_join_last(l);
        assert(t.last() != '\n') by {
            assert(crate::line_facts::no_breaks(l.last()));
            assert(l.last()[l.last().len() - 1] != '\n');
        }
        crate::line_facts::lemma_lines_of_join(l);
        if ends {
            assert(r == t.push('\n'));
            assert(t.push('\n') =~= t + seq!['\n']);
        } else {
            assert(r == t);
        }
        assert(text_lines(r) == l);
        assert forall|k: int| 0 <= k < l.len() - 1 implies !(is_blank(#[trigger] l[k]) && is_blank(l[k + 1])) by {
            if is_blank(l[k]) && is_blank(l[k + 1]) {
                assert(l[k].len() == 0 || non_blank(l[k]));
                assert(l[k + 1].len() == 0 || non_blank(l[k + 1]));
            }
        }
    }
}

/// Which comments cleaning removes depends only on their kind and the selected kinds: a
/// comment is removed exactly when it contains a Chinese character and is a line comment
/// with `clean_line` or a block comment with `clean_block`, whatever its length or lines.
pub proof fn lemma_removed_by_kind(b: Seq<u8>, syntax: CommentSyntax, clean_line: bool, clean_block: bool, c: CommentMatch)
    ensures
        comments_to_remove(b, syntax, clean_line, clean_block).contains(c) <==> chinese_comments_in(b, syntax).contains(c)
            && ((c.kind == CommentKind::Line && clean_line) || (c.kind == CommentKind::Block && clean_block)),
{
    crate::comment::lemma_filter_membership(
        chinese_comments_in(b, syntax),
        |d: CommentMatch| selected(d, clean_line, clean_block),
        c,
    );
}

} // verus!
