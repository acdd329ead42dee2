//! Comments found in a file, the selection of those that contain Chinese characters, and
//! the records reported for them.
use vstd::prelude::*;
use vstd::string::StringSliceAdditionalSpecFns;

use crate::lexer::{comments_in, exec_step, lemma_step_progress, measure, scan, state_ok, ScanState};
use crate::scan_facts::{comment_ok, in_order, lemma_comments_well_formed};
use crate::syntax::CommentSyntax;
use vstd::utf8::decode_utf8;

verus! {

/// Whether a comment is a line comment (`// ...`) or a block comment (`/* ... */`).
#[derive(Debug, Clone, Copy, PartialEq, Eq, Structural)]
pub enum CommentKind {
    Line,
    Block,
}

/// A comment's place in a file: its kind, its first and last line (counted from 1), and the
/// byte range `start_byte..end_byte` that holds it, markers included.
#[derive(Debug, Clone, Copy, PartialEq, Eq)]
pub struct CommentMatch {
    pub kind: CommentKind,
    pub start_line: usize,
    pub end_line: usize,
    pub start_byte: usize,
    pub end_byte: usize,
}

/// Every comment in `content`, in order, as the scanner of [`crate::lexer`] finds them:
/// line comments run from their marker to the end of the line, block comments from their
/// start marker through the matching end marker (nested in Swift); markers inside string,
/// raw-string and regex literals do not start comments.
pub fn extract_comments(content: &str, syntax: CommentSyntax) -> (r: Vec<CommentMatch>)
    requires
        syntax.scannable(),
        content.spec_bytes().len() < usize::MAX,
    ensures
        r@ == comments_in(content.spec_bytes(), syntax),
        forall|k: int| 0 <= k < r@.len() ==> comment_ok(content.spec_bytes(), syntax, #[trigger] r@[k]),
        in_order(r@),
{
    proof {
        lemma_comments_well_formed(content.spec_bytes(), syntax);
    }
    let bytes = content.as_bytes();
    let mut comments: Vec<CommentMatch> = Vec::new();
    let mut state = ScanState::Code;
    let mut line: usize = 1;
    let mut index: usize = 0;
    while index < bytes.len()
        invariant
            bytes@ == content.spec_bytes(),
            bytes.len() < usize::MAX,
            syntax.scannable(),
            index <= bytes.len(),
            1 <= line <= index + 1,
            state_ok(syntax, state, index as int),
            comments@ + scan(bytes@, syntax, state, index as int, line as int) == comments_in(
                bytes@,
                syntax,
            ),
        decreases measure(bytes@.len() as int, syntax, state, index as int),
    {
        let ghost old_comments = comments@;
        let (next_state, next_index, next_line, found) = exec_step(bytes, syntax, state, index, line);
        proof {
            lemma_step_progress(bytes@, syntax, state, index as int, line as int);
        }
        match found {
            Some(c) => {
                comments.push(c);
                assert(comments@ == old_comments + seq![c]);
            },
            None => {},
        }
        state = next_state;
        index = next_index;
        line = next_line;
    }
    assert(comments@ + scan(bytes@, syntax, state, index as int, line as int) == comments@);
    comments
}

/// A CJK ideograph: the CJK Unified Ideographs block, its extensions A to E, and the CJK
/// Compatibility Ideographs.
pub open spec fn is_chinese(c: char) -> bool {
    let u = c as u32;
    ||| 0x4E00 <= u <= 0x9FFF
    ||| 0x3400 <= u <= 0x4DBF
    ||| 0x20000 <= u <= 0x2A6DF
    ||| 0x2A700 <= u <= 0x2B73F
    ||| 0x2B740 <= u <= 0x2B81F
    ||| 0x2B820 <= u <= 0x2CEAF
    ||| 0xF900 <= u <= 0xFAFF
}

/// Some character of the text is Chinese.
pub open spec fn has_chinese(s: Seq<char>) -> bool {
    exists|k: int| 0 <= k < s.len() && is_chinese(#[trigger] s[k])
}

/// Whether `text` holds a Chinese character (see [`is_chinese`]).
pub fn contains_chinese(text: &str) -> (r: bool)
    ensures
        r == has_chinese(text@),
{
    broadcast use vstd::string::group_string_axioms;

    for c in it: text.chars()
        invariant
            it.seq() == text@,
            forall|k: int| 0 <= k < it.index() ==> !is_chinese(#[trigger] it.seq()[k]),
    {
        let u = c as u32;
        if (0x4E00 <= u && u <= 0x9FFF) || (0x3400 <= u && u <= 0x4DBF) || (0x20000 <= u && u
            <= 0x2A6DF) || (0x2A700 <= u && u <= 0x2B73F) || (0x2B740 <= u && u <= 0x2B81F) || (
        0x2B820 <= u && u <= 0x2CEAF) || (0xF900 <= u && u <= 0xFAFF) {
            assert(is_chinese(it.seq()[it.index() as int]));
            return true;
        }
    }
    false
}

/// The characters of a comment: the bytes of its range, decoded.
pub open spec fn comment_text(b: Seq<u8>, c: CommentMatch) -> Seq<char> {
    decode_utf8(b.subrange(c.start_byte as int, c.end_byte as int))
}

/// The comments of a text that contain a Chinese character, in order.
pub open spec fn chinese_comments_in(b: Seq<u8>, syntax: CommentSyntax) -> Seq<CommentMatch> {
    comments_in(b, syntax).filter(|c: CommentMatch| has_chinese(comment_text(b, c)))
}

/// The comment's text, as a slice of `content`.
fn comment_slice<'a>(content: &'a str, c: CommentMatch) -> (r: &'a str)
    requires
        c.start_byte <= c.end_byte <= content.spec_bytes().len(),
        vstd::utf8::is_char_boundary(content.spec_bytes(), c.start_byte as int),
        vstd::utf8::is_char_boundary(content.spec_bytes(), c.end_byte as int),
    ensures
        r@ == comment_text(content.spec_bytes(), c),
{
    broadcast use vstd::utf8::encode_utf8_valid_utf8, vstd::utf8::encode_utf8_decode_utf8;

    proof {
        crate::utf8_facts::lemma_piece_valid(
            content.spec_bytes(),
            c.start_byte as int,
            c.end_byte as int,
        );
    }
    let (_, tail) = content.split_at(c.start_byte);
    assert(tail.spec_bytes() =~= content.spec_bytes().subrange(
        c.start_byte as int,
        content.spec_bytes().len() as int,
    ));
    let (piece, _) = tail.split_at(c.end_byte - c.start_byte);
    assert(piece.spec_bytes() =~= content.spec_bytes().subrange(
        c.start_byte as int,
        c.end_byte as int,
    ));
    piece
}

/// The comments of `content` that contain a Chinese character, in order.
pub fn extract_chinese_comments(content: &str, syntax: CommentSyntax) -> (r: Vec<CommentMatch>)
    requires
        syntax.scannable(),
        content.spec_bytes().len() < usize::MAX,
    ensures
        r@ == chinese_comments_in(content.spec_bytes(), syntax),
{
    broadcast use vstd::utf8::encode_utf8_valid_utf8;

    let all = extract_comments(content, syntax);
    let ghost b = content.spec_bytes();
    let ghost pred = |c: CommentMatch| has_chinese(comment_text(b, c));
    proof {
        vstd::utf8::encode_utf8_valid_utf8(content@);
    }
    let mut r: Vec<CommentMatch> = Vec::new();
    let mut i: usize = 0;
    while i < all.len()
        invariant
            b == content.spec_bytes(),
            vstd::utf8::valid_utf8(b),
            pred == (|c: CommentMatch| has_chinese(comment_text(b, c))),
            all@ == comments_in(b, syntax),
            forall|k: int| 0 <= k < all@.len() ==> comment_ok(b, syntax, #[trigger] all@[k]),
            i <= all.len(),
            r@ == all@.take(i as int).filter(pred),
        decreases all.len() - i,
    {
        let c = all[i];
        assert(comment_ok(b, syntax, all@[i as int]));
        let text = comment_slice(content, c);
        let keep = contains_chinese(text);
        assert(keep == pred(all@[i as int]));
        proof {
            reveal_with_fuel(Seq::<_>::filter, 1);
            assert(all@.take(i + 1).drop_last() =~= all@.take(i as int));
        }
        if keep {
            r.push(c);
        }
        i = i + 1;
    }
    assert(all@.take(all.len() as int) =~= all@);
    r
}

/// A reported comment: the file it is in, its first and last line, and its kind (`Line`
/// or `Block`).
#[derive(Debug)]
pub struct LintResult {
    pub file: String,
    pub start_line: usize,
    pub end_line: usize,
    pub kind: String,
}

/// The name of a comment kind, as its `Debug` form writes it.
pub open spec fn kind_name(kind: CommentKind) -> Seq<char> {
    match kind {
        CommentKind::Line => "Line"@,
        CommentKind::Block => "Block"@,
    }
}

/// `r` reports comment `c` of the file at `path`.
pub open spec fn reports(r: LintResult, path: Seq<char>, c: CommentMatch) -> bool {
    &&& r.file@ == path
    &&& r.start_line == c.start_line
    &&& r.end_line == c.end_line
    &&& r.kind@ == kind_name(c.kind)
}

/// The record that reports `comment` of the file at `path`.
pub fn to_lint_result(path: &str, comment: &CommentMatch) -> (r: LintResult)
    ensures
        reports(r, path@, *comment),
{
    let kind = match comment.kind {
        CommentKind::Line => "Line".to_owned(),
        CommentKind::Block => "Block".to_owned(),
    };
    LintResult {
        file: path.to_owned(),
        start_line: comment.start_line,
        end_line: comment.end_line,
        kind,
    }
}

/// An element is in a filtered sequence exactly when it is in the sequence and passes the
/// filter.
pub proof fn lemma_filter_membership<A>(s: Seq<A>, pred: spec_fn(A) -> bool, x: A)
    ensures
        s.filter(pred).contains(x) <==> s.contains(x) && pred(x),
{
    broadcast use vstd::seq_lib::group_filter_ensures;

    if s.filter(pred).contains(x) {
        s.lemma_filter_contains_rev(pred, x);
        let k = choose|k: int| 0 <= k < s.filter(pred).len() && s.filter(pred)[k] == x;
        s.lemma_filter_pred(pred, k);
    }
    if s.contains(x) && pred(x) {
        let k = choose|k: int| 0 <= k < s.len() && s[k] == x;
        s.lemma_filter_contains(pred, k);
    }
}

/// A comment that the scanner finds is kept exactly when the text of its byte range holds a
/// Chinese character, however the comment begins; nothing else is kept.
pub proof fn lemma_chinese_selection(b: Seq<u8>, syntax: CommentSyntax, c: CommentMatch)
    ensures
        chinese_comments_in(b, syntax).contains(c) <==> comments_in(b, syntax).contains(c) && ({
            let t = decode_utf8(b.subrange(c.start_byte as int, c.end_byte as int));
            exists|k: int| 0 <= k < t.len() && is_chinese(#[trigger] t[k])
        }),
{
    lemma_filter_membership(comments_in(b, syntax), |d: CommentMatch| has_chinese(comment_text(b, d)), c);
}

} // verus!
