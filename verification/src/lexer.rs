//! The comment scanner: a state machine over a file's bytes.
//!
//! The scanner's meaning is given by [`step`], which maps a state, a byte position and a
//! line number to the next state, position and line number and to the comment that the step
//! completes, if any; [`scan`] runs it to the end of the input and collects the comments.
//! Every executable function here is proved to compute what these spec functions say.
use vstd::prelude::*;
use vstd::string::StringSliceAdditionalSpecFns;

use crate::comment::{CommentKind, CommentMatch};
use crate::syntax::{CommentSyntax, Language};

verus! {

pub const NEWLINE: u8 = 10;

pub const DOUBLE_QUOTE: u8 = 34;

pub const SINGLE_QUOTE: u8 = 39;

pub const BACKTICK: u8 = 96;

pub const BACKSLASH: u8 = 92;

pub const SLASH: u8 = 47;

pub const STAR: u8 = 42;

pub const HASH: u8 = 35;

pub const OPEN_BRACKET: u8 = 91;

pub const CLOSE_BRACKET: u8 = 93;

pub const LOWER_R: u8 = 114;

/// Where the scanner is: in code, or inside a literal or comment that it must skip.
#[derive(Debug, Clone, Copy)]
pub enum ScanState {
    Code,
    String { quote: u8, escape: bool },
    Regex { escape: bool, in_char_class: bool },
    BlockComment {
        start_byte: usize,
        start_line: usize,
        start_marker: &'static str,
        end_marker: &'static str,
        depth: usize,
        allow_nesting: bool,
    },
    RustRawString { hashes: usize },
    SwiftString { hashes: usize, multiline: bool, escape: bool },
}

// ---------------------------------------------------------------------------------------
// Byte classes
// ---------------------------------------------------------------------------------------
/// ASCII whitespace as `u8::is_ascii_whitespace` defines it: space, tab, line feed, form
/// feed and carriage return.
pub open spec fn is_ws(b: u8) -> bool {
    b == 32 || b == 9 || b == 10 || b == 12 || b == 13
}

/// An ASCII letter or digit, or `_`.
pub open spec fn is_word_byte(b: u8) -> bool {
    (48 <= b <= 57) || (65 <= b <= 90) || (97 <= b <= 122) || b == 95
}

/// The bytes of `=([{!?:;,<>+-*%^&|~`, after which a `/` starts a regex literal.
pub open spec fn is_regex_prefix_punct(b: u8) -> bool {
    b == 61 || b == 40 || b == 91 || b == 123 || b == 33 || b == 63 || b == 58 || b == 59
        || b == 44 || b == 60 || b == 62 || b == 43 || b == 45 || b == 42 || b == 37 || b == 94
        || b == 38 || b == 124 || b == 126
}

/// The words `return`, `case`, `throw`, `in` and `of`, after which a `/` starts a regex
/// literal.
pub open spec fn is_regex_keyword(w: Seq<u8>) -> bool {
    ||| w == seq![114u8, 101u8, 116u8, 117u8, 114u8, 110u8]
    ||| w == seq![99u8, 97u8, 115u8, 101u8]
    ||| w == seq![116u8, 104u8, 114u8, 111u8, 119u8]
    ||| w == seq![105u8, 110u8]
    ||| w == seq![111u8, 102u8]
}

fn ws(b: u8) -> (r: bool)
    ensures
        r == is_ws(b),
{
    b == 32 || b == 9 || b == 10 || b == 12 || b == 13
}

fn word_byte(b: u8) -> (r: bool)
    ensures
        r == is_word_byte(b),
{
    (48 <= b && b <= 57) || (65 <= b && b <= 90) || (97 <= b && b <= 122) || b == 95
}

fn regex_prefix_punct(b: u8) -> (r: bool)
    ensures
        r == is_regex_prefix_punct(b),
{
    b == 61 || b == 40 || b == 91 || b == 123 || b == 33 || b == 63 || b == 58 || b == 59
        || b == 44 || b == 60 || b == 62 || b == 43 || b == 45 || b == 42 || b == 37 || b == 94
        || b == 38 || b == 124 || b == 126
}

// ---------------------------------------------------------------------------------------
// Looking at the input
// ---------------------------------------------------------------------------------------
/// `needle` occurs in `bytes` at position `i`.
pub open spec fn starts_with_at(bytes: Seq<u8>, i: int, needle: Seq<u8>) -> bool {
    0 <= i && i + needle.len() <= bytes.len() && bytes.subrange(i, i + needle.len()) == needle
}

fn starts_with(bytes: &[u8], index: usize, needle: &[u8]) -> (r: bool)
    ensures
        r == starts_with_at(bytes@, index as int, needle@),
{
    if index > bytes.len() || needle.len() > bytes.len() - index {
        return false;
    }
    let mut k: usize = 0;
    while k < needle.len()
        invariant
            index + needle.len() <= bytes.len(),
            k <= needle.len(),
            forall|j: int| 0 <= j < k ==> bytes@[index + j] == needle@[j],
        decreases needle.len() - k,
    {
        if bytes[index + k] != needle[k] {
            assert(bytes@.subrange(index as int, index + needle.len())[k as int] != needle@[k as int]);
            return false;
        }
        k = k + 1;
    }
    assert(bytes@.subrange(index as int, index + needle.len()) =~= needle@);
    true
}

/// The first of `markers`, in order, that occurs at position `i`.
pub open spec fn first_marker_at(bytes: Seq<u8>, i: int, markers: Seq<&'static str>) -> Option<
    &'static str,
>
    decreases markers.len(),
{
    if markers.len() == 0 {
        None
    } else if starts_with_at(bytes, i, markers[0].spec_bytes()) {
        Some(markers[0])
    } else {
        first_marker_at(bytes, i, markers.drop_first())
    }
}

/// The comment that starts at position `i`, with its opening marker: a line comment if one
/// of the line markers occurs there (the first that does), else a block comment if the
/// block start marker occurs there.
pub open spec fn comment_start_at(bytes: Seq<u8>, i: int, syntax: CommentSyntax) -> Option<
    (&'static str, CommentKind),
> {
    match first_marker_at(bytes, i, syntax.line_markers@) {
        Some(m) => Some((m, CommentKind::Line)),
        None => match syntax.block_marker {
            Some((start, _)) => if starts_with_at(bytes, i, start.spec_bytes()) {
                Some((start, CommentKind::Block))
            } else {
                None
            },
            None => None,
        },
    }
}

fn detect_comment_start(bytes: &[u8], index: usize, syntax: CommentSyntax) -> (r: Option<
    (&'static str, CommentKind),
>)
    requires
        index <= bytes.len(),
    ensures
        r == comment_start_at(bytes@, index as int, syntax),
{
    let markers = syntax.line_markers;
    let mut k: usize = 0;
    assert(markers@.skip(0) =~= markers@);
    while k < markers.len()
        invariant
            markers@ == syntax.line_markers@,
            index <= bytes.len(),
            k <= markers@.len(),
            first_marker_at(bytes@, index as int, markers@) == first_marker_at(
                bytes@,
                index as int,
                markers@.skip(k as int),
            ),
        decreases markers.len() - k,
    {
        let marker: &'static str = markers[k];
        assert(markers@.skip(k as int).drop_first() =~= markers@.skip(k + 1));
        if starts_with(bytes, index, marker.as_bytes()) {
            return Some((marker, CommentKind::Line));
        }
        k = k + 1;
    }
    assert(markers@.skip(k as int).len() == 0);
    match syntax.block_marker {
        Some((start, _)) => {
            if starts_with(bytes, index, start.as_bytes()) {
                Some((start, CommentKind::Block))
            } else {
                None
            }
        },
        None => None,
    }
}

/// The end of the line comment that starts at `j`: the position of the next newline, or
/// the end of the input.
pub open spec fn line_end(bytes: Seq<u8>, j: int) -> int
    decreases bytes.len() - j,
{
    if 0 <= j < bytes.len() && bytes[j] != NEWLINE {
        line_end(bytes, j + 1)
    } else {
        j
    }
}

fn line_comment_end(bytes: &[u8], start: usize) -> (r: usize)
    requires
        start <= bytes.len(),
    ensures
        r as int == line_end(bytes@, start as int),
{
    let mut index = start;
    while index < bytes.len() && bytes[index] != NEWLINE
        invariant
            start <= index <= bytes.len(),
            line_end(bytes@, start as int) == line_end(bytes@, index as int),
        decreases bytes.len() - index,
    {
        index = index + 1;
    }
    index
}

/// The number of consecutive `#` bytes from position `j` on.
pub open spec fn hash_run(bytes: Seq<u8>, j: int) -> int
    decreases bytes.len() - j,
{
    if 0 <= j < bytes.len() && bytes[j] == HASH {
        1 + hash_run(bytes, j + 1)
    } else {
        0
    }
}

fn count_hashes(bytes: &[u8], start: usize) -> (r: usize)
    requires
        start <= bytes.len(),
    ensures
        r as int == hash_run(bytes@, start as int),
        start + r <= bytes.len(),
{
    let mut cursor = start;
    while cursor < bytes.len() && bytes[cursor] == HASH
        invariant
            start <= cursor <= bytes.len(),
            hash_run(bytes@, start as int) == (cursor - start) + hash_run(bytes@, cursor as int),
        decreases bytes.len() - cursor,
    {
        cursor = cursor + 1;
    }
    cursor - start
}

/// A Rust raw string starts at `i` (`r`, then some `#`, then `"`): the number of `#`.
pub open spec fn raw_string_start(bytes: Seq<u8>, i: int, language: Language) -> Option<int> {
    if language == Language::Rust && bytes[i] == LOWER_R {
        let h = hash_run(bytes, i + 1);
        let c = i + 1 + h;
        if c < bytes.len() && bytes[c] == DOUBLE_QUOTE {
            Some(h)
        } else {
            None
        }
    } else {
        None
    }
}

fn detect_rust_raw_string(bytes: &[u8], index: usize, language: Language) -> (r: Option<usize>)
    requires
        index < bytes.len(),
    ensures
        r matches Some(h) ==> raw_string_start(bytes@, index as int, language) == Some(h as int),
        r is None ==> raw_string_start(bytes@, index as int, language) is None,
        r matches Some(h) ==> index + h + 2 <= bytes.len(),
{
    if language != Language::Rust || bytes[index] != LOWER_R {
        return None;
    }
    let hashes = count_hashes(bytes, index + 1);
    let cursor = index + 1 + hashes;
    if cursor < bytes.len() && bytes[cursor] == DOUBLE_QUOTE {
        Some(hashes)
    } else {
        None
    }
}

/// The `"` at `i` closes a raw string opened with `h` hashes: `h` bytes `#` follow it.
pub open spec fn raw_string_end(bytes: Seq<u8>, i: int, h: int) -> bool {
    &&& i + h < bytes.len()
    &&& forall|k: int| i + 1 <= k < i + 1 + h ==> bytes[k] == HASH
}

fn rust_raw_string_end(bytes: &[u8], index: usize, hashes: usize) -> (r: bool)
    requires
        index < bytes.len(),
    ensures
        r == raw_string_end(bytes@, index as int, hashes as int),
{
    if hashes >= bytes.len() - index {
        return false;
    }
    let mut offset: usize = 0;
    while offset < hashes
        invariant
            index + hashes < bytes.len(),
            offset <= hashes,
            forall|k: int| index + 1 <= k < index + 1 + offset ==> bytes@[k] == HASH,
        decreases hashes - offset,
    {
        if bytes[index + 1 + offset] != HASH {
            return false;
        }
        offset = offset + 1;
    }
    true
}

/// A `#` stands at position `k`.
pub open spec fn hash_at(bytes: Seq<u8>, k: int) -> bool {
    0 <= k < bytes.len() && bytes[k] == HASH
}

pub open spec fn triple_quote() -> Seq<u8> {
    seq![DOUBLE_QUOTE, DOUBLE_QUOTE, DOUBLE_QUOTE]
}

/// A Swift string literal starts at `i`: some `#`, then `"""` (multi-line) or `"`. The
/// result is the number of `#`, whether it is multi-line, and the length of the opening.
pub open spec fn swift_string_start(bytes: Seq<u8>, i: int, language: Language) -> Option<
    (int, bool, int),
> {
    if language != Language::Swift {
        None
    } else {
        let h = hash_run(bytes, i);
        let c = i + h;
        if starts_with_at(bytes, c, triple_quote()) {
            Some((h, true, h + 3))
        } else if c < bytes.len() && bytes[c] == DOUBLE_QUOTE {
            Some((h, false, h + 1))
        } else {
            None
        }
    }
}

fn detect_swift_string_start(bytes: &[u8], index: usize, language: Language) -> (r: Option<
    (usize, bool, usize),
>)
    requires
        index <= bytes.len(),
    ensures
        r matches Some(t) ==> swift_string_start(bytes@, index as int, language) == Some(
            (t.0 as int, t.1, t.2 as int),
        ),
        r is None ==> swift_string_start(bytes@, index as int, language) is None,
        r matches Some(t) ==> index + t.2 <= bytes.len() && t.2 >= 1,
{
    if language != Language::Swift {
        return None;
    }
    let hashes = count_hashes(bytes, index);
    let cursor = index + hashes;
    let triple: &[u8] = &[34u8, 34u8, 34u8];
    assert(triple@ == triple_quote());
    if starts_with(bytes, cursor, triple) {
        return Some((hashes, true, hashes + 3));
    }
    if cursor < bytes.len() && bytes[cursor] == DOUBLE_QUOTE {
        return Some((hashes, false, hashes + 1));
    }
    None
}

/// A Swift string literal with `h` hashes (multi-line or not) closes at `i`.
pub open spec fn swift_string_closes(bytes: Seq<u8>, i: int, h: int, multiline: bool) -> bool {
    let q = if multiline {
        3int
    } else {
        1int
    };
    &&& if multiline {
        starts_with_at(bytes, i, triple_quote())
    } else {
        0 <= i < bytes.len() && bytes[i] == DOUBLE_QUOTE
    }
    &&& forall|k: int| i + q <= k < i + q + h ==> #[trigger] hash_at(bytes, k)
}

fn swift_string_end(bytes: &[u8], index: usize, hashes: usize, multiline: bool) -> (r: bool)
    ensures
        r == swift_string_closes(bytes@, index as int, hashes as int, multiline),
        r ==> index + (if multiline {
            3int
        } else {
            1int
        }) + hashes <= bytes.len(),
{
    let quote_len: usize = if multiline {
        3
    } else {
        1
    };
    if index >= bytes.len() {
        proof {
            if multiline {
                assert(!starts_with_at(bytes@, index as int, triple_quote()));
            }
        }
        return false;
    }
    if multiline {
        let triple: &[u8] = &[34u8, 34u8, 34u8];
        assert(triple@ == triple_quote());
        if !starts_with(bytes, index, triple) {
            return false;
        }
    } else if bytes[index] != DOUBLE_QUOTE {
        return false;
    }
    let mut offset: usize = 0;
    while offset < hashes
        invariant
            index + quote_len <= bytes.len(),
            quote_len == (if multiline {
                3usize
            } else {
                1usize
            }),
            offset <= hashes,
            forall|k: int|
                index + quote_len <= k < index + quote_len + offset ==> #[trigger] hash_at(
                    bytes@,
                    k,
                ),
        decreases hashes - offset,
    {
        if offset >= bytes.len() - index - quote_len {
            assert(!hash_at(bytes@, index + quote_len + offset));
            return false;
        }
        if bytes[index + quote_len + offset] != HASH {
            assert(!hash_at(bytes@, index + quote_len + offset));
            return false;
        }
        offset = offset + 1;
    }
    proof {
        if hashes > 0 {
            let k = index + quote_len + hashes - 1;
            assert(hash_at(bytes@, k));
        }
    }
    true
}

/// The length of the UTF-8 encoding that a byte leads (1 for a byte that leads none).
pub open spec fn utf8_width(b: u8) -> int {
    if 0xC0 <= b <= 0xDF {
        2
    } else if 0xE0 <= b <= 0xEF {
        3
    } else if 0xF0 <= b <= 0xF7 {
        4
    } else {
        1
    }
}

/// In Rust, the quote at `i` opens a character (or byte) literal: an escape follows it, or
/// one character and then a closing quote. Otherwise it starts a lifetime or a label.
pub open spec fn rust_char_literal_at(bytes: Seq<u8>, i: int) -> bool {
    &&& i + 1 < bytes.len()
    &&& {
        ||| bytes[i + 1] == BACKSLASH
        ||| {
            let j = i + 1 + utf8_width(bytes[i + 1]);
            j < bytes.len() && bytes[j] == SINGLE_QUOTE
        }
    }
}

/// The byte at `i` opens a string literal: a double quote; a single quote, except in Rust
/// where it must open a character literal; or a backtick where the syntax has backtick
/// strings.
pub open spec fn string_start_at(bytes: Seq<u8>, i: int, syntax: CommentSyntax) -> bool {
    let b = bytes[i];
    ||| b == DOUBLE_QUOTE
    ||| b == SINGLE_QUOTE && (syntax.language != Language::Rust || rust_char_literal_at(bytes, i))
    ||| syntax.supports_backticks && b == BACKTICK
}

fn utf8_width_of(b: u8) -> (r: usize)
    ensures
        r as int == utf8_width(b),
{
    if 0xC0 <= b && b <= 0xDF {
        2
    } else if 0xE0 <= b && b <= 0xEF {
        3
    } else if 0xF0 <= b && b <= 0xF7 {
        4
    } else {
        1
    }
}

fn is_rust_char_literal(bytes: &[u8], index: usize) -> (r: bool)
    requires
        index < bytes.len(),
    ensures
        r == rust_char_literal_at(bytes@, index as int),
{
    if index + 1 >= bytes.len() {
        return false;
    }
    let next = bytes[index + 1];
    if next == BACKSLASH {
        return true;
    }
    let width = utf8_width_of(next);
    if width >= bytes.len() - index - 1 {
        return false;
    }
    bytes[index + 1 + width] == SINGLE_QUOTE
}

fn is_string_start(bytes: &[u8], index: usize, syntax: CommentSyntax) -> (r: bool)
    requires
        index < bytes.len(),
    ensures
        r == string_start_at(bytes@, index as int, syntax),
{
    let current = bytes[index];
    if current == DOUBLE_QUOTE {
        return true;
    }
    if current == SINGLE_QUOTE {
        let rust = match syntax.language {
            Language::Rust => true,
            _ => false,
        };
        return !rust || is_rust_char_literal(bytes, index);
    }
    syntax.supports_backticks && current == BACKTICK
}

/// The last byte before position `k` that is not whitespace.
pub open spec fn previous_significant(bytes: Seq<u8>, k: int) -> Option<u8>
    decreases k,
{
    if k <= 0 {
        None
    } else if !is_ws(bytes[k - 1]) {
        Some(bytes[k - 1])
    } else {
        previous_significant(bytes, k - 1)
    }
}

/// Position `k` moved back over whitespace.
pub open spec fn skip_ws_back(bytes: Seq<u8>, k: int) -> int
    decreases k,
{
    if k > 0 && is_ws(bytes[k - 1]) {
        skip_ws_back(bytes, k - 1)
    } else {
        k
    }
}

/// Position `k` moved back over word bytes.
pub open spec fn skip_word_back(bytes: Seq<u8>, k: int) -> int
    decreases k,
{
    if k > 0 && is_word_byte(bytes[k - 1]) {
        skip_word_back(bytes, k - 1)
    } else {
        k
    }
}

/// The word that ends right before position `i`, whitespace between them skipped, is one
/// after which a regex literal may start.
pub open spec fn previous_word_is_regex_keyword(bytes: Seq<u8>, i: int) -> bool {
    let end = skip_ws_back(bytes, i);
    let start = skip_word_back(bytes, end);
    start != end && is_regex_keyword(bytes.subrange(start, end))
}

/// A regex literal starts at `i`: the syntax has them, the byte is `/`, the next byte is
/// neither `/`, `*` nor whitespace, and before it (whitespace skipped) stands nothing, an
/// operator or opening punctuation, or one of the keywords of [`is_regex_keyword`].
pub open spec fn regex_start_at(bytes: Seq<u8>, i: int, syntax: CommentSyntax) -> bool {
    &&& syntax.supports_regex_literals
    &&& bytes[i] == SLASH
    &&& i + 1 < bytes.len()
    &&& !(bytes[i + 1] == SLASH || bytes[i + 1] == STAR || is_ws(bytes[i + 1]))
    &&& match previous_significant(bytes, i) {
        None => true,
        Some(p) => is_regex_prefix_punct(p) || previous_word_is_regex_keyword(bytes, i),
    }
}

fn previous_significant_byte(bytes: &[u8], index: usize) -> (r: Option<u8>)
    requires
        index <= bytes.len(),
    ensures
        r == previous_significant(bytes@, index as int),
{
    let mut cursor = index;
    while cursor > 0
        invariant
            cursor <= index <= bytes.len(),
            previous_significant(bytes@, index as int) == previous_significant(
                bytes@,
                cursor as int,
            ),
        decreases cursor,
    {
        cursor = cursor - 1;
        let byte = bytes[cursor];
        if !ws(byte) {
            return Some(byte);
        }
    }
    None
}

/// The range of the word before `index` (whitespace between skipped), if there is one.
fn previous_keyword(bytes: &[u8], index: usize) -> (r: Option<(usize, usize)>)
    requires
        index <= bytes.len(),
    ensures
        ({
            let end = skip_ws_back(bytes@, index as int);
            let start = skip_word_back(bytes@, end);
            match r {
                Some((s, e)) => s as int == start && e as int == end && start != end,
                None => start == end,
            }
        }),
        r matches Some((s, e)) ==> s <= e <= bytes.len(),
{
    let mut end = index;
    while end > 0 && ws(bytes[end - 1])
        invariant
            end <= index <= bytes.len(),
            skip_ws_back(bytes@, index as int) == skip_ws_back(bytes@, end as int),
        decreases end,
    {
        end = end - 1;
    }
    let mut start = end;
    while start > 0 && word_byte(bytes[start - 1])
        invariant
            start <= end <= bytes.len(),
            skip_word_back(bytes@, end as int) == skip_word_back(bytes@, start as int),
        decreases start,
    {
        start = start - 1;
    }
    if start == end {
        return None;
    }
    Some((start, end))
}

fn range_equals(bytes: &[u8], start: usize, end: usize, word: &[u8]) -> (r: bool)
    requires
        start <= end <= bytes.len(),
    ensures
        r == (bytes@.subrange(start as int, end as int) == word@),
{
    if end - start != word.len() {
        return false;
    }
    let r = starts_with(bytes, start, word);
    assert(r == (bytes@.subrange(start as int, end as int) =~= word@));
    r
}

fn is_regex_keyword_range(bytes: &[u8], start: usize, end: usize) -> (r: bool)
    requires
        start <= end <= bytes.len(),
    ensures
        r == is_regex_keyword(bytes@.subrange(start as int, end as int)),
{
    let w_return: &[u8] = &[114u8, 101u8, 116u8, 117u8, 114u8, 110u8];
    let w_case: &[u8] = &[99u8, 97u8, 115u8, 101u8];
    let w_throw: &[u8] = &[116u8, 104u8, 114u8, 111u8, 119u8];
    let w_in: &[u8] = &[105u8, 110u8];
    let w_of: &[u8] = &[111u8, 102u8];
    assert(w_return@ == seq![114u8, 101u8, 116u8, 117u8, 114u8, 110u8]);
    assert(w_case@ == seq![99u8, 97u8, 115u8, 101u8]);
    assert(w_throw@ == seq![116u8, 104u8, 114u8, 111u8, 119u8]);
    assert(w_in@ == seq![105u8, 110u8]);
    assert(w_of@ == seq![111u8, 102u8]);
    range_equals(bytes, start, end, w_return) || range_equals(bytes, start, end, w_case)
        || range_equals(bytes, start, end, w_throw) || range_equals(bytes, start, end, w_in)
        || range_equals(bytes, start, end, w_of)
}

fn is_regex_start(bytes: &[u8], index: usize, syntax: CommentSyntax) -> (r: bool)
    requires
        index < bytes.len(),
    ensures
        r == regex_start_at(bytes@, index as int, syntax),
{
    if !syntax.supports_regex_literals || bytes[index] != SLASH {
        return false;
    }
    if index + 1 >= bytes.len() {
        return false;
    }
    let next = bytes[index + 1];
    if next == SLASH || next == STAR || ws(next) {
        return false;
    }
    match previous_significant_byte(bytes, index) {
        None => true,
        Some(ch) => {
            if regex_prefix_punct(ch) {
                true
            } else {
                match previous_keyword(bytes, index) {
                    Some((start, end)) => is_regex_keyword_range(bytes, start, end),
                    None => false,
                }
            }
        },
    }
}

// ---------------------------------------------------------------------------------------
// The transition function
// ---------------------------------------------------------------------------------------
/// One step of the scanner: the next state, position and line, and the comment the step
/// completes.
pub type Step = (ScanState, int, int, Option<CommentMatch>);

pub open spec fn step_code(bytes: Seq<u8>, syntax: CommentSyntax, i: int, line: int) -> Step {
    if bytes[i] == NEWLINE {
        (ScanState::Code, i + 1, line + 1, None)
    } else if let Some(h) = raw_string_start(bytes, i, syntax.language) {
        (ScanState::RustRawString { hashes: h as usize }, i + h + 2, line, None)
    } else if let Some((h, multiline, len)) = swift_string_start(bytes, i, syntax.language) {
        (
            ScanState::SwiftString { hashes: h as usize, multiline, escape: false },
            i + len,
            line,
            None,
        )
    } else if let Some((marker, kind)) = comment_start_at(bytes, i, syntax) {
        match kind {
            CommentKind::Line => {
                let end = line_end(bytes, i);
                (
                    ScanState::Code,
                    end,
                    line,
                    Some(
                        CommentMatch {
                            kind: CommentKind::Line,
                            start_line: line as usize,
                            end_line: line as usize,
                            start_byte: i as usize,
                            end_byte: end as usize,
                        },
                    ),
                )
            },
            CommentKind::Block => {
                let (start_marker, end_marker) = syntax.block_marker.unwrap();
                (
                    ScanState::BlockComment {
                        start_byte: i as usize,
                        start_line: line as usize,
                        start_marker,
                        end_marker,
                        depth: 1,
                        allow_nesting: syntax.language == Language::Swift,
                    },
                    i + marker.spec_bytes().len(),
                    line,
                    None,
                )
            },
        }
    } else if regex_start_at(bytes, i, syntax) {
        (ScanState::Regex { escape: false, in_char_class: false }, i + 1, line, None)
    } else if string_start_at(bytes, i, syntax) {
        (ScanState::String { quote: bytes[i], escape: false }, i + 1, line, None)
    } else {
        (ScanState::Code, i + 1, line, None)
    }
}

pub open spec fn step_string(bytes: Seq<u8>, quote: u8, escape: bool, i: int, line: int) -> Step {
    let c = bytes[i];
    if c == NEWLINE {
        (
            if quote != BACKTICK {
                ScanState::Code
            } else {
                ScanState::String { quote, escape }
            },
            i + 1,
            line + 1,
            None,
        )
    } else if escape {
        (ScanState::String { quote, escape: false }, i + 1, line, None)
    } else if c == BACKSLASH {
        (ScanState::String { quote, escape: true }, i + 1, line, None)
    } else if c == quote {
        (ScanState::Code, i + 1, line, None)
    } else {
        (ScanState::String { quote, escape }, i + 1, line, None)
    }
}

pub open spec fn step_regex(bytes: Seq<u8>, escape: bool, in_char_class: bool, i: int, line: int) -> Step {
    let c = bytes[i];
    if c == NEWLINE {
        (ScanState::Code, i + 1, line + 1, None)
    } else if escape {
        (ScanState::Regex { escape: false, in_char_class }, i + 1, line, None)
    } else if c == BACKSLASH {
        (ScanState::Regex { escape: true, in_char_class }, i + 1, line, None)
    } else if c == OPEN_BRACKET {
        (ScanState::Regex { escape: false, in_char_class: true }, i + 1, line, None)
    } else if c == CLOSE_BRACKET {
        (ScanState::Regex { escape: false, in_char_class: false }, i + 1, line, None)
    } else if c == SLASH && !in_char_class {
        (ScanState::Code, i + 1, line, None)
    } else {
        (ScanState::Regex { escape: false, in_char_class }, i + 1, line, None)
    }
}

pub open spec fn step_block(
    bytes: Seq<u8>,
    state: ScanState,
    start_byte: usize,
    start_line: usize,
    start_marker: &'static str,
    end_marker: &'static str,
    depth: usize,
    allow_nesting: bool,
    i: int,
    line: int,
) -> Step {
    if bytes[i] == NEWLINE {
        (state, i + 1, line + 1, None)
    } else if allow_nesting && starts_with_at(bytes, i, start_marker.spec_bytes()) {
        (
            ScanState::BlockComment {
                start_byte,
                start_line,
                start_marker,
                end_marker,
                depth: (depth + 1) as usize,
                allow_nesting,
            },
            i + start_marker.spec_bytes().len(),
            line,
            None,
        )
    } else if starts_with_at(bytes, i, end_marker.spec_bytes()) {
        let end = i + end_marker.spec_bytes().len();
        if depth - 1 == 0 {
            (
                ScanState::Code,
                end,
                line,
                Some(
                    CommentMatch {
                        kind: CommentKind::Block,
                        start_line,
                        end_line: line as usize,
                        start_byte,
                        end_byte: end as usize,
                    },
                ),
            )
        } else {
            (
                ScanState::BlockComment {
                    start_byte,
                    start_line,
                    start_marker,
                    end_marker,
                    depth: (depth - 1) as usize,
                    allow_nesting,
                },
                end,
                line,
                None,
            )
        }
    } else {
        (state, i + 1, line, None)
    }
}

pub open spec fn step_raw(bytes: Seq<u8>, state: ScanState, hashes: usize, i: int, line: int) -> Step {
    if bytes[i] == NEWLINE {
        (state, i + 1, line + 1, None)
    } else if bytes[i] == DOUBLE_QUOTE && raw_string_end(bytes, i, hashes as int) {
        (ScanState::Code, i + hashes + 1, line, None)
    } else {
        (state, i + 1, line, None)
    }
}

pub open spec fn step_swift(
    bytes: Seq<u8>,
    state: ScanState,
    hashes: usize,
    multiline: bool,
    escape: bool,
    i: int,
    line: int,
) -> Step {
    let c = bytes[i];
    if c == NEWLINE {
        (
            if !multiline {
                ScanState::Code
            } else {
                state
            },
            i + 1,
            line + 1,
            None,
        )
    } else if multiline {
        if swift_string_closes(bytes, i, hashes as int, true) {
            (ScanState::Code, i + 3 + hashes, line, None)
        } else {
            (state, i + 1, line, None)
        }
    } else if hashes == 0 && escape {
        (ScanState::SwiftString { hashes, multiline, escape: false }, i + 1, line, None)
    } else if hashes == 0 && c == BACKSLASH {
        (ScanState::SwiftString { hashes, multiline, escape: true }, i + 1, line, None)
    } else if swift_string_closes(bytes, i, hashes as int, false) {
        (ScanState::Code, i + 1 + hashes, line, None)
    } else {
        (ScanState::SwiftString { hashes, multiline, escape }, i + 1, line, None)
    }
}

/// One step of the scanner from `state` at position `i` (which must be inside the input),
/// with `line` the current line number.
pub open spec fn step(bytes: Seq<u8>, syntax: CommentSyntax, state: ScanState, i: int, line: int) -> Step {
    match state {
        ScanState::Code => step_code(bytes, syntax, i, line),
        ScanState::String { quote, escape } => step_string(bytes, quote, escape, i, line),
        ScanState::Regex { escape, in_char_class } => step_regex(
            bytes,
            escape,
            in_char_class,
            i,
            line,
        ),
        ScanState::BlockComment {
            start_byte,
            start_line,
            start_marker,
            end_marker,
            depth,
            allow_nesting,
        } => step_block(
            bytes,
            state,
            start_byte,
            start_line,
            start_marker,
            end_marker,
            depth,
            allow_nesting,
            i,
            line,
        ),
        ScanState::RustRawString { hashes } => step_raw(bytes, state, hashes, i, line),
        ScanState::SwiftString { hashes, multiline, escape } => step_swift(
            bytes,
            state,
            hashes,
            multiline,
            escape,
            i,
            line,
        ),
    }
}

/// A measure that every step decreases: twice the bytes left, plus a rank for the steps
/// that do not move. In code the rank is one when the block start marker is empty (the step
/// into a block comment does not move then); in a block comment whose end marker is empty
/// it is the nesting depth (each step out of one level does not move then).
pub open spec fn measure(len: int, syntax: CommentSyntax, state: ScanState, i: int) -> int {
    2 * (len - i) + match state {
        ScanState::Code => if syntax.block_marker matches Some((start, _)) && start.spec_bytes().len() == 0 {
            1int
        } else {
            0int
        },
        ScanState::BlockComment { end_marker, depth, .. } => if end_marker.spec_bytes().len() == 0 {
            depth as int
        } else {
            0int
        },
        _ => 0int,
    }
}

/// The comments that the scanner completes when it runs from `state` at position `i`, with
/// `line` the current line number, to the end of the input.
pub open spec fn scan(bytes: Seq<u8>, syntax: CommentSyntax, state: ScanState, i: int, line: int) -> Seq<
    CommentMatch,
>
    decreases measure(bytes.len() as int, syntax, state, i),
{
    if i < 0 || i >= bytes.len() {
        seq![]
    } else {
        let s = step(bytes, syntax, state, i, line);
        let rest = if s.1 <= bytes.len() && 0 <= measure(bytes.len() as int, syntax, s.0, s.1)
            < measure(bytes.len() as int, syntax, state, i) {
            scan(bytes, syntax, s.0, s.1, s.2)
        } else {
            seq![]
        };
        match s.3 {
            Some(c) => seq![c] + rest,
            None => rest,
        }
    }
}

/// The comments in a text, in the order in which they end: the scanner run from the start
/// of the input, in code, on line 1.
pub open spec fn comments_in(bytes: Seq<u8>, syntax: CommentSyntax) -> Seq<CommentMatch> {
    scan(bytes, syntax, ScanState::Code, 0, 1)
}

// ---------------------------------------------------------------------------------------
// Executable steps
// ---------------------------------------------------------------------------------------
pub type ExecStep = (ScanState, usize, usize, Option<CommentMatch>);

pub open spec fn same_step(r: ExecStep, s: Step) -> bool {
    r.0 == s.0 && r.1 as int == s.1 && r.2 as int == s.2 && r.3 == s.3
}

/// What the scanner keeps true of its state: a block comment carries the syntax's markers,
/// nests exactly for Swift, and has a depth of at least one that fits below the position.
pub open spec fn state_ok(syntax: CommentSyntax, state: ScanState, i: int) -> bool {
    match state {
        ScanState::BlockComment {
            start_byte,
            start_line,
            start_marker,
            end_marker,
            depth,
            allow_nesting,
        } => {
            &&& syntax.block_marker == Some((start_marker, end_marker))
            &&& allow_nesting == (syntax.language == Language::Swift)
            &&& 1 <= depth <= i + 1
            &&& allow_nesting ==> depth <= i
        },
        _ => true,
    }
}

fn exec_step_code(bytes: &[u8], syntax: CommentSyntax, index: usize, line: usize) -> (r: ExecStep)
    requires
        index < bytes.len(),
        bytes.len() < usize::MAX,
        line <= index + 1,
    ensures
        same_step(r, step_code(bytes@, syntax, index as int, line as int)),
{
    if bytes[index] == NEWLINE {
        return (ScanState::Code, index + 1, line + 1, None);
    }
    if let Some(hashes) = detect_rust_raw_string(bytes, index, syntax.language) {
        return (ScanState::RustRawString { hashes }, index + hashes + 2, line, None);
    }
    if let Some((hashes, multiline, start_len)) = detect_swift_string_start(
        bytes,
        index,
        syntax.language,
    ) {
        return (
            ScanState::SwiftString { hashes, multiline, escape: false },
            index + start_len,
            line,
            None,
        );
    }
    if let Some((marker, kind)) = detect_comment_start(bytes, index, syntax) {
        match kind {
            CommentKind::Line => {
                let end = line_comment_end(bytes, index);
                return (
                    ScanState::Code,
                    end,
                    line,
                    Some(
                        CommentMatch {
                            kind,
                            start_line: line,
                            end_line: line,
                            start_byte: index,
                            end_byte: end,
                        },
                    ),
                );
            },
            CommentKind::Block => {
                match syntax.block_marker {
                    Some((start_marker, end_marker)) => {
                        return (
                            ScanState::BlockComment {
                                start_byte: index,
                                start_line: line,
                                start_marker,
                                end_marker,
                                depth: 1,
                                allow_nesting: syntax.language == Language::Swift,
                            },
                            index + marker.len(),
                            line,
                            None,
                        );
                    },
                    None => {
                        assert(false);
                        return (ScanState::Code, index + 1, line, None);
                    },
                }
            },
        }
    }
    if is_regex_start(bytes, index, syntax) {
        return (ScanState::Regex { escape: false, in_char_class: false }, index + 1, line, None);
    }
    if is_string_start(bytes, index, syntax) {
        return (ScanState::String { quote: bytes[index], escape: false }, index + 1, line, None);
    }
    (ScanState::Code, index + 1, line, None)
}

fn exec_step_string(bytes: &[u8], state: ScanState, quote: u8, escape: bool, index: usize, line: usize) -> (r: ExecStep)
    requires
        index < bytes.len(),
        bytes.len() < usize::MAX,
        line <= index + 1,
        state == (ScanState::String { quote, escape }),
    ensures
        same_step(r, step_string(bytes@, quote, escape, index as int, line as int)),
{
    let current = bytes[index];
    if current == NEWLINE {
        let next = if quote != BACKTICK {
            ScanState::Code
        } else {
            state
        };
        return (next, index + 1, line + 1, None);
    }
    if escape {
        return (ScanState::String { quote, escape: false }, index + 1, line, None);
    }
    if current == BACKSLASH {
        return (ScanState::String { quote, escape: true }, index + 1, line, None);
    }
    if current == quote {
        return (ScanState::Code, index + 1, line, None);
    }
    (state, index + 1, line, None)
}

fn exec_step_regex(bytes: &[u8], escape: bool, in_char_class: bool, index: usize, line: usize) -> (r: ExecStep)
    requires
        index < bytes.len(),
        bytes.len() < usize::MAX,
        line <= index + 1,
    ensures
        same_step(r, step_regex(bytes@, escape, in_char_class, index as int, line as int)),
{
    let current = bytes[index];
    if current == NEWLINE {
        return (ScanState::Code, index + 1, line + 1, None);
    }
    if escape {
        return (ScanState::Regex { escape: false, in_char_class }, index + 1, line, None);
    }
    let mut escape = escape;
    let mut in_char_class = in_char_class;
    if current == BACKSLASH {
        escape = true;
    } else if current == OPEN_BRACKET {
        in_char_class = true;
    } else if current == CLOSE_BRACKET {
        in_char_class = false;
    } else if current == SLASH && !in_char_class {
        return (ScanState::Code, index + 1, line, None);
    }
    (ScanState::Regex { escape, in_char_class }, index + 1, line, None)
}

fn exec_step_block(
    bytes: &[u8],
    syntax: CommentSyntax,
    state: ScanState,
    start_byte: usize,
    start_line: usize,
    start_marker: &'static str,
    end_marker: &'static str,
    depth: usize,
    allow_nesting: bool,
    index: usize,
    line: usize,
) -> (r: ExecStep)
    requires
        index < bytes.len(),
        bytes.len() < usize::MAX,
        line <= index + 1,
        state == (ScanState::BlockComment {
            start_byte,
            start_line,
            start_marker,
            end_marker,
            depth,
            allow_nesting,
        }),
        state_ok(syntax, state, index as int),
        syntax.scannable(),
    ensures
        same_step(
            r,
            step_block(
                bytes@,
                state,
                start_byte,
                start_line,
                start_marker,
                end_marker,
                depth,
                allow_nesting,
                index as int,
                line as int,
            ),
        ),
{
    if bytes[index] == NEWLINE {
        return (state, index + 1, line + 1, None);
    }
    if allow_nesting && starts_with(bytes, index, start_marker.as_bytes()) {
        return (
            ScanState::BlockComment {
                start_byte,
                start_line,
                start_marker,
                end_marker,
                depth: depth + 1,
                allow_nesting,
            },
            index + start_marker.len(),
            line,
            None,
        );
    }
    if starts_with(bytes, index, end_marker.as_bytes()) {
        let end = index + end_marker.len();
        let depth = depth - 1;
        if depth == 0 {
            return (
                ScanState::Code,
                end,
                line,
                Some(
                    CommentMatch {
                        kind: CommentKind::Block,
                        start_line,
                        end_line: line,
                        start_byte,
                        end_byte: end,
                    },
                ),
            );
        } else {
            return (
                ScanState::BlockComment {
                    start_byte,
                    start_line,
                    start_marker,
                    end_marker,
                    depth,
                    allow_nesting,
                },
                end,
                line,
                None,
            );
        }
    }
    (state, index + 1, line, None)
}

fn exec_step_raw(bytes: &[u8], state: ScanState, hashes: usize, index: usize, line: usize) -> (r: ExecStep)
    requires
        index < bytes.len(),
        bytes.len() < usize::MAX,
        line <= index + 1,
    ensures
        same_step(r, step_raw(bytes@, state, hashes, index as int, line as int)),
{
    if bytes[index] == NEWLINE {
        return (state, index + 1, line + 1, None);
    }
    if bytes[index] == DOUBLE_QUOTE && rust_raw_string_end(bytes, index, hashes) {
        return (ScanState::Code, index + hashes + 1, line, None);
    }
    (state, index + 1, line, None)
}

fn exec_step_swift(
    bytes: &[u8],
    state: ScanState,
    hashes: usize,
    multiline: bool,
    escape: bool,
    index: usize,
    line: usize,
) -> (r: ExecStep)
    requires
        index < bytes.len(),
        bytes.len() < usize::MAX,
        line <= index + 1,
    ensures
        same_step(r, step_swift(bytes@, state, hashes, multiline, escape, index as int, line as int)),
{
    let current = bytes[index];
    if current == NEWLINE {
        let next = if !multiline {
            ScanState::Code
        } else {
            state
        };
        return (next, index + 1, line + 1, None);
    }
    if multiline {
        if swift_string_end(bytes, index, hashes, true) {
            return (ScanState::Code, index + 3 + hashes, line, None);
        }
        return (state, index + 1, line, None);
    }
    if hashes == 0 {
        if escape {
            return (ScanState::SwiftString { hashes, multiline, escape: false }, index + 1, line, None);
        }
        if current == BACKSLASH {
            return (ScanState::SwiftString { hashes, multiline, escape: true }, index + 1, line, None);
        }
    }
    if swift_string_end(bytes, index, hashes, false) {
        return (ScanState::Code, index + 1 + hashes, line, None);
    }
    (ScanState::SwiftString { hashes, multiline, escape }, index + 1, line, None)
}

pub(crate) fn exec_step(bytes: &[u8], syntax: CommentSyntax, state: ScanState, index: usize, line: usize) -> (r: ExecStep)
    requires
        index < bytes.len(),
        bytes.len() < usize::MAX,
        line <= index + 1,
        state_ok(syntax, state, index as int),
        syntax.scannable(),
    ensures
        same_step(r, step(bytes@, syntax, state, index as int, line as int)),
{
    match state {
        ScanState::Code => exec_step_code(bytes, syntax, index, line),
        ScanState::String { quote, escape } => exec_step_string(bytes, state, quote, escape, index, line),
        ScanState::Regex { escape, in_char_class } => exec_step_regex(
            bytes,
            escape,
            in_char_class,
            index,
            line,
        ),
        ScanState::BlockComment {
            start_byte,
            start_line,
            start_marker,
            end_marker,
            depth,
            allow_nesting,
        } => exec_step_block(
            bytes,
            syntax,
            state,
            start_byte,
            start_line,
            start_marker,
            end_marker,
            depth,
            allow_nesting,
            index,
            line,
        ),
        ScanState::RustRawString { hashes } => exec_step_raw(bytes, state, hashes, index, line),
        ScanState::SwiftString { hashes, multiline, escape } => exec_step_swift(
            bytes,
            state,
            hashes,
            multiline,
            escape,
            index,
            line,
        ),
    }
}

// ---------------------------------------------------------------------------------------
// Progress
// ---------------------------------------------------------------------------------------
pub proof fn lemma_line_end_bounds(bytes: Seq<u8>, j: int)
    requires
        0 <= j <= bytes.len(),
    ensures
        j <= line_end(bytes, j) <= bytes.len(),
        j < bytes.len() && bytes[j] != NEWLINE ==> line_end(bytes, j) > j,
        line_end(bytes, j) < bytes.len() ==> bytes[line_end(bytes, j)] == NEWLINE,
        forall|k: int| j <= k < line_end(bytes, j) ==> bytes[k] != NEWLINE,
    decreases bytes.len() - j,
{
    if j < bytes.len() && bytes[j] != NEWLINE {
        lemma_line_end_bounds(bytes, j + 1);
    }
}

pub proof fn lemma_hash_run_bounds(bytes: Seq<u8>, j: int)
    requires
        0 <= j <= bytes.len(),
    ensures
        0 <= hash_run(bytes, j),
        j + hash_run(bytes, j) <= bytes.len(),
        forall|k: int| j <= k < j + hash_run(bytes, j) ==> bytes[k] == HASH,
        j + hash_run(bytes, j) < bytes.len() ==> bytes[j + hash_run(bytes, j)] != HASH,
    decreases bytes.len() - j,
{
    if j < bytes.len() && bytes[j] == HASH {
        lemma_hash_run_bounds(bytes, j + 1);
    }
}

/// Every step of the scanner stays inside the input, keeps its state well formed, keeps
/// the line number between one and one more than the position, and decreases [`measure`].
pub proof fn lemma_step_progress(bytes: Seq<u8>, syntax: CommentSyntax, state: ScanState, i: int, line: int)
    requires
        0 <= i < bytes.len() <= usize::MAX,
        1 <= line <= i + 1,
        syntax.scannable(),
        state_ok(syntax, state, i),
    ensures
        ({
            let s = step(bytes, syntax, state, i, line);
            &&& i <= s.1 <= bytes.len()
            &&& 1 <= s.2 <= s.1 + 1
            &&& 0 <= measure(bytes.len() as int, syntax, s.0, s.1) < measure(bytes.len() as int, syntax, state, i)
            &&& state_ok(syntax, s.0, s.1)
        }),
{
    let s = step(bytes, syntax, state, i, line);
    match state {
        ScanState::Code => {
            if bytes[i] != NEWLINE {
                if raw_string_start(bytes, i, syntax.language) is Some {
                    lemma_hash_run_bounds(bytes, i + 1);
                } else if swift_string_start(bytes, i, syntax.language) is Some {
                    lemma_hash_run_bounds(bytes, i);
                } else if comment_start_at(bytes, i, syntax) is Some {
                    lemma_line_end_bounds(bytes, i);
                }
            }
        },
        ScanState::SwiftString { hashes, multiline, escape } => {
            if bytes[i] != NEWLINE && hashes > 0 {
                if multiline {
                    assert(hash_at(bytes, i + 3 + hashes - 1) || !swift_string_closes(bytes, i, hashes as int, true));
                } else {
                    assert(hash_at(bytes, i + 1 + hashes - 1) || !swift_string_closes(bytes, i, hashes as int, false));
                }
            }
        },
        _ => {},
    }
}

} // verus!
