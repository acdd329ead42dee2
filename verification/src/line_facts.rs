//! Facts about splitting a text into lines and joining lines back into a text.
use vstd::prelude::*;

use crate::cleaner::{
    collapse, drop_trailing_empty, is_blank, join_lines, kept_lines_from, lemma_next_newline,
    lines_from, next_newline, non_blank, strip_cr, text_lines,
};

verus! {

broadcast use vstd::seq_lib::group_seq_properties;

/// A line that holds neither a newline nor a carriage return.
pub open spec fn no_breaks(l: Seq<char>) -> bool {
    forall|i: int| 0 <= i < l.len() ==> #[trigger] l[i] != '\n' && l[i] != '\r'
}

/// Every line of `ls` holds neither a newline nor a carriage return.
pub open spec fn all_no_breaks(ls: Seq<Seq<char>>) -> bool {
    forall|k: int| 0 <= k < ls.len() ==> no_breaks(#[trigger] ls[k])
}

/// Between `j` and the next newline there is no newline.
pub proof fn lemma_before_newline(s: Seq<char>, j: int)
    requires
        0 <= j <= s.len(),
    ensures
        forall|m: int| j <= m < next_newline(s, j) ==> #[trigger] s[m] != '\n',
    decreases s.len() - j,
{
    if j < s.len() && s[j] != '\n' {
        lemma_before_newline(s, j + 1);
    }
}

/// Skipping characters that are not newlines does not change where the next newline is.
pub proof fn lemma_skip_to(s: Seq<char>, j: int, e: int)
    requires
        0 <= j <= e <= s.len(),
        forall|m: int| j <= m < e ==> #[trigger] s[m] != '\n',
    ensures
        next_newline(s, j) == next_newline(s, e),
    decreases e - j,
{
    if j < e {
        lemma_skip_to(s, j + 1, e);
    }
}

/// The lines kept from a text without carriage returns hold neither newlines nor carriage
/// returns.
pub proof fn lemma_kept_lines_no_breaks(s: Seq<char>, j: int, cuts: Seq<int>)
    requires
        !s.contains('\r'),
    ensures
        all_no_breaks(kept_lines_from(s, j, cuts)),
    decreases s.len() - j,
{
    if 0 <= j < s.len() {
        let e = next_newline(s, j);
        lemma_next_newline(s, j);
        lemma_before_newline(s, j);
        let piece = s.subrange(j, e);
        assert forall|i: int| 0 <= i < piece.len() implies #[trigger] piece[i] != '\n' && piece[i]
            != '\r' by {
            assert(piece[i] == s[j + i]);
            if s[j + i] == '\r' {
                assert(s.contains('\r'));
            }
        }
        let l = strip_cr(piece);
        assert(no_breaks(l)) by {
            assert forall|i: int| 0 <= i < l.len() implies #[trigger] l[i] != '\n' && l[i]
                != '\r' by {
                assert(l[i] == piece[i]);
            }
        }
        if e < s.len() {
            lemma_kept_lines_no_breaks(s, e + 1, cuts);
            let rest = kept_lines_from(s, e + 1, cuts);
            let ks = kept_lines_from(s, j, cuts);
            assert forall|k: int| 0 <= k < ks.len() implies no_breaks(#[trigger] ks[k]) by {
                if ks.len() > rest.len() && k == 0 {
                    assert(ks[0] == l);
                } else if ks.len() > rest.len() {
                    assert(ks[k] == rest[k - 1]);
                } else {
                    assert(ks[k] == rest[k]);
                }
            }
        } else {
            assert(l == piece);
        }
    }
}

/// The lines that are dropped for a cut are blank: the non-blank lines are all kept.
pub proof fn lemma_kept_non_blank(s: Seq<char>, j: int, cuts: Seq<int>)
    ensures
        kept_lines_from(s, j, cuts).filter(|x: Seq<char>| non_blank(x)) == lines_from(s, j).filter(
            |x: Seq<char>| non_blank(x),
        ),
    decreases s.len() - j,
{
    broadcast use Seq::filter_distributes_over_add;

    let f = |x: Seq<char>| non_blank(x);
    if 0 <= j < s.len() {
        let e = next_newline(s, j);
        lemma_next_newline(s, j);
        if e < s.len() {
            lemma_kept_non_blank(s, e + 1, cuts);
            let l = strip_cr(s.subrange(j, e));
            let head: Seq<Seq<char>> = if is_blank(l) && crate::cleaner::cut_in(cuts, j, e) {
                seq![]
            } else {
                seq![l]
            };
            reveal_with_fuel(Seq::<_>::filter, 2);
            assert(seq![l].drop_last() =~= Seq::<Seq<char>>::empty());
            assert(head.filter(f) == seq![l].filter(f));
            assert(kept_lines_from(s, j, cuts) == head + kept_lines_from(s, e + 1, cuts));
            assert(lines_from(s, j) == seq![l] + lines_from(s, e + 1));
        } else {
            reveal_with_fuel(Seq::<_>::filter, 2);
            let l = s.subrange(j, s.len() as int);
            assert(seq![l].drop_last() =~= Seq::<Seq<char>>::empty());
        }
    } else {
        reveal_with_fuel(Seq::<_>::filter, 1);
    }
}

/// Collapsing keeps lines without breaks free of them.
pub proof fn lemma_collapse_no_breaks(ls: Seq<Seq<char>>, prev_blank: bool, started: bool)
    requires
        all_no_breaks(ls),
    ensures
        all_no_breaks(collapse(ls, prev_blank, started)),
    decreases ls.len(),
{
    if ls.len() > 0 {
        let rest = ls.drop_first();
        assert(all_no_breaks(rest)) by {
            assert forall|k: int| 0 <= k < rest.len() implies no_breaks(#[trigger] rest[k]) by {
                assert(rest[k] == ls[k + 1]);
            }
        }
        assert(no_breaks(ls[0]));
        assert(no_breaks(Seq::<char>::empty()));
        if is_blank(ls[0]) {
            lemma_collapse_no_breaks(rest, true, started);
        } else {
            lemma_collapse_no_breaks(rest, false, true);
        }
        let o = collapse(ls, prev_blank, started);
        let r = if is_blank(ls[0]) {
            collapse(rest, true, started)
        } else {
            collapse(rest, false, true)
        };
        let h = (o.len() - r.len()) as int;
        assert(o == o.take(h) + r);
        assert forall|k: int| 0 <= k < o.len() implies no_breaks(#[trigger] o[k]) by {
            if k >= h {
                assert(o[k] == r[k - h]);
            }
        }
    }
}

/// Collapsing changes nothing in lines that are already collapsed: each line empty or not
/// blank, no two empty lines in a row, and an empty line only after a non-blank one.
pub proof fn lemma_collapse_fixpoint(ls: Seq<Seq<char>>, prev_blank: bool, started: bool)
    requires
        forall|k: int| 0 <= k < ls.len() ==> (#[trigger] ls[k]).len() == 0 || non_blank(ls[k]),
        forall|k: int| 0 <= k < ls.len() - 1 ==> !((#[trigger] ls[k]).len() == 0 && ls[k + 1].len() == 0),
        ls.len() > 0 && ls[0].len() == 0 ==> started && !prev_blank,
    ensures
        collapse(ls, prev_blank, started) == ls,
    decreases ls.len(),
{
    if ls.len() > 0 {
        let rest = ls.drop_first();
        assert forall|k: int| 0 <= k < rest.len() implies (#[trigger] rest[k]).len() == 0
            || non_blank(rest[k]) by {
            assert(rest[k] == ls[k + 1]);
        }
        assert forall|k: int| 0 <= k < rest.len() - 1 implies !((#[trigger] rest[k]).len() == 0
            && rest[k + 1].len() == 0) by {
            assert(rest[k] == ls[k + 1]);
            assert(rest[k + 1] == ls[k + 2]);
        }
        if rest.len() > 0 {
            assert(rest[0] == ls[1]);
        }
        if is_blank(ls[0]) {
            assert(ls[0].len() == 0);
            lemma_collapse_fixpoint(rest, true, started);
            assert(ls[0] =~= Seq::<char>::empty());
        } else {
            lemma_collapse_fixpoint(rest, false, true);
        }
        assert(ls =~= seq![ls[0]] + rest);
    }
}

/// The lines joined, taken apart at the first line.
pub proof fn lemma_join_front(ls: Seq<Seq<char>>)
    requires
        ls.len() >= 2,
    ensures
        join_lines(ls) == ls[0] + seq!['\n'] + join_lines(ls.drop_first()),
    decreases ls.len(),
{
    let rest = ls.drop_first();
    if ls.len() == 2 {
        assert(ls.drop_last() =~= seq![ls[0]]);
        assert(rest =~= seq![ls[1]]);
        assert(join_lines(seq![ls[0]]) == ls[0]);
        assert(join_lines(seq![ls[1]]) == ls[1]);
        assert(join_lines(ls) == join_lines(ls.drop_last()) + seq!['\n'] + ls.last());
    } else {
        let d = ls.drop_last();
        lemma_join_front(d);
        assert(d.drop_first() =~= rest.drop_last());
        assert(rest.last() == ls.last());
        assert(d[0] == ls[0]);
        assert(join_lines(ls) == join_lines(d) + seq!['\n'] + ls.last());
        assert(join_lines(rest) == join_lines(rest.drop_last()) + seq!['\n'] + rest.last());
        assert(join_lines(ls) =~= ls[0] + seq!['\n'] + join_lines(rest));
    }
}

/// The last character of joined lines is the last character of the last line.
pub proof fn lemma_join_last(ls: Seq<Seq<char>>)
    requires
        ls.len() > 0,
        ls.last().len() > 0,
    ensures
        join_lines(ls).len() > 0,
        join_lines(ls).last() == ls.last().last(),
{
}

/// The lines of a text that begins with some text `p` are, from any position past `p`, the
/// lines of the rest.
pub proof fn lemma_lines_shift(p: Seq<char>, t: Seq<char>, j: int)
    requires
        0 <= j <= t.len(),
    ensures
        next_newline(p + t, p.len() + j) == p.len() + next_newline(t, j),
        lines_from(p + t, p.len() + j) == lines_from(t, j),
    decreases t.len() - j,
{
    let s = p + t;
    if j < t.len() {
        assert(s[p.len() + j] == t[j]);
        if t[j] != '\n' {
            lemma_lines_shift(p, t, j + 1);
        }
        let e = next_newline(t, j);
        lemma_next_newline(t, j);
        if e < t.len() {
            lemma_lines_shift(p, t, e + 1);
            assert(s.subrange(p.len() + j, p.len() + e) =~= t.subrange(j, e));
        } else {
            assert(s.subrange(p.len() + j, s.len() as int) =~= t.subrange(j, t.len() as int));
        }
    }
}

/// Lines without breaks, joined with newlines and ended with one, split back into the same
/// lines; without the final newline too, where the last line is not empty.
pub proof fn lemma_lines_of_join(ls: Seq<Seq<char>>)
    requires
        ls.len() > 0,
        all_no_breaks(ls),
    ensures
        text_lines(join_lines(ls) + seq!['\n']) == ls,
        ls.last().len() > 0 ==> text_lines(join_lines(ls)) == ls,
    decreases ls.len(),
{
    let l0 = ls[0];
    assert(no_breaks(l0));
    assert(strip_cr(l0) == l0) by {
        if l0.len() > 0 {
            assert(l0[l0.len() - 1] != '\r');
        }
    }
    if ls.len() == 1 {
        assert(join_lines(ls) == l0);
        let s = l0 + seq!['\n'];
        lemma_skip_to(s, 0, l0.len() as int);
        assert(s.subrange(0, l0.len() as int) =~= l0);
        assert(lines_from(s, l0.len() + 1int) =~= Seq::<Seq<char>>::empty());
        assert(text_lines(s) =~= seq![l0]);
        if l0.len() > 0 {
            lemma_skip_to(l0, 0, l0.len() as int);
            assert(l0.subrange(0, l0.len() as int) =~= l0);
            assert(text_lines(l0) =~= seq![l0]);
        }
    } else {
        let rest = ls.drop_first();
        assert(all_no_breaks(rest)) by {
            assert forall|k: int| 0 <= k < rest.len() implies no_breaks(#[trigger] rest[k]) by {
                assert(rest[k] == ls[k + 1]);
            }
        }
        lemma_lines_of_join(rest);
        lemma_join_front(ls);
        let p = l0 + seq!['\n'];
        let x1 = join_lines(rest) + seq!['\n'];
        let x2 = join_lines(rest);
        // With the final newline.
        let s1 = join_lines(ls) + seq!['\n'];
        assert(s1 =~= p + x1);
        lemma_skip_to(s1, 0, l0.len() as int);
        assert(s1[l0.len() as int] == '\n');
        assert(s1.subrange(0, l0.len() as int) =~= l0);
        lemma_lines_shift(p, x1, 0);
        assert(text_lines(s1) == seq![l0] + rest);
        assert(seq![l0] + rest =~= ls);
        // Without it.
        let s2 = join_lines(ls);
        assert(s2 =~= p + x2);
        lemma_skip_to(s2, 0, l0.len() as int);
        assert(s2[l0.len() as int] == '\n');
        assert(s2.subrange(0, l0.len() as int) =~= l0);
        lemma_lines_shift(p, x2, 0);
        if ls.last().len() > 0 {
            assert(rest.last() == ls.last());
            assert(text_lines(s2) == seq![l0] + rest);
        }
    }
}

/// A final newline added to a text without carriage returns that does not end with one
/// changes none of its lines.
pub proof fn lemma_lines_add_newline(t: Seq<char>, j: int)
    requires
        !t.contains('\r'),
        t.len() > 0,
        t.last() != '\n',
        0 <= j < t.len(),
    ensures
        lines_from(t + seq!['\n'], j) == lines_from(t, j),
    decreases t.len() - j,
{
    let s = t + seq!['\n'];
    let e = next_newline(t, j);
    lemma_next_newline(t, j);
    lemma_before_newline(t, j);
    assert forall|m: int| j <= m < e implies #[trigger] s[m] != '\n' by {
        assert(s[m] == t[m]);
    }
    lemma_skip_to(s, j, e);
    if e < t.len() {
        assert(s[e] == '\n');
        assert(e < t.len() - 1);
        lemma_lines_add_newline(t, e + 1);
        assert(s.subrange(j, e) =~= t.subrange(j, e));
    } else {
        assert(s[e] == '\n');
        let piece = s.subrange(j, e);
        assert(piece =~= t.subrange(j, t.len() as int));
        assert(strip_cr(piece) == piece) by {
            if t[t.len() - 1] == '\r' {
                assert(t.contains('\r'));
            }
        }
        assert(lines_from(s, e + 1) =~= Seq::<Seq<char>>::empty());
    }
}

/// Collapsing lines that have no breaks and then dropping the trailing empty ones leaves
/// lines without breaks.
pub proof fn lemma_tidy_no_breaks(ls: Seq<Seq<char>>)
    requires
        all_no_breaks(ls),
    ensures
        all_no_breaks(drop_trailing_empty(collapse(ls, false, false))),
{
    lemma_collapse_no_breaks(ls, false, false);
    let o = collapse(ls, false, false);
    crate::cleaner::lemma_drop_trailing_empty(o);
    let d = drop_trailing_empty(o);
    assert forall|k: int| 0 <= k < d.len() implies no_breaks(#[trigger] d[k]) by {
        assert(d[k] == o[k]);
    }
}

} // verus!
