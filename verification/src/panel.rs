//! The panel's order: the one order every listing of a project is drawn in.
use std::cmp::Ordering;

use vstd::prelude::*;

use crate::path::{below, char_below, lemma_char_below_total, lemma_joined_pieces, same_text, nth, pieces, rest_of, split_slash, texts};

verus! {

/// Two segments compared character by character, by code point.
pub open spec fn lexical(a: Seq<char>, b: Seq<char>) -> Ordering
    decreases a.len(),
{
    if a.len() == 0 {
        if b.len() == 0 {
            Ordering::Equal
        } else {
            Ordering::Less
        }
    } else if b.len() == 0 {
        Ordering::Greater
    } else if a[0] == b[0] {
        lexical(a.drop_first(), b.drop_first())
    } else if char_below(a[0], b[0]) {
        Ordering::Less
    } else {
        Ordering::Greater
    }
}

/// Two paths' segments, compared from the first: at the first place they
/// differ, a path with nothing left after its segment is a file *in this
/// directory* and sorts before one that still has segments to go; otherwise the
/// segments compare as [`lexical`] says.
pub open spec fn segment_order(l: Seq<Seq<char>>, r: Seq<Seq<char>>) -> Ordering
    decreases l.len(),
{
    if l.len() == 0 {
        if r.len() == 0 {
            Ordering::Equal
        } else {
            Ordering::Less
        }
    } else if r.len() == 0 {
        Ordering::Greater
    } else {
        let last_l = l.len() == 1;
        let last_r = r.len() == 1;
        if l[0] == r[0] && last_l == last_r {
            segment_order(l.drop_first(), r.drop_first())
        } else if last_l && !last_r {
            Ordering::Less
        } else if !last_l && last_r {
            Ordering::Greater
        } else {
            lexical(l[0], r[0])
        }
    }
}

/// The panel's order on two paths.
pub open spec fn panel_order(left: Seq<char>, right: Seq<char>) -> Ordering {
    segment_order(pieces(left), pieces(right))
}

/// `Less` one way is `Greater` the other, and `Equal` is equality.
pub proof fn lemma_lexical_flips(a: Seq<char>, b: Seq<char>)
    ensures
        (lexical(a, b) == Ordering::Less) == (lexical(b, a) == Ordering::Greater),
        (lexical(a, b) == Ordering::Equal) == (a == b),
    decreases a.len(),
{
    if a.len() > 0 && b.len() > 0 {
        lemma_char_below_total(a[0], b[0]);
    }
    if a.len() > 0 && b.len() > 0 && a[0] == b[0] {
        lemma_lexical_flips(a.drop_first(), b.drop_first());
        if a.drop_first() == b.drop_first() {
            assert(a =~= seq![a[0]] + a.drop_first());
            assert(b =~= seq![b[0]] + b.drop_first());
        }
    } else if a.len() == 0 && b.len() == 0 {
        assert(a =~= b);
    }
}

pub proof fn lemma_lexical_transitive(a: Seq<char>, b: Seq<char>, c: Seq<char>)
    requires
        lexical(a, b) == Ordering::Less,
        lexical(b, c) == Ordering::Less,
    ensures
        lexical(a, c) == Ordering::Less,
    decreases a.len(),
{
    if a.len() > 0 && b.len() > 0 && c.len() > 0 {
        lemma_char_below_total(a[0], b[0]);
        lemma_char_below_total(b[0], c[0]);
        lemma_char_below_total(a[0], c[0]);
    }
    if a.len() > 0 && b.len() > 0 && c.len() > 0 && a[0] == b[0] && b[0] == c[0] {
        lemma_lexical_transitive(a.drop_first(), b.drop_first(), c.drop_first());
    }
}

pub proof fn lemma_segment_order_flips(l: Seq<Seq<char>>, r: Seq<Seq<char>>)
    ensures
        (segment_order(l, r) == Ordering::Less) == (segment_order(r, l) == Ordering::Greater),
        (segment_order(l, r) == Ordering::Equal) == (l == r),
    decreases l.len(),
{
    if l.len() > 0 && r.len() > 0 {
        lemma_lexical_flips(l[0], r[0]);
        let last_l = l.len() == 1;
        let last_r = r.len() == 1;
        if l[0] == r[0] && last_l == last_r {
            lemma_segment_order_flips(l.drop_first(), r.drop_first());
            if l.drop_first() == r.drop_first() {
                assert(l =~= seq![l[0]] + l.drop_first());
                assert(r =~= seq![r[0]] + r.drop_first());
            }
        }
    } else if l.len() == 0 && r.len() == 0 {
        assert(l =~= r);
    }
}

pub proof fn lemma_segment_order_transitive(a: Seq<Seq<char>>, b: Seq<Seq<char>>, c: Seq<Seq<char>>)
    requires
        segment_order(a, b) == Ordering::Less,
        segment_order(b, c) == Ordering::Less,
    ensures
        segment_order(a, c) == Ordering::Less,
    decreases a.len(),
{
    if a.len() > 0 && b.len() > 0 && c.len() > 0 {
        let (la, lb, lc) = (a.len() == 1, b.len() == 1, c.len() == 1);
        lemma_lexical_flips(a[0], b[0]);
        lemma_lexical_flips(b[0], c[0]);
        lemma_lexical_flips(a[0], c[0]);
        if la == lb && lb == lc && !(a[0] == b[0]) && !(b[0] == c[0]) {
            lemma_lexical_transitive(a[0], b[0], c[0]);
        }
        if a[0] == b[0] && la == lb && b[0] == c[0] && lb == lc {
            lemma_segment_order_transitive(a.drop_first(), b.drop_first(), c.drop_first());
        } else if la == lb && lb == lc && !(a[0] == b[0]) && !(b[0] == c[0]) {
            lemma_lexical_transitive(a[0], b[0], c[0]);
        }
    }
}

/// **The panel's order is a strict total order**: exactly one of `Less`,
/// `Equal` and `Greater` holds between two paths, `Equal` only of a path and
/// itself, the two directions agree, and `Less` is transitive. So the same
/// files are drawn in the same order however they arrive.
pub proof fn lemma_panel_order_is_total(a: Seq<char>, b: Seq<char>, c: Seq<char>)
    ensures
        (panel_order(a, b) == Ordering::Less) == (panel_order(b, a) == Ordering::Greater),
        (panel_order(a, b) == Ordering::Equal) == (a == b),
        panel_order(a, b) == Ordering::Less && panel_order(b, c) == Ordering::Less ==> panel_order(
            a,
            c,
        ) == Ordering::Less,
{
    lemma_segment_order_flips(pieces(a), pieces(b));
    lemma_joined_pieces(a);
    lemma_joined_pieces(b);
    if panel_order(a, b) == Ordering::Less && panel_order(b, c) == Ordering::Less {
        lemma_segment_order_transitive(pieces(a), pieces(b), pieces(c));
    }
}

/// Two segments compared by code point.
fn lexical_of(a: &Vec<char>, b: &Vec<char>) -> (o: Ordering)
    ensures
        o == lexical(a@, b@),
{
    let mut i: usize = 0;
    assert(rest_of(a@, i) =~= a@ && rest_of(b@, i) =~= b@);
    while i < a.len() && i < b.len()
        invariant
            i <= a.len(),
            i <= b.len(),
            lexical(a@, b@) == lexical(rest_of(a@, i), rest_of(b@, i)),
        decreases a.len() - i,
    {
        let ghost (sa, sb) = (rest_of(a@, i), rest_of(b@, i));
        if a[i] != b[i] {
            assert(sa[0] == nth(a@, i) && sb[0] == nth(b@, i));
            return if below(a[i], b[i]) {
                Ordering::Less
            } else {
                Ordering::Greater
            };
        }
        i = i + 1;
        assert(sa.drop_first() =~= rest_of(a@, i));
        assert(sb.drop_first() =~= rest_of(b@, i));
    }
    if a.len() == i {
        if b.len() == i {
            Ordering::Equal
        } else {
            Ordering::Less
        }
    } else {
        Ordering::Greater
    }
}

/// The panel's order, as a comparison, so every listing sorts by the same rule.
///
/// At the first segment the two paths differ on: a path with nothing left after
/// it is a file *in this directory* and sorts before one that still has
/// segments to go, which is a file in a subdirectory beside it. Otherwise the
/// segments are compared as bytes.
pub fn order(left: &str, right: &str) -> (o: Ordering)
    ensures
        o == panel_order(left@, right@),
{
    let lc = crate::text::chars_of(left);
    let rc = crate::text::chars_of(right);
    let l = split_slash(lc.as_slice());
    let r = split_slash(rc.as_slice());
    let mut i: usize = 0;
    assert(rest_of(texts(l@), i) =~= texts(l@) && rest_of(texts(r@), i) =~= texts(r@));
    while i < l.len() && i < r.len()
        invariant
            i <= l.len(),
            i <= r.len(),
            texts(l@) == pieces(left@),
            texts(r@) == pieces(right@),
            panel_order(left@, right@) == segment_order(
                rest_of(texts(l@), i),
                rest_of(texts(r@), i),
            ),
        decreases l.len() - i,
    {
        let ghost (sl, sr) = (rest_of(texts(l@), i), rest_of(texts(r@), i));
        assert(sl[0] == nth(l@, i)@ && sr[0] == nth(r@, i)@);
        let last_l = i + 1 == l.len();
        let last_r = i + 1 == r.len();
        let same = same_text(&l[i], &r[i]);
        assert(same == (sl[0] == sr[0])) by {
            if same { assert(nth(l@, i)@ == nth(r@, i)@); }
        }
        if same && last_l == last_r {
            i = i + 1;
            assert(sl.drop_first() =~= rest_of(texts(l@), i));
            assert(sr.drop_first() =~= rest_of(texts(r@), i));
        } else if last_l && !last_r {
            return Ordering::Less;
        } else if !last_l && last_r {
            return Ordering::Greater;
        } else {
            return lexical_of(&l[i], &r[i]);
        }
    }
    if l.len() == i {
        if r.len() == i {
            Ordering::Equal
        } else {
            Ordering::Less
        }
    } else {
        Ordering::Greater
    }
}

} // verus!

verus! {

/// Does `a` come before `b` in the panel?
pub open spec fn sorts_before(a: Seq<char>, b: Seq<char>) -> bool {
    panel_order(a, b) == Ordering::Less
}

/// [`lemma_panel_order_is_total`], read as "comes before".
pub proof fn lemma_sorts_before(a: Seq<char>, b: Seq<char>, c: Seq<char>)
    ensures
        !sorts_before(a, a),
        !(sorts_before(a, b) && sorts_before(b, a)),
        a != b ==> sorts_before(a, b) || sorts_before(b, a),
        sorts_before(a, b) && sorts_before(b, c) ==> sorts_before(a, c),
{
    lemma_panel_order_is_total(a, a, a);
    lemma_panel_order_is_total(a, b, c);
    lemma_panel_order_is_total(b, a, a);
}

/// Does `a` come before `b` in the panel?
pub fn sorts_first(a: &str, b: &str) -> (r: bool)
    ensures
        r == sorts_before(a@, b@),
{
    match order(a, b) {
        Ordering::Less => true,
        _ => false,
    }
}

/// Does text `a` come before text `b` as strings are ordered: by code point,
/// which is the order their UTF-8 bytes compare in.
pub open spec fn text_before(a: Seq<char>, b: Seq<char>) -> bool {
    lexical(a, b) == Ordering::Less
}

/// [`text_before`] is a strict total order.
pub proof fn lemma_text_before(a: Seq<char>, b: Seq<char>, c: Seq<char>)
    ensures
        !text_before(a, a),
        !(text_before(a, b) && text_before(b, a)),
        a != b ==> text_before(a, b) || text_before(b, a),
        text_before(a, b) && text_before(b, c) ==> text_before(a, c),
{
    lemma_lexical_flips(a, a);
    lemma_lexical_flips(a, b);
    lemma_lexical_flips(b, a);
    if text_before(a, b) && text_before(b, c) {
        lemma_lexical_transitive(a, b, c);
    }
}

/// Does text `a` come before text `b`?
pub fn text_first(a: &str, b: &str) -> (r: bool)
    ensures
        r == text_before(a@, b@),
{
    let ac = crate::text::chars_of(a);
    let bc = crate::text::chars_of(b);
    match lexical_of(&ac, &bc) {
        Ordering::Less => true,
        _ => false,
    }
}


} // verus!
