//! Text as the rules read it: a string is its sequence of characters.
use vstd::prelude::*;

use crate::panel::{text_before, text_first};

verus! {

/// One more character on the end of a string.
#[verifier::external_body]
pub(crate) fn push_char(s: &mut String, c: char)
    ensures
        final(s)@ == old(s)@.push(c),
{
    s.push(c);
}

/// The characters of a string, in order.
pub fn chars_of(s: &str) -> (v: Vec<char>)
    ensures
        v@ == s@,
{
    let mut v: Vec<char> = Vec::new();
    for c in it: s.chars()
        invariant
            v@ == it.seq().take(it.index() as int),
            it.seq() == s@,
    {
        v.push(c);
    }
    v
}

/// A string holding exactly these characters.
pub fn string_of(cs: &[char]) -> (s: String)
    ensures
        s@ == cs@,
{
    let mut s = String::new();
    let mut i: usize = 0;
    while i < cs.len()
        invariant
            i <= cs.len(),
            s@ == cs@.subrange(0, i as int),
        decreases cs.len() - i,
    {
        push_char(&mut s, cs[i]);
        i = i + 1;
    }
    s
}

} // verus!

verus! {

/// Do two strings hold the same characters?
pub fn text_eq(a: &str, b: &str) -> (r: bool)
    ensures
        r == (a@ == b@),
{
    let x = chars_of(a);
    let y = chars_of(b);
    crate::path::same_text(&x, &y)
}

/// A fresh string holding these characters.
pub fn owned(s: &str) -> (r: String)
    ensures
        r@ == s@,
{
    s.to_owned()
}

/// `a` followed by `b`.
pub fn cat(a: &str, b: &str) -> (r: String)
    ensures
        r@ == a@ + b@,
{
    let mut s = a.to_owned();
    s.append(b);
    s
}

} // verus!

verus! {

/// A character with an ASCII capital made small, and every other left alone.
pub open spec fn lower(c: char) -> char {
    if 'A' <= c && c <= 'Z' {
        ((c as u32) + 32) as char
    } else {
        c
    }
}

/// A text with every ASCII capital made small.
pub open spec fn lowered(s: Seq<char>) -> Seq<char> {
    s.map_values(|c: char| lower(c))
}

/// [`lower`], computed.
pub fn lower_char(c: char) -> (r: char)
    ensures
        r == lower(c),
{
    if 'A' <= c && c <= 'Z' {
        let u = (c as u8) + 32;
        u as char
    } else {
        c
    }
}

/// [`lowered`], computed.
pub fn lowered_chars(s: &Vec<char>) -> (r: Vec<char>)
    ensures
        r@ == lowered(s@),
{
    let mut r: Vec<char> = Vec::new();
    let mut i: usize = 0;
    while i < s.len()
        invariant
            i <= s.len(),
            r@ == lowered(s@.subrange(0, i as int)),
        decreases s.len() - i,
    {
        r.push(lower_char(s[i]));
        assert(lowered(s@.subrange(0, i + 1)) =~= lowered(s@.subrange(0, i as int)).push(lower(s@[i as int])));
        i = i + 1;
    }
    assert(s@.subrange(0, s.len() as int) == s@);
    r
}

/// What follows the last `c` in a text, if it holds one.
pub open spec fn after_last(s: Seq<char>, c: char) -> Option<Seq<char>>
    decreases s.len(),
{
    if s.len() == 0 {
        None
    } else if s.last() == c {
        Some(Seq::<char>::empty())
    } else {
        match after_last(s.drop_last(), c) {
            Some(t) => Some(t.push(s.last())),
            None => None,
        }
    }
}

/// [`after_last`], computed.
pub fn after_last_of(s: &Vec<char>, c: char) -> (r: Option<Vec<char>>)
    ensures
        match r {
            Some(t) => after_last(s@, c) == Some(t@),
            None => after_last(s@, c) is None,
        },
{
    let mut i: usize = s.len();
    while i > 0
        invariant
            i <= s.len(),
            forall|k: int| i <= k < s.len() ==> s@[k] != c,
        decreases i,
    {
        if s[i - 1] == c {
            let mut t: Vec<char> = Vec::new();
            let mut k: usize = i;
            while k < s.len()
                invariant
                    i <= k <= s.len(),
                    t@ == s@.subrange(i as int, k as int),
                decreases s.len() - k,
            {
                t.push(s[k]);
                k = k + 1;
            }
            proof { lemma_after_last_at(s@, c, i as int - 1); }
            return Some(t);
        }
        i = i - 1;
    }
    proof { lemma_after_last_none(s@, c); }
    None
}

proof fn lemma_after_last_at(s: Seq<char>, c: char, j: int)
    requires
        0 <= j < s.len(),
        s[j] == c,
        forall|k: int| j < k < s.len() ==> s[k] != c,
    ensures
        after_last(s, c) == Some(s.subrange(j + 1, s.len() as int)),
    decreases s.len(),
{
    if j == s.len() - 1 {
        assert(s.subrange(j + 1, s.len() as int) =~= Seq::<char>::empty());
    } else {
        lemma_after_last_at(s.drop_last(), c, j);
        assert(s.subrange(j + 1, s.len() as int) =~= s.drop_last().subrange(j + 1, s.len() - 1).push(s.last()));
    }
}

proof fn lemma_after_last_none(s: Seq<char>, c: char)
    requires
        forall|k: int| 0 <= k < s.len() ==> s[k] != c,
    ensures
        after_last(s, c) is None,
    decreases s.len(),
{
    if s.len() > 0 {
        lemma_after_last_none(s.drop_last(), c);
    }
}

/// The texts a list of strings holds.
pub open spec fn strings(v: Seq<String>) -> Seq<Seq<char>> {
    v.map_values(|s: String| s@)
}

/// Does the list hold this text?
pub fn holds_text(v: &[String], s: &str) -> (r: bool)
    ensures
        r == strings(v@).contains(s@),
{
    let mut i: usize = 0;
    while i < v.len()
        invariant
            i <= v@.len(),
            forall|j: int| 0 <= j < i ==> strings(v@)[j] != s@,
        decreases v.len() - i,
    {
        if text_eq(v[i].as_str(), s) {
            assert(strings(v@)[i as int] == s@);
            return true;
        }
        i = i + 1;
    }
    false
}

/// The digit a number below ten is written with.
pub open spec fn digit(d: nat) -> char {
    if d == 0 {
        '0'
    } else if d == 1 {
        '1'
    } else if d == 2 {
        '2'
    } else if d == 3 {
        '3'
    } else if d == 4 {
        '4'
    } else if d == 5 {
        '5'
    } else if d == 6 {
        '6'
    } else if d == 7 {
        '7'
    } else if d == 8 {
        '8'
    } else {
        '9'
    }
}

/// A number written in decimal, with no leading zero.
pub open spec fn decimal(n: nat) -> Seq<char>
    decreases n,
{
    if n < 10 {
        seq![digit(n)]
    } else {
        decimal(n / 10).push(digit(n % 10))
    }
}

fn digit_of(d: u64) -> (c: char)
    requires
        d < 10,
    ensures
        c == digit(d as nat),
{
    if d == 0 {
        '0'
    } else if d == 1 {
        '1'
    } else if d == 2 {
        '2'
    } else if d == 3 {
        '3'
    } else if d == 4 {
        '4'
    } else if d == 5 {
        '5'
    } else if d == 6 {
        '6'
    } else if d == 7 {
        '7'
    } else if d == 8 {
        '8'
    } else {
        '9'
    }
}

/// [`decimal`], written out.
pub fn decimal_of(n: u64) -> (s: String)
    ensures
        s@ == decimal(n as nat),
    decreases n,
{
    if n < 10 {
        let mut s = String::new();
        push_char(&mut s, digit_of(n));
        assert(s@ =~= seq![digit(n as nat)]);
        s
    } else {
        let mut s = decimal_of(n / 10);
        push_char(&mut s, digit_of(n % 10));
        s
    }
}

/// A copy of a list of strings.
pub fn copy_strings(v: &Vec<String>) -> (c: Vec<String>)
    ensures
        strings(c@) == strings(v@),
{
    let mut c: Vec<String> = Vec::new();
    let mut i: usize = 0;
    while i < v.len()
        invariant
            i <= v@.len(),
            strings(c@) == strings(v@).subrange(0, i as int),
        decreases v.len() - i,
    {
        let ghost pre = strings(c@);
        c.push(v[i].clone());
        assert(strings(c@) =~= pre.push(v@[i as int]@));
        assert(strings(c@) =~= strings(v@).subrange(0, i + 1));
        i = i + 1;
    }
    assert(strings(v@).subrange(0, v@.len() as int) =~= strings(v@));
    c
}

/// Each text comes before the next as strings are ordered, so none is there
/// twice: a set of texts, in the order a `BTreeSet` walks it.
pub open spec fn ascending(s: Seq<Seq<char>>) -> bool {
    forall|i: int, j: int| 0 <= i < j < s.len() ==> text_before(#[trigger] s[i], #[trigger] s[j])
}

/// An ascending list holds no text twice.
pub proof fn lemma_ascending_once(s: Seq<Seq<char>>)
    requires
        ascending(s),
    ensures
        s.no_duplicates(),
{
    assert forall|i: int, j: int| 0 <= i < s.len() && 0 <= j < s.len() && i != j implies s[i] != s[j] by {
        crate::panel::lemma_text_before(s[i], s[j], s[j]);
        if i < j {
            assert(text_before(s[i], s[j]));
        } else {
            assert(text_before(s[j], s[i]));
        }
    }
}

/// The texts of a list as a set, each once and in order.
pub fn sorted_set(v: &Vec<String>) -> (r: Vec<String>)
    ensures
        ascending(strings(r@)),
        strings(r@).to_set() == strings(v@).to_set(),
{
    let mut r: Vec<String> = Vec::new();
    let mut i: usize = 0;
    assert(strings(r@).to_set() =~= strings(v@).subrange(0, 0).to_set());
    while i < v.len()
        invariant
            i <= v@.len(),
            ascending(strings(r@)),
            strings(r@).to_set() == strings(v@).subrange(0, i as int).to_set(),
        decreases v.len() - i,
    {
        let x = &v[i];
        let mut p: usize = 0;
        while p < r.len() && text_first(r[p].as_str(), x.as_str())
            invariant
                p <= r@.len(),
                forall|j: int| 0 <= j < p ==> text_before(#[trigger] strings(r@)[j], x@),
            decreases r.len() - p,
        {
            p = p + 1;
        }
        let ghost old_r = strings(r@);
        let present = p < r.len() && text_eq(r[p].as_str(), x.as_str());
        if !present {
            r.insert(p, x.clone());
            proof {
                let n = strings(r@);
                assert(n =~= old_r.insert(p as int, x@));
                assert forall|a: int, b: int| 0 <= a < b < n.len() implies text_before(#[trigger] n[a], #[trigger] n[b]) by {
                    if p < old_r.len() {
                        crate::panel::lemma_text_before(x@, old_r[p as int], old_r[p as int]);
                        crate::panel::lemma_text_before(old_r[p as int], x@, x@);
                    }
                    if a < p && b < p {
                        assert(n[a] == old_r[a] && n[b] == old_r[b]);
                    } else if a < p && b == p {
                    } else if a < p && b > p {
                        assert(n[a] == old_r[a] && n[b] == old_r[b - 1]);
                    } else if a == p {
                        assert(text_before(x@, old_r[p as int]));
                        if b - 1 > p {
                            assert(text_before(old_r[p as int], old_r[b - 1]));
                            crate::panel::lemma_text_before(x@, old_r[p as int], old_r[b - 1]);
                        }
                    } else {
                        assert(n[a] == old_r[a - 1] && n[b] == old_r[b - 1]);
                    }
                }
            }
        }
        proof {
            let pre = strings(v@).subrange(0, i as int);
            let post = strings(v@).subrange(0, i + 1);
            assert(post =~= pre.push(x@));
            let n = strings(r@);
            assert forall|t: Seq<char>| #[trigger] n.contains(t) == (old_r.contains(t) || t == x@) by {
                if present {
                    assert(old_r[p as int] == x@);
                } else {
                    assert(n =~= old_r.insert(p as int, x@));
                    if n.contains(t) {
                        let k = choose|k: int| 0 <= k < n.len() && n[k] == t;
                        if k < p {
                            assert(old_r[k] == t);
                        } else if k > p {
                            assert(old_r[k - 1] == t);
                        }
                    }
                    if old_r.contains(t) {
                        let k = choose|k: int| 0 <= k < old_r.len() && old_r[k] == t;
                        if k < p {
                            assert(n[k] == t);
                        } else {
                            assert(n[k + 1] == t);
                        }
                    }
                    assert(n[p as int] == x@);
                }
            }
            assert forall|t: Seq<char>| #[trigger] post.contains(t) == (pre.contains(t) || t == x@) by {
                if post.contains(t) {
                    let k = choose|k: int| 0 <= k < post.len() && post[k] == t;
                    if k < pre.len() {
                        assert(pre[k] == t);
                    }
                }
                if pre.contains(t) {
                    let k = choose|k: int| 0 <= k < pre.len() && pre[k] == t;
                    assert(post[k] == t);
                }
                assert(post[i as int] == x@);
            }
            assert forall|t: Seq<char>| #[trigger] n.to_set().contains(t) == post.to_set().contains(t) by {
                assert(old_r.to_set().contains(t) == pre.to_set().contains(t));
            }
            assert(n.to_set() =~= post.to_set());
        }
        i = i + 1;
    }
    assert(strings(v@).subrange(0, v@.len() as int) =~= strings(v@));
    r
}

/// Where a character last occurs in a text, or `-1`.
pub open spec fn last_index(s: Seq<char>, c: char) -> int
    decreases s.len(),
{
    if s.len() == 0 {
        -1
    } else if s.last() == c {
        s.len() - 1
    } else {
        last_index(s.drop_last(), c)
    }
}

proof fn lemma_last_index_prefix(s: Seq<char>, c: char, i: int)
    requires
        0 <= i <= s.len(),
        forall|j: int| i <= j < s.len() ==> s[j] != c,
    ensures
        last_index(s, c) == last_index(s.subrange(0, i), c),
    decreases s.len() - i,
{
    if i < s.len() {
        assert(s.drop_last().subrange(0, i) == s.subrange(0, i));
        lemma_last_index_prefix(s.drop_last(), c, i);
    } else {
        assert(s.subrange(0, i) == s);
    }
}

/// [`last_index`], computed.
pub fn find_last(s: &Vec<char>, c: char) -> (r: Option<usize>)
    ensures
        match r {
            Some(k) => last_index(s@, c) == k && k < s@.len(),
            None => last_index(s@, c) == -1,
        },
{
    let mut i: usize = s.len();
    while i > 0
        invariant
            i <= s@.len(),
            forall|j: int| i <= j < s@.len() ==> s@[j] != c,
        decreases i,
    {
        if s[i - 1] == c {
            proof {
                lemma_last_index_prefix(s@, c, i as int);
                assert(s@.subrange(0, i as int).last() == c);
            }
            return Some(i - 1);
        }
        i = i - 1;
    }
    proof {
        lemma_last_index_prefix(s@, c, 0);
    }
    None
}

} // verus!
