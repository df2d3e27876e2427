//! The rules of one compile and of the project it reads.
//!
//! The compile's read passes and the sentences they refuse in, the panel's
//! entries and their order, the main a project opens on, and the words the
//! three commands that move a path refuse with. The engine that typesets is
//! the host's: what it answers about a document arrives here as values, and
//! every decision taken on them is made here.
use vstd::prelude::*;

pub use crate::path::{directory, spell};

use crate::files::{is_normal, MemFiles};
use crate::panel::sorts_before;
use crate::path::pieces;
use crate::text::{after_last, after_last_of, chars_of, lowered, lowered_chars, strings, text_eq};

verus! {

/// One heading, and the page its typeset form landed on.
#[derive(Debug, Clone, Copy, PartialEq, Eq)]
pub struct Anchor {
    /// The 1-based line of the markdown heading.
    pub line: usize,
    /// The 1-based page its compiled form landed on.
    pub page: usize,
}

/// The three kinds of file the pipeline reads, which are the three the panel
/// lists.
#[derive(Debug, Clone, Copy, PartialEq, Eq, Structural)]
pub enum Kind {
    Markdown,
    Bibliography,
    Image,
}

/// What one row of the panel is.
///
/// **A directory is never an entry.** The page derives the folder headings and
/// the indentation from the path's own segments.
#[derive(Debug, Clone, PartialEq, Eq)]
pub struct Entry {
    /// Root-relative, with `/` separators.
    pub path: String,
    /// Which of the three channels of the pipeline would read this file.
    pub kind: Kind,
    /// True for a path the master names that the project does not hold.
    pub missing: bool,
}

/// An entry as the rules see it.
pub type Row = (Seq<char>, Kind, bool);

/// The rows a list of entries is.
pub open spec fn rows(v: Seq<Entry>) -> Seq<Row> {
    v.map_values(|e: Entry| (e.path@, e.kind, e.missing))
}

/// What follows the last `.` of a path's file name, if it has one.
pub open spec fn extension(path: Seq<char>) -> Option<Seq<char>> {
    after_last(pieces(path).last(), '.')
}

/// The kind an extension names for the two channels this crate reads by name:
/// markdown is `md` in any ASCII case, and a bibliography is `bib`, `yml` or
/// `yaml` in any case. (Unicode lower-casing sends no other character onto
/// these letters, so comparing ASCII case-insensitively is the same test.)
pub open spec fn text_kind(path: Seq<char>) -> Option<Kind> {
    match extension(path) {
        None => None,
        Some(e) => if lowered(e) == "md"@ {
            Some(Kind::Markdown)
        } else if lowered(e) == "bib"@ || lowered(e) == "yml"@ || lowered(e) == "yaml"@ {
            Some(Kind::Bibliography)
        } else {
            None
        },
    }
}

/// Which channel would read this path, or `None` for a file the pipeline has
/// no use for. An image is an extension the engine lists, matched
/// case-sensitively as the engine matches it.
pub open spec fn kind_spec(path: Seq<char>, images: Seq<Seq<char>>) -> Option<Kind> {
    match text_kind(path) {
        Some(k) => Some(k),
        None => match extension(path) {
            Some(e) => if images.contains(e) {
                Some(Kind::Image)
            } else {
                None
            },
            None => None,
        },
    }
}

/// The extension of a path's file name.
fn extension_of(path: &str) -> (e: Option<Vec<char>>)
    ensures
        match e {
            Some(x) => extension(path@) == Some(x@),
            None => extension(path@) is None,
        },
{
    let chars = chars_of(path);
    let parts = crate::path::split_slash(chars.as_slice());
    proof { crate::path::lemma_pieces_nonempty(path@); }
    let last = &parts[parts.len() - 1];
    assert(last@ == pieces(path@).last());
    after_last_of(last, '.')
}

/// [`text_kind`], computed.
fn text_kind_of(path: &str) -> (k: Option<Kind>)
    ensures
        k == text_kind(path@),
{
    let e = match extension_of(path) {
        Some(e) => e,
        None => return None,
    };
    let low = crate::text::string_of(lowered_chars(&e).as_slice());
    if text_eq(low.as_str(), "md") {
        Some(Kind::Markdown)
    } else if text_eq(low.as_str(), "bib") || text_eq(low.as_str(), "yml") || text_eq(
        low.as_str(),
        "yaml",
    ) {
        Some(Kind::Bibliography)
    } else {
        None
    }
}

/// Which channel would read this path, or `None` for a file the pipeline has
/// no use for.
///
/// **Each channel is compared the way that channel compares it**, and the
/// asymmetry is inherited rather than invented: markdown is `md` in any ASCII
/// case, a bibliography is `bib`, `yml` or `yaml` in any case, and an image is
/// matched case-*sensitively* against the extensions the engine lists, which
/// the host hands in as `images`.
pub fn kind_of(path: &str, images: &[String]) -> (k: Option<Kind>)
    ensures
        k == kind_spec(path@, strings(images@)),
{
    if let Some(k) = text_kind_of(path) {
        return Some(k);
    }
    let e = match extension_of(path) {
        Some(e) => e,
        None => return None,
    };
    let ext = crate::text::string_of(e.as_slice());
    let mut i: usize = 0;
    while i < images.len()
        invariant
            i <= images@.len(),
            ext@ == e@,
            text_kind(path@) is None,
            extension(path@) == Some(e@),
            forall|j: int| 0 <= j < i ==> strings(images@)[j] != e@,
        decreases images.len() - i,
    {
        if text_eq(images[i].as_str(), ext.as_str()) {
            assert(strings(images@)[i as int] == e@);
            assert(strings(images@).contains(e@));
            return Some(Kind::Image);
        }
        i = i + 1;
    }
    None
}

/// The stored half of the panel, as the rules see it: every file in the
/// project the pipeline can read, of its kind, in the panel's order, none of
/// them missing.
pub open spec fn panel_listing(files: Map<Seq<char>, Seq<u8>>, images: Seq<Seq<char>>, r: Seq<Row>) -> bool {
    &&& forall|i: int|
        0 <= i < r.len() ==> {
            &&& kind_spec(#[trigger] r[i].0, images) == Some(r[i].1)
            &&& !r[i].2
            &&& is_normal(r[i].0)
        }
    &&& forall|i: int, j: int| 0 <= i < j < r.len() ==> sorts_before(#[trigger] r[i].0, #[trigger] r[j].0)
    &&& forall|k: Seq<char>|
        (files.contains_key(k) && kind_spec(k, images) is Some) <==> exists|i: int|
            0 <= i < r.len() && (#[trigger] r[i]).0 == k
}

/// Is this a path the panel lists, as a text, a figure or the like?
pub open spec fn listable(images: Seq<Seq<char>>) -> spec_fn(Seq<char>) -> bool {
    |p: Seq<char>| kind_spec(p, images) is Some
}

/// The stored half of the panel: every file in the project the pipeline can
/// read, in the panel's order, none of them missing.
pub fn files_under(files: &MemFiles, images: &[String]) -> (entries: Vec<Entry>)
    ensures
        entries@.map_values(|e: Entry| e.path@) == files.paths().filter(listable(strings(images@))),
        panel_listing(files@, strings(images@), rows(entries@)),
        forall|i: int|
            0 <= i < entries@.len() ==> {
                &&& kind_spec(#[trigger] entries@[i].path@, strings(images@)) == Some(
                    entries@[i].kind,
                )
                &&& !entries@[i].missing
                &&& is_normal(entries@[i].path@)
            },
        forall|i: int, j: int|
            0 <= i < j < entries@.len() ==> sorts_before(
                #[trigger] entries@[i].path@,
                #[trigger] entries@[j].path@,
            ),
        forall|k: Seq<char>|
            (files@.contains_key(k) && kind_spec(k, strings(images@)) is Some) <==> exists|i: int|
                0 <= i < entries@.len() && (#[trigger] entries@[i]).path@ == k,
{
    let listed = files.list();
    let mut entries: Vec<Entry> = Vec::new();
    let ghost mut taken: Seq<int> = Seq::empty();
    let mut i: usize = 0;
    proof {
        assert(strings(listed@).subrange(0, 0).filter(listable(strings(images@))) =~= Seq::<Seq<char>>::empty()) by {
            reveal(Seq::filter);
        }
        assert(entries@.map_values(|e: Entry| e.path@) =~= Seq::<Seq<char>>::empty());
    }
    while i < listed.len()
        invariant
            i <= listed@.len(),
            entries@.len() == taken.len(),
            forall|a: int| 0 <= a < taken.len() ==> 0 <= #[trigger] taken[a] < i,
            forall|a: int, b: int| 0 <= a < b < taken.len() ==> #[trigger] taken[a] < #[trigger] taken[b],
            forall|a: int|
                0 <= a < taken.len() ==> (#[trigger] entries@[a]).path@ == listed@[taken[a]]@ && Some(
                    entries@[a].kind,
                ) == kind_spec(entries@[a].path@, strings(images@)) && !entries@[a].missing,
            forall|j: int|
                0 <= j < i && kind_spec(#[trigger] listed@[j]@, strings(images@)) is Some ==> exists|a: int|
                    0 <= a < taken.len() && taken[a] == j,
            forall|x: int, y: int|
                0 <= x < y < listed@.len() ==> sorts_before(
                    #[trigger] listed@[x]@,
                    #[trigger] listed@[y]@,
                ),
            forall|x: int| 0 <= x < listed@.len() ==> is_normal(#[trigger] listed@[x]@),
            strings(listed@) == files.paths(),
            entries@.map_values(|e: Entry| e.path@) == strings(listed@).subrange(0, i as int).filter(
                listable(strings(images@)),
            ),
        decreases listed.len() - i,
    {
        let ghost old_taken = taken;
        let ghost old_paths = entries@.map_values(|e: Entry| e.path@);
        let ghost pred = listable(strings(images@));
        proof {
            let sub = strings(listed@).subrange(0, i + 1);
            let pre = strings(listed@).subrange(0, i as int);
            assert(sub.drop_last() =~= pre);
            assert(sub.last() == listed@[i as int]@);
            assert(sub.filter(pred) == if pred(listed@[i as int]@) {
                pre.filter(pred).push(listed@[i as int]@)
            } else {
                pre.filter(pred)
            }) by {
                reveal(Seq::filter);
            }
        }
        match kind_of(listed[i].as_str(), images) {
            Some(kind) => {
                entries.push(Entry { path: listed[i].clone(), kind, missing: false });
                proof {
                    assert(entries@.map_values(|e: Entry| e.path@) =~= old_paths.push(listed@[i as int]@));
                    taken = taken.push(i as int);
                    assert(taken[taken.len() - 1] == i);
                }
            },
            None => {},
        }
        proof {
            assert forall|j: int|
                0 <= j < i + 1 && kind_spec(#[trigger] listed@[j]@, strings(images@)) is Some implies exists|a: int|
                    0 <= a < taken.len() && taken[a] == j by {
                if j < i {
                    let a = choose|a: int| 0 <= a < old_taken.len() && old_taken[a] == j;
                    assert(taken[a] == j);
                } else {
                    assert(taken[taken.len() - 1] == j);
                }
            }
        }
        i = i + 1;
    }
    proof {
        assert(strings(listed@).subrange(0, listed@.len() as int) =~= strings(listed@));
        assert forall|k: Seq<char>|
            (files@.contains_key(k) && kind_spec(k, strings(images@)) is Some) implies exists|i: int|
                0 <= i < entries@.len() && (#[trigger] entries@[i]).path@ == k by {
            let j = choose|j: int| 0 <= j < listed@.len() && (#[trigger] listed@[j])@ == k;
            let a = choose|a: int| 0 <= a < taken.len() && taken[a] == j;
            assert(entries@[a].path@ == k);
        }
        assert forall|k: Seq<char>|
            (exists|i: int| 0 <= i < entries@.len() && (#[trigger] entries@[i]).path@ == k) implies (
            files@.contains_key(k) && kind_spec(k, strings(images@)) is Some) by {
            let a = choose|a: int| 0 <= a < entries@.len() && (#[trigger] entries@[a]).path@ == k;
            assert(listed@[taken[a]]@ == k);
        }
        assert forall|a: int, b: int| 0 <= a < b < entries@.len() implies sorts_before(
            #[trigger] entries@[a].path@,
            #[trigger] entries@[b].path@,
        ) by {
            assert(sorts_before(listed@[taken[a]]@, listed@[taken[b]]@));
        }
    }
    proof {
        let r = rows(entries@);
        assert forall|k: Seq<char>|
            (files@.contains_key(k) && kind_spec(k, strings(images@)) is Some) implies exists|i: int|
                0 <= i < r.len() && (#[trigger] r[i]).0 == k by {
            let i = choose|i: int| 0 <= i < entries@.len() && (#[trigger] entries@[i]).path@ == k;
            assert(r[i].0 == k);
        }
        assert forall|k: Seq<char>| (exists|i: int| 0 <= i < r.len() && (#[trigger] r[i]).0 == k) implies
            (files@.contains_key(k) && kind_spec(k, strings(images@)) is Some) by {
            let i = choose|i: int| 0 <= i < r.len() && (#[trigger] r[i]).0 == k;
            assert(entries@[i].path@ == k);
        }
        assert forall|i: int, j: int| 0 <= i < j < r.len() implies sorts_before(#[trigger] r[i].0, #[trigger] r[j].0) by {
            assert(sorts_before(entries@[i].path@, entries@[j].path@));
        }
        assert forall|i: int| 0 <= i < r.len() implies {
            &&& kind_spec(#[trigger] r[i].0, strings(images@)) == Some(r[i].1)
            &&& !r[i].2
            &&& is_normal(r[i].0)
        } by {
            assert(kind_spec(entries@[i].path@, strings(images@)) == Some(entries@[i].kind));
        }
    }
    entries
}

} // verus!

verus! {

/// The same entry, held again.
pub fn copy_entry(e: &Entry) -> (c: Entry)
    ensures
        c == *e,
{
    Entry { path: e.path.clone(), kind: e.kind, missing: e.missing }
}

/// The rows found, then each path `named` holds that no row has yet, as a
/// missing markdown row, in the order named.
pub open spec fn named_rows(found: Seq<Row>, named: Seq<Seq<char>>) -> Seq<Row>
    decreases named.len(),
{
    if named.len() == 0 {
        found
    } else {
        let rows = named_rows(found, named.drop_last());
        let p = named.last();
        if forall|i: int| 0 <= i < rows.len() ==> (#[trigger] rows[i]).0 != p {
            rows.push((p, Kind::Markdown, true))
        } else {
            rows
        }
    }
}

/// No row comes after one that the panel puts after it.
pub open spec fn in_panel_order(r: Seq<Row>) -> bool {
    forall|i: int, j: int| 0 <= i < j < r.len() ==> !sorts_before(#[trigger] r[j].0, #[trigger] r[i].0)
}

proof fn lemma_multiset_insert<A>(s: Seq<A>, p: int, x: A)
    requires
        0 <= p <= s.len(),
    ensures
        s.insert(p, x).to_multiset() == s.to_multiset().insert(x),
{
    broadcast use vstd::seq_lib::group_to_multiset_ensures;

    let a = s.subrange(0, p);
    let b = s.subrange(p, s.len() as int);
    assert(s == a + b);
    assert(s.insert(p, x) == a.push(x) + b);
    vstd::seq_lib::lemma_multiset_commutative(a.push(x), b);
    vstd::seq_lib::lemma_multiset_commutative(a, b);
    assert(a.push(x).to_multiset() == a.to_multiset().insert(x));
    assert(s.insert(p, x).to_multiset() =~= s.to_multiset().insert(x));
}

/// The entries in the panel's order, a stable insertion sort.
fn sorted_entries(v: &Vec<Entry>) -> (out: Vec<Entry>)
    ensures
        rows(out@).to_multiset() == rows(v@).to_multiset(),
        in_panel_order(rows(out@)),
{
    broadcast use vstd::seq_lib::group_to_multiset_ensures;

    let mut out: Vec<Entry> = Vec::new();
    let mut k: usize = 0;
    while k < v.len()
        invariant
            k <= v@.len(),
            rows(out@).to_multiset() == rows(v@).subrange(0, k as int).to_multiset(),
            in_panel_order(rows(out@)),
        decreases v.len() - k,
    {
        let x = copy_entry(&v[k]);
        let mut p: usize = 0;
        while p < out.len() && !crate::panel::sorts_first(x.path.as_str(), out[p].path.as_str())
            invariant
                p <= out@.len(),
                forall|i: int| 0 <= i < p ==> !sorts_before(x.path@, #[trigger] out@[i].path@),
            decreases out.len() - p,
        {
            p = p + 1;
        }
        let ghost before = rows(out@);
        let ghost xr: Row = (x.path@, x.kind, x.missing);
        proof {
            lemma_multiset_insert(before, p as int, xr);
            assert(rows(v@)[k as int] == xr);
            assert(rows(v@).subrange(0, k + 1) == rows(v@).subrange(0, k as int).push(xr));
            let after = before.insert(p as int, xr);
            assert forall|i: int, j: int| 0 <= i < j < after.len() implies !sorts_before(
                #[trigger] after[j].0,
                #[trigger] after[i].0,
            ) by {
                if j == p && i < p {
                    assert(after[i] == before[i]);
                } else if i == p && j > p {
                    assert(after[j] == before[j - 1]);
                    crate::panel::lemma_sorts_before(before[j - 1].0, x.path@, before[p as int].0);
                    crate::panel::lemma_sorts_before(before[p as int].0, x.path@, x.path@);
                    if j - 1 > p {
                        assert(!sorts_before(before[j - 1].0, before[p as int].0));
                    }
                } else if i < p && j > p {
                    assert(after[i] == before[i] && after[j] == before[j - 1]);
                } else if j < p {
                    assert(after[i] == before[i] && after[j] == before[j]);
                } else if i > p {
                    assert(after[i] == before[i - 1] && after[j] == before[j - 1]);
                }
            }
        }
        out.insert(p, x);
        assert(rows(out@) =~= before.insert(p as int, xr));
        proof {
            rows(v@).subrange(0, k as int).to_multiset_ensures();
        }
        assert(rows(v@).subrange(0, k as int).push(xr).to_multiset() =~= rows(v@).subrange(0, k as int).to_multiset().insert(xr));
        assert(rows(out@).to_multiset() == rows(v@).subrange(0, k + 1).to_multiset());
        k = k + 1;
    }
    assert(rows(v@).subrange(0, v@.len() as int) == rows(v@));
    out
}

/// The union: the files found, plus the paths `named` holds that they do not,
/// as missing markdown rows, all in the panel's order.
///
/// Pure, and cheap enough to run on every render — which is what lets the disk
/// half stay still while the marked-missing half follows the text. `named` is
/// root-relative.
pub fn merge(found: Vec<Entry>, named: &[String]) -> (entries: Vec<Entry>)
    ensures
        rows(entries@).to_multiset() == named_rows(rows(found@), strings(named@)).to_multiset(),
        in_panel_order(rows(entries@)),
{
    let mut all = found;
    let ghost start = rows(all@);
    let mut n: usize = 0;
    while n < named.len()
        invariant
            n <= named@.len(),
            rows(all@) == named_rows(start, strings(named@).subrange(0, n as int)),
        decreases named.len() - n,
    {
        let ghost sub = strings(named@).subrange(0, n + 1);
        assert(sub.drop_last() == strings(named@).subrange(0, n as int));
        assert(sub.last() == named@[n as int]@);
        let mut i: usize = 0;
        let mut present = false;
        while i < all.len()
            invariant
                i <= all@.len(),
                n < named@.len(),
                !present ==> forall|j: int| 0 <= j < i ==> (#[trigger] rows(all@)[j]).0 != named@[n as int]@,
                present ==> exists|j: int| 0 <= j < all@.len() && (#[trigger] rows(all@)[j]).0 == named@[n as int]@,
            decreases all.len() - i,
        {
            if text_eq(all[i].path.as_str(), named[n].as_str()) {
                assert(rows(all@)[i as int].0 == named@[n as int]@);
                present = true;
            }
            i = i + 1;
        }
        if !present {
            let ghost pre = all@;
            all.push(Entry { path: named[n].clone(), kind: Kind::Markdown, missing: true });
            assert(rows(all@) =~= rows(pre).push((named@[n as int]@, Kind::Markdown, true)));
        }
        n = n + 1;
    }
    assert(strings(named@).subrange(0, named@.len() as int) == strings(named@));
    sorted_entries(&all)
}

} // verus!

verus! {

/// Segments resolved leniently: `.` and empty ones dropped, `..` taking back
/// the segment before it when there is one.
pub open spec fn lax(stack: Seq<Seq<char>>, parts: Seq<Seq<char>>) -> Seq<Seq<char>>
    decreases parts.len(),
{
    if parts.len() == 0 {
        stack
    } else {
        let st = lax(stack, parts.drop_last());
        let p = parts.last();
        if p.len() == 0 || crate::path::is_dot(p) {
            st
        } else if crate::path::is_dot_dot(p) {
            if st.len() > 0 {
                st.drop_last()
            } else {
                st
            }
        } else {
            st.push(p)
        }
    }
}

/// The segments of the directory a root-relative path sits in.
pub open spec fn folder_segments(main: Seq<char>) -> Seq<Seq<char>> {
    if pieces(main).len() > 1 {
        pieces(main).drop_last()
    } else {
        Seq::<Seq<char>>::empty()
    }
}

/// One root-relative path joined onto the directory another sits in.
pub open spec fn beside_spec(main: Seq<char>, named: Seq<char>) -> Seq<char> {
    crate::path::joined(lax(folder_segments(main), pieces(named)))
}

/// One root-relative path joined onto the directory another sits in.
///
/// The master need not sit at the root, and the engine names a section
/// relative to the master — so a master at `parts/book.md` naming `text.md`
/// means the root-relative `parts/text.md`. A `..` is resolved lexically.
pub fn beside(main: &str, named: &str) -> (path: String)
    ensures
        path@ == beside_spec(main@, named@),
{
    let mut segments = crate::path::split_slash(chars_of(main).as_slice());
    proof { crate::path::lemma_pieces_nonempty(main@); }
    if segments.len() > 1 {
        let ghost all = crate::path::texts(segments@);
        segments.pop();
        assert(crate::path::texts(segments@) =~= all.drop_last());
    } else {
        segments = Vec::new();
        assert(crate::path::texts(segments@) =~= Seq::<Seq<char>>::empty());
    }
    let ghost start = crate::path::texts(segments@);
    let parts = crate::path::split_slash(chars_of(named).as_slice());
    let mut i: usize = 0;
    while i < parts.len()
        invariant
            i <= parts@.len(),
            start == folder_segments(main@),
            crate::path::texts(parts@) == pieces(named@),
            crate::path::texts(segments@) == lax(start, crate::path::texts(parts@).subrange(0, i as int)),
        decreases parts.len() - i,
    {
        let ghost sub = crate::path::texts(parts@).subrange(0, i + 1);
        assert(sub.drop_last() == crate::path::texts(parts@).subrange(0, i as int));
        assert(sub.last() == parts@[i as int]@);
        let part = &parts[i];
        if part.len() == 0 || crate::path::dot(part.as_slice()) {
        } else if crate::path::dot_dot(part.as_slice()) {
            if segments.len() > 0 {
                let ghost pre = crate::path::texts(segments@);
                segments.pop();
                assert(crate::path::texts(segments@) =~= pre.drop_last());
            }
        } else {
            let ghost pre = crate::path::texts(segments@);
            let piece = part.clone();
            assert(piece@ =~= part@);
            segments.push(piece);
            assert(crate::path::texts(segments@) =~= pre.push(parts@[i as int]@));
        }
        i = i + 1;
    }
    assert(crate::path::texts(parts@).subrange(0, parts@.len() as int) == crate::path::texts(parts@));
    crate::text::string_of(crate::path::join_slash(&segments).as_slice())
}

/// How the master would name a file: the file spelled from the directory the
/// master sits in, or `None` when that directory does not reach it.
pub open spec fn under_spec(main: Seq<char>, edited: Seq<char>) -> Option<Seq<char>> {
    crate::path::spell_spec(crate::path::directory_spec(main), edited)
}

/// How the master would name this file: [`beside`] run backwards. `None` is a
/// file the master's own directory does not reach.
pub fn under(main: &str, edited: &str) -> (spelled: Option<String>)
    ensures
        match spelled {
            Some(s) => under_spec(main@, edited@) == Some(s@),
            None => under_spec(main@, edited@) is None,
        },
{
    let dir = crate::path::directory(main);
    crate::path::spell(dir.as_str(), edited)
}

/// The sentence three commands refuse a path with when it is not one of the
/// project's files.
pub open spec fn not_a_file_spec(path: Seq<char>) -> Seq<char> {
    path + " is not a file in this project"@
}

/// The sentence three commands refuse a path with when it is not one of the
/// project's files: a figure read, a switch and a set-main refuse the same
/// path in the same words.
pub fn not_a_file(path: &str) -> (sentence: String)
    ensures
        sentence@ == not_a_file_spec(path@),
{
    crate::text::cat(path, " is not a file in this project")
}

/// The bytes of one file in the project, for the window to draw, confined to
/// the files the project holds.
pub fn asset_bytes(files: &MemFiles, path: &str) -> (bytes: Result<Vec<u8>, String>)
    ensures
        match crate::files::lookup(files@, path@) {
            Some(b) => bytes matches Ok(x) && x@ == b,
            None => bytes matches Err(e) && e@ == not_a_file_spec(path@),
        },
{
    if !files.holds(path) {
        return Err(not_a_file(path));
    }
    let located = files.locate(path);
    match files.read(located.as_str()) {
        Ok(b) => Ok(b),
        Err(e) => {
            let mut s = crate::text::cat("cannot read ", located.as_str());
            s.append(": ");
            s.append(e.as_str());
            Err(s)
        },
    }
}

/// The refusal of a new file the panel could not list.
pub open spec fn not_creatable(path: Seq<char>) -> Seq<char> {
    path + " is neither markdown nor a bibliography: a new file is a .md, .bib, .yml or .yaml"@
}

/// Refuse a new file the panel cannot list: the kind is the extension's, and
/// only markdown and a bibliography are made.
pub fn creatable(path: &str) -> (r: Result<(), String>)
    ensures
        match text_kind(path@) {
            Some(_) => r is Ok,
            None => r matches Err(e) && e@ == not_creatable(path@),
        },
{
    match text_kind_of(path) {
        Some(_) => Ok(()),
        None => Err(crate::text::cat(
            path,
            " is neither markdown nor a bibliography: a new file is a .md, .bib, .yml or .yaml",
        )),
    }
}

/// Make one empty file in the project, named by the panel.
///
/// **The extension decides the kind and there is no kind parameter**; where
/// the file lands and whether it is there already are the project's, in
/// [`crate::files::Refused`]'s words.
pub fn create_file(files: &mut MemFiles, path: &str) -> (r: Result<(), String>)
    ensures
        text_kind(path@) is None ==> (r matches Err(e) && e@ == not_creatable(path@) && final(files)@
            == old(files)@),
        text_kind(path@) is Some ==> match crate::files::create_refusal(old(files)@, path@) {
            Some(refused) => r matches Err(e) && e@ == crate::files::refusal_sentence(
                refused,
                path@,
                path@,
            ) && final(files)@ == old(files)@,
            None => r is Ok && final(files)@ == old(files)@.insert(
                crate::files::normal_spec(path@)->0,
                Seq::<u8>::empty(),
            ),
        },
{
    creatable(path)?;
    match files.create(path) {
        Ok(()) => Ok(()),
        Err(refused) => {
            let located = files.locate(path);
            Err(refused.sentence(path, located.as_str()))
        },
    }
}

/// Delete one file in the project, named by the panel, in
/// [`crate::files::Refused`]'s words.
pub fn remove_file(files: &mut MemFiles, path: &str) -> (r: Result<(), String>)
    ensures
        match crate::files::remove_refusal(old(files)@, path@) {
            Some(refused) => r matches Err(e) && e@ == crate::files::refusal_sentence(
                refused,
                path@,
                path@,
            ) && final(files)@ == old(files)@,
            None => r is Ok && final(files)@ == old(files)@.remove(
                crate::files::normal_spec(path@)->0,
            ),
        },
{
    match files.remove(path) {
        Ok(()) => Ok(()),
        Err(refused) => {
            let located = files.locate(path);
            Err(refused.sentence(path, located.as_str()))
        },
    }
}

/// `String::from_utf8`: the text these bytes encode, or `None` when they are
/// not UTF-8. The contract is std's documented one, over vstd's model of
/// UTF-8.
#[verifier::external_body]
fn utf8_text(bytes: Vec<u8>) -> (text: Option<String>)
    ensures
        match text {
            Some(t) => vstd::utf8::valid_utf8(bytes@) && t@ == vstd::utf8::decode_utf8(bytes@),
            None => !vstd::utf8::valid_utf8(bytes@),
        },
{
    String::from_utf8(bytes).ok()
}

/// The reason bytes that are not text give, in the words of the read that
/// would have decoded them.
pub open spec fn not_utf8() -> Seq<char> {
    "stream did not contain valid UTF-8"@
}

/// A document's text, or the sentence the terminal prints for a file it
/// cannot read.
pub open spec fn read_document_spec(files: Map<Seq<char>, Seq<u8>>, document: Seq<char>) -> Result<Seq<char>, Seq<char>> {
    match crate::files::lookup(files, document) {
        None => Err("cannot read "@ + document + ": "@ + crate::files::no_such_file()),
        Some(b) => if vstd::utf8::valid_utf8(b) {
            Ok(vstd::utf8::decode_utf8(b))
        } else {
            Err("cannot read "@ + document + ": "@ + not_utf8())
        },
    }
}

/// Decode bytes a read answered, or say why they will not read, in the words
/// the terminal uses for that file.
fn decode_read(read: Result<Vec<u8>, String>, located: &str) -> (r: Result<String, String>)
    ensures
        match read {
            Ok(b) => if vstd::utf8::valid_utf8(b@) {
                r matches Ok(t) && t@ == vstd::utf8::decode_utf8(b@)
            } else {
                r matches Err(e) && e@ == "cannot read "@ + located@ + ": "@ + not_utf8()
            },
            Err(why) => r matches Err(e) && e@ == "cannot read "@ + located@ + ": "@ + why@,
        },
{
    let reason = match read {
        Ok(bytes) => match utf8_text(bytes) {
            Some(text) => return Ok(text),
            None => crate::text::owned("stream did not contain valid UTF-8"),
        },
        Err(why) => why,
    };
    let mut s = crate::text::cat("cannot read ", located);
    s.append(": ");
    s.append(reason.as_str());
    Err(s)
}

/// Read a document's text, in the words the terminal uses for a file it
/// cannot read.
pub fn read_document(files: &MemFiles, document: &str) -> (r: Result<String, String>)
    ensures
        match read_document_spec(files@, document@) {
            Ok(t) => r matches Ok(x) && x@ == t,
            Err(m) => r matches Err(x) && x@ == m,
        },
{
    let located = files.locate(document);
    decode_read(files.read(located.as_str()), located.as_str())
}

} // verus!

verus! {

/// Does a path sit directly in the root?
pub open spec fn at_root(path: Seq<char>) -> bool {
    crate::path::no_slash(path)
}

/// Is a path a markdown file directly in the root?
pub open spec fn root_markdown(path: Seq<char>) -> bool {
    at_root(path) && text_kind(path) == Some(Kind::Markdown)
}

/// Does this path hold a slash?
fn has_slash(path: &str) -> (r: bool)
    ensures
        r == !crate::path::no_slash(path@),
{
    let chars = chars_of(path);
    let mut i: usize = 0;
    while i < chars.len()
        invariant
            i <= chars@.len(),
            chars@ == path@,
            forall|k: int| 0 <= k < i ==> chars@[k] != '/',
        decreases chars.len() - i,
    {
        if chars[i] == '/' {
            return true;
        }
        i = i + 1;
    }
    false
}

/// The markdown files directly in the root, in the panel's order: the only
/// files that can be this root's master.
///
/// **It does not recurse, and the reason is a property.** A master cannot
/// name a section above itself, so every section sits at or below its
/// master's directory, and a `.md` in a subdirectory that names sections is
/// another project's master, not this root's. Which of these name a section
/// is the engine's to say, and [`discover_main`] takes its answer.
pub fn candidates(files: &MemFiles) -> (found: Vec<String>)
    ensures
        forall|i: int| 0 <= i < found@.len() ==> root_markdown(#[trigger] found@[i]@),
        forall|i: int, j: int|
            0 <= i < j < found@.len() ==> sorts_before(#[trigger] found@[i]@, #[trigger] found@[j]@),
        forall|k: Seq<char>|
            (files@.contains_key(k) && root_markdown(k)) <==> exists|i: int|
                0 <= i < found@.len() && (#[trigger] found@[i])@ == k,
{
    let listed = files.list();
    let mut found: Vec<String> = Vec::new();
    let ghost mut taken: Seq<int> = Seq::empty();
    let mut i: usize = 0;
    while i < listed.len()
        invariant
            i <= listed@.len(),
            found@.len() == taken.len(),
            forall|a: int| 0 <= a < taken.len() ==> 0 <= #[trigger] taken[a] < i,
            forall|a: int, b: int| 0 <= a < b < taken.len() ==> #[trigger] taken[a] < #[trigger] taken[b],
            forall|a: int|
                0 <= a < taken.len() ==> (#[trigger] found@[a])@ == listed@[taken[a]]@ && root_markdown(found@[a]@),
            forall|j: int|
                0 <= j < i && root_markdown(#[trigger] listed@[j]@) ==> exists|a: int|
                    0 <= a < taken.len() && taken[a] == j,
            forall|x: int, y: int|
                0 <= x < y < listed@.len() ==> sorts_before(
                    #[trigger] listed@[x]@,
                    #[trigger] listed@[y]@,
                ),
        decreases listed.len() - i,
    {
        let ghost old_taken = taken;
        if !has_slash(listed[i].as_str()) && text_kind_of(listed[i].as_str()) == Some(Kind::Markdown) {
            found.push(listed[i].clone());
            proof {
                taken = taken.push(i as int);
                assert(taken[taken.len() - 1] == i);
            }
        }
        proof {
            assert forall|j: int|
                0 <= j < i + 1 && root_markdown(#[trigger] listed@[j]@) implies exists|a: int|
                    0 <= a < taken.len() && taken[a] == j by {
                if j < i {
                    let a = choose|a: int| 0 <= a < old_taken.len() && old_taken[a] == j;
                    assert(taken[a] == j);
                } else {
                    assert(taken[taken.len() - 1] == j);
                }
            }
        }
        i = i + 1;
    }
    proof {
        assert forall|k: Seq<char>| (files@.contains_key(k) && root_markdown(k)) implies exists|i: int|
            0 <= i < found@.len() && (#[trigger] found@[i])@ == k by {
            let j = choose|j: int| 0 <= j < listed@.len() && (#[trigger] listed@[j])@ == k;
            let a = choose|a: int| 0 <= a < taken.len() && taken[a] == j;
            assert(found@[a]@ == k);
        }
        assert forall|k: Seq<char>| (exists|i: int| 0 <= i < found@.len() && (#[trigger] found@[i])@ == k) implies (
        files@.contains_key(k) && root_markdown(k)) by {
            let a = choose|a: int| 0 <= a < found@.len() && (#[trigger] found@[a])@ == k;
            assert(listed@[taken[a]]@ == k);
        }
        assert forall|a: int, b: int| 0 <= a < b < found@.len() implies sorts_before(
            #[trigger] found@[a]@,
            #[trigger] found@[b]@,
        ) by {
            assert(sorts_before(listed@[taken[a]]@, listed@[taken[b]]@));
        }
    }
    found
}

/// Which file compiles, when nothing is remembered about it.
pub open spec fn discover_main_spec(masters: Seq<Seq<char>>, here: Seq<char>) -> Seq<char> {
    if masters.len() == 0 {
        here
    } else if masters.len() == 1 {
        masters[0]
    } else if masters.contains(here) {
        here
    } else {
        masters[0]
    }
}

/// Which file under the root compiles, when nothing is remembered about it,
/// given the masters: the candidates whose text names a section.
///
/// - **exactly one master → that file**, whatever the author opened;
/// - **no master → the file the author opened**, which is every single-file
///   document;
/// - **more than one master → the opened file if it is itself one of them,
///   otherwise the first in the panel's order**.
///
/// **This never leaves the main unset.** The same folder opens the same way
/// twice.
pub fn discover_main(masters: &[String], here: &str) -> (main: String)
    ensures
        main@ == discover_main_spec(strings(masters@), here@),
{
    if masters.len() == 0 {
        return crate::text::owned(here);
    }
    if masters.len() == 1 {
        return masters[0].clone();
    }
    let mut i: usize = 0;
    while i < masters.len()
        invariant
            i <= masters@.len(),
            forall|j: int| 0 <= j < i ==> strings(masters@)[j] != here@,
        decreases masters.len() - i,
    {
        if text_eq(masters[i].as_str(), here) {
            assert(strings(masters@)[i as int] == here@);
            assert(strings(masters@).contains(here@));
            return crate::text::owned(here);
        }
        i = i + 1;
    }
    masters[0].clone()
}

/// Which file's headings become anchors: the one the pane is holding.
///
/// **Three arms rather than an `Option`, and the third is why.** A file that
/// does not sit under the master's own directory has no master-relative
/// spelling at all; answering `Master` for it would put the master's heading
/// lines against a buffer whose lines mean something else entirely.
#[derive(Debug, Clone, Copy, PartialEq, Eq)]
pub enum Pane<'a> {
    /// The pane holds `main` itself.
    Master,
    /// The pane holds this path, spelled from the master's own directory.
    Beside(&'a str),
    /// The pane holds a file the master's directory does not reach.
    Away,
}

/// Does a heading written in `file` (`None` for the master's own text) belong
/// to the file the pane is holding?
pub open spec fn pane_holds(pane: Pane, file: Option<Seq<char>>) -> bool {
    match pane {
        Pane::Master => file is None,
        Pane::Beside(path) => file == Some(path@),
        Pane::Away => false,
    }
}

impl<'a> Pane<'a> {
    /// Does this anchor belong to the file the pane is holding?
    pub fn holds(&self, file: Option<&str>) -> (r: bool)
        ensures
            r == pane_holds(*self, match file {
                Some(f) => Some(f@),
                None => None,
            }),
    {
        match self {
            Pane::Master => file.is_none(),
            Pane::Beside(path) => match file {
                Some(f) => text_eq(f, path),
                None => false,
            },
            Pane::Away => false,
        }
    }
}

} // verus!

verus! {

/// A path the document names, as the engine reports it: the path as written,
/// and where it is written (`"at line 7"`), worded as the engine words it.
#[derive(Debug)]
pub struct Named {
    pub path: String,
    pub location: String,
}

/// An image the document names, as the engine reports it: the path or URL as
/// written, where it is written, and whether it is a URL.
#[derive(Debug)]
pub struct Image {
    pub path: String,
    pub location: String,
    pub url: bool,
}

/// One file handed to the engine: the path the document wrote, and its bytes.
#[derive(Debug)]
pub struct Asset {
    pub path: String,
    pub bytes: Vec<u8>,
}

/// Why the asset pass stopped: the sentence the terminal prints, and the URL
/// when that sentence is a failed fetch's.
#[derive(Debug)]
pub struct Unread {
    pub message: String,
    pub url: Option<String>,
}

pub type NamedRow = (Seq<char>, Seq<char>);

pub type ImageRow = (Seq<char>, Seq<char>, bool);

pub type AssetRow = (Seq<char>, Seq<u8>);

pub open spec fn named_row(n: Named) -> NamedRow {
    (n.path@, n.location@)
}

pub open spec fn named_rows_of(v: Seq<Named>) -> Seq<NamedRow> {
    v.map_values(|n: Named| named_row(n))
}

pub open spec fn image_rows(v: Seq<Image>) -> Seq<ImageRow> {
    v.map_values(|i: Image| (i.path@, i.location@, i.url))
}

pub open spec fn asset_rows(v: Seq<Asset>) -> Seq<AssetRow> {
    v.map_values(|a: Asset| (a.path@, a.bytes@))
}

/// What one compile reads at a path: the pane's buffer for the file the pane
/// holds, and the project's bytes for every other.
pub open spec fn source_read(
    files: Map<Seq<char>, Seq<u8>>,
    edited: Seq<char>,
    buffer: Seq<char>,
    file: Seq<char>,
) -> Result<Seq<u8>, Seq<char>> {
    if crate::files::normal_spec(file) is Some && crate::files::normal_spec(file) == crate::files::normal_spec(edited) {
        Ok(vstd::utf8::encode_utf8(buffer))
    } else {
        match crate::files::lookup(files, file) {
            Some(b) => Ok(b),
            None => Err(crate::files::no_such_file()),
        }
    }
}

/// The one door a compile reads through: the project, with the pane's buffer
/// standing in for the file the pane holds.
pub struct Source<'a> {
    pub files: &'a MemFiles,
    pub edited: String,
    pub buffer: &'a str,
}

impl<'a> Source<'a> {
    /// The bytes at a path, or the reason they will not read.
    pub fn read(&self, file: &str) -> (r: Result<Vec<u8>, String>)
        ensures
            match source_read(self.files@, self.edited@, self.buffer@, file@) {
                Ok(b) => r matches Ok(x) && x@ == b,
                Err(e) => r matches Err(x) && x@ == e,
            },
    {
        if self.files.same(file, self.edited.as_str()) {
            Ok(vstd::slice::slice_to_vec(self.buffer.as_bytes()))
        } else {
            self.files.read(file)
        }
    }
}

/// The sentence a file that will not read is refused in, for one of the
/// three things a document names.
pub open spec fn unreadable(file: Seq<char>, what: Seq<char>, location: Seq<char>, why: Seq<char>) -> Seq<char> {
    "cannot read "@ + file + " for the "@ + what + " "@ + location + ": "@ + why
}

/// [`unreadable`], written out.
fn unreadable_of(file: &str, what: &str, location: &str, why: &str) -> (s: String)
    ensures
        s@ == unreadable(file@, what@, location@, why@),
{
    let mut s = crate::text::cat("cannot read ", file);
    s.append(" for the ");
    s.append(what);
    s.append(" ");
    s.append(location);
    s.append(": ");
    s.append(why);
    s
}

/// Every section the master names, read from beside the master in the order
/// it names them; the first that will not read stops the pass.
pub open spec fn sections_read(
    files: Map<Seq<char>, Seq<u8>>,
    edited: Seq<char>,
    buffer: Seq<char>,
    dir: Seq<char>,
    named: Seq<NamedRow>,
) -> Result<Seq<AssetRow>, Seq<char>>
    decreases named.len(),
{
    if named.len() == 0 {
        Ok(Seq::<AssetRow>::empty())
    } else {
        match sections_read(files, edited, buffer, dir, named.drop_last()) {
            Err(m) => Err(m),
            Ok(r) => {
                let n = named.last();
                let file = crate::path::join_spec(dir, n.0);
                match source_read(files, edited, buffer, file) {
                    Ok(b) => Ok(r.push((n.0, b))),
                    Err(e) => Err(unreadable(file, "section"@, n.1, e)),
                }
            },
        }
    }
}

proof fn lemma_sections_read_stops(
    files: Map<Seq<char>, Seq<u8>>,
    edited: Seq<char>,
    buffer: Seq<char>,
    dir: Seq<char>,
    named: Seq<NamedRow>,
    k: int,
)
    requires
        0 <= k <= named.len(),
        sections_read(files, edited, buffer, dir, named.subrange(0, k)) is Err,
    ensures
        sections_read(files, edited, buffer, dir, named) == sections_read(
            files,
            edited,
            buffer,
            dir,
            named.subrange(0, k),
        ),
    decreases named.len() - k,
{
    if k == named.len() {
        assert(named.subrange(0, k) == named);
    } else {
        assert(named.subrange(0, k + 1).drop_last() == named.subrange(0, k));
        lemma_sections_read_stops(files, edited, buffer, dir, named, k + 1);
    }
}

/// Read every section file the master names, in the order it names them.
///
/// The sections are read **before** either list of assets, because the
/// markers are in the master's own text: the sections can be read with no
/// join, where every later question is about the document they assemble
/// into.
pub fn read_sections_with(named: &[Named], directory: &str, source: &Source) -> (r: Result<Vec<Asset>, String>)
    ensures
        match sections_read(
            source.files@,
            source.edited@,
            source.buffer@,
            directory@,
            named_rows_of(named@),
        ) {
            Ok(a) => r matches Ok(x) && asset_rows(x@) == a,
            Err(m) => r matches Err(x) && x@ == m,
        },
{
    let ghost rows = named_rows_of(named@);
    let mut sections: Vec<Asset> = Vec::new();
    let mut i: usize = 0;
    assert(rows.subrange(0, 0) =~= Seq::<NamedRow>::empty());
    assert(asset_rows(sections@) =~= Seq::<AssetRow>::empty());
    while i < named.len()
        invariant
            i <= named@.len(),
            rows == named_rows_of(named@),
            sections_read(source.files@, source.edited@, source.buffer@, directory@, rows.subrange(0, i as int))
                == Ok::<Seq<AssetRow>, Seq<char>>(asset_rows(sections@)),
        decreases named.len() - i,
    {
        let ghost sub = rows.subrange(0, i + 1);
        assert(sub.drop_last() == rows.subrange(0, i as int));
        assert(sub.last() == named_row(named@[i as int]));
        let file = crate::path::join(directory, named[i].path.as_str());
        match source.read(file.as_str()) {
            Ok(bytes) => {
                let ghost pre = sections@;
                sections.push(Asset { path: named[i].path.clone(), bytes });
                assert(asset_rows(sections@) =~= asset_rows(pre).push(
                    (named@[i as int].path@, asset_rows(sections@).last().1),
                ));
            },
            Err(e) => {
                let message = unreadable_of(file.as_str(), "section", named[i].location.as_str(), e.as_str());
                proof {
                    lemma_sections_read_stops(source.files@, source.edited@, source.buffer@, directory@, rows, i + 1);
                    assert(rows.subrange(0, named@.len() as int) == rows);
                }
                return Err(message);
            },
        }
        i = i + 1;
    }
    assert(rows.subrange(0, named@.len() as int) == rows);
    Ok(sections)
}


/// Why the asset pass stopped, as the rules see it.
pub type UnreadRow = (Seq<char>, Option<Seq<char>>);

/// An [`Unread`], as the rules see it.
pub open spec fn unread_row(u: Unread) -> UnreadRow {
    (u.message@, match u.url {
        Some(x) => Some(x@),
        None => None,
    })
}

/// The engine's list of images, as the rules see it.
pub open spec fn images_view(images: Result<Vec<Image>, String>) -> Result<Seq<ImageRow>, Seq<char>> {
    match images {
        Ok(v) => Ok(image_rows(v@)),
        Err(m) => Err(m@),
    }
}

/// The engine's bibliography, as the rules see it.
pub open spec fn bibliography_view(b: Result<Option<Named>, String>) -> Result<Option<NamedRow>, Seq<char>> {
    match b {
        Ok(Some(n)) => Ok(Some(named_row(n))),
        Ok(None) => Ok(None),
        Err(m) => Err(m@),
    }
}

/// The sentence a failed fetch is refused in.
pub open spec fn unfetched(url: Seq<char>, location: Seq<char>, reason: Seq<char>) -> Seq<char> {
    "cannot fetch "@ + url + " for the image "@ + location + ": "@ + reason
}

/// [`unfetched`], written out.
fn unfetched_of(url: &str, location: &str, reason: &str) -> (s: String)
    ensures
        s@ == unfetched(url@, location@, reason@),
{
    let mut s = crate::text::cat("cannot fetch ", url);
    s.append(" for the image ");
    s.append(location);
    s.append(": ");
    s.append(reason);
    s
}

/// The paths read so far, and the assets they gave.
pub type Gathered = (Seq<Seq<char>>, Seq<AssetRow>);

/// One image's turn: a path already read is skipped; a URL is supplied from
/// what was fetched under it, refused in the terminal's sentence when that
/// fetch failed, and left for the engine when nothing was fetched; a file is
/// read from beside the master.
pub open spec fn image_step(
    files: Map<Seq<char>, Seq<u8>>,
    edited: Seq<char>,
    buffer: Seq<char>,
    dir: Seq<char>,
    fetched: Seq<crate::remote::FetchedRow>,
    state: Gathered,
    im: ImageRow,
) -> Result<Gathered, UnreadRow> {
    let seen = state.0;
    let got = state.1;
    if seen.contains(im.0) {
        Ok(state)
    } else if im.2 {
        match crate::remote::fetched_get(fetched, im.0) {
            Some(Ok(b)) => Ok((seen.push(im.0), got.push((im.0, b)))),
            Some(Err(r)) => Err((unfetched(im.0, im.1, r), Some(im.0))),
            None => Ok((seen.push(im.0), got)),
        }
    } else {
        let file = crate::path::join_spec(dir, im.0);
        match source_read(files, edited, buffer, file) {
            Ok(b) => Ok((seen.push(im.0), got.push((im.0, b)))),
            Err(e) => Err((unreadable(file, "image"@, im.1, e), None)),
        }
    }
}

/// Every image's turn, in reader order, from a starting state; the first
/// refusal stops the pass.
pub open spec fn images_read(
    files: Map<Seq<char>, Seq<u8>>,
    edited: Seq<char>,
    buffer: Seq<char>,
    dir: Seq<char>,
    fetched: Seq<crate::remote::FetchedRow>,
    start: Gathered,
    images: Seq<ImageRow>,
) -> Result<Gathered, UnreadRow>
    decreases images.len(),
{
    if images.len() == 0 {
        Ok(start)
    } else {
        match images_read(files, edited, buffer, dir, fetched, start, images.drop_last()) {
            Err(u) => Err(u),
            Ok(st) => image_step(files, edited, buffer, dir, fetched, st, images.last()),
        }
    }
}

/// The paths of some assets.
pub open spec fn asset_paths(s: Seq<AssetRow>) -> Seq<Seq<char>> {
    s.map_values(|a: AssetRow| a.0)
}

/// Where the image pass starts: the sections read, then the bibliography.
pub open spec fn assets_start(
    files: Map<Seq<char>, Seq<u8>>,
    edited: Seq<char>,
    buffer: Seq<char>,
    dir: Seq<char>,
    bib: Option<NamedRow>,
    sections: Seq<AssetRow>,
) -> Result<Gathered, UnreadRow> {
    match bib {
        None => Ok((asset_paths(sections), sections)),
        Some(n) => {
            let file = crate::path::join_spec(dir, n.0);
            match source_read(files, edited, buffer, file) {
                Ok(b) => Ok((asset_paths(sections).push(n.0), sections.push((n.0, b)))),
                Err(e) => Err((unreadable(file, "bibliography"@, n.1, e), None)),
            }
        },
    }
}

/// The asset pass: the engine's own refusal of either list first, then the
/// bibliography read after the sections, then every image not already read.
pub open spec fn assets_read(
    files: Map<Seq<char>, Seq<u8>>,
    edited: Seq<char>,
    buffer: Seq<char>,
    dir: Seq<char>,
    fetched: Seq<crate::remote::FetchedRow>,
    images: Result<Seq<ImageRow>, Seq<char>>,
    bibliography: Result<Option<NamedRow>, Seq<char>>,
    sections: Seq<AssetRow>,
) -> Result<Seq<AssetRow>, UnreadRow> {
    match images {
        Err(m) => Err((m, None)),
        Ok(ims) => match bibliography {
            Err(m) => Err((m, None)),
            Ok(bib) => {
                match assets_start(files, edited, buffer, dir, bib, sections) {
                    Err(u) => Err(u),
                    Ok(st) => match images_read(files, edited, buffer, dir, fetched, st, ims) {
                        Ok(g) => Ok(g.1),
                        Err(u) => Err(u),
                    },
                }
            },
        },
    }
}

proof fn lemma_images_read_stops(
    files: Map<Seq<char>, Seq<u8>>,
    edited: Seq<char>,
    buffer: Seq<char>,
    dir: Seq<char>,
    fetched: Seq<crate::remote::FetchedRow>,
    start: Gathered,
    images: Seq<ImageRow>,
    k: int,
)
    requires
        0 <= k <= images.len(),
        images_read(files, edited, buffer, dir, fetched, start, images.subrange(0, k)) is Err,
    ensures
        images_read(files, edited, buffer, dir, fetched, start, images) == images_read(
            files,
            edited,
            buffer,
            dir,
            fetched,
            start,
            images.subrange(0, k),
        ),
    decreases images.len() - k,
{
    if k == images.len() {
        assert(images.subrange(0, k) == images);
    } else {
        assert(images.subrange(0, k + 1).drop_last() == images.subrange(0, k));
        lemma_images_read_stops(files, edited, buffer, dir, fetched, start, images, k + 1);
    }
}

/// Read the bibliography and every image the document names, after the
/// sections, through the same door the sections were read through.
///
/// **A path the document names twice is read once.** **An image named by a
/// URL is read from nowhere**: bytes that were fetched are supplied under the
/// URL itself, a fetch that failed is refused in the terminal's `cannot fetch`
/// sentence with the URL beside it, and a URL nothing has fetched gets no
/// bytes and is left for the engine's own refusal. It is never joined onto the
/// directory.
pub fn read_assets_with(
    images: &Result<Vec<Image>, String>,
    bibliography: &Result<Option<Named>, String>,
    sections: Vec<Asset>,
    directory: &str,
    fetched: &crate::remote::Fetched,
    source: &Source,
) -> (r: Result<Vec<Asset>, Unread>)
    ensures
        match assets_read(
            source.files@,
            source.edited@,
            source.buffer@,
            directory@,
            crate::remote::fetched_rows(fetched@),
            images_view(*images),
            bibliography_view(*bibliography),
            asset_rows(sections@),
        ) {
            Ok(a) => r matches Ok(x) && asset_rows(x@) == a,
            Err(u) => r matches Err(x) && unread_row(x) == u,
        },
{
    let ims = match images {
        Ok(v) => v,
        Err(m) => return Err(Unread { message: m.clone(), url: None }),
    };
    let bib = match bibliography {
        Ok(b) => b,
        Err(m) => return Err(Unread { message: m.clone(), url: None }),
    };
    let ghost srows = asset_rows(sections@);
    let mut seen: Vec<String> = Vec::new();
    let mut k: usize = 0;
    while k < sections.len()
        invariant
            k <= sections@.len(),
            srows == asset_rows(sections@),
            strings(seen@) == asset_paths(srows).subrange(0, k as int),
        decreases sections.len() - k,
    {
        let ghost pre = strings(seen@);
        seen.push(sections[k].path.clone());
        assert(strings(seen@) =~= pre.push(srows[k as int].0));
        assert(strings(seen@) =~= asset_paths(srows).subrange(0, k + 1));
        k = k + 1;
    }
    assert(asset_paths(srows).subrange(0, sections@.len() as int) =~= asset_paths(srows));
    let mut assets = sections;
    match bib {
        None => {},
        Some(named) => {
            let file = crate::path::join(directory, named.path.as_str());
            match source.read(file.as_str()) {
                Ok(bytes) => {
                    let ghost pre = asset_rows(assets@);
                    let ghost pre_seen = strings(seen@);
                    seen.push(named.path.clone());
                    assert(strings(seen@) =~= pre_seen.push(named.path@));
                    assets.push(Asset { path: named.path.clone(), bytes });
                    assert(asset_rows(assets@) =~= pre.push((named.path@, asset_rows(assets@).last().1)));
                },
                Err(e) => {
                    let message = unreadable_of(file.as_str(), "bibliography", named.location.as_str(), e.as_str());
                    return Err(Unread { message, url: None });
                },
            }
        },
    }
    let ghost start: Gathered = (strings(seen@), asset_rows(assets@));
    assert(assets_start(source.files@, source.edited@, source.buffer@, directory@,
        match bibliography_view(*bibliography) { Ok(b) => b, Err(_) => None }, srows) == Ok::<Gathered, UnreadRow>(start));
    let ghost rows = image_rows(ims@);
    let ghost frows = crate::remote::fetched_rows(fetched@);
    let mut i: usize = 0;
    assert(rows.subrange(0, 0) =~= Seq::<ImageRow>::empty());
    while i < ims.len()
        invariant
            i <= ims@.len(),
            rows == image_rows(ims@),
            frows == crate::remote::fetched_rows(fetched@),
            images_view(*images) == Ok::<Seq<ImageRow>, Seq<char>>(rows),
            bibliography_view(*bibliography) is Ok,
            srows == asset_rows(sections@),
            assets_start(source.files@, source.edited@, source.buffer@, directory@,
                match bibliography_view(*bibliography) { Ok(b) => b, Err(_) => None }, srows)
                == Ok::<Gathered, UnreadRow>(start),
            images_read(source.files@, source.edited@, source.buffer@, directory@, frows, start, rows.subrange(0, i as int))
                == Ok::<Gathered, UnreadRow>((strings(seen@), asset_rows(assets@))),
        decreases ims.len() - i,
    {
        let ghost sub = rows.subrange(0, i + 1);
        assert(sub.drop_last() == rows.subrange(0, i as int));
        assert(sub.last() == rows[i as int]);
        let im = &ims[i];
        if !crate::text::holds_text(seen.as_slice(), im.path.as_str()) {
            let ghost pre_seen = strings(seen@);
            seen.push(im.path.clone());
            assert(strings(seen@) =~= pre_seen.push(im.path@));
            if im.url {
                match crate::remote::fetched(fetched, im.path.as_str()) {
                    Some(Ok(bytes)) => {
                        let ghost pre = asset_rows(assets@);
                        assets.push(Asset { path: im.path.clone(), bytes });
                        assert(asset_rows(assets@) =~= pre.push((im.path@, asset_rows(assets@).last().1)));
                    },
                    Some(Err(reason)) => {
                        let message = unfetched_of(im.path.as_str(), im.location.as_str(), reason.as_str());
                        proof {
                            lemma_images_read_stops(
                                source.files@, source.edited@, source.buffer@, directory@, frows, start, rows, i + 1);
                            assert(rows.subrange(0, ims@.len() as int) == rows);
                        }
                        return Err(Unread { message, url: Some(im.path.clone()) });
                    },
                    None => {},
                }
            } else {
                let file = crate::path::join(directory, im.path.as_str());
                match source.read(file.as_str()) {
                    Ok(bytes) => {
                        let ghost pre = asset_rows(assets@);
                        assets.push(Asset { path: im.path.clone(), bytes });
                        assert(asset_rows(assets@) =~= pre.push((im.path@, asset_rows(assets@).last().1)));
                    },
                    Err(e) => {
                        let message = unreadable_of(file.as_str(), "image", im.location.as_str(), e.as_str());
                        proof {
                            lemma_images_read_stops(
                                source.files@, source.edited@, source.buffer@, directory@, frows, start, rows, i + 1);
                            assert(rows.subrange(0, ims@.len() as int) == rows);
                        }
                        return Err(Unread { message, url: None });
                    },
                }
            }
        }
        i = i + 1;
    }
    assert(rows.subrange(0, ims@.len() as int) == rows);
    Ok(assets)
}


/// Both passes together: the sections, or the sentence they stopped on, and
/// then the bibliography and the images.
pub fn supply(
    sections: Result<Vec<Asset>, String>,
    images: &Result<Vec<Image>, String>,
    bibliography: &Result<Option<Named>, String>,
    directory: &str,
    fetched: &crate::remote::Fetched,
    source: &Source,
) -> (r: Result<Vec<Asset>, Unread>)
    ensures
        match sections {
            Err(m) => r matches Err(x) && unread_row(x) == (m@, None::<Seq<char>>),
            Ok(s) => match assets_read(
                source.files@,
                source.edited@,
                source.buffer@,
                directory@,
                crate::remote::fetched_rows(fetched@),
                images_view(*images),
                bibliography_view(*bibliography),
                asset_rows(s@),
            ) {
                Ok(a) => r matches Ok(x) && asset_rows(x@) == a,
                Err(u) => r matches Err(x) && unread_row(x) == u,
            },
        },
{
    match sections {
        Err(m) => Err(Unread { message: m, url: None }),
        Ok(s) => read_assets_with(images, bibliography, s, directory, fetched, source),
    }
}

/// A heading as the engine placed it: the file it is written in (`None` for
/// the master's own text, else the path as the master names it), its 1-based
/// line there, and the 1-based page it landed on.
#[derive(Debug)]
pub struct Placed {
    pub file: Option<String>,
    pub line: usize,
    pub page: usize,
}

/// What the engine typeset: the bytes, and where each heading landed.
#[derive(Debug)]
pub struct Compiled {
    pub pdf: Vec<u8>,
    pub placed: Vec<Placed>,
}

/// What one compile produced, and what the document named while producing it.
#[derive(Debug)]
pub struct Render {
    /// The paths the document names, for the host to watch: its sections in
    /// the order the master reads them, then the bibliography, then the
    /// images that are files, in reader order. `Some(sections)` alone when the
    /// engine could not list the rest and the master names any; `None` when
    /// neither answers, so the caller keeps the list it had.
    pub assets: Option<Vec<String>>,
    /// The sections the master names, in the order it reads them.
    pub sections: Vec<String>,
    /// The bytes, or the sentence the terminal would print.
    pub pdf: Result<Vec<u8>, String>,
    /// Where each heading written in the file the pane holds landed; empty
    /// when the compile failed.
    pub anchors: Vec<Anchor>,
    /// The images the document names by URL, once each, in the order it
    /// first names them; `None` exactly when the engine could not list them.
    pub urls: Option<Vec<String>>,
    /// The URL this compile was refused on, if it was refused on one.
    pub refused: Option<String>,
}

/// A placed heading, as the rules see it.
pub type PlacedRow = (Option<Seq<char>>, usize, usize);

pub open spec fn placed_rows(v: Seq<Placed>) -> Seq<PlacedRow> {
    v.map_values(|p: Placed| (match p.file {
        Some(f) => Some(f@),
        None => None,
    }, p.line, p.page))
}

/// The anchors a page gives the pane: the headings written in the file it
/// holds, in the order the engine placed them.
pub open spec fn anchors_spec(pane: Pane, placed: Seq<PlacedRow>) -> Seq<Anchor>
    decreases placed.len(),
{
    if placed.len() == 0 {
        Seq::<Anchor>::empty()
    } else {
        let a = anchors_spec(pane, placed.drop_last());
        let p = placed.last();
        if pane_holds(pane, p.0) {
            a.push(Anchor { line: p.1, page: p.2 })
        } else {
            a
        }
    }
}

/// The URLs a list of images names, once each, in the order first named.
pub open spec fn urls_spec(images: Seq<ImageRow>) -> Seq<Seq<char>>
    decreases images.len(),
{
    if images.len() == 0 {
        Seq::<Seq<char>>::empty()
    } else {
        let u = urls_spec(images.drop_last());
        let im = images.last();
        if im.2 && !u.contains(im.0) {
            u.push(im.0)
        } else {
            u
        }
    }
}

/// The images of a list that are files, in order.
pub open spec fn image_files(images: Seq<ImageRow>) -> Seq<Seq<char>>
    decreases images.len(),
{
    if images.len() == 0 {
        Seq::<Seq<char>>::empty()
    } else {
        let f = image_files(images.drop_last());
        let im = images.last();
        if im.2 {
            f
        } else {
            f.push(im.0)
        }
    }
}

/// The paths to watch, from the sections named, the engine's image list and
/// its bibliography.
pub open spec fn listed_spec(
    named: Seq<Seq<char>>,
    images: Result<Seq<ImageRow>, Seq<char>>,
    bibliography: Result<Option<NamedRow>, Seq<char>>,
) -> Option<Seq<Seq<char>>> {
    match images {
        Ok(ims) => Some(named + match bibliography {
            Ok(Some(n)) => seq![n.0],
            _ => Seq::<Seq<char>>::empty(),
        } + image_files(ims)),
        Err(_) => if named.len() > 0 {
            Some(named)
        } else {
            None
        },
    }
}

/// [`anchors_spec`], computed.
pub fn anchors_in(pane: Pane, placed: &Vec<Placed>) -> (anchors: Vec<Anchor>)
    ensures
        anchors@ == anchors_spec(pane, placed_rows(placed@)),
{
    let ghost rows = placed_rows(placed@);
    let mut anchors: Vec<Anchor> = Vec::new();
    let mut i: usize = 0;
    assert(rows.subrange(0, 0) =~= Seq::<PlacedRow>::empty());
    while i < placed.len()
        invariant
            i <= placed@.len(),
            rows == placed_rows(placed@),
            anchors@ == anchors_spec(pane, rows.subrange(0, i as int)),
        decreases placed.len() - i,
    {
        let ghost sub = rows.subrange(0, i + 1);
        assert(sub.drop_last() == rows.subrange(0, i as int));
        assert(sub.last() == rows[i as int]);
        let p = &placed[i];
        let file = match &p.file {
            Some(f) => Some(f.as_str()),
            None => None,
        };
        if pane.holds(file) {
            anchors.push(Anchor { line: p.line, page: p.page });
        }
        i = i + 1;
    }
    assert(rows.subrange(0, placed@.len() as int) == rows);
    anchors
}

/// [`urls_spec`], computed.
pub fn urls_of(images: &Vec<Image>) -> (urls: Vec<String>)
    ensures
        strings(urls@) == urls_spec(image_rows(images@)),
{
    let ghost rows = image_rows(images@);
    let mut urls: Vec<String> = Vec::new();
    let mut i: usize = 0;
    assert(rows.subrange(0, 0) =~= Seq::<ImageRow>::empty());
    while i < images.len()
        invariant
            i <= images@.len(),
            rows == image_rows(images@),
            strings(urls@) == urls_spec(rows.subrange(0, i as int)),
        decreases images.len() - i,
    {
        let ghost sub = rows.subrange(0, i + 1);
        assert(sub.drop_last() == rows.subrange(0, i as int));
        assert(sub.last() == rows[i as int]);
        if images[i].url && !crate::text::holds_text(urls.as_slice(), images[i].path.as_str()) {
            let ghost pre = strings(urls@);
            urls.push(images[i].path.clone());
            assert(strings(urls@) =~= pre.push(images[i as int].path@));
        }
        i = i + 1;
    }
    assert(rows.subrange(0, images@.len() as int) == rows);
    urls
}

/// [`image_files`], computed.
fn image_files_of(images: &Vec<Image>) -> (files: Vec<String>)
    ensures
        strings(files@) == image_files(image_rows(images@)),
{
    let ghost rows = image_rows(images@);
    let mut files: Vec<String> = Vec::new();
    let mut i: usize = 0;
    assert(rows.subrange(0, 0) =~= Seq::<ImageRow>::empty());
    while i < images.len()
        invariant
            i <= images@.len(),
            rows == image_rows(images@),
            strings(files@) == image_files(rows.subrange(0, i as int)),
        decreases images.len() - i,
    {
        let ghost sub = rows.subrange(0, i + 1);
        assert(sub.drop_last() == rows.subrange(0, i as int));
        assert(sub.last() == rows[i as int]);
        if !images[i].url {
            let ghost pre = strings(files@);
            files.push(images[i].path.clone());
            assert(strings(files@) =~= pre.push(images[i as int].path@));
        }
        i = i + 1;
    }
    assert(rows.subrange(0, images@.len() as int) == rows);
    files
}

/// [`listed_spec`], computed.
pub fn listed(
    named: &Vec<String>,
    images: &Result<Vec<Image>, String>,
    bibliography: &Result<Option<Named>, String>,
) -> (assets: Option<Vec<String>>)
    ensures
        match listed_spec(strings(named@), images_view(*images), bibliography_view(*bibliography)) {
            Some(l) => assets matches Some(a) && strings(a@) == l,
            None => assets is None,
        },
{
    match images {
        Ok(ims) => {
            let mut all = crate::text::copy_strings(named);
            let ghost front = strings(all@);
            match bibliography {
                Ok(Some(n)) => {
                    all.push(n.path.clone());
                    assert(strings(all@) =~= front + seq![n.path@]);
                },
                _ => {
                    assert(strings(all@) =~= front + Seq::<Seq<char>>::empty());
                },
            }
            let ghost mid = strings(all@);
            let mut tail = image_files_of(ims);
            let ghost t = strings(tail@);
            all.append(&mut tail);
            assert(strings(all@) =~= mid + t);
            Some(all)
        },
        Err(_) => if named.len() > 0 {
            Some(crate::text::copy_strings(named))
        } else {
            None
        },
    }
}

/// What a compile answers, put together: the lists the text names whether
/// or not it typeset, and the page and its anchors when it did.
///
/// `named` is the sections the master names, `images` and `bibliography` the
/// engine's two lists over the sections that were read, and `outcome` the
/// bytes and the placed headings, or why there are none — with the URL when
/// the refusal was about one, read off the refusal before it became a
/// sentence.
pub fn render_with(
    named: Vec<String>,
    images: &Result<Vec<Image>, String>,
    bibliography: &Result<Option<Named>, String>,
    outcome: Result<Compiled, Unread>,
    pane: Pane,
) -> (render: Render)
    ensures
        match listed_spec(strings(named@), images_view(*images), bibliography_view(*bibliography)) {
            Some(l) => render.assets matches Some(a) && strings(a@) == l,
            None => render.assets is None,
        },
        strings(render.sections@) == strings(named@),
        match images {
            Ok(ims) => render.urls matches Some(u) && strings(u@) == urls_spec(image_rows(ims@)),
            Err(_) => render.urls is None,
        },
        match outcome {
            Ok(c) => {
                &&& render.pdf matches Ok(p) && p@ == c.pdf@
                &&& render.anchors@ == anchors_spec(pane, placed_rows(c.placed@))
                &&& render.refused is None
            },
            Err(u) => {
                &&& render.pdf matches Err(m) && m@ == u.message@
                &&& render.anchors@.len() == 0
                &&& match u.url {
                    Some(x) => render.refused matches Some(y) && y@ == x@,
                    None => render.refused is None,
                }
            },
        },
{
    let assets = listed(&named, images, bibliography);
    let urls = match images {
        Ok(ims) => Some(urls_of(ims)),
        Err(_) => None,
    };
    match outcome {
        Ok(c) => {
            let anchors = anchors_in(pane, &c.placed);
            Render { assets, sections: named, pdf: Ok(c.pdf), anchors, urls, refused: None }
        },
        Err(u) => Render { assets, sections: named, pdf: Err(u.message), anchors: Vec::new(), urls, refused: u.url },
    }
}

/// What the engine is handed for one compile of the project: the master's
/// text, the directory every path it names resolves against, and how the
/// master spells the file the pane holds.
#[derive(Debug)]
pub struct Input {
    pub markdown: String,
    pub directory: String,
    /// True when the pane holds the master itself.
    pub master: bool,
    /// The file the pane holds, spelled from the master's own directory.
    pub spelled: Option<String>,
}

impl Input {
    /// Whose headings become anchors.
    pub fn pane(&self) -> (p: Pane<'_>)
        ensures
            self.master ==> p is Master,
            !self.master ==> match self.spelled {
                Some(s) => p matches Pane::Beside(x) && x@ == s@,
                None => p is Away,
            },
    {
        if self.master {
            Pane::Master
        } else {
            match &self.spelled {
                Some(s) => Pane::Beside(s.as_str()),
                None => Pane::Away,
            }
        }
    }
}

/// What a compile of `main` reads for the master's own text: the pane's
/// buffer when the pane holds it, and the project's bytes otherwise, decoded.
pub open spec fn master_text(
    files: Map<Seq<char>, Seq<u8>>,
    main: Seq<char>,
    edited: Seq<char>,
    buffer: Seq<char>,
) -> Result<Seq<char>, Seq<char>> {
    match source_read(files, edited, buffer, main) {
        Err(why) => Err("cannot read "@ + main + ": "@ + why),
        Ok(b) => if vstd::utf8::valid_utf8(b) {
            Ok(vstd::utf8::decode_utf8(b))
        } else {
            Err("cannot read "@ + main + ": "@ + not_utf8())
        },
    }
}

/// Compile the project, as far as the rules go: `main`'s own text, read with
/// the pane's buffer standing in for the one file the pane holds, the
/// directory its paths resolve against, and how it spells the file in the
/// pane. What the engine makes of these comes back through [`render_with`].
///
/// **`main`'s own text is read through the override too**, so it is the
/// buffer exactly when the pane holds the master. A main that will not read,
/// or is not text, fails in [`read_document`]'s own sentence.
pub fn render_project(files: &MemFiles, main: &str, edited: &str, buffer: &str) -> (r: Result<Input, String>)
    ensures
        match master_text(files@, main@, edited@, buffer@) {
            Err(m) => r matches Err(x) && x@ == m,
            Ok(t) => r matches Ok(input) && {
                &&& input.markdown@ == t
                &&& input.directory@ == crate::path::directory_spec(main@)
                &&& input.master == (main@ == edited@)
                &&& match under_spec(main@, edited@) {
                    Some(s) => input.spelled matches Some(x) && x@ == s,
                    None => input.spelled is None,
                }
            },
        },
{
    let main_at = files.locate(main);
    let edited_at = files.locate(edited);
    let source = Source { files, edited: edited_at, buffer };
    let markdown = match decode_read(source.read(main_at.as_str()), main_at.as_str()) {
        Ok(t) => t,
        Err(m) => return Err(m),
    };
    let spelled = under(main, edited);
    Ok(Input {
        markdown,
        directory: crate::path::directory(main),
        master: text_eq(main, edited),
        spelled,
    })
}


/// What the project holds at a path, read with no pane in the way.
pub open spec fn disk_read(files: Map<Seq<char>, Seq<u8>>, file: Seq<char>) -> Result<Seq<u8>, Seq<char>> {
    match crate::files::lookup(files, file) {
        Some(b) => Ok(b),
        None => Err(crate::files::no_such_file()),
    }
}

/// **The PDF is what the pane says, not what the file says.** Every read a
/// compile makes through the pane's buffer answers exactly what the same read
/// would answer had the buffer been saved over the file the pane holds.
pub proof fn lemma_the_buffer_stands_in(
    files: Map<Seq<char>, Seq<u8>>,
    edited: Seq<char>,
    buffer: Seq<char>,
    file: Seq<char>,
)
    requires
        crate::files::normal_spec(edited) is Some,
    ensures
        source_read(files, edited, buffer, file) == disk_read(
            files.insert(crate::files::normal_spec(edited)->0, vstd::utf8::encode_utf8(buffer)),
            file,
        ),
{
}

/// **A compile reads what a compile after saving would.** With the pane's
/// buffer standing in for the file it holds, every read a compile makes, and
/// the master's text itself, are what they would be had the buffer been
/// saved and the master opened in the pane as it now reads.
pub proof fn lemma_a_compile_reads_what_a_save_would(
    files: Map<Seq<char>, Seq<u8>>,
    main: Seq<char>,
    edited: Seq<char>,
    buffer: Seq<char>,
    b: Seq<u8>,
)
    requires
        crate::files::normal_spec(edited) is Some,
        disk_read(files.insert(crate::files::normal_spec(edited)->0, vstd::utf8::encode_utf8(buffer)), main) == Ok::<Seq<u8>, Seq<char>>(b),
        vstd::utf8::valid_utf8(b),
    ensures
        ({
            let saved = files.insert(crate::files::normal_spec(edited)->0, vstd::utf8::encode_utf8(buffer));
            let text = vstd::utf8::decode_utf8(b);
            &&& forall|file: Seq<char>| #[trigger] source_read(files, edited, buffer, file) == source_read(saved, main, text, file)
            &&& master_text(files, main, edited, buffer) == master_text(saved, main, main, text)
            &&& master_text(files, main, edited, buffer) == Ok::<Seq<char>, Seq<char>>(text)
        }),
{
    let saved = files.insert(crate::files::normal_spec(edited)->0, vstd::utf8::encode_utf8(buffer));
    let text = vstd::utf8::decode_utf8(b);
    vstd::utf8::decode_utf8_encode_utf8(b);
    assert forall|file: Seq<char>| #[trigger] source_read(files, edited, buffer, file) == source_read(saved, main, text, file) by {
        lemma_the_buffer_stands_in(files, edited, buffer, file);
    }
    lemma_the_buffer_stands_in(files, edited, buffer, main);
}

/// **A file the master's directory does not reach gets no anchors**: no
/// heading in the document is a number about it.
pub proof fn lemma_away_holds_no_anchor(placed: Seq<PlacedRow>)
    ensures
        anchors_spec(Pane::Away, placed) == Seq::<Anchor>::empty(),
    decreases placed.len(),
{
    if placed.len() > 0 {
        lemma_away_holds_no_anchor(placed.drop_last());
    }
}

/// **Every anchor a page gives the pane is a heading of the file it holds**:
/// each comes from a placed heading the pane holds, at that heading's line
/// and page.
pub proof fn lemma_every_anchor_is_the_panes(pane: Pane, placed: Seq<PlacedRow>, i: int)
    requires
        0 <= i < anchors_spec(pane, placed).len(),
    ensures
        exists|j: int|
            0 <= j < placed.len() && pane_holds(pane, #[trigger] placed[j].0) && anchors_spec(pane, placed)[i]
                == (Anchor { line: placed[j].1, page: placed[j].2 }),
    decreases placed.len(),
{
    let a = anchors_spec(pane, placed.drop_last());
    if i < a.len() {
        lemma_every_anchor_is_the_panes(pane, placed.drop_last(), i);
        let j = choose|j: int|
            0 <= j < placed.drop_last().len() && pane_holds(pane, #[trigger] placed.drop_last()[j].0)
                && a[i] == (Anchor { line: placed.drop_last()[j].1, page: placed.drop_last()[j].2 });
        assert(placed[j] == placed.drop_last()[j]);
    } else {
        let j = placed.len() - 1;
        assert(placed[j] == placed.last());
    }
}


/// The window's title for an open document: the file's own name, or the
/// whole path when it names none — a fallback no dialog reaches.
pub open spec fn title_spec(document: Seq<char>) -> Seq<char> {
    match crate::path::file_name_spec(document) {
        Some(n) => n,
        None => document,
    }
}

/// [`title_spec`], computed.
pub fn title(document: &str) -> (t: String)
    ensures
        t@ == title_spec(document@),
{
    match crate::path::file_name(document) {
        Some(n) => n,
        None => crate::text::owned(document),
    }
}


/// Pieces that all name something are kept whole.
proof fn lemma_kept_plain(parts: Seq<Seq<char>>)
    requires
        forall|i: int| 0 <= i < parts.len() ==> crate::files::plain(#[trigger] parts[i]),
    ensures
        crate::path::kept(parts) == parts,
    decreases parts.len(),
{
    if parts.len() > 0 {
        let init = parts.drop_last();
        assert forall|i: int| 0 <= i < init.len() implies crate::files::plain(#[trigger] init[i]) by {
            assert(init[i] == parts[i]);
        }
        lemma_kept_plain(init);
        assert(crate::files::plain(parts[parts.len() - 1]));
        assert(init.push(parts.last()) =~= parts);
    }
}

/// Joined pieces begin with the first piece's first character.
proof fn lemma_joined_starts(parts: Seq<Seq<char>>)
    requires
        parts.len() >= 1,
        parts[0].len() > 0,
    ensures
        crate::path::joined(parts).len() > 0,
        crate::path::joined(parts)[0] == parts[0][0],
    decreases parts.len(),
{
    if parts.len() > 1 {
        let init = parts.drop_last();
        assert(init[0] == parts[0]);
        lemma_joined_starts(init);
    }
}

/// Segments that all name something, joined, read back as those segments.
proof fn lemma_components_of_joined(parts: Seq<Seq<char>>)
    requires
        forall|i: int| 0 <= i < parts.len() ==> crate::files::plain(#[trigger] parts[i]),
        forall|i: int| 0 <= i < parts.len() ==> crate::path::no_slash(#[trigger] parts[i]),
    ensures
        crate::path::components(crate::path::joined(parts)) == parts,
{
    if parts.len() == 0 {
        let e = crate::path::joined(parts);
        assert(e =~= Seq::<char>::empty());
        assert(pieces(e) == seq![Seq::<char>::empty()]);
        assert(!crate::path::is_dot(Seq::<char>::empty()));
        let k = crate::path::kept(seq![Seq::<char>::empty()]);
        assert(seq![Seq::<char>::empty()].drop_last() =~= Seq::<Seq<char>>::empty());
        reveal_with_fuel(crate::path::kept, 2);
        assert(k =~= Seq::<Seq<char>>::empty());
    } else {
        assert(crate::files::plain(parts[0]));
        lemma_joined_starts(parts);
        crate::path::lemma_pieces_joined(parts);
        lemma_kept_plain(parts);
        assert(crate::path::no_slash(parts[0]));
        assert(parts[0][0] != '/');
    }
}

/// Names that all name something, put after a stack, leave it whole.
proof fn lemma_lax_plain(stack: Seq<Seq<char>>, parts: Seq<Seq<char>>)
    requires
        forall|i: int| 0 <= i < parts.len() ==> crate::files::plain(#[trigger] parts[i]),
    ensures
        lax(stack, parts) == stack + parts,
    decreases parts.len(),
{
    if parts.len() == 0 {
        assert(stack + parts =~= stack);
    } else {
        let init = parts.drop_last();
        assert forall|i: int| 0 <= i < init.len() implies crate::files::plain(#[trigger] init[i]) by {
            assert(init[i] == parts[i]);
        }
        lemma_lax_plain(stack, init);
        assert(crate::files::plain(parts[parts.len() - 1]));
        assert((stack + init).push(parts.last()) =~= stack + parts);
    }
}

/// **A file in the pane is named the way the master would name it: `under`
/// is `beside` run backwards.** A section the master names beside itself,
/// spelled from the root, is spelled from the master's directory as the
/// master named it.
pub proof fn lemma_under_undoes_beside(main: Seq<char>, named: Seq<char>)
    requires
        is_normal(main),
        is_normal(named),
    ensures
        under_spec(main, beside_spec(main, named)) == Some(named),
{
    let pm = pieces(main);
    let pn = pieces(named);
    crate::path::lemma_pieces_nonempty(main);
    crate::path::lemma_pieces_nonempty(named);
    crate::path::lemma_pieces_no_slash(main);
    crate::path::lemma_pieces_no_slash(named);
    let f = folder_segments(main);
    assert forall|i: int| 0 <= i < f.len() implies crate::files::plain(#[trigger] f[i]) && crate::path::no_slash(f[i]) by {
        assert(f[i] == pm[i]);
    }
    lemma_lax_plain(f, pn);
    let whole = f + pn;
    assert forall|i: int| 0 <= i < whole.len() implies crate::files::plain(#[trigger] whole[i]) && crate::path::no_slash(whole[i]) by {
        if i >= f.len() {
            assert(whole[i] == pn[i - f.len()]);
        }
    }
    lemma_components_of_joined(whole);
    lemma_components_of_joined(f);
    lemma_components_of_joined(pm);
    crate::path::lemma_joined_pieces(main);
    crate::path::lemma_joined_pieces(named);
    let c = crate::path::components(main);
    assert(c == pm);
    assert(c.drop_last() =~= f);
    assert(!(c.len() == 1 && c[0] == crate::path::root_mark())) by {
        if c.len() == 1 && c[0] == crate::path::root_mark() {
            assert(crate::path::no_slash(pm[0]));
            assert(pm[0][0] == '/');
        }
    }
    assert(crate::path::directory_spec(main) == crate::path::joined(f)) by {
        if f.len() > 0 {
            assert(crate::files::plain(f[0]) && crate::path::no_slash(f[0]));
            assert(f[0] != crate::path::root_mark()) by {
                assert(crate::path::root_mark()[0] == '/');
            }
        }
    }
    assert(whole.skip(f.len() as int) =~= pn);
    assert(f.is_prefix_of(whole));
}

/// **The main a folder opens on.** With no master it is the file opened; with
/// one, that master; with several, the file opened if it is any one of them,
/// wherever it stands in the list, and otherwise the first. The main is
/// always the file opened or a master.
pub proof fn lemma_the_main_is_the_opened_master_or_the_first(masters: Seq<Seq<char>>, here: Seq<char>, i: int)
    ensures
        masters.len() == 0 ==> discover_main_spec(masters, here) == here,
        masters.len() == 1 ==> discover_main_spec(masters, here) == masters[0],
        masters.len() >= 2 && 0 <= i < masters.len() && masters[i] == here ==> discover_main_spec(masters, here)
            == here,
        masters.len() >= 2 && (forall|j: int| 0 <= j < masters.len() ==> masters[j] != here) ==> discover_main_spec(
            masters,
            here,
        ) == masters[0],
        discover_main_spec(masters, here) == here || masters.contains(discover_main_spec(masters, here)),
{
    if masters.len() >= 2 && 0 <= i < masters.len() && masters[i] == here {
        assert(masters.contains(here));
    }
    if masters.len() >= 1 {
        assert(masters.contains(masters[0]));
    }
}

/// Where a path's last segment ends in text holding no slash, that segment
/// grows by it.
proof fn lemma_pieces_grow(s: Seq<char>, t: Seq<char>)
    requires
        forall|i: int| 0 <= i < t.len() ==> t[i] != '/',
    ensures
        pieces(s + t).last() == pieces(s).last() + t,
    decreases t.len(),
{
    crate::path::lemma_pieces_nonempty(s);
    if t.len() == 0 {
        assert(s + t =~= s);
        assert(pieces(s).last() + t =~= pieces(s).last());
    } else {
        let u = t.drop_last();
        lemma_pieces_grow(s, u);
        crate::path::lemma_pieces_nonempty(s + u);
        assert((s + t).drop_last() =~= s + u);
        assert((s + t).last() == t.last());
        assert(pieces(s).last() + t =~= (pieces(s).last() + u).push(t.last()));
    }
}

/// What follows the last dot, where the tail after it holds none.
proof fn lemma_after_the_last_dot(x: Seq<char>, e: Seq<char>)
    requires
        forall|i: int| 0 <= i < e.len() ==> e[i] != '.',
    ensures
        after_last(x + seq!['.'] + e, '.') == Some(e),
    decreases e.len(),
{
    if e.len() == 0 {
        assert(x + seq!['.'] + e =~= x.push('.'));
    } else {
        let f = e.drop_last();
        lemma_after_the_last_dot(x, f);
        assert((x + seq!['.'] + e).drop_last() =~= x + seq!['.'] + f);
        assert((x + seq!['.'] + e).last() == e.last());
        assert(f.push(e.last()) =~= e);
    }
}

/// **A file's kind is read off its extension, in any case**: a file
/// `dir/name.ext` is markdown when `ext` lower-cases to `md`, and a
/// bibliography when it lower-cases to `bib`, `yml` or `yaml`; any other
/// extension is neither, and the panel lists it only as an image the engine
/// reads.
pub proof fn lemma_the_kind_is_the_extensions(dir: Seq<char>, name: Seq<char>, ext: Seq<char>, images: Seq<Seq<char>>)
    requires
        dir.len() == 0 || dir.last() == '/',
        forall|i: int| 0 <= i < name.len() ==> name[i] != '/',
        forall|i: int| 0 <= i < ext.len() ==> ext[i] != '/' && ext[i] != '.',
    ensures
        ({
            let path = dir + name + seq!['.'] + ext;
            let low = lowered(ext);
            &&& extension(path) == Some(ext)
            &&& low == seq!['m', 'd'] ==> text_kind(path) == Some(Kind::Markdown)
            &&& (low == seq!['b', 'i', 'b'] || low == seq!['y', 'm', 'l'] || low == seq!['y', 'a', 'm', 'l'])
                ==> text_kind(path) == Some(Kind::Bibliography) && kind_spec(path, images) == Some(Kind::Bibliography)
            &&& (low != seq!['m', 'd'] && low != seq!['b', 'i', 'b'] && low != seq!['y', 'm', 'l'] && low != seq![
                'y',
                'a',
                'm',
                'l',
            ]) ==> text_kind(path) is None && kind_spec(path, images) == if images.contains(ext) {
                Some(Kind::Image)
            } else {
                None
            }
        }),
{
    let path = dir + name + seq!['.'] + ext;
    let tail = name + seq!['.'] + ext;
    assert forall|i: int| 0 <= i < tail.len() implies tail[i] != '/' by {
        if i < name.len() {
            assert(tail[i] == name[i]);
        } else if i > name.len() {
            assert(tail[i] == ext[i - name.len() - 1]);
        }
    }
    assert(path =~= dir + tail);
    lemma_pieces_grow(dir, tail);
    crate::path::lemma_pieces_nonempty(dir);
    if dir.len() > 0 {
        crate::path::lemma_pieces_nonempty(dir.drop_last());
        assert(dir.drop_last().push(dir.last()) =~= dir);
    }
    assert(pieces(dir).last() =~= Seq::<char>::empty());
    assert(pieces(path).last() =~= tail);
    lemma_after_the_last_dot(name, ext);
    reveal_strlit("md");
    reveal_strlit("bib");
    reveal_strlit("yml");
    reveal_strlit("yaml");
    assert("md"@ =~= seq!['m', 'd']);
    assert("bib"@ =~= seq!['b', 'i', 'b']);
    assert("yml"@ =~= seq!['y', 'm', 'l']);
    assert("yaml"@ =~= seq!['y', 'a', 'm', 'l']);
}

} // verus!
