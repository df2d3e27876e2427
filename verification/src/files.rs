//! Where a project's files are, and the one door every rule reaches them by.
//!
//! **The rules in this crate never open a file.** They ask a [`MemFiles`], a
//! project held as a map from root-relative path to bytes; a host that keeps
//! its files elsewhere loads them into one. So a refusal, a receipt or a
//! counter is decided once, here, and reaches the window in the same words on
//! every host.
//!
//! **Paths are root-relative, `/`-separated, and the root is the project's own
//! directory, always.**
use vstd::prelude::*;

use crate::path::{dot, dot_dot, is_dot, is_dot_dot, joined, lemma_pieces_joined, lemma_pieces_no_slash, no_slash, pieces, split_slash, join_slash, texts};
use crate::text::{chars_of, string_of};

verus! {

/// A segment that names a file or a folder: not empty, not `.`, not `..`.
pub open spec fn plain(p: Seq<char>) -> bool {
    p.len() > 0 && !is_dot(p) && !is_dot_dot(p)
}

/// The segments of a path resolved against the root: an empty segment and `.`
/// are dropped, `..` takes back the segment before it, and a `..` with nothing
/// before it climbs out of the root, which is `None` from there on.
pub open spec fn resolved(parts: Seq<Seq<char>>) -> Option<Seq<Seq<char>>>
    decreases parts.len(),
{
    if parts.len() == 0 {
        Some(Seq::<Seq<char>>::empty())
    } else {
        match resolved(parts.drop_last()) {
            None => None,
            Some(stack) => {
                let p = parts.last();
                if p.len() == 0 || is_dot(p) {
                    Some(stack)
                } else if is_dot_dot(p) {
                    if stack.len() == 0 {
                        None
                    } else {
                        Some(stack.drop_last())
                    }
                } else {
                    Some(stack.push(p))
                }
            },
        }
    }
}

/// The one spelling of a path: root-relative with every `.` and empty segment
/// gone, or `None` when it is absolute, climbs out of the root, or names
/// nothing at all.
pub open spec fn normal_spec(path: Seq<char>) -> Option<Seq<char>> {
    if path.len() > 0 && path[0] == '/' {
        None
    } else {
        match resolved(pieces(path)) {
            Some(stack) => if stack.len() > 0 {
                Some(joined(stack))
            } else {
                None
            },
            None => None,
        }
    }
}

/// A path already spelled the one way: segments that each name something,
/// with no leading `/`.
pub open spec fn is_normal(path: Seq<char>) -> bool {
    &&& path.len() > 0
    &&& path[0] != '/'
    &&& forall|i: int| 0 <= i < pieces(path).len() ==> plain(#[trigger] pieces(path)[i])
}

/// Every segment of a resolved stack names something and holds no slash.
proof fn lemma_resolved_plain(parts: Seq<Seq<char>>)
    requires
        forall|i: int| 0 <= i < parts.len() ==> no_slash(#[trigger] parts[i]),
        resolved(parts) is Some,
    ensures
        forall|i: int|
            0 <= i < resolved(parts)->0.len() ==> plain(#[trigger] resolved(parts)->0[i])
                && no_slash(resolved(parts)->0[i]),
    decreases parts.len(),
{
    if parts.len() > 0 {
        let init = parts.drop_last();
        assert forall|i: int| 0 <= i < init.len() implies no_slash(#[trigger] init[i]) by {
            assert(init[i] == parts[i]);
        }
        lemma_resolved_plain(init);
    }
}

/// A stack of plain segments resolves to itself.
proof fn lemma_resolved_of_plain(stack: Seq<Seq<char>>)
    requires
        forall|i: int| 0 <= i < stack.len() ==> plain(#[trigger] stack[i]),
    ensures
        resolved(stack) == Some(stack),
    decreases stack.len(),
{
    if stack.len() > 0 {
        let init = stack.drop_last();
        assert forall|i: int| 0 <= i < init.len() implies plain(#[trigger] init[i]) by {
            assert(init[i] == stack[i]);
        }
        lemma_resolved_of_plain(init);
        assert(plain(stack.last()));
        assert(init.push(stack.last()) == stack);
    }
}

/// The first character of a joined path is the first segment's.
proof fn lemma_joined_first(parts: Seq<Seq<char>>)
    requires
        parts.len() >= 1,
        parts[0].len() > 0,
    ensures
        joined(parts).len() > 0,
        joined(parts)[0] == parts[0][0],
    decreases parts.len(),
{
    if parts.len() > 1 {
        let init = parts.drop_last();
        assert(init[0] == parts[0]);
        lemma_joined_first(init);
    }
}

/// **A path is spelled once and never leaves the root.** What `normal` answers
/// is already normal, and it is its own spelling.
pub proof fn lemma_normal_is_a_fixed_point(path: Seq<char>)
    requires
        normal_spec(path) is Some,
    ensures
        is_normal(normal_spec(path)->0),
        normal_spec(normal_spec(path)->0) == normal_spec(path),
{
    let stack = resolved(pieces(path))->0;
    lemma_pieces_no_slash(path);
    lemma_resolved_plain(pieces(path));
    lemma_pieces_joined(stack);
    lemma_resolved_of_plain(stack);
    lemma_joined_first(stack);
    let n = joined(stack);
    assert(pieces(n) == stack);
    assert(n[0] != '/') by {
        assert(no_slash(stack[0]));
        assert(stack[0][0] != '/');
    }
}

/// Which segment marks a spelled path: pushes a plain one, drops `.` and an
/// empty one, and pops for `..`; `false` when that pop has nothing to take.
fn resolve_step(stack: &mut Vec<Vec<char>>, part: Vec<char>) -> (ok: bool)
    ensures
        ({
            let next = if part@.len() == 0 || is_dot(part@) {
                Some(texts(old(stack)@))
            } else if is_dot_dot(part@) {
                if old(stack)@.len() == 0 {
                    None
                } else {
                    Some(texts(old(stack)@).drop_last())
                }
            } else {
                Some(texts(old(stack)@).push(part@))
            };
            &&& ok == next is Some
            &&& ok ==> texts(final(stack)@) == next->0
        }),
{
    if part.len() == 0 || dot(part.as_slice()) {
        true
    } else if dot_dot(part.as_slice()) {
        if stack.len() == 0 {
            false
        } else {
            let ghost pre = stack@;
            stack.pop();
            assert(texts(stack@) =~= texts(pre).drop_last());
            true
        }
    } else {
        let ghost pre = stack@;
        let ghost p = part@;
        stack.push(part);
        assert(texts(stack@) =~= texts(pre).push(p));
        true
    }
}

/// A path spelled root-relatively with every `.` and empty segment gone, or
/// `None` when it is absolute or climbs out of the root.
///
/// **Lexical, because a map has no links to follow.**
pub fn normal(path: &str) -> (spelled: Option<String>)
    ensures
        match spelled {
            Some(s) => normal_spec(path@) == Some(s@),
            None => normal_spec(path@) is None,
        },
{
    let chars = chars_of(path);
    if chars.len() > 0 && chars[0] == '/' {
        return None;
    }
    let parts = split_slash(chars.as_slice());
    let mut stack: Vec<Vec<char>> = Vec::new();
    let mut i: usize = 0;
    while i < parts.len()
        invariant
            i <= parts.len(),
            texts(parts@) == pieces(path@),
            resolved(texts(parts@).subrange(0, i as int)) == Some(texts(stack@)),
        decreases parts.len() - i,
    {
        let ghost upto = texts(parts@).subrange(0, i + 1);
        assert(upto.drop_last() == texts(parts@).subrange(0, i as int));
        assert(upto.last() == parts@[i as int]@);
        let part = parts[i].clone();
        assert(part@ == parts@[i as int]@);
        if !resolve_step(&mut stack, part) {
            assert(resolved(upto) is None);
            proof {
                lemma_resolved_stays_none(texts(parts@), i as int + 1);
            }
            assert(texts(parts@).subrange(0, parts.len() as int) == texts(parts@));
            return None;
        }
        i = i + 1;
    }
    assert(texts(parts@).subrange(0, parts.len() as int) == texts(parts@));
    if stack.len() == 0 {
        return None;
    }
    let joined_chars = join_slash(&stack);
    Some(string_of(joined_chars.as_slice()))
}

/// Once a prefix climbs out of the root, the whole path does.
proof fn lemma_resolved_stays_none(parts: Seq<Seq<char>>, k: int)
    requires
        0 <= k <= parts.len(),
        resolved(parts.subrange(0, k)) is None,
    ensures
        resolved(parts) is None,
    decreases parts.len() - k,
{
    if k == parts.len() {
        assert(parts.subrange(0, k) == parts);
    } else {
        assert(parts.subrange(0, k + 1).drop_last() == parts.subrange(0, k));
        lemma_resolved_stays_none(parts, k + 1);
    }
}

} // verus!

verus! {

/// One file of a project as the rules see it: its path and its bytes.
pub type Held = (Seq<char>, Seq<u8>);

/// The map a list of held files spells, when no path is held twice.
pub open spec fn map_of(s: Seq<Held>) -> Map<Seq<char>, Seq<u8>> {
    Map::new(
        |k: Seq<char>| exists|i: int| 0 <= i < s.len() && (#[trigger] s[i]).0 == k,
        |k: Seq<char>| s[choose|i: int| 0 <= i < s.len() && (#[trigger] s[i]).0 == k].1,
    )
}

/// Every path held sorts strictly before every path after it, in the panel's
/// order: so none is held twice, and the list is the order the panel draws.
pub open spec fn sorted_paths(s: Seq<Held>) -> bool {
    forall|i: int, j: int|
        0 <= i < j < s.len() ==> crate::panel::sorts_before(#[trigger] s[i].0, #[trigger] s[j].0)
}

/// No path held twice.
pub open spec fn distinct_paths(s: Seq<Held>) -> bool {
    forall|i: int, j: int| 0 <= i < s.len() && 0 <= j < s.len() && i != j ==> (#[trigger] s[i]).0 != (#[trigger] s[j]).0
}

proof fn lemma_sorted_distinct(s: Seq<Held>)
    requires
        sorted_paths(s),
    ensures
        distinct_paths(s),
{
    assert forall|i: int, j: int|
        0 <= i < s.len() && 0 <= j < s.len() && i != j implies (#[trigger] s[i]).0 != (#[trigger] s[j]).0 by {
        if i < j {
            crate::panel::lemma_sorts_before(s[i].0, s[j].0, s[j].0);
        } else {
            crate::panel::lemma_sorts_before(s[j].0, s[i].0, s[i].0);
        }
    }
}

/// The entry at an index is in the map, with its own bytes.
proof fn lemma_map_of_index(s: Seq<Held>, i: int)
    requires
        distinct_paths(s),
        0 <= i < s.len(),
    ensures
        map_of(s).contains_key(s[i].0),
        map_of(s)[s[i].0] == s[i].1,
{
    let k = s[i].0;
    assert(exists|j: int| 0 <= j < s.len() && (#[trigger] s[j]).0 == k);
    let j = choose|j: int| 0 <= j < s.len() && (#[trigger] s[j]).0 == k;
    assert(j == i);
}

/// Inserting a path not held grows the map by it.
proof fn lemma_map_of_insert(s: Seq<Held>, p: int, x: Held)
    requires
        distinct_paths(s),
        0 <= p <= s.len(),
        forall|i: int| 0 <= i < s.len() ==> (#[trigger] s[i]).0 != x.0,
    ensures
        distinct_paths(s.insert(p, x)),
        map_of(s.insert(p, x)) == map_of(s).insert(x.0, x.1),
{
    let t = s.insert(p, x);
    assert forall|i: int| 0 <= i < t.len() implies #[trigger] t[i] == (if i < p {
        s[i]
    } else if i == p {
        x
    } else {
        s[i - 1]
    }) by {}
    assert(distinct_paths(t));
    assert forall|k: Seq<char>| #[trigger] map_of(t).contains_key(k) == map_of(s).insert(x.0, x.1).contains_key(k) by {
        if map_of(s).contains_key(k) {
            let i = choose|i: int| 0 <= i < s.len() && (#[trigger] s[i]).0 == k;
            if i < p {
                assert(t[i].0 == k);
            } else {
                assert(t[i + 1].0 == k);
            }
        }
        if k == x.0 {
            assert(t[p].0 == k);
        }
        if map_of(t).contains_key(k) {
            let i = choose|i: int| 0 <= i < t.len() && (#[trigger] t[i]).0 == k;
            if i < p {
                assert(s[i].0 == k);
            } else if i > p {
                assert(s[i - 1].0 == k);
            }
        }
    }
    assert forall|k: Seq<char>| map_of(t).contains_key(k) implies #[trigger] map_of(t)[k] == map_of(s).insert(x.0, x.1)[k] by {
        let i = choose|i: int| 0 <= i < t.len() && (#[trigger] t[i]).0 == k;
        lemma_map_of_index(t, i);
        if i < p {
            lemma_map_of_index(s, i);
        } else if i > p {
            lemma_map_of_index(s, i - 1);
        }
    }
    assert(map_of(t) =~= map_of(s).insert(x.0, x.1));
}

/// Replacing the bytes of a path held replaces them in the map.
proof fn lemma_map_of_update(s: Seq<Held>, p: int, x: Held)
    requires
        distinct_paths(s),
        0 <= p < s.len(),
        s[p].0 == x.0,
    ensures
        distinct_paths(s.update(p, x)),
        map_of(s.update(p, x)) == map_of(s).insert(x.0, x.1),
{
    let t = s.update(p, x);
    assert(distinct_paths(t));
    assert forall|k: Seq<char>| #[trigger] map_of(t).contains_key(k) == map_of(s).insert(x.0, x.1).contains_key(k) by {
        if map_of(s).contains_key(k) {
            let i = choose|i: int| 0 <= i < s.len() && (#[trigger] s[i]).0 == k;
            assert(t[i].0 == k);
        }
        if k == x.0 {
            assert(t[p].0 == k);
        }
        if map_of(t).contains_key(k) {
            let i = choose|i: int| 0 <= i < t.len() && (#[trigger] t[i]).0 == k;
            assert(s[i].0 == k);
        }
    }
    assert forall|k: Seq<char>| map_of(t).contains_key(k) implies #[trigger] map_of(t)[k] == map_of(s).insert(x.0, x.1)[k] by {
        let i = choose|i: int| 0 <= i < t.len() && (#[trigger] t[i]).0 == k;
        lemma_map_of_index(t, i);
        if i != p {
            lemma_map_of_index(s, i);
        }
    }
    assert(map_of(t) =~= map_of(s).insert(x.0, x.1));
}

/// Removing a path held removes it from the map.
proof fn lemma_map_of_remove(s: Seq<Held>, p: int)
    requires
        distinct_paths(s),
        0 <= p < s.len(),
    ensures
        distinct_paths(s.remove(p)),
        map_of(s.remove(p)) == map_of(s).remove(s[p].0),
{
    let t = s.remove(p);
    assert forall|i: int| 0 <= i < t.len() implies #[trigger] t[i] == (if i < p {
        s[i]
    } else {
        s[i + 1]
    }) by {}
    assert(distinct_paths(t));
    let k0 = s[p].0;
    assert forall|k: Seq<char>| #[trigger] map_of(t).contains_key(k) == map_of(s).remove(k0).contains_key(k) by {
        if map_of(s).contains_key(k) && k != k0 {
            let i = choose|i: int| 0 <= i < s.len() && (#[trigger] s[i]).0 == k;
            if i < p {
                assert(t[i].0 == k);
            } else {
                assert(i != p);
                assert(t[i - 1].0 == k);
            }
        }
        if map_of(t).contains_key(k) {
            let i = choose|i: int| 0 <= i < t.len() && (#[trigger] t[i]).0 == k;
            if i < p {
                assert(s[i].0 == k);
            } else {
                assert(s[i + 1].0 == k);
            }
        }
    }
    assert forall|k: Seq<char>| map_of(t).contains_key(k) implies #[trigger] map_of(t)[k] == map_of(s).remove(k0)[k] by {
        let i = choose|i: int| 0 <= i < t.len() && (#[trigger] t[i]).0 == k;
        lemma_map_of_index(t, i);
        if i < p {
            lemma_map_of_index(s, i);
        } else {
            lemma_map_of_index(s, i + 1);
        }
    }
    assert(map_of(t) =~= map_of(s).remove(k0));
}

} // verus!

verus! {

/// What a list of held files is, path by path, as text and bytes.
pub open spec fn held_of(v: Seq<(String, Vec<u8>)>) -> Seq<Held> {
    v.map_values(|e: (String, Vec<u8>)| (e.0@, e.1@))
}

proof fn lemma_sorted_insert(s: Seq<Held>, p: int, x: Held)
    requires
        sorted_paths(s),
        0 <= p <= s.len(),
        forall|j: int| 0 <= j < p ==> crate::panel::sorts_before((#[trigger] s[j]).0, x.0),
        p < s.len() ==> crate::panel::sorts_before(x.0, s[p].0),
    ensures
        sorted_paths(s.insert(p, x)),
{
    let t = s.insert(p, x);
    assert forall|i: int| 0 <= i < t.len() implies #[trigger] t[i] == (if i < p {
        s[i]
    } else if i == p {
        x
    } else {
        s[i - 1]
    }) by {}
    assert forall|i: int, j: int| 0 <= i < j < t.len() implies crate::panel::sorts_before(
        #[trigger] t[i].0,
        #[trigger] t[j].0,
    ) by {
        if i == p && j > p && j - 1 > p {
            crate::panel::lemma_sorts_before(x.0, s[p].0, s[j - 1].0);
        }
        if i < p && j > p {
            assert(crate::panel::sorts_before(s[i].0, s[j - 1].0));
        }
    }
}

proof fn lemma_sorted_remove(s: Seq<Held>, p: int)
    requires
        sorted_paths(s),
        0 <= p < s.len(),
    ensures
        sorted_paths(s.remove(p)),
{
    let t = s.remove(p);
    assert forall|i: int| 0 <= i < t.len() implies #[trigger] t[i] == (if i < p {
        s[i]
    } else {
        s[i + 1]
    }) by {}
    assert forall|i: int, j: int| 0 <= i < j < t.len() implies crate::panel::sorts_before(
        #[trigger] t[i].0,
        #[trigger] t[j].0,
    ) by {
        let (a, b) = (if i < p { i } else { i + 1 }, if j < p { j } else { j + 1 });
        assert(t[i] == s[a] && t[j] == s[b]);
    }
}

/// Why a create or a delete did not happen, before it is a sentence.
///
/// **Typed here and worded by [`Refused::sentence`]**, so the hosts cannot
/// drift.
#[derive(Debug)]
pub enum Refused {
    /// A file being created would land outside the project, or in a folder
    /// that does not exist.
    Landing,
    /// A file being created is already there.
    Exists,
    /// A file being deleted is not under the project.
    Outside,
    /// A file being deleted is not there at all.
    Absent,
    /// A create the store itself failed, with its own reason.
    Unwritten(String),
    /// A host's own sentence, whole.
    Host(String),
}

/// The words the window shows for a refusal.
pub open spec fn refusal_sentence(refused: Refused, path: Seq<char>, located: Seq<char>) -> Seq<char> {
    match refused {
        Refused::Landing => path + " would land outside this project"@,
        Refused::Exists => path + " already exists"@,
        Refused::Outside => path + " is outside this project"@,
        Refused::Absent => path + " is not there"@,
        Refused::Unwritten(e) => "cannot create "@ + located + ": "@ + e@,
        Refused::Host(sentence) => sentence@,
    }
}

impl Refused {
    /// The words the window shows, for a `path` the panel named and the place
    /// [`MemFiles::locate`] says it is.
    pub fn sentence(self, path: &str, located: &str) -> (s: String)
        ensures
            s@ == refusal_sentence(self, path@, located@),
    {
        match self {
            Refused::Landing => crate::text::cat(path, " would land outside this project"),
            Refused::Exists => crate::text::cat(path, " already exists"),
            Refused::Outside => crate::text::cat(path, " is outside this project"),
            Refused::Absent => crate::text::cat(path, " is not there"),
            Refused::Unwritten(e) => {
                let mut s = crate::text::cat("cannot create ", located);
                s.append(": ");
                s.append(e.as_str());
                s
            },
            Refused::Host(sentence) => sentence,
        }
    }
}

/// The reason a path that is not one of the project's files will not read.
pub open spec fn no_such_file() -> Seq<char> {
    "No such file or directory"@
}

/// The reason a Save-as outside the project is refused here.
pub open spec fn outside_this_project() -> Seq<char> {
    "outside this project"@
}

/// The folder a path sits in, spelled as the path spells it, when it names one.
pub open spec fn folder_of(path: Seq<char>) -> Option<Seq<char>> {
    if pieces(path).len() <= 1 {
        None
    } else {
        Some(joined(pieces(path).drop_last()))
    }
}

/// Does a folder hold anything? The root always does.
pub open spec fn folder_holds(files: Map<Seq<char>, Seq<u8>>, path: Seq<char>) -> bool {
    match folder_of(path) {
        None => true,
        Some(folder) => exists|k: Seq<char>| files.contains_key(k) && (folder + seq!['/']).is_prefix_of(k),
    }
}

/// A project held in memory: every file's bytes under its root-relative path.
///
/// **What a browser opens a project into**, and what the rules run over. A
/// directory is never a key: it exists exactly while some file sits in it,
/// which is also how the panel draws one.
#[derive(Debug)]
pub struct MemFiles {
    files: Vec<(String, Vec<u8>)>,
}

impl View for MemFiles {
    type V = Map<Seq<char>, Seq<u8>>;

    closed spec fn view(&self) -> Map<Seq<char>, Seq<u8>> {
        map_of(held_of(self.files@))
    }
}

impl MemFiles {
    /// Every path held, in the panel's order, and none spelled two ways.
    #[verifier::type_invariant]
    closed spec fn well_formed(&self) -> bool {
        &&& sorted_paths(held_of(self.files@))
        &&& forall|i: int| 0 <= i < self.files@.len() ==> is_normal(#[trigger] held_of(self.files@)[i].0)
    }

    /// The paths held, in the panel's order.
    pub closed spec fn paths(&self) -> Seq<Seq<char>> {
        held_of(self.files@).map_values(|h: Held| h.0)
    }

    /// An empty project.
    pub fn empty() -> (m: MemFiles)
        ensures
            m@ == Map::<Seq<char>, Seq<u8>>::empty(),
    {
        let m = MemFiles { files: Vec::new() };
        assert(m@ =~= Map::<Seq<char>, Seq<u8>>::empty());
        m
    }

    /// The index a path is held at, if it is held.
    fn find(&self, key: &str) -> (at: Option<usize>)
        ensures
            match at {
                Some(i) => i < self.files@.len() && held_of(self.files@)[i as int].0 == key@,
                None => !self@.contains_key(key@),
            },
    {
        proof { use_type_invariant(self); }
        let mut i: usize = 0;
        while i < self.files.len()
            invariant
                i <= self.files@.len(),
                forall|j: int| 0 <= j < i ==> held_of(self.files@)[j].0 != key@,
            decreases self.files.len() - i,
        {
            if crate::text::text_eq(self.files[i].0.as_str(), key) {
                return Some(i);
            }
            i = i + 1;
        }
        proof {
            let s = held_of(self.files@);
            if self@.contains_key(key@) {
                let j = choose|j: int| 0 <= j < s.len() && (#[trigger] s[j]).0 == key@;
                assert(s[j].0 == key@);
            }
        }
        None
    }

    /// Hold these bytes under a path already spelled the one way.
    fn put(&mut self, key: String, bytes: Vec<u8>)
        requires
            is_normal(key@),
        ensures
            final(self)@ == old(self)@.insert(key@, bytes@),
    {
        proof { use_type_invariant(&*self); }
        let ghost orig = self@;
        let mut files: Vec<(String, Vec<u8>)> = Vec::new();
        std::mem::swap(&mut files, &mut self.files);
        let ghost s = held_of(files@);
        assert(map_of(s) == orig);
        let ghost x: Held = (key@, bytes@);
        proof { lemma_sorted_distinct(s); }
        let mut i: usize = 0;
        while i < files.len()
            invariant
                i <= files@.len(),
                s == held_of(files@),
                x == (key@, bytes@),
                is_normal(key@),
                map_of(s) == orig,
                orig == old(self)@,
                sorted_paths(s),
                distinct_paths(s),
                forall|j: int| 0 <= j < i ==> crate::panel::sorts_before((#[trigger] s[j]).0, key@),
                forall|j: int| 0 <= j < s.len() ==> is_normal(#[trigger] s[j].0),
            decreases files.len() - i,
        {
            let same = crate::text::text_eq(key.as_str(), files[i].0.as_str());
            assert(s[i as int].0 == files@[i as int].0@);
            proof {
                crate::panel::lemma_sorts_before(key@, s[i as int].0, key@);
            }
            if same {
                proof {
                    lemma_map_of_update(s, i as int, x);
                    assert(held_of(files@.update(i as int, (key, bytes))) =~= s.update(i as int, x));
                    assert(sorted_paths(s.update(i as int, x)));
                }
                files.set(i, (key, bytes));
                self.files = files;
                return;
            }
            if crate::panel::sorts_first(key.as_str(), files[i].0.as_str()) {
                proof {
                    assert forall|j: int| 0 <= j < s.len() implies (#[trigger] s[j]).0 != key@ by {
                        if j > i {
                            crate::panel::lemma_sorts_before(key@, s[i as int].0, s[j].0);
                            crate::panel::lemma_sorts_before(key@, s[j].0, key@);
                        }
                    }
                    lemma_map_of_insert(s, i as int, x);
                    lemma_sorted_insert(s, i as int, x);
                    assert(held_of(files@.insert(i as int, (key, bytes))) =~= s.insert(i as int, x));
                }
                files.insert(i, (key, bytes));
                self.files = files;
                return;
            }
            i = i + 1;
        }
        proof {
            assert forall|j: int| 0 <= j < s.len() implies (#[trigger] s[j]).0 != key@ by {
                crate::panel::lemma_sorts_before(s[j].0, key@, key@);
            }
            lemma_map_of_insert(s, s.len() as int, x);
            lemma_sorted_insert(s, s.len() as int, x);
            assert(held_of(files@.push((key, bytes))) =~= s.insert(s.len() as int, x));
        }
        files.push((key, bytes));
        self.files = files;
    }
}

} // verus!

verus! {

impl Clone for MemFiles {
    /// The same files, held again.
    fn clone(&self) -> (copy: Self)
        ensures
            copy@ == self@,
    {
        proof { use_type_invariant(self); }
        let mut files: Vec<(String, Vec<u8>)> = Vec::new();
        let mut i: usize = 0;
        while i < self.files.len()
            invariant
                i <= self.files@.len(),
                held_of(files@) == held_of(self.files@).subrange(0, i as int),
            decreases self.files.len() - i,
        {
            let path = self.files[i].0.clone();
            let bytes = self.files[i].1.clone();
            assert(bytes@ =~= self.files@[i as int].1@);
            let ghost pre = files@;
            let ghost e: Held = (path@, bytes@);
            files.push((path, bytes));
            assert(held_of(files@) =~= held_of(pre).push(e));
            assert(held_of(self.files@)[i as int] == e);
            assert(held_of(files@) =~= held_of(self.files@).subrange(0, i + 1));
            i = i + 1;
        }
        assert(held_of(self.files@).subrange(0, self.files@.len() as int) == held_of(self.files@));
        MemFiles { files }
    }
}

} // verus!

verus! {

/// What the project files become when these are loaded in order: each path
/// spelled the one way, a later file replacing an earlier one of the same
/// spelling, and a path that is not one of the project's dropped.
pub open spec fn loaded(pairs: Seq<Held>) -> Map<Seq<char>, Seq<u8>>
    decreases pairs.len(),
{
    if pairs.len() == 0 {
        Map::<Seq<char>, Seq<u8>>::empty()
    } else {
        let m = loaded(pairs.drop_last());
        match normal_spec(pairs.last().0) {
            Some(k) => m.insert(k, pairs.last().1),
            None => m,
        }
    }
}

/// The bytes a located path reads, if it names a file held.
pub open spec fn lookup(files: Map<Seq<char>, Seq<u8>>, located: Seq<char>) -> Option<Seq<u8>> {
    match normal_spec(located) {
        Some(k) => if files.contains_key(k) {
            Some(files[k])
        } else {
            None
        },
        None => None,
    }
}

/// Is this path a file of the project?
pub open spec fn holds_spec(files: Map<Seq<char>, Seq<u8>>, path: Seq<char>) -> bool {
    lookup(files, path) is Some
}

/// Does `p` begin `s`?
fn begins(p: &Vec<char>, s: &Vec<char>) -> (r: bool)
    ensures
        r == p@.is_prefix_of(s@),
{
    if p.len() > s.len() {
        return false;
    }
    let mut i: usize = 0;
    while i < p.len()
        invariant
            i <= p.len() <= s.len(),
            forall|k: int| 0 <= k < i ==> p@[k] == s@[k],
        decreases p.len() - i,
    {
        if p[i] != s[i] {
            return false;
        }
        i = i + 1;
    }
    true
}

impl MemFiles {
    /// Take the file at an index out.
    fn take_at(&mut self, at: usize)
        requires
            at < old(self).files@.len(),
        ensures
            final(self)@ == old(self)@.remove(held_of(old(self).files@)[at as int].0),
    {
        proof { use_type_invariant(&*self); }
        let ghost s = held_of(self.files@);
        let mut files: Vec<(String, Vec<u8>)> = Vec::new();
        std::mem::swap(&mut files, &mut self.files);
        proof {
            lemma_sorted_distinct(s);
            lemma_map_of_remove(s, at as int);
            lemma_sorted_remove(s, at as int);
            assert(held_of(files@.remove(at as int)) =~= s.remove(at as int));
            assert forall|i: int| 0 <= i < s.remove(at as int).len() implies is_normal(#[trigger] s.remove(at as int)[i].0) by {
                if i < at {
                    assert(s.remove(at as int)[i] == s[i]);
                } else {
                    assert(s.remove(at as int)[i] == s[i + 1]);
                }
            }
        }
        files.remove(at);
        self.files = files;
    }

    /// A project of these files, keyed as given after [`normal`] spells them.
    /// A path that climbs out of the root is not a file of the project and is
    /// dropped, and a later file replaces an earlier one of the same spelling.
    pub fn new(files: Vec<(String, Vec<u8>)>) -> (m: MemFiles)
        ensures
            m@ == loaded(held_of(files@)),
    {
        let mut m = MemFiles::empty();
        let mut i: usize = 0;
        while i < files.len()
            invariant
                i <= files@.len(),
                m@ == loaded(held_of(files@).subrange(0, i as int)),
            decreases files.len() - i,
        {
            let ghost upto = held_of(files@).subrange(0, i + 1);
            assert(upto.drop_last() == held_of(files@).subrange(0, i as int));
            assert(upto.last() == (files@[i as int].0@, files@[i as int].1@));
            match normal(files[i].0.as_str()) {
                Some(key) => {
                    proof { lemma_normal_is_a_fixed_point(files@[i as int].0@); }
                    let bytes = files[i].1.clone();
                    assert(bytes@ =~= files@[i as int].1@);
                    m.put(key, bytes);
                },
                None => {},
            }
            i = i + 1;
        }
        assert(held_of(files@).subrange(0, files@.len() as int) == held_of(files@));
        m
    }

    /// The reason a path that is not one of the project's files will not read.
    pub fn missing() -> (e: String)
        ensures
            e@ == no_such_file(),
    {
        crate::text::owned("No such file or directory")
    }

    /// Does the folder a path sits in hold anything? The root always does.
    fn folder(&self, path: &str) -> (r: bool)
        ensures
            r == folder_holds(self@, path@),
    {
        proof { use_type_invariant(self); }
        let chars = chars_of(path);
        let mut parts = split_slash(chars.as_slice());
        if parts.len() <= 1 {
            return true;
        }
        let ghost all = texts(parts@);
        parts.pop();
        assert(texts(parts@) =~= all.drop_last());
        let mut prefix = join_slash(&parts);
        prefix.push('/');
        let ghost want = joined(all.drop_last()) + seq!['/'];
        assert(prefix@ =~= want);
        let mut i: usize = 0;
        while i < self.files.len()
            invariant
                i <= self.files@.len(),
                prefix@ == want,
                all == pieces(path@),
                all.len() > 1,
                want == joined(all.drop_last()) + seq!['/'],
                sorted_paths(held_of(self.files@)),
                forall|j: int| 0 <= j < i ==> !want.is_prefix_of(#[trigger] held_of(self.files@)[j].0),
            decreases self.files.len() - i,
        {
            let key = chars_of(self.files[i].0.as_str());
            if begins(&prefix, &key) {
                proof {
                    let s = held_of(self.files@);
                    lemma_sorted_distinct(s);
                    lemma_map_of_index(s, i as int);
                    assert(s[i as int].0 == key@);
                }
                return true;
            }
            i = i + 1;
        }
        proof {
            let s = held_of(self.files@);
            assert forall|k: Seq<char>| self@.contains_key(k) implies !want.is_prefix_of(k) by {
                let j = choose|j: int| 0 <= j < s.len() && (#[trigger] s[j]).0 == k;
                assert(!want.is_prefix_of(s[j].0));
            }
        }
        false
    }

    /// Where a root-relative path is, as a sentence spells it and as
    /// [`MemFiles::read`] takes it back: the path itself.
    pub fn locate(&self, path: &str) -> (located: String)
        ensures
            located@ == path@,
    {
        crate::text::owned(path)
    }

    /// The bytes at a path [`MemFiles::locate`] produced.
    pub fn read(&self, located: &str) -> (bytes: Result<Vec<u8>, String>)
        ensures
            match bytes {
                Ok(b) => lookup(self@, located@) == Some(b@),
                Err(e) => lookup(self@, located@) is None && e@ == no_such_file(),
            },
    {
        proof { use_type_invariant(self); }
        match normal(located) {
            Some(key) => match self.find(key.as_str()) {
                Some(i) => {
                    proof {
                        let s = held_of(self.files@);
                        lemma_sorted_distinct(s);
                        lemma_map_of_index(s, i as int);
                    }
                    let b = self.files[i].1.clone();
                    assert(b@ =~= self.files@[i as int].1@);
                    Ok(b)
                },
                None => Err(Self::missing()),
            },
            None => Err(Self::missing()),
        }
    }

    /// Are these two located paths one file? They are when both spell a path
    /// of the project, and the same one: two paths that are not the project's
    /// files are not one file.
    pub fn same(&self, a: &str, b: &str) -> (r: bool)
        ensures
            r == (normal_spec(a@) is Some && normal_spec(a@) == normal_spec(b@)),
    {
        match (normal(a), normal(b)) {
            (Some(x), Some(y)) => crate::text::text_eq(x.as_str(), y.as_str()),
            _ => false,
        }
    }

    /// Every file in the project, root-relative, in the panel's order.
    pub fn list(&self) -> (paths: Vec<String>)
        ensures
            forall|i: int, j: int|
                0 <= i < j < paths@.len() ==> crate::panel::sorts_before(
                    #[trigger] paths@[i]@,
                    #[trigger] paths@[j]@,
                ),
            forall|i: int| 0 <= i < paths@.len() ==> is_normal(#[trigger] paths@[i]@),
            forall|k: Seq<char>|
                self@.contains_key(k) <==> exists|i: int| 0 <= i < paths@.len() && (#[trigger] paths@[i])@ == k,
            crate::text::strings(paths@) == self.paths(),
    {
        proof { use_type_invariant(self); }
        let ghost s = held_of(self.files@);
        proof { lemma_sorted_distinct(s); }
        let mut paths: Vec<String> = Vec::new();
        let mut i: usize = 0;
        while i < self.files.len()
            invariant
                i <= self.files@.len(),
                s == held_of(self.files@),
                paths@.len() == i,
                forall|j: int| 0 <= j < i ==> (#[trigger] paths@[j])@ == s[j].0,
            decreases self.files.len() - i,
        {
            paths.push(self.files[i].0.clone());
            i = i + 1;
        }
        proof {
            assert(crate::text::strings(paths@) =~= self.paths());
            assert forall|k: Seq<char>| self@.contains_key(k) implies exists|i: int| 0 <= i < paths@.len() && (#[trigger] paths@[i])@ == k by {
                let j = choose|j: int| 0 <= j < s.len() && (#[trigger] s[j]).0 == k;
                assert(paths@[j]@ == k);
            }
            assert forall|k: Seq<char>| (exists|i: int| 0 <= i < paths@.len() && (#[trigger] paths@[i])@ == k) implies self@.contains_key(k) by {
                let j = choose|j: int| 0 <= j < paths@.len() && (#[trigger] paths@[j])@ == k;
                lemma_map_of_index(s, j);
            }
            assert forall|i: int, j: int| 0 <= i < j < paths@.len() implies crate::panel::sorts_before(
                #[trigger] paths@[i]@,
                #[trigger] paths@[j]@,
            ) by {
                assert(crate::panel::sorts_before(s[i].0, s[j].0));
            }
        }
        paths
    }

    /// Is this path a file in the project?
    pub fn holds(&self, path: &str) -> (r: bool)
        ensures
            r == holds_spec(self@, path@),
    {
        match normal(path) {
            Some(key) => self.find(key.as_str()).is_some(),
            None => false,
        }
    }

    /// Write a file, under the path spelled the one way.
    pub fn write(&mut self, path: &str, bytes: &[u8]) -> (r: Result<(), String>)
        ensures
            match normal_spec(path@) {
                Some(k) => r is Ok && final(self)@ == old(self)@.insert(k, bytes@),
                None => r matches Err(e) && e@ == no_such_file() && final(self)@ == old(self)@,
            },
    {
        match normal(path) {
            Some(key) => {
                proof { lemma_normal_is_a_fixed_point(path@); }
                let b = vstd::slice::slice_to_vec(bytes);
                self.put(key, b);
                Ok(())
            },
            None => Err(Self::missing()),
        }
    }
}

} // verus!

verus! {

/// What a create answers, as the rules decide it: where it would land, and
/// whether something is there already.
pub open spec fn create_refusal(files: Map<Seq<char>, Seq<u8>>, path: Seq<char>) -> Option<Refused> {
    match normal_spec(path) {
        None => Some(Refused::Landing),
        Some(k) => if !folder_holds(files, k) {
            Some(Refused::Landing)
        } else if files.contains_key(k) {
            Some(Refused::Exists)
        } else {
            None
        },
    }
}

/// What a delete answers: outside the project, or not there.
pub open spec fn remove_refusal(files: Map<Seq<char>, Seq<u8>>, path: Seq<char>) -> Option<Refused> {
    match normal_spec(path) {
        None => Some(Refused::Outside),
        Some(k) => if files.contains_key(k) {
            None
        } else {
            Some(Refused::Absent)
        },
    }
}

impl MemFiles {
    /// Make one empty file, refusing one that is there already or one whose
    /// folder holds nothing: a create makes no folder.
    pub fn create(&mut self, path: &str) -> (r: Result<(), Refused>)
        ensures
            match create_refusal(old(self)@, path@) {
                Some(refused) => r == Err::<(), Refused>(refused) && final(self)@ == old(self)@,
                None => r is Ok && final(self)@ == old(self)@.insert(
                    normal_spec(path@)->0,
                    Seq::<u8>::empty(),
                ),
            },
    {
        let key = match normal(path) {
            Some(key) => key,
            None => return Err(Refused::Landing),
        };
        proof { lemma_normal_is_a_fixed_point(path@); }
        if !self.folder(key.as_str()) {
            return Err(Refused::Landing);
        }
        if self.find(key.as_str()).is_some() {
            return Err(Refused::Exists);
        }
        let empty: Vec<u8> = Vec::new();
        assert(empty@ =~= Seq::<u8>::empty());
        self.put(key, empty);
        Ok(())
    }

    /// Delete one file.
    pub fn remove(&mut self, path: &str) -> (r: Result<(), Refused>)
        ensures
            match remove_refusal(old(self)@, path@) {
                Some(refused) => r == Err::<(), Refused>(refused) && final(self)@ == old(self)@,
                None => r is Ok && final(self)@ == old(self)@.remove(normal_spec(path@)->0),
            },
    {
        let key = match normal(path) {
            Some(key) => key,
            None => return Err(Refused::Outside),
        };
        match self.find(key.as_str()) {
            Some(i) => {
                self.take_at(i);
                Ok(())
            },
            None => Err(Refused::Absent),
        }
    }

    /// Write where a Save-as pointed, and answer the root-relative spelling:
    /// a path that is not one of the project's is refused here, because a
    /// project in memory has nowhere else to write.
    pub fn save_as(&mut self, path: &str, bytes: &[u8]) -> (r: Result<Option<String>, String>)
        ensures
            match normal_spec(path@) {
                Some(k) => r matches Ok(Some(s)) && s@ == k && final(self)@ == old(self)@.insert(
                    k,
                    bytes@,
                ),
                None => r matches Err(e) && e@ == outside_this_project() && final(self)@ == old(
                    self,
                )@,
            },
    {
        match normal(path) {
            Some(key) => {
                proof { lemma_normal_is_a_fixed_point(path@); }
                let b = vstd::slice::slice_to_vec(bytes);
                let spelled = key.clone();
                self.put(key, b);
                Ok(Some(spelled))
            },
            None => Err(crate::text::owned("outside this project")),
        }
    }
}

} // verus!
