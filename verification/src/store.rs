//! The three files this app keeps in the directory the platform gives it, and
//! what it remembers in them: the main each folder compiles, and the sites
//! each folder allows images to be fetched from.
//!
//! **A missing, unreadable or malformed file is nothing remembered, never an
//! error in the window.** A failed write is reported, where a failed read is
//! not: the author has just asked for it in as many words. The reads and the
//! writes are the host's; what is here is where the files are, what their
//! text means, and the text a write puts there.
use vstd::prelude::*;

use crate::text::{ascending, sorted_set, strings, text_eq};

verus! {

/// The file the mains live in, inside the directory the platform gives this
/// app. Not a dotfile in the author's own folder: the choice does not travel
/// with the files.
pub fn store_file(support: &str) -> (path: String)
    ensures
        path@ == crate::path::join_spec(support@, "projects.json"@),
{
    crate::path::join(support, "projects.json")
}

/// The second file, beside [`store_file`]: what the author asked for that is
/// not about a folder.
pub fn settings_file(support: &str) -> (path: String)
    ensures
        path@ == crate::path::join_spec(support@, "settings.json"@),
{
    crate::path::join(support, "settings.json")
}

/// The third file, beside the other two: which sites each folder's author
/// allowed images to be fetched from.
pub fn sites_file(support: &str) -> (path: String)
    ensures
        path@ == crate::path::join_spec(support@, "sites.json"@),
{
    crate::path::join(support, "sites.json")
}

/// A list of pairs of texts, as the rules see it.
pub open spec fn pairs(v: Seq<(String, String)>) -> Seq<(Seq<char>, Seq<char>)> {
    v.map_values(|e: (String, String)| (e.0@, e.1@))
}

/// A list of texts under texts, as the rules see it.
pub open spec fn listed_pairs(v: Seq<(String, Vec<String>)>) -> Seq<(Seq<char>, Seq<Seq<char>>)> {
    v.map_values(|e: (String, Vec<String>)| (e.0@, strings(e.1@)))
}

/// What `serde_json` reads a JSON object of strings as: its members, by key,
/// in key order — or nothing, for a text that is not such an object.
pub uninterp spec fn json_strings(text: Seq<char>) -> Option<Seq<(Seq<char>, Seq<char>)>>;

/// What `serde_json` reads a JSON object of lists of strings as.
pub uninterp spec fn json_lists(text: Seq<char>) -> Option<Seq<(Seq<char>, Seq<Seq<char>>)>>;

/// The text `serde_json` writes, pretty-printed, for an object of strings
/// with these members, or its error.
pub uninterp spec fn json_strings_text(members: Seq<(Seq<char>, Seq<char>)>) -> Result<Seq<char>, Seq<char>>;

/// The text `serde_json` writes, pretty-printed, for an object of lists of
/// strings with these members, or its error.
pub uninterp spec fn json_lists_text(members: Seq<(Seq<char>, Seq<Seq<char>>)>) -> Result<Seq<char>, Seq<char>>;

/// No key among these members is filed twice.
pub open spec fn keys_once<V>(members: Seq<(Seq<char>, V)>) -> bool {
    forall|i: int, j: int| 0 <= i < j < members.len() ==> (#[trigger] members[i]).0 != (#[trigger] members[j]).0
}

/// `serde_json::from_str` into a `BTreeMap<String, String>`, its members
/// handed back in order.
///
/// Trusted: the contract claims that the answer is what [`json_strings`]
/// names for this text, and that no key comes back twice, as no key is held
/// twice in a `BTreeMap`.
#[verifier::external_body]
fn parse_strings(text: &str) -> (r: Option<Vec<(String, String)>>)
    ensures
        match r {
            Some(v) => json_strings(text@) == Some(pairs(v@)) && keys_once(pairs(v@)),
            None => json_strings(text@) is None,
        },
{
    match serde_json::from_str::<std::collections::BTreeMap<String, String>>(text) {
        Ok(m) => Some(m.into_iter().collect()),
        Err(_) => None,
    }
}

/// `serde_json::from_str` into a `BTreeMap<String, Vec<String>>`, its
/// members handed back in order.
///
/// Trusted: the contract claims that the answer is what [`json_lists`] names
/// for this text, and that no key comes back twice.
#[verifier::external_body]
fn parse_lists(text: &str) -> (r: Option<Vec<(String, Vec<String>)>>)
    ensures
        match r {
            Some(v) => json_lists(text@) == Some(listed_pairs(v@)) && keys_once(listed_pairs(v@)),
            None => json_lists(text@) is None,
        },
{
    match serde_json::from_str::<std::collections::BTreeMap<String, Vec<String>>>(text) {
        Ok(m) => Some(m.into_iter().collect()),
        Err(_) => None,
    }
}

/// `serde_json::to_string_pretty` of a `BTreeMap<String, String>` holding
/// these members.
///
/// Trusted: the contract claims that the answer is what
/// [`json_strings_text`] names for these members, and that a text it writes
/// reads back, through `serde_json::from_str`, as an object filing each key
/// where these members file it: every string is escaped on the way out and
/// unescaped on the way in. It is asked only of members that file no key
/// twice, so collecting them into the map drops nothing.
#[verifier::external_body]
fn write_strings(members: Vec<(String, String)>) -> (r: Result<String, String>)
    requires
        keys_once(pairs(members@)),
    ensures
        match r {
            Ok(t) => json_strings_text(pairs(members@)) == Ok::<Seq<char>, Seq<char>>(t@) && (json_strings(t@) matches Some(m)
                && forall|k: Seq<char>| #[trigger] filed(m, k) == filed(pairs(members@), k)),
            Err(e) => json_strings_text(pairs(members@)) == Err::<Seq<char>, Seq<char>>(e@),
        },
{
    let held: std::collections::BTreeMap<String, String> = members.into_iter().collect();
    serde_json::to_string_pretty(&held).map_err(|e| e.to_string())
}

/// `serde_json::to_string_pretty` of a `BTreeMap<String, Vec<String>>`
/// holding these members.
///
/// Trusted: the contract claims that the answer is what [`json_lists_text`]
/// names for these members, and that a text it writes reads back as an
/// object filing each key where these members file it, on the same terms as
/// [`write_strings`].
#[verifier::external_body]
fn write_lists(members: Vec<(String, Vec<String>)>) -> (r: Result<String, String>)
    requires
        keys_once(listed_pairs(members@)),
    ensures
        match r {
            Ok(t) => json_lists_text(listed_pairs(members@)) == Ok::<Seq<char>, Seq<char>>(t@) && (json_lists(t@) matches Some(m)
                && forall|k: Seq<char>| #[trigger] filed(m, k) == filed(listed_pairs(members@), k)),
            Err(e) => json_lists_text(listed_pairs(members@)) == Err::<Seq<char>, Seq<char>>(e@),
        },
{
    let held: std::collections::BTreeMap<String, Vec<String>> = members.into_iter().collect();
    serde_json::to_string_pretty(&held).map_err(|e| e.to_string())
}

/// The value filed under a key, if one is.
pub open spec fn filed<V>(members: Seq<(Seq<char>, V)>, key: Seq<char>) -> Option<V>
    decreases members.len(),
{
    if members.len() == 0 {
        None
    } else if members[0].0 == key {
        Some(members[0].1)
    } else {
        filed(members.drop_first(), key)
    }
}

/// Members with one key filed anew: the value replaced where the key is, or
/// the pair added at the end.
pub open spec fn refiled<V>(members: Seq<(Seq<char>, V)>, key: Seq<char>, value: V) -> Seq<(Seq<char>, V)>
    decreases members.len(),
{
    if members.len() == 0 {
        seq![(key, value)]
    } else if members[0].0 == key {
        seq![(key, value)] + members.drop_first()
    } else {
        seq![members[0]] + refiled(members.drop_first(), key, value)
    }
}

/// What a store's text remembers under a key: nothing, for a file that will
/// not read or will not parse.
pub open spec fn read_override_spec(text: Option<Seq<char>>, key: Seq<char>) -> Option<Seq<char>> {
    match text {
        None => None,
        Some(t) => match json_strings(t) {
            None => None,
            Some(m) => filed(m, key),
        },
    }
}

/// Which file a root is remembered as compiling, given the store's text if it
/// read and the key the root is filed under.
pub fn read_override(text: Option<&str>, key: &str) -> (main: Option<String>)
    ensures
        match read_override_spec(match text {
            Some(t) => Some(t@),
            None => None,
        }, key@) {
            Some(m) => main matches Some(x) && x@ == m,
            None => main is None,
        },
{
    let t = match text {
        Some(t) => t,
        None => return None,
    };
    let members = match parse_strings(t) {
        Some(m) => m,
        None => return None,
    };
    let ghost all = pairs(members@);
    let ghost want = read_override_spec(Some(t@), key@);
    assert(want == filed(all, key@));
    let mut i: usize = 0;
    assert(all.skip(0) =~= all);
    while i < members.len()
        invariant
            i <= members@.len(),
            all == pairs(members@),
            want == filed(all.skip(i as int), key@),
            text == Some(t),
            want == read_override_spec(Some(t@), key@),
        decreases members.len() - i,
    {
        assert(all.skip(i as int)[0] == all[i as int]);
        assert(all[i as int] == (members@[i as int].0@, members@[i as int].1@));
        assert(all.skip(i as int).drop_first() =~= all.skip(i + 1));
        if text_eq(members[i].0.as_str(), key) {
            return Some(members[i].1.clone());
        }
        i = i + 1;
    }
    None
}

/// File `value` under `key` among the members of an object of strings.
fn refile_strings(members: Vec<(String, String)>, key: &str, value: String) -> (out: Vec<(String, String)>)
    ensures
        pairs(out@) == refiled(pairs(members@), key@, value@),
{
    let ghost start = pairs(members@);
    let n = members.len();
    let mut rest = members;
    let mut front: Vec<(String, String)> = Vec::new();
    let mut i: usize = 0;
    while rest.len() > 0
        invariant
            i + rest@.len() == start.len(),
            start.len() == n,
            start == pairs(members@),
            pairs(front@) == start.subrange(0, i as int),
            pairs(rest@) == start.skip(i as int),
            forall|j: int| 0 <= j < i ==> start[j].0 != key@,
        decreases rest.len(),
    {
        let ghost r0 = pairs(rest@);
        let (k, v) = rest.remove(0);
        assert(pairs(rest@) =~= r0.drop_first());
        assert(r0[0] == (k@, v@));
        assert(start[i as int] == r0[0]);
        if text_eq(k.as_str(), key) {
            proof {
                lemma_refiled_at(start, key@, value@, i as int);
            }
            let ghost f = pairs(front@);
            front.push((k, value));
            let ghost f2 = pairs(front@);
            assert(f2 =~= f.push((key@, value@)));
            let ghost r = pairs(rest@);
            front.append(&mut rest);
            assert(pairs(front@) =~= f2 + r);
            assert(r =~= start.skip(i + 1));
            return front;
        }
        let ghost f = pairs(front@);
        front.push((k, v));
        assert(pairs(front@) =~= start.subrange(0, i + 1));
        assert(pairs(rest@) =~= start.skip(i + 1));
        i = i + 1;
    }
    proof {
        lemma_refiled_end(start, key@, value@);
    }
    let ghost f = pairs(front@);
    front.push((crate::text::owned(key), value));
    assert(pairs(front@) =~= f.push((key@, value@)));
    assert(start.subrange(0, start.len() as int) =~= start);
    front
}

/// File `value` under `key` among the members of an object of lists.
fn refile_lists(members: Vec<(String, Vec<String>)>, key: &str, value: Vec<String>) -> (out: Vec<(String, Vec<String>)>)
    ensures
        listed_pairs(out@) == refiled(listed_pairs(members@), key@, strings(value@)),
{
    let ghost start = listed_pairs(members@);
    let ghost vv = strings(value@);
    let n = members.len();
    let mut rest = members;
    let mut front: Vec<(String, Vec<String>)> = Vec::new();
    let mut i: usize = 0;
    while rest.len() > 0
        invariant
            i + rest@.len() == start.len(),
            start.len() == n,
            start == listed_pairs(members@),
            vv == strings(value@),
            listed_pairs(front@) == start.subrange(0, i as int),
            listed_pairs(rest@) == start.skip(i as int),
            forall|j: int| 0 <= j < i ==> start[j].0 != key@,
        decreases rest.len(),
    {
        let ghost r0 = listed_pairs(rest@);
        let (k, v) = rest.remove(0);
        assert(listed_pairs(rest@) =~= r0.drop_first());
        assert(r0[0] == (k@, strings(v@)));
        assert(start[i as int] == r0[0]);
        if text_eq(k.as_str(), key) {
            proof {
                lemma_refiled_at(start, key@, vv, i as int);
            }
            let ghost f = listed_pairs(front@);
            front.push((k, value));
            let ghost f2 = listed_pairs(front@);
            assert(f2 =~= f.push((key@, vv)));
            let ghost r = listed_pairs(rest@);
            front.append(&mut rest);
            assert(listed_pairs(front@) =~= f2 + r);
            assert(r =~= start.skip(i + 1));
            return front;
        }
        let ghost f = listed_pairs(front@);
        front.push((k, v));
        assert(listed_pairs(front@) =~= start.subrange(0, i + 1));
        assert(listed_pairs(rest@) =~= start.skip(i + 1));
        i = i + 1;
    }
    proof {
        lemma_refiled_end(start, key@, vv);
    }
    let ghost f = listed_pairs(front@);
    front.push((crate::text::owned(key), value));
    assert(listed_pairs(front@) =~= f.push((key@, vv)));
    assert(start.subrange(0, start.len() as int) =~= start);
    front
}

proof fn lemma_refiled_at<V>(s: Seq<(Seq<char>, V)>, key: Seq<char>, value: V, i: int)
    requires
        0 <= i < s.len(),
        s[i].0 == key,
        forall|j: int| 0 <= j < i ==> s[j].0 != key,
    ensures
        refiled(s, key, value) == s.subrange(0, i).push((key, value)) + s.skip(i + 1),
    decreases i,
{
    if i == 0 {
        assert(s.subrange(0, 0).push((key, value)) =~= seq![(key, value)]);
        assert(s.skip(1) =~= s.drop_first());
    } else {
        lemma_refiled_at(s.drop_first(), key, value, i - 1);
        assert(s.subrange(0, i).push((key, value)) + s.skip(i + 1) =~= seq![s[0]] + (
        s.drop_first().subrange(0, i - 1).push((key, value)) + s.drop_first().skip(i)));
    }
}

proof fn lemma_refiled_end<V>(s: Seq<(Seq<char>, V)>, key: Seq<char>, value: V)
    requires
        forall|j: int| 0 <= j < s.len() ==> s[j].0 != key,
    ensures
        refiled(s, key, value) == s.push((key, value)),
    decreases s.len(),
{
    if s.len() == 0 {
        assert(seq![(key, value)] =~= s.push((key, value)));
    } else {
        assert(s[0].0 != key);
        lemma_refiled_end(s.drop_first(), key, value);
        assert(seq![s[0]] + s.drop_first().push((key, value)) =~= s.push((key, value)));
    }
}


/// Some member files this key.
pub open spec fn has_key<V>(members: Seq<(Seq<char>, V)>, k: Seq<char>) -> bool {
    exists|i: int| 0 <= i < members.len() && (#[trigger] members[i]).0 == k
}

/// Filing a key anew files it with the new value, leaves every other key as
/// it was, and files no key twice where none was.
proof fn lemma_refiled_filed<V>(s: Seq<(Seq<char>, V)>, key: Seq<char>, value: V)
    ensures
        filed(refiled(s, key, value), key) == Some(value),
        forall|k: Seq<char>| k != key ==> #[trigger] filed(refiled(s, key, value), k) == filed(s, k),
        forall|k: Seq<char>| #[trigger] has_key(refiled(s, key, value), k) ==> (k == key || has_key(s, k)),
        keys_once(s) ==> keys_once(refiled(s, key, value)),
    decreases s.len(),
{
    let r = refiled(s, key, value);
    if s.len() == 0 {
        assert(r.drop_first() =~= Seq::<(Seq<char>, V)>::empty());
        assert forall|k: Seq<char>| k != key implies #[trigger] filed(r, k) == filed(s, k) by {
            assert(filed(r.drop_first(), k) is None);
        }
    } else if s[0].0 == key {
        let rest = s.drop_first();
        assert(r.drop_first() =~= rest);
        assert forall|k: Seq<char>| k != key implies #[trigger] filed(r, k) == filed(s, k) by {
            assert(filed(r, k) == filed(rest, k));
        }
        assert forall|k: Seq<char>| has_key(r, k) implies (k == key || has_key(s, k)) by {
            let i = choose|i: int| 0 <= i < r.len() && (#[trigger] r[i]).0 == k;
            if i > 0 {
                assert(s[i].0 == k);
            }
        }
        if keys_once(s) {
            assert forall|i: int, j: int| 0 <= i < j < r.len() implies (#[trigger] r[i]).0 != (#[trigger] r[j]).0 by {
                assert(s[i].0 != s[j].0);
            }
        }
    } else {
        let rest = s.drop_first();
        lemma_refiled_filed(rest, key, value);
        let rr = refiled(rest, key, value);
        assert(r == seq![s[0]] + rr);
        assert(r.drop_first() =~= rr);
        assert forall|k: Seq<char>| k != key implies #[trigger] filed(r, k) == filed(s, k) by {
            if k != s[0].0 {
                assert(filed(r, k) == filed(rr, k));
                assert(filed(rr, k) == filed(rest, k));
            }
        }
        assert forall|k: Seq<char>| has_key(r, k) implies (k == key || has_key(s, k)) by {
            let i = choose|i: int| 0 <= i < r.len() && (#[trigger] r[i]).0 == k;
            if i == 0 {
                assert(s[0].0 == k);
            } else {
                assert(rr[i - 1].0 == k);
                assert(has_key(rr, k));
                if k != key {
                    let j = choose|j: int| 0 <= j < rest.len() && (#[trigger] rest[j]).0 == k;
                    assert(s[j + 1].0 == k);
                }
            }
        }
        if keys_once(s) {
            assert(keys_once(rest)) by {
                assert forall|i: int, j: int| 0 <= i < j < rest.len() implies (#[trigger] rest[i]).0 != (#[trigger] rest[j]).0 by {
                    assert(s[i + 1].0 != s[j + 1].0);
                }
            }
            assert forall|i: int, j: int| 0 <= i < j < r.len() implies (#[trigger] r[i]).0 != (#[trigger] r[j]).0 by {
                if i == 0 {
                    assert(rr[j - 1].0 == r[j].0);
                    if r[j].0 == s[0].0 {
                        assert(has_key(rr, s[0].0));
                        let q = choose|q: int| 0 <= q < rest.len() && (#[trigger] rest[q]).0 == s[0].0;
                        assert(s[q + 1].0 == s[0].0);
                    }
                } else {
                    assert(rr[i - 1].0 != rr[j - 1].0);
                }
            }
        }
    }
}

/// The members a store's text holds: none, for a file that will not read or
/// will not parse — a malformed store is nothing remembered.
pub open spec fn held_strings(text: Option<Seq<char>>) -> Seq<(Seq<char>, Seq<char>)> {
    match text {
        Some(t) => match json_strings(t) {
            Some(m) => m,
            None => Seq::empty(),
        },
        None => Seq::empty(),
    }
}

/// The members a sites file's text holds, on the same terms.
pub open spec fn held_lists(text: Option<Seq<char>>) -> Seq<(Seq<char>, Seq<Seq<char>>)> {
    match text {
        Some(t) => match json_lists(t) {
            Some(m) => m,
            None => Seq::empty(),
        },
        None => Seq::empty(),
    }
}

pub open spec fn opt_view(text: Option<&str>) -> Option<Seq<char>> {
    match text {
        Some(t) => Some(t@),
        None => None,
    }
}

/// The text a write of the store puts in `store`: what it held, with this
/// root filed as compiling `main`; or why the text could not be made.
pub fn with_override(text: Option<&str>, store: &str, key: &str, main: &str) -> (r: Result<String, String>)
    ensures
        match json_strings_text(refiled(held_strings(opt_view(text)), key@, main@)) {
            Ok(t) => r matches Ok(x) && x@ == t,
            Err(e) => r matches Err(x) && x@ == "cannot write "@ + store@ + ": "@ + e,
        },
        r matches Ok(x) ==> read_override_spec(Some(x@), key@) == Some(main@),
        r matches Ok(x) ==> forall|k: Seq<char>| k != key@ ==> #[trigger] read_override_spec(Some(x@), k)
            == read_override_spec(opt_view(text), k),
{
    let held = match text {
        Some(t) => match parse_strings(t) {
            Some(m) => m,
            None => no_members(),
        },
        None => no_members(),
    };
    let ghost before = pairs(held@);
    assert(before == held_strings(opt_view(text)));
    let members = refile_strings(held, key, crate::text::owned(main));
    proof {
        lemma_refiled_filed(before, key@, main@);
        assert forall|k: Seq<char>| #[trigger] read_override_spec(opt_view(text), k) == filed(before, k) by {
            assert(filed(Seq::<(Seq<char>, Seq<char>)>::empty(), k) is None);
        }
    }
    match write_strings(members) {
        Ok(t) => Ok(t),
        Err(e) => {
            let mut m = crate::text::cat("cannot write ", store);
            m.append(": ");
            m.append(e.as_str());
            Err(m)
        },
    }
}

/// The sites a root's author allowed, given the sites file's text if it read
/// and the key the root is filed under: none, for a file that will not read
/// or will not parse.
pub fn read_sites(text: Option<&str>, key: &str) -> (sites: Vec<String>)
    ensures
        strings(sites@).to_set() == match filed(held_lists(opt_view(text)), key@) {
            Some(l) => l.to_set(),
            None => Set::<Seq<char>>::empty(),
        },
        ascending(strings(sites@)),
{
    let members = match text {
        Some(t) => match parse_lists(t) {
            Some(m) => m,
            None => no_members(),
        },
        None => no_members(),
    };
    let ghost all = listed_pairs(members@);
    let ghost want = filed(held_lists(opt_view(text)), key@);
    assert(want == filed(all, key@));
    let mut i: usize = 0;
    assert(all.skip(0) =~= all);
    while i < members.len()
        invariant
            i <= members@.len(),
            all == listed_pairs(members@),
            want == filed(all.skip(i as int), key@),
            want == filed(held_lists(opt_view(text)), key@),
        decreases members.len() - i,
    {
        assert(all.skip(i as int)[0] == all[i as int]);
        assert(all[i as int] == (members@[i as int].0@, strings(members@[i as int].1@)));
        assert(all.skip(i as int).drop_first() =~= all.skip(i + 1));
        if text_eq(members[i].0.as_str(), key) {
            return sorted_set(&members[i].1);
        }
        i = i + 1;
    }
    let none: Vec<String> = Vec::new();
    assert(strings(none@).to_set() =~= Set::<Seq<char>>::empty());
    none
}

/// The text a write of the sites file puts in `sites`: what it held, with
/// this root filed as allowing exactly `allowed` — a set, so its members come
/// in order, once each; or why the text could not be made.
pub fn with_sites(text: Option<&str>, sites: &str, key: &str, allowed: &[String]) -> (r: Result<String, String>)
    requires
        ascending(strings(allowed@)),
    ensures
        match json_lists_text(refiled(held_lists(opt_view(text)), key@, strings(allowed@))) {
            Ok(t) => r matches Ok(x) && x@ == t,
            Err(e) => r matches Err(x) && x@ == "cannot write "@ + sites@ + ": "@ + e,
        },
        r matches Ok(x) ==> filed(held_lists(Some(x@)), key@) == Some(strings(allowed@)),
        r matches Ok(x) ==> forall|k: Seq<char>| k != key@ ==> #[trigger] filed(held_lists(Some(x@)), k)
            == filed(held_lists(opt_view(text)), k),
{
    let held = match text {
        Some(t) => match parse_lists(t) {
            Some(m) => m,
            None => no_members(),
        },
        None => no_members(),
    };
    let mut list: Vec<String> = Vec::new();
    let mut i: usize = 0;
    while i < allowed.len()
        invariant
            i <= allowed@.len(),
            strings(list@) == strings(allowed@).subrange(0, i as int),
        decreases allowed.len() - i,
    {
        let ghost pre = strings(list@);
        list.push(allowed[i].clone());
        assert(strings(list@) =~= pre.push(allowed@[i as int]@));
        assert(strings(list@) =~= strings(allowed@).subrange(0, i + 1));
        i = i + 1;
    }
    assert(strings(allowed@).subrange(0, allowed@.len() as int) =~= strings(allowed@));
    let ghost before = listed_pairs(held@);
    assert(before == held_lists(opt_view(text)));
    let members = refile_lists(held, key, list);
    proof { lemma_refiled_filed(before, key@, strings(allowed@)); }
    match write_lists(members) {
        Ok(t) => Ok(t),
        Err(e) => {
            let mut m = crate::text::cat("cannot write ", sites);
            m.append(": ");
            m.append(e.as_str());
            Err(m)
        },
    }
}

fn no_members<V>() -> (v: Vec<(String, V)>)
    ensures
        v@.len() == 0,
{
    Vec::new()
}

} // verus!
