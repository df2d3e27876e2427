//! Images the document names by URL: which sites the author allowed, and what
//! came back — every rule of it, and none of the network.
//!
//! **Nothing here fetches.** The fetch, its limits and the worker that carries
//! it are the host's; what is here is the state a compile reads and the line
//! the window draws.
use vstd::prelude::*;

use crate::text::{holds_text, lowered, strings, text_eq};

verus! {

/// What a compile is handed: each finished fetch's bytes, or the reason in the
/// terminal's words, under its URL.
pub type Fetched = Vec<(String, Result<Vec<u8>, String>)>;

/// A finished fetch as the rules see it.
pub type FetchedRow = (Seq<char>, Result<Seq<u8>, Seq<char>>);

/// The rows a [`Fetched`] holds.
pub open spec fn fetched_rows(f: Seq<(String, Result<Vec<u8>, String>)>) -> Seq<FetchedRow> {
    f.map_values(|e: (String, Result<Vec<u8>, String>)| (e.0@, match e.1 {
        Ok(b) => Ok(b@),
        Err(r) => Err(r@),
    }))
}

/// What a compile reads for a URL: the first finished fetch under it.
pub open spec fn fetched_get(f: Seq<FetchedRow>, url: Seq<char>) -> Option<Result<Seq<u8>, Seq<char>>>
    decreases f.len(),
{
    if f.len() == 0 {
        None
    } else if f[0].0 == url {
        Some(f[0].1)
    } else {
        fetched_get(f.drop_first(), url)
    }
}

/// [`fetched_get`], computed.
pub fn fetched(f: &Fetched, url: &str) -> (r: Option<Result<Vec<u8>, String>>)
    ensures
        match fetched_get(fetched_rows(f@), url@) {
            None => r is None,
            Some(Ok(b)) => r matches Some(Ok(x)) && x@ == b,
            Some(Err(e)) => r matches Some(Err(x)) && x@ == e,
        },
{
    let mut i: usize = 0;
    assert(fetched_rows(f@).skip(0) == fetched_rows(f@));
    while i < f.len()
        invariant
            i <= f@.len(),
            fetched_get(fetched_rows(f@), url@) == fetched_get(fetched_rows(f@).skip(i as int), url@),
        decreases f.len() - i,
    {
        let ghost rest = fetched_rows(f@).skip(i as int);
        assert(rest[0] == fetched_rows(f@)[i as int]);
        assert(rest.drop_first() == fetched_rows(f@).skip(i + 1));
        if text_eq(f[i].0.as_str(), url) {
            return match &f[i].1 {
                Ok(b) => {
                    let c = b.clone();
                    assert(c@ =~= b@);
                    Some(Ok(c))
                },
                Err(e) => Some(Err(e.clone())),
            };
        }
        i = i + 1;
    }
    None
}


/// Where a fetch stands after one more landing is put in front of a list.
proof fn lemma_fetched_get_push(f: Seq<FetchedRow>, x: FetchedRow, url: Seq<char>)
    ensures
        fetched_get(f.push(x), url) == match fetched_get(f, url) {
            Some(v) => Some(v),
            None => if x.0 == url {
                Some(x.1)
            } else {
                None
            },
        },
    decreases f.len(),
{
    reveal_with_fuel(fetched_get, 2);
    if f.len() > 0 {
        assert(f.push(x)[0] == f[0]);
        assert(f.push(x).drop_first() =~= f.drop_first().push(x));
        lemma_fetched_get_push(f.drop_first(), x, url);
    } else {
        assert(f.push(x)[0] == x);
        assert(f.push(x).drop_first() =~= Seq::<FetchedRow>::empty());
    }
}

/// Nothing is fetched under a URL no row names.
proof fn lemma_fetched_get_none(f: Seq<FetchedRow>, url: Seq<char>)
    requires
        forall|i: int| 0 <= i < f.len() ==> (#[trigger] f[i]).0 != url,
    ensures
        fetched_get(f, url) is None,
    decreases f.len(),
{
    if f.len() > 0 {
        assert forall|i: int| 0 <= i < f.drop_first().len() implies (#[trigger] f.drop_first()[i]).0 != url by {
            assert(f.drop_first()[i] == f[i + 1]);
        }
        lemma_fetched_get_none(f.drop_first(), url);
    }
}

} // verus!

verus! {

/// The host a URL names, as `http::Uri` reads it, exactly as written.
pub uninterp spec fn uri_host(url: Seq<char>) -> Option<Seq<char>>;

/// `http::Uri`'s parse of a URL, and the host it finds there.
///
/// Trusted: the contract claims only that the answer is the URL's host as
/// [`uri_host`] names it — `None` for a URL the parse refuses or that has no
/// host — which is a function of the URL alone.
#[verifier::external_body]
fn uri_host_of(url: &str) -> (h: Option<String>)
    ensures
        match h {
            Some(x) => uri_host(url@) == Some(x@),
            None => uri_host(url@) is None,
        },
{
    match url.parse::<http::Uri>() {
        Ok(uri) => match uri.host() {
            Some(h) => Some(h.to_string()),
            None => None,
        },
        Err(_) => None,
    }
}

/// The site a URL is on, given the host its parse found: the host
/// lower-cased, or the URL itself when there is none — so a URL with no host
/// is allowed by name and never by accident.
pub open spec fn site_spec(url: Seq<char>, host: Option<Seq<char>>) -> Seq<char> {
    match host {
        Some(h) => lowered(h),
        None => url,
    }
}

/// The site a URL is on.
pub open spec fn site(url: Seq<char>) -> Seq<char> {
    site_spec(url, uri_host(url))
}

/// [`site_spec`], computed from the host a parse found.
pub fn site_of(url: &str, host: Option<String>) -> (s: String)
    ensures
        s@ == site_spec(url@, match host {
            Some(h) => Some(h@),
            None => None,
        }),
{
    match host {
        Some(h) => {
            let low = crate::text::lowered_chars(&crate::text::chars_of(h.as_str()));
            crate::text::string_of(low.as_slice())
        },
        None => crate::text::owned(url),
    }
}

/// The site a URL is on: its host, lower-cased, or the URL itself when it
/// has no host to read.
pub fn host(url: &str) -> (s: String)
    ensures
        s@ == site(url@),
{
    site_of(url, uri_host_of(url))
}

/// Where one URL is, as the rules see it.
pub enum Progress {
    /// Named on an allowed site, and waiting for the host to take it.
    Waiting,
    /// A request is out.
    Fetching,
    /// Back, and not yet on the page: what came back, and which landing.
    Arrived(Result<Seq<u8>, Seq<char>>, u64),
    /// Back, and read by a compile that landed.
    Done(Result<Seq<u8>, Seq<char>>, u64),
}

/// A fetch that came back, and which landing it was.
#[derive(Debug)]
pub struct Landed {
    bytes: Result<Vec<u8>, String>,
    generation: u64,
}

/// Where one URL is, from the moment a compile names it on an allowed site.
/// `Arrived` is bytes no compile has put on the page yet; `Done` is bytes a
/// compile read and landed.
#[derive(Debug)]
pub enum Fetch {
    Waiting,
    Fetching,
    Arrived(Landed),
    Done(Landed),
}

pub open spec fn bytes_view(b: Result<Vec<u8>, String>) -> Result<Seq<u8>, Seq<char>> {
    match b {
        Ok(x) => Ok(x@),
        Err(r) => Err(r@),
    }
}

spec fn progress_of(f: Fetch) -> Progress {
    match f {
        Fetch::Waiting => Progress::Waiting,
        Fetch::Fetching => Progress::Fetching,
        Fetch::Arrived(l) => Progress::Arrived(bytes_view(l.bytes), l.generation),
        Fetch::Done(l) => Progress::Done(bytes_view(l.bytes), l.generation),
    }
}

pub type UrlRow = (Seq<char>, Progress);

spec fn tracked_rows(v: Seq<(String, Fetch)>) -> Seq<UrlRow> {
    v.map_values(|e: (String, Fetch)| (e.0@, progress_of(e.1)))
}

/// The map a list of URLs and where each is spells, when none is listed twice.
pub open spec fn keyed(s: Seq<UrlRow>) -> Map<Seq<char>, Progress> {
    Map::new(
        |k: Seq<char>| exists|i: int| 0 <= i < s.len() && (#[trigger] s[i]).0 == k,
        |k: Seq<char>| s[choose|i: int| 0 <= i < s.len() && (#[trigger] s[i]).0 == k].1,
    )
}

pub open spec fn distinct_keys(s: Seq<UrlRow>) -> bool {
    forall|i: int, j: int| 0 <= i < s.len() && 0 <= j < s.len() && i != j ==> (#[trigger] s[i]).0 != (#[trigger] s[j]).0
}

proof fn lemma_keyed_index(s: Seq<UrlRow>, i: int)
    requires
        distinct_keys(s),
        0 <= i < s.len(),
    ensures
        keyed(s).contains_key(s[i].0),
        keyed(s)[s[i].0] == s[i].1,
{
    let k = s[i].0;
    assert(exists|j: int| 0 <= j < s.len() && (#[trigger] s[j]).0 == k);
    let j = choose|j: int| 0 <= j < s.len() && (#[trigger] s[j]).0 == k;
    assert(j == i);
}

proof fn lemma_keyed_push(s: Seq<UrlRow>, x: UrlRow)
    requires
        distinct_keys(s),
        forall|i: int| 0 <= i < s.len() ==> (#[trigger] s[i]).0 != x.0,
    ensures
        distinct_keys(s.push(x)),
        keyed(s.push(x)) == keyed(s).insert(x.0, x.1),
{
    let t = s.push(x);
    let p = s.len() as int;
    assert(distinct_keys(t));
    assert forall|k: Seq<char>| #[trigger] keyed(t).contains_key(k) == keyed(s).insert(x.0, x.1).contains_key(k) by {
        if keyed(s).contains_key(k) {
            let i = choose|i: int| 0 <= i < s.len() && (#[trigger] s[i]).0 == k;
            assert(t[i].0 == k);
        }
        if k == x.0 {
            assert(t[p].0 == k);
        }
        if keyed(t).contains_key(k) {
            let i = choose|i: int| 0 <= i < t.len() && (#[trigger] t[i]).0 == k;
            if i < p {
                assert(s[i].0 == k);
            }
        }
    }
    assert forall|k: Seq<char>| keyed(t).contains_key(k) implies #[trigger] keyed(t)[k] == keyed(s).insert(x.0, x.1)[k] by {
        let i = choose|i: int| 0 <= i < t.len() && (#[trigger] t[i]).0 == k;
        lemma_keyed_index(t, i);
        if i < p {
            lemma_keyed_index(s, i);
        }
    }
    assert(keyed(t) =~= keyed(s).insert(x.0, x.1));
}

proof fn lemma_keyed_update(s: Seq<UrlRow>, p: int, x: UrlRow)
    requires
        distinct_keys(s),
        0 <= p < s.len(),
        s[p].0 == x.0,
    ensures
        distinct_keys(s.update(p, x)),
        keyed(s.update(p, x)) == keyed(s).insert(x.0, x.1),
{
    let t = s.update(p, x);
    assert(distinct_keys(t));
    assert forall|k: Seq<char>| #[trigger] keyed(t).contains_key(k) == keyed(s).insert(x.0, x.1).contains_key(k) by {
        if keyed(s).contains_key(k) {
            let i = choose|i: int| 0 <= i < s.len() && (#[trigger] s[i]).0 == k;
            assert(t[i].0 == k);
        }
        if k == x.0 {
            assert(t[p].0 == k);
        }
        if keyed(t).contains_key(k) {
            let i = choose|i: int| 0 <= i < t.len() && (#[trigger] t[i]).0 == k;
            assert(s[i].0 == k);
        }
    }
    assert forall|k: Seq<char>| keyed(t).contains_key(k) implies #[trigger] keyed(t)[k] == keyed(s).insert(x.0, x.1)[k] by {
        let i = choose|i: int| 0 <= i < t.len() && (#[trigger] t[i]).0 == k;
        lemma_keyed_index(t, i);
        if i != p {
            lemma_keyed_index(s, i);
        }
    }
    assert(keyed(t) =~= keyed(s).insert(x.0, x.1));
}

proof fn lemma_keyed_remove(s: Seq<UrlRow>, p: int)
    requires
        distinct_keys(s),
        0 <= p < s.len(),
    ensures
        distinct_keys(s.remove(p)),
        keyed(s.remove(p)) == keyed(s).remove(s[p].0),
{
    let t = s.remove(p);
    assert forall|i: int| 0 <= i < t.len() implies #[trigger] t[i] == (if i < p {
        s[i]
    } else {
        s[i + 1]
    }) by {}
    assert(distinct_keys(t));
    let k0 = s[p].0;
    assert forall|k: Seq<char>| #[trigger] keyed(t).contains_key(k) == keyed(s).remove(k0).contains_key(k) by {
        if keyed(s).contains_key(k) && k != k0 {
            let i = choose|i: int| 0 <= i < s.len() && (#[trigger] s[i]).0 == k;
            if i < p {
                assert(t[i].0 == k);
            } else {
                assert(i != p);
                assert(t[i - 1].0 == k);
            }
        }
        if keyed(t).contains_key(k) {
            let i = choose|i: int| 0 <= i < t.len() && (#[trigger] t[i]).0 == k;
            if i < p {
                assert(s[i].0 == k);
            } else {
                assert(s[i + 1].0 == k);
            }
        }
    }
    assert forall|k: Seq<char>| keyed(t).contains_key(k) implies #[trigger] keyed(t)[k] == keyed(s).remove(k0)[k] by {
        let i = choose|i: int| 0 <= i < t.len() && (#[trigger] t[i]).0 == k;
        lemma_keyed_index(t, i);
        if i < p {
            lemma_keyed_index(s, i);
        } else {
            lemma_keyed_index(s, i + 1);
        }
    }
    assert(keyed(t) =~= keyed(s).remove(k0));
}

/// The sites the open project allows, and one state per URL asked about.
///
/// **Consent and the bytes are held apart.** The sites are the open
/// project's and are replaced at every open; the fetches are the process's
/// and survive every open. A compile reads only the bytes on sites the *open*
/// project allows.
#[derive(Debug)]
pub struct Web {
    allowed: Vec<String>,
    fetches: Vec<(String, Fetch)>,
    generation: u64,
}

/// A fresh start: a URL no one has asked about, or a failure a retry may
/// take back.
pub open spec fn starts(m: Map<Seq<char>, Progress>, u: Seq<char>, retry: bool) -> bool {
    !m.contains_key(u) || (retry && (m[u] matches Progress::Done(Err(_), _)))
}

/// What a claim does: every URL on an allowed site, once, that nothing has
/// asked about yet — and with `retry`, every failure too — goes waiting, and
/// is answered.
/// Taken one URL at a time; [`Web::claim`] states the same directly, through
/// [`marked_waiting`] and [`in_order_of`].
pub open spec fn claim_spec(
    sites: Set<Seq<char>>,
    map: Map<Seq<char>, Progress>,
    urls: Seq<Seq<char>>,
    retry: bool,
) -> (Map<Seq<char>, Progress>, Seq<Seq<char>>)
    decreases urls.len(),
{
    if urls.len() == 0 {
        (map, Seq::<Seq<char>>::empty())
    } else {
        let prev = claim_spec(sites, map, urls.drop_last(), retry);
        let u = urls.last();
        if sites.contains(site(u)) && !prev.1.contains(u) && starts(prev.0, u, retry) {
            (prev.0.insert(u, Progress::Waiting), prev.1.push(u))
        } else {
            prev
        }
    }
}

/// The map with every URL of `c` marked waiting, and nothing else moved.
pub open spec fn marked_waiting(map: Map<Seq<char>, Progress>, c: Seq<Seq<char>>) -> Map<Seq<char>, Progress> {
    Map::new(
        |k: Seq<char>| map.contains_key(k) || c.contains(k),
        |k: Seq<char>| if c.contains(k) { Progress::Waiting } else { map[k] },
    )
}

/// `c` keeps the order in which `urls` first names its members: every time a
/// later one is named, an earlier one was named before.
pub open spec fn in_order_of(c: Seq<Seq<char>>, urls: Seq<Seq<char>>) -> bool {
    forall|a: int, b: int, j: int|
        #![trigger c[a], c[b], urls[j]]
        0 <= a < b < c.len() && 0 <= j < urls.len() && urls[j] == c[b] ==> named_before(urls, j, c[a])
}

/// `urls` names `x` somewhere before position `j`.
pub open spec fn named_before(urls: Seq<Seq<char>>, j: int, x: Seq<char>) -> bool {
    exists|i: int| 0 <= i < j && #[trigger] urls[i] == x
}

/// The map with every URL that is arrived at a landing `read` names marked
/// done, and nothing else moved.
pub open spec fn settled(map: Map<Seq<char>, Progress>, read: Seq<(Seq<char>, u64)>) -> Map<Seq<char>, Progress> {
    Map::new(
        |k: Seq<char>| map.contains_key(k),
        |k: Seq<char>| match map[k] {
            Progress::Arrived(b, g) => if read.contains((k, g)) {
                Progress::Done(b, g)
            } else {
                map[k]
            },
            _ => map[k],
        },
    )
}

/// What a promotion does: each URL still arrived at the landing a compile
/// read is done. Taken one read at a time; [`settled`] says the same
/// at once.
pub open spec fn promoted(map: Map<Seq<char>, Progress>, read: Seq<(Seq<char>, u64)>) -> Map<Seq<char>, Progress>
    decreases read.len(),
{
    if read.len() == 0 {
        map
    } else {
        let m = promoted(map, read.drop_last());
        let u = read.last().0;
        let g = read.last().1;
        if m.contains_key(u) {
            match m[u] {
                Progress::Arrived(b, h) => if h == g {
                    m.insert(u, Progress::Done(b, g))
                } else {
                    m
                },
                _ => m,
            }
        } else {
            m
        }
    }
}

/// What a compile may read under a URL: the bytes that came back, if they
/// did, on a site the open project allows.
pub open spec fn ready(sites: Set<Seq<char>>, map: Map<Seq<char>, Progress>, u: Seq<char>) -> Option<Result<Seq<u8>, Seq<char>>> {
    if sites.contains(site(u)) && map.contains_key(u) {
        match map[u] {
            Progress::Arrived(b, _) => Some(b),
            Progress::Done(b, _) => Some(b),
            _ => None,
        }
    } else {
        None
    }
}

/// Which landing a URL's bytes are, if they came back.
pub open spec fn landing(p: Progress) -> Option<u64> {
    match p {
        Progress::Arrived(_, g) => Some(g),
        Progress::Done(_, g) => Some(g),
        _ => None,
    }
}

/// A landing no later than the `n`-th.
pub open spec fn landed_before(p: Progress, n: u64) -> bool {
    match landing(p) {
        Some(g) => g <= n,
        None => true,
    }
}

/// Every URL's bytes, where they came back, are one of the first `n`
/// landings.
pub open spec fn landed_by(m: Map<Seq<char>, Progress>, n: u64) -> bool {
    forall|u: Seq<char>| m.contains_key(u) ==> #[trigger] landed_before(m[u], n)
}

spec fn rows_landed_by(s: Seq<UrlRow>, n: u64) -> bool {
    forall|i: int| 0 <= i < s.len() ==> #[trigger] landed_before(s[i].1, n)
}

proof fn lemma_rows_landed_by(s: Seq<UrlRow>, n: u64)
    requires
        distinct_keys(s),
        rows_landed_by(s, n),
    ensures
        landed_by(keyed(s), n),
{
    assert forall|u: Seq<char>| keyed(s).contains_key(u) implies #[trigger] landed_before(keyed(s)[u], n) by {
        let i = choose|i: int| 0 <= i < s.len() && (#[trigger] s[i]).0 == u;
        lemma_keyed_index(s, i);
    }
}

impl Web {
    #[verifier::type_invariant]
    spec fn well_formed(self) -> bool {
        &&& distinct_keys(tracked_rows(self.fetches@))
        &&& rows_landed_by(tracked_rows(self.fetches@), self.generation)
    }

    /// The sites the open project allows.
    pub closed spec fn allowed_sites(self) -> Set<Seq<char>> {
        strings(self.allowed@).to_set()
    }

    /// Where each URL asked about is.
    pub closed spec fn fetch_map(self) -> Map<Seq<char>, Progress> {
        keyed(tracked_rows(self.fetches@))
    }

    /// How many fetches have landed.
    pub closed spec fn landings(self) -> u64 {
        self.generation
    }

    /// Nothing allowed, nothing asked about.
    pub fn new() -> (w: Web)
        ensures
            w.allowed_sites() == Set::<Seq<char>>::empty(),
            w.fetch_map() == Map::<Seq<char>, Progress>::empty(),
            w.landings() == 0,
    {
        let w = Web { allowed: Vec::new(), fetches: Vec::new(), generation: 0 };
        assert(strings(w.allowed@).to_set() =~= Set::<Seq<char>>::empty());
        assert(keyed(tracked_rows(w.fetches@)) =~= Map::<Seq<char>, Progress>::empty());
        w
    }

    /// Where a URL is in the list, if it is there.
    fn find(&self, url: &str) -> (r: Option<usize>)
        ensures
            match r {
                Some(i) => i < self.fetches@.len() && self.fetches@[i as int].0@ == url@
                    && self.fetch_map().contains_key(url@)
                    && self.fetch_map()[url@] == progress_of(self.fetches@[i as int].1),
                None => !self.fetch_map().contains_key(url@),
            },
    {
        proof { use_type_invariant(self); }
        let ghost rows = tracked_rows(self.fetches@);
        let mut i: usize = 0;
        while i < self.fetches.len()
            invariant
                i <= self.fetches@.len(),
                rows == tracked_rows(self.fetches@),
                distinct_keys(rows),
                forall|j: int| 0 <= j < i ==> (#[trigger] rows[j]).0 != url@,
            decreases self.fetches.len() - i,
        {
            if text_eq(self.fetches[i].0.as_str(), url) {
                proof { lemma_keyed_index(rows, i as int); }
                return Some(i);
            }
            i = i + 1;
        }
        proof {
            if keyed(rows).contains_key(url@) {
                let j = choose|j: int| 0 <= j < rows.len() && (#[trigger] rows[j]).0 == url@;
                assert(rows[j].0 != url@);
            }
        }
        None
    }

    /// Put a URL where this says, over whatever it was.
    fn put(&mut self, url: &str, f: Fetch)
        requires
            landed_before(progress_of(f), old(self).generation),
        ensures
            final(self).fetch_map() == old(self).fetch_map().insert(url@, progress_of(f)),
            final(self).allowed_sites() == old(self).allowed_sites(),
            final(self).landings() == old(self).landings(),
    {
        proof { use_type_invariant(&*self); }
        let found = self.find(url);
        let mut fetches: Vec<(String, Fetch)> = Vec::new();
        std::mem::swap(&mut fetches, &mut self.fetches);
        let ghost pre = tracked_rows(fetches@);
        let ghost fv = progress_of(f);
        match found {
            Some(i) => {
                let key = crate::text::owned(url);
                let (_, _) = fetches.remove(i);
                fetches.insert(i, (key, f));
                proof {
                    assert(tracked_rows(fetches@) =~= pre.update(i as int, (url@, fv)));
                    lemma_keyed_update(pre, i as int, (url@, fv));
                    assert(rows_landed_by(tracked_rows(fetches@), self.generation));
                }
            },
            None => {
                fetches.push((crate::text::owned(url), f));
                proof {
                    assert(tracked_rows(fetches@) =~= pre.push((url@, fv)));
                    assert forall|j: int| 0 <= j < pre.len() implies (#[trigger] pre[j]).0 != url@ by {
                        lemma_keyed_index(pre, j);
                    }
                    lemma_keyed_push(pre, (url@, fv));
                    assert(rows_landed_by(tracked_rows(fetches@), self.generation));
                }
            },
        }
        self.fetches = fetches;
    }

    /// Forget a URL.
    fn forget(&mut self, url: &str)
        ensures
            final(self).fetch_map() == old(self).fetch_map().remove(url@),
            final(self).allowed_sites() == old(self).allowed_sites(),
            final(self).landings() == old(self).landings(),
    {
        proof { use_type_invariant(&*self); }
        match self.find(url) {
            Some(i) => {
                let mut fetches: Vec<(String, Fetch)> = Vec::new();
                std::mem::swap(&mut fetches, &mut self.fetches);
                let ghost pre = tracked_rows(fetches@);
                let _ = fetches.remove(i);
                proof {
                    assert(tracked_rows(fetches@) =~= pre.remove(i as int));
                    lemma_keyed_remove(pre, i as int);
                    assert forall|j: int| 0 <= j < pre.len() - 1 implies #[trigger] landed_before(
                        tracked_rows(fetches@)[j].1,
                        self.generation,
                    ) by {
                        if j < i {
                            assert(landed_before(pre[j].1, self.generation));
                        } else {
                            assert(landed_before(pre[j + 1].1, self.generation));
                        }
                    }
                }
                self.fetches = fetches;
            },
            None => {
                assert(self.fetch_map().remove(url@) =~= self.fetch_map());
            },
        }
    }

    /// The open project's sites, replacing the last project's. The fetches
    /// stay.
    pub fn install(&mut self, allowed: Vec<String>)
        ensures
            final(self).allowed_sites() == strings(allowed@).to_set(),
            final(self).fetch_map() == old(self).fetch_map(),
            final(self).landings() == old(self).landings(),
    {
        proof { use_type_invariant(&*self); }
        self.allowed = allowed;
    }

    /// Does the open project allow the site this URL is on?
    pub fn allows(&self, url: &str) -> (r: bool)
        ensures
            r == self.allowed_sites().contains(site(url@)),
    {
        let h = host(url);
        holds_text(self.allowed.as_slice(), h.as_str())
    }

    /// The sites allowed now, and the sites these URLs are on. Computed rather
    /// than applied, so the host can write the set down before it wears it.
    pub fn widened(&self, urls: &[String]) -> (w: Vec<String>)
        ensures
            strings(w@).to_set() == self.allowed_sites() + strings(urls@).map_values(|u: Seq<char>| site(u)).to_set(),
            crate::text::ascending(strings(w@)),
            strings(w@).no_duplicates(),
    {
        let mut w: Vec<String> = Vec::new();
        let mut i: usize = 0;
        while i < self.allowed.len()
            invariant
                i <= self.allowed@.len(),
                strings(w@) == strings(self.allowed@).subrange(0, i as int),
            decreases self.allowed.len() - i,
        {
            let ghost pre = strings(w@);
            w.push(self.allowed[i].clone());
            assert(strings(w@) =~= pre.push(self.allowed@[i as int]@));
            assert(strings(w@) =~= strings(self.allowed@).subrange(0, i + 1));
            i = i + 1;
        }
        let ghost front = strings(self.allowed@);
        assert(front.subrange(0, front.len() as int) =~= front);
        let ghost sited = strings(urls@).map_values(|u: Seq<char>| site(u));
        let mut j: usize = 0;
        while j < urls.len()
            invariant
                j <= urls@.len(),
                front == strings(self.allowed@),
                sited == strings(urls@).map_values(|u: Seq<char>| site(u)),
                strings(w@) == front + sited.subrange(0, j as int),
            decreases urls.len() - j,
        {
            let ghost pre = strings(w@);
            w.push(host(urls[j].as_str()));
            assert(strings(w@) =~= pre.push(sited[j as int]));
            assert(strings(w@) =~= front + sited.subrange(0, j + 1));
            j = j + 1;
        }
        assert(sited.subrange(0, urls@.len() as int) =~= sited);
        assert(strings(w@).to_set() =~= front.to_set() + sited.to_set()) by {
            assert forall|x: Seq<char>| strings(w@).contains(x) == (front.contains(x) || sited.contains(x)) by {
                if strings(w@).contains(x) {
                    let k = choose|k: int| 0 <= k < strings(w@).len() && strings(w@)[k] == x;
                    if k < front.len() {
                        assert(front[k] == x);
                    } else {
                        assert(sited[k - front.len()] == x);
                    }
                }
                if front.contains(x) {
                    let k = choose|k: int| 0 <= k < front.len() && front[k] == x;
                    assert(strings(w@)[k] == x);
                }
                if sited.contains(x) {
                    let k = choose|k: int| 0 <= k < sited.len() && sited[k] == x;
                    assert(strings(w@)[front.len() + k] == x);
                }
            }
        }
        let set = crate::text::sorted_set(&w);
        proof { crate::text::lemma_ascending_once(strings(set@)); }
        set
    }

    /// Mark every URL on an allowed site that nothing has asked about yet as
    /// waiting, and answer those URLs. With `retry`, a URL whose fetch failed
    /// and landed is asked about again, which is the press.
    pub fn claim(&mut self, urls: &[String], retry: bool) -> (claimed: Vec<String>)
        ensures
            (final(self).fetch_map(), strings(claimed@)) == claim_spec(
                old(self).allowed_sites(),
                old(self).fetch_map(),
                strings(urls@),
                retry,
            ),
            strings(claimed@).no_duplicates(),
            forall|u: Seq<char>| #[trigger] strings(claimed@).contains(u) == (strings(urls@).contains(u)
                && old(self).allowed_sites().contains(site(u)) && starts(old(self).fetch_map(), u, retry)),
            in_order_of(strings(claimed@), strings(urls@)),
            final(self).fetch_map() == marked_waiting(old(self).fetch_map(), strings(claimed@)),
            final(self).allowed_sites() == old(self).allowed_sites(),
            final(self).landings() == old(self).landings(),
    {
        proof { lemma_claim_direct(self.allowed_sites(), self.fetch_map(), strings(urls@), retry); }
        let ghost sites = self.allowed_sites();
        let ghost map0 = self.fetch_map();
        let ghost gen0 = self.landings();
        let ghost us = strings(urls@);
        let mut claimed: Vec<String> = Vec::new();
        let mut i: usize = 0;
        assert(us.subrange(0, 0) =~= Seq::<Seq<char>>::empty());
        while i < urls.len()
            invariant
                i <= urls@.len(),
                us == strings(urls@),
                self.allowed_sites() == sites,
                self.landings() == gen0,
                (self.fetch_map(), strings(claimed@)) == claim_spec(sites, map0, us.subrange(0, i as int), retry),
            decreases urls.len() - i,
        {
            let ghost sub = us.subrange(0, i + 1);
            assert(sub.drop_last() == us.subrange(0, i as int));
            assert(sub.last() == urls@[i as int]@);
            let u = urls[i].as_str();
            if self.allows(u) && !holds_text(claimed.as_slice(), u) {
                let start = match self.find(u) {
                    None => true,
                    Some(k) => match &self.fetches[k].1 {
                        Fetch::Done(l) => match &l.bytes {
                            Err(_) => retry,
                            Ok(_) => false,
                        },
                        _ => false,
                    },
                };
                if start {
                    self.put(u, Fetch::Waiting);
                    let ghost pre = strings(claimed@);
                    claimed.push(urls[i].clone());
                    assert(strings(claimed@) =~= pre.push(u@));
                }
            }
            i = i + 1;
        }
        assert(us.subrange(0, urls@.len() as int) == us);
        claimed
    }

    /// The wait is over: `true` if this URL is to be fetched now. It is, if
    /// it is still waiting, the text still names it, and the open project
    /// allows its site; otherwise its state is dropped.
    pub fn begin(&mut self, url: &str, named: bool) -> (r: bool)
        ensures
            ({
                let m = old(self).fetch_map();
                if !(m.contains_key(url@) && m[url@] is Waiting) {
                    !r && final(self).fetch_map() == m
                } else if named && old(self).allowed_sites().contains(site(url@)) {
                    r && final(self).fetch_map() == m.insert(url@, Progress::Fetching)
                } else {
                    !r && final(self).fetch_map() == m.remove(url@)
                }
            }),
            final(self).allowed_sites() == old(self).allowed_sites(),
            final(self).landings() == old(self).landings(),
    {
        let waiting = match self.find(url) {
            Some(k) => match &self.fetches[k].1 {
                Fetch::Waiting => true,
                _ => false,
            },
            None => false,
        };
        if !waiting {
            return false;
        }
        if named && self.allows(url) {
            self.put(url, Fetch::Fetching);
            true
        } else {
            self.forget(url);
            false
        }
    }

    /// A fetch came back: it is the newest landing, and not yet on the page.
    pub fn land(&mut self, url: &str, result: Result<Vec<u8>, String>)
        requires
            old(self).landings() < u64::MAX,
        ensures
            final(self).landings() == old(self).landings() + 1,
            final(self).fetch_map() == old(self).fetch_map().insert(
                url@,
                Progress::Arrived(bytes_view(result), (old(self).landings() + 1) as u64),
            ),
            final(self).allowed_sites() == old(self).allowed_sites(),
            landed_by(final(self).fetch_map(), final(self).landings()),
    {
        proof { use_type_invariant(&*self); }
        let generation = self.generation + 1;
        proof {
            let rows = tracked_rows(self.fetches@);
            assert forall|i: int| 0 <= i < rows.len() implies #[trigger] landed_before(rows[i].1, generation) by {
                assert(landed_before(rows[i].1, self.generation));
            }
        }
        self.generation = generation;
        self.put(url, Fetch::Arrived(Landed { bytes: result, generation }));
        proof {
            use_type_invariant(&*self);
            lemma_rows_landed_by(tracked_rows(self.fetches@), self.generation);
        }
    }

    /// Is this URL on its way to the page, on a site the open project allows?
    pub fn on_its_way(&self, url: &str) -> (r: bool)
        ensures
            r == (self.fetch_map().contains_key(url@) && match self.fetch_map()[url@] {
                Progress::Waiting | Progress::Fetching | Progress::Arrived(..) => true,
                Progress::Done(..) => false,
            } && self.allowed_sites().contains(site(url@))),
    {
        let moving = match self.find(url) {
            Some(k) => match &self.fetches[k].1 {
                Fetch::Done(_) => false,
                _ => true,
            },
            None => false,
        };
        moving && self.allows(url)
    }

    /// Where this URL is, in a word: `waiting`, `fetching`, `arrived` or
    /// `done`, or nothing when no one has asked about it.
    pub fn stage(&self, url: &str) -> (r: Option<&'static str>)
        ensures
            !self.fetch_map().contains_key(url@) ==> r is None,
            self.fetch_map().contains_key(url@) ==> match self.fetch_map()[url@] {
                Progress::Waiting => r matches Some(s) && s@ == "waiting"@,
                Progress::Fetching => r matches Some(s) && s@ == "fetching"@,
                Progress::Arrived(..) => r matches Some(s) && s@ == "arrived"@,
                Progress::Done(..) => r matches Some(s) && s@ == "done"@,
            },
    {
        match self.find(url) {
            Some(k) => match &self.fetches[k].1 {
                Fetch::Waiting => Some("waiting"),
                Fetch::Fetching => Some("fetching"),
                Fetch::Arrived(_) => Some("arrived"),
                Fetch::Done(_) => Some("done"),
            },
            None => None,
        }
    }

    /// A copy of what came back.
    fn copy_bytes(b: &Result<Vec<u8>, String>) -> (c: Result<Vec<u8>, String>)
        ensures
            bytes_view(c) == bytes_view(*b),
    {
        match b {
            Ok(x) => {
                let y = x.clone();
                assert(y@ =~= x@);
                Ok(y)
            },
            Err(r) => Err(r.clone()),
        }
    }

    /// What one compile reads: every fetch that came back on a site the open
    /// project allows, and which landing each is, so the compile can say
    /// afterwards exactly what it put on the page.
    pub fn finished(&self) -> (r: (Fetched, Vec<(String, u64)>))
        ensures
            forall|u: Seq<char>| #[trigger] fetched_get(fetched_rows(r.0@), u) == ready(
                self.allowed_sites(),
                self.fetch_map(),
                u,
            ),
            forall|u: Seq<char>, g: u64| #[trigger] read_rows(r.1@).contains((u, g)) == (ready(
                self.allowed_sites(),
                self.fetch_map(),
                u,
            ) is Some && landing(self.fetch_map()[u]) == Some(g)),
            r.0@.len() == r.1@.len(),
            forall|j: int| 0 <= j < r.0@.len() ==> #[trigger] r.0@[j].0@ == r.1@[j].0@,
            forall|a: int, b: int| 0 <= a < b < r.0@.len() ==> r.0@[a].0@ != r.0@[b].0@,
            landed_by(self.fetch_map(), self.landings()),
            forall|j: int| 0 <= j < r.1@.len() ==> #[trigger] r.1@[j].1 <= self.landings(),
    {
        proof {
            use_type_invariant(self);
            lemma_rows_landed_by(tracked_rows(self.fetches@), self.generation);
        }
        let ghost rows = tracked_rows(self.fetches@);
        let ghost sites = self.allowed_sites();
        let ghost map = self.fetch_map();
        let mut fetched: Fetched = Vec::new();
        let mut read: Vec<(String, u64)> = Vec::new();
        let mut i: usize = 0;
        while i < self.fetches.len()
            invariant
                i <= self.fetches@.len(),
                rows == tracked_rows(self.fetches@),
                distinct_keys(rows),
                sites == self.allowed_sites(),
                map == self.fetch_map(),
                map == keyed(rows),
                forall|u: Seq<char>| #[trigger] fetched_get(fetched_rows(fetched@), u) == if seen_before(rows, i as int, u) {
                    ready(sites, map, u)
                } else {
                    None
                },
                forall|u: Seq<char>, g: u64| #[trigger] read_rows(read@).contains((u, g)) == (seen_before(rows, i as int, u)
                    && ready(sites, map, u) is Some && landing(map[u]) == Some(g)),
                fetched@.len() == read@.len(),
                forall|j: int| 0 <= j < fetched@.len() ==> #[trigger] fetched@[j].0@ == read@[j].0@,
                forall|j: int| 0 <= j < fetched@.len() ==> seen_before(rows, i as int, #[trigger] fetched@[j].0@),
                forall|a: int, b: int| 0 <= a < b < fetched@.len() ==> fetched@[a].0@ != fetched@[b].0@,
                rows_landed_by(rows, self.generation),
                forall|j: int| 0 <= j < read@.len() ==> #[trigger] read@[j].1 <= self.generation,
            decreases self.fetches.len() - i,
        {
            let ghost k = rows[i as int].0;
            proof {
                lemma_keyed_index(rows, i as int);
                assert(!seen_before(rows, i as int, k));
                assert forall|u: Seq<char>| #[trigger] seen_before(rows, i + 1, u) == (seen_before(rows, i as int, u) || u == k) by {
                    if seen_before(rows, i + 1, u) {
                        let j = choose|j: int| 0 <= j < i + 1 && (#[trigger] rows[j]).0 == u;
                        if j < i {
                            assert(seen_before(rows, i as int, u));
                        }
                    }
                    if u == k {
                        assert(rows[i as int].0 == u);
                    }
                    if seen_before(rows, i as int, u) {
                        let j = choose|j: int| 0 <= j < i && (#[trigger] rows[j]).0 == u;
                        assert(0 <= j < i + 1 && rows[j].0 == u);
                    }
                }
            }
            let url = &self.fetches[i].0;
            let landed: Option<&Landed> = match &self.fetches[i].1 {
                Fetch::Arrived(l) => Some(l),
                Fetch::Done(l) => Some(l),
                _ => None,
            };
            match landed {
                Some(l) => {
                    if self.allows(url.as_str()) {
                        let ghost pre_f = fetched_rows(fetched@);
                        let ghost pre_r = read_rows(read@);
                        let ghost pre_fv = fetched@;
                        fetched.push((url.clone(), Self::copy_bytes(&l.bytes)));
                        read.push((url.clone(), l.generation));
                        proof {
                            assert(landed_before(rows[i as int].1, self.generation));
                            assert(fetched@[pre_fv.len() as int].0@ == k);
                            assert forall|j: int| 0 <= j < pre_fv.len() implies fetched@[j].0@ != k by {
                                assert(fetched@[j] == pre_fv[j]);
                                assert(seen_before(rows, i as int, pre_fv[j].0@));
                            }
                            assert(fetched_rows(fetched@) =~= pre_f.push((k, bytes_view(l.bytes))));
                            assert(read_rows(read@) =~= pre_r.push((k, l.generation)));
                            assert forall|u: Seq<char>| #[trigger] fetched_get(fetched_rows(fetched@), u) == if seen_before(
                                rows,
                                i + 1,
                                u,
                            ) {
                                ready(sites, map, u)
                            } else {
                                None
                            } by {
                                lemma_fetched_get_push(pre_f, (k, bytes_view(l.bytes)), u);
                            }
                            assert forall|u: Seq<char>, g: u64| #[trigger] read_rows(read@).contains((u, g)) == (seen_before(
                                rows,
                                i + 1,
                                u,
                            ) && ready(sites, map, u) is Some && landing(map[u]) == Some(g)) by {
                                if read_rows(read@).contains((u, g)) && (u, g) != (k, l.generation) {
                                    let j = choose|j: int| 0 <= j < read_rows(read@).len() && read_rows(read@)[j] == (u, g);
                                    assert(pre_r[j] == (u, g));
                                }
                                if pre_r.contains((u, g)) {
                                    let j = choose|j: int| 0 <= j < pre_r.len() && pre_r[j] == (u, g);
                                    assert(read_rows(read@)[j] == (u, g));
                                }
                                assert(read_rows(read@)[pre_r.len() as int] == (k, l.generation));
                            }
                        }
                    }
                },
                None => {},
            }
            proof {
                assert forall|j: int| 0 <= j < fetched@.len() implies seen_before(rows, i + 1, #[trigger] fetched@[j].0@) by {
                    if fetched@[j].0@ != k {
                        assert(seen_before(rows, i as int, fetched@[j].0@));
                    }
                }
            }
            i = i + 1;
        }
        proof {
            assert forall|u: Seq<char>| #[trigger] seen_before(rows, rows.len() as int, u) == map.contains_key(u) by {
                if map.contains_key(u) {
                    let j = choose|j: int| 0 <= j < rows.len() && (#[trigger] rows[j]).0 == u;
                    assert(seen_before(rows, rows.len() as int, u));
                }
            }
        }
        (fetched, read)
    }

    /// A landing at `k` moves to done, bytes and all.
    fn settle(&mut self, k: usize)
        requires
            k < old(self).fetches@.len(),
            old(self).fetches@[k as int].1 is Arrived,
        ensures
            final(self).fetch_map() == old(self).fetch_map().insert(
                old(self).fetches@[k as int].0@,
                match progress_of(old(self).fetches@[k as int].1) {
                    Progress::Arrived(b, g) => Progress::Done(b, g),
                    p => p,
                },
            ),
            final(self).allowed_sites() == old(self).allowed_sites(),
            final(self).landings() == old(self).landings(),
    {
        proof { use_type_invariant(&*self); }
        let mut fetches: Vec<(String, Fetch)> = Vec::new();
        std::mem::swap(&mut fetches, &mut self.fetches);
        let ghost pre = tracked_rows(fetches@);
        let (url, f) = fetches.remove(k);
        let done = match f {
            Fetch::Arrived(l) => Fetch::Done(l),
            other => other,
        };
        let ghost x = (url@, progress_of(done));
        fetches.insert(k, (url, done));
        proof {
            assert(tracked_rows(fetches@) =~= pre.update(k as int, x));
            lemma_keyed_update(pre, k as int, x);
            assert(landed_before(pre[k as int].1, self.generation));
            assert(rows_landed_by(tracked_rows(fetches@), self.generation));
        }
        self.fetches = fetches;
    }

    /// A compile that read these landed: what it read is on the page now —
    /// **only at the landing it read**, so an older compile absorbed after a
    /// retry does not clear the line for bytes it never compiled.
    pub fn promote(&mut self, read: &[(String, u64)])
        ensures
            final(self).fetch_map() == promoted(old(self).fetch_map(), read_rows(read@)),
            final(self).fetch_map() == settled(old(self).fetch_map(), read_rows(read@)),
            final(self).allowed_sites() == old(self).allowed_sites(),
            final(self).landings() == old(self).landings(),
    {
        proof { lemma_promoted_direct(self.fetch_map(), read_rows(read@)); }
        let ghost map0 = self.fetch_map();
        let ghost sites = self.allowed_sites();
        let ghost gen0 = self.landings();
        let ghost rr = read_rows(read@);
        let mut i: usize = 0;
        assert(rr.subrange(0, 0) =~= Seq::<(Seq<char>, u64)>::empty());
        while i < read.len()
            invariant
                i <= read@.len(),
                rr == read_rows(read@),
                self.allowed_sites() == sites,
                self.landings() == gen0,
                self.fetch_map() == promoted(map0, rr.subrange(0, i as int)),
            decreases read.len() - i,
        {
            let ghost sub = rr.subrange(0, i + 1);
            assert(sub.drop_last() == rr.subrange(0, i as int));
            assert(sub.last() == rr[i as int]);
            let url = read[i].0.as_str();
            let g = read[i].1;
            match self.find(url) {
                Some(k) => {
                    let here = match &self.fetches[k].1 {
                        Fetch::Arrived(l) => l.generation == g,
                        _ => false,
                    };
                    if here {
                        self.settle(k);
                    }
                },
                None => {},
            }
            i = i + 1;
        }
        assert(rr.subrange(0, read@.len() as int) == rr);
    }

    /// What the page says about the images this document names by URL: the
    /// first of four that applies.
    ///
    /// 1. A URL on a site not allowed: its count and its sites, and the
    ///    button that allows them.
    /// 2. A URL being fetched, or back and not yet on the page: *Fetching*.
    /// 3. A fetch that failed: its count, and **Try again**.
    /// 4. Otherwise nothing — including a URL that is only waiting, which is
    ///    what keeps a URL being typed from flashing a sentence per keystroke.
    pub fn line(&self, urls: &[String]) -> (r: Option<WebLine>)
        ensures
            match line_spec(self.allowed_sites(), self.fetch_map(), strings(urls@)) {
                None => r is None,
                Some(l) => r matches Some(w) && w.sentence@ == l.0 && match l.1 {
                    Some(a) => w.action matches Some(x) && x@ == a,
                    None => w.action is None,
                },
            },
    {
        let ghost sites = self.allowed_sites();
        let ghost map = self.fetch_map();
        let ghost us = strings(urls@);
        let mut blocked: Vec<String> = Vec::new();
        let mut moving: Vec<String> = Vec::new();
        let mut failed: usize = 0;
        let mut i: usize = 0;
        assert(us.subrange(0, 0) =~= Seq::<Seq<char>>::empty());
        while i < urls.len()
            invariant
                i <= urls@.len(),
                us == strings(urls@),
                sites == self.allowed_sites(),
                map == self.fetch_map(),
                strings(blocked@) == not_allowed(sites, us.subrange(0, i as int)),
                strings(moving@) == in_flight(map, us.subrange(0, i as int)),
                failed == failures(map, us.subrange(0, i as int)),
                failed <= i,
            decreases urls.len() - i,
        {
            let ghost sub = us.subrange(0, i + 1);
            assert(sub.drop_last() == us.subrange(0, i as int));
            assert(sub.last() == urls@[i as int]@);
            let u = urls[i].as_str();
            if !self.allows(u) {
                let ghost pre = strings(blocked@);
                blocked.push(urls[i].clone());
                assert(strings(blocked@) =~= pre.push(u@));
            }
            match self.find(u) {
                Some(k) => {
                    match &self.fetches[k].1 {
                        Fetch::Fetching | Fetch::Arrived(_) => {
                            let ghost pre = strings(moving@);
                            moving.push(urls[i].clone());
                            assert(strings(moving@) =~= pre.push(u@));
                        },
                        Fetch::Done(l) => match &l.bytes {
                            Err(_) => {
                                failed = failed + 1;
                            },
                            Ok(_) => {},
                        },
                        Fetch::Waiting => {},
                    }
                },
                None => {},
            }
            i = i + 1;
        }
        assert(us.subrange(0, urls@.len() as int) == us);
        if blocked.len() > 0 {
            let mut sentence = noun_of(blocked.len());
            sentence.append(" on ");
            let listed = listing_of(&sites_of(&blocked));
            sentence.append(listed.as_str());
            if blocked.len() == 1 {
                sentence.append(" is");
            } else {
                sentence.append(" are");
            }
            sentence.append(" not fetched.");
            return Some(WebLine { sentence, action: Some(crate::text::owned("Fetch images from the web")) });
        }
        if moving.len() > 0 {
            let mut sentence = crate::text::owned("Fetching ");
            let n = noun_of(moving.len());
            sentence.append(n.as_str());
            sentence.append(" from ");
            let listed = listing_of(&sites_of(&moving));
            sentence.append(listed.as_str());
            sentence.append("…");
            return Some(WebLine { sentence, action: None });
        }
        if failed > 0 {
            let mut sentence = noun_of(failed);
            sentence.append(" could not be fetched.");
            return Some(WebLine { sentence, action: Some(crate::text::owned("Try again")) });
        }
        None
    }
}


/// Was this URL among the first `i` rows?
pub open spec fn seen_before(rows: Seq<UrlRow>, i: int, u: Seq<char>) -> bool {
    exists|j: int| 0 <= j < i && (#[trigger] rows[j]).0 == u
}

/// The rows of a compile's record of what it read.
pub open spec fn read_rows(v: Seq<(String, u64)>) -> Seq<(Seq<char>, u64)> {
    v.map_values(|e: (String, u64)| (e.0@, e.1))
}

/// The line the page draws above the error: the sentence, and the button's
/// label when there is something to press.
#[derive(Debug, Clone, PartialEq, Eq)]
pub struct WebLine {
    pub sentence: String,
    pub action: Option<String>,
}

/// The URLs on sites not allowed, in order.
pub open spec fn not_allowed(sites: Set<Seq<char>>, urls: Seq<Seq<char>>) -> Seq<Seq<char>>
    decreases urls.len(),
{
    if urls.len() == 0 {
        Seq::<Seq<char>>::empty()
    } else {
        let b = not_allowed(sites, urls.drop_last());
        if sites.contains(site(urls.last())) {
            b
        } else {
            b.push(urls.last())
        }
    }
}

/// The URLs being fetched, or back and not yet on the page, in order.
pub open spec fn in_flight(map: Map<Seq<char>, Progress>, urls: Seq<Seq<char>>) -> Seq<Seq<char>>
    decreases urls.len(),
{
    if urls.len() == 0 {
        Seq::<Seq<char>>::empty()
    } else {
        let m = in_flight(map, urls.drop_last());
        let u = urls.last();
        if map.contains_key(u) && (map[u] is Fetching || map[u] is Arrived) {
            m.push(u)
        } else {
            m
        }
    }
}

/// How many of the URLs came back failed and landed.
pub open spec fn failures(map: Map<Seq<char>, Progress>, urls: Seq<Seq<char>>) -> nat
    decreases urls.len(),
{
    if urls.len() == 0 {
        0
    } else {
        let n = failures(map, urls.drop_last());
        let u = urls.last();
        if map.contains_key(u) && (map[u] matches Progress::Done(Err(_), _)) {
            n + 1
        } else {
            n
        }
    }
}

/// The sites of some URLs, once each, in the order first named.
pub open spec fn distinct_sites(urls: Seq<Seq<char>>) -> Seq<Seq<char>>
    decreases urls.len(),
{
    if urls.len() == 0 {
        Seq::<Seq<char>>::empty()
    } else {
        let d = distinct_sites(urls.drop_last());
        let s = site(urls.last());
        if d.contains(s) {
            d
        } else {
            d.push(s)
        }
    }
}

/// Texts joined with `, `.
pub open spec fn commas(s: Seq<Seq<char>>) -> Seq<char>
    decreases s.len(),
{
    if s.len() == 0 {
        Seq::<char>::empty()
    } else if s.len() == 1 {
        s[0]
    } else {
        commas(s.drop_last()) + ", "@ + s.last()
    }
}

/// A list as a person reads it: `a`, `a and b`, `a, b and c`.
pub open spec fn listing(s: Seq<Seq<char>>) -> Seq<char> {
    if s.len() == 0 {
        Seq::<char>::empty()
    } else if s.len() == 1 {
        s[0]
    } else {
        commas(s.drop_last()) + " and "@ + s.last()
    }
}

/// A count of images, in words.
pub open spec fn noun(n: nat) -> Seq<char> {
    if n == 1 {
        "1 image"@
    } else {
        crate::text::decimal(n) + " images"@
    }
}

/// What the page says about the images a document names by URL: the
/// sentence, and the button beside it.
pub open spec fn line_spec(
    sites: Set<Seq<char>>,
    map: Map<Seq<char>, Progress>,
    urls: Seq<Seq<char>>,
) -> Option<(Seq<char>, Option<Seq<char>>)> {
    let b = not_allowed(sites, urls);
    let mv = in_flight(map, urls);
    let f = failures(map, urls);
    if b.len() > 0 {
        Some((
            noun(b.len()) + " on "@ + listing(distinct_sites(b)) + (if b.len() == 1 {
                " is"@
            } else {
                " are"@
            }) + " not fetched."@,
            Some("Fetch images from the web"@),
        ))
    } else if mv.len() > 0 {
        Some(("Fetching "@ + noun(mv.len()) + " from "@ + listing(distinct_sites(mv)) + "…"@, None))
    } else if f > 0 {
        Some((noun(f) + " could not be fetched."@, Some("Try again"@)))
    } else {
        None
    }
}

/// [`noun`], written out.
fn noun_of(n: usize) -> (s: String)
    ensures
        s@ == noun(n as nat),
{
    if n == 1 {
        crate::text::owned("1 image")
    } else {
        let mut s = crate::text::decimal_of(n as u64);
        s.append(" images");
        s
    }
}

/// [`distinct_sites`], computed.
fn sites_of(urls: &Vec<String>) -> (d: Vec<String>)
    ensures
        strings(d@) == distinct_sites(strings(urls@)),
{
    let ghost us = strings(urls@);
    let mut d: Vec<String> = Vec::new();
    let mut i: usize = 0;
    assert(us.subrange(0, 0) =~= Seq::<Seq<char>>::empty());
    while i < urls.len()
        invariant
            i <= urls@.len(),
            us == strings(urls@),
            strings(d@) == distinct_sites(us.subrange(0, i as int)),
        decreases urls.len() - i,
    {
        let ghost sub = us.subrange(0, i + 1);
        assert(sub.drop_last() == us.subrange(0, i as int));
        assert(sub.last() == urls@[i as int]@);
        let s = host(urls[i].as_str());
        if !holds_text(d.as_slice(), s.as_str()) {
            let ghost pre = strings(d@);
            d.push(s);
            assert(strings(d@) =~= pre.push(site(urls@[i as int]@)));
        }
        i = i + 1;
    }
    assert(us.subrange(0, urls@.len() as int) == us);
    d
}

/// [`commas`] over the first `n` texts, written out.
fn commas_of(s: &Vec<String>, n: usize) -> (c: String)
    requires
        n <= s@.len(),
    ensures
        c@ == commas(strings(s@).subrange(0, n as int)),
{
    if n == 0 {
        assert(strings(s@).subrange(0, 0) =~= Seq::<Seq<char>>::empty());
        return String::new();
    }
    let mut c = s[0].clone();
    let mut i: usize = 1;
    assert(strings(s@).subrange(0, 1) =~= seq![s@[0]@]);
    while i < n
        invariant
            1 <= i <= n,
            n <= s@.len(),
            c@ == commas(strings(s@).subrange(0, i as int)),
        decreases n - i,
    {
        let ghost sub = strings(s@).subrange(0, i + 1);
        assert(sub.drop_last() == strings(s@).subrange(0, i as int));
        assert(sub.last() == s@[i as int]@);
        c.append(", ");
        c.append(s[i].as_str());
        i = i + 1;
    }
    c
}

/// [`listing`], written out.
fn listing_of(s: &Vec<String>) -> (l: String)
    ensures
        l@ == listing(strings(s@)),
{
    if s.len() == 0 {
        String::new()
    } else if s.len() == 1 {
        s[0].clone()
    } else {
        let mut l = commas_of(s, s.len() - 1);
        assert(strings(s@).subrange(0, s@.len() - 1) == strings(s@).drop_last());
        l.append(" and ");
        l.append(s[s.len() - 1].as_str());
        l
    }
}


/// A claim leaves every URL it was handed on an allowed site asked about,
/// and forgets nothing it was asked about before.
proof fn lemma_claim_asks(sites: Set<Seq<char>>, map: Map<Seq<char>, Progress>, urls: Seq<Seq<char>>, retry: bool)
    ensures
        forall|k: Seq<char>| map.contains_key(k) ==> #[trigger] claim_spec(sites, map, urls, retry).0.contains_key(k),
        forall|i: int|
            0 <= i < urls.len() && sites.contains(site(#[trigger] urls[i])) ==> claim_spec(
                sites,
                map,
                urls,
                retry,
            ).0.contains_key(urls[i]),
    decreases urls.len(),
{
    if urls.len() > 0 {
        lemma_claim_asks(sites, map, urls.drop_last(), retry);
        let prev = claim_spec(sites, map, urls.drop_last(), retry);
        assert forall|i: int|
            0 <= i < urls.len() && sites.contains(site(#[trigger] urls[i])) implies claim_spec(
                sites,
                map,
                urls,
                retry,
            ).0.contains_key(urls[i]) by {
            if i < urls.len() - 1 {
                assert(urls.drop_last()[i] == urls[i]);
            } else {
                if prev.1.contains(urls[i]) {
                    lemma_claimed_are_asked(sites, map, urls.drop_last(), retry, urls[i]);
                }
            }
        }
    }
}

/// A claim, said directly: the URLs it answers are, once each and in the
/// order the text first names them, those on an allowed site that start
/// afresh; and it marks exactly those waiting.
proof fn lemma_claim_direct(sites: Set<Seq<char>>, map: Map<Seq<char>, Progress>, urls: Seq<Seq<char>>, retry: bool)
    ensures
        ({
            let (m, c) = claim_spec(sites, map, urls, retry);
            &&& c.no_duplicates()
            &&& forall|u: Seq<char>| #[trigger] c.contains(u) == (urls.contains(u) && sites.contains(site(u)) && starts(map, u, retry))
            &&& m == marked_waiting(map, c)
            &&& in_order_of(c, urls)
        }),
    decreases urls.len(),
{
    if urls.len() == 0 {
        let c = Seq::<Seq<char>>::empty();
        assert(marked_waiting(map, c) =~= map);
    } else {
        let pre = urls.drop_last();
        lemma_claim_direct(sites, map, pre, retry);
        let prev = claim_spec(sites, map, pre, retry);
        let (m0, c0) = prev;
        let u = urls.last();
        let n = urls.len() - 1;
        assert(urls[n] == u);
        assert forall|v: Seq<char>| #[trigger] urls.contains(v) == (pre.contains(v) || v == u) by {
            if urls.contains(v) {
                let j = choose|j: int| 0 <= j < urls.len() && urls[j] == v;
                if j < n {
                    assert(pre[j] == v);
                }
            }
            if pre.contains(v) {
                let j = choose|j: int| 0 <= j < pre.len() && pre[j] == v;
                assert(urls[j] == v);
            }
        }
        if !c0.contains(u) {
            assert(m0.contains_key(u) == map.contains_key(u));
            assert(m0.contains_key(u) ==> m0[u] == map[u]);
            assert(starts(m0, u, retry) == starts(map, u, retry));
        }
        if sites.contains(site(u)) && !c0.contains(u) && starts(m0, u, retry) {
            let c = c0.push(u);
            assert(!pre.contains(u));
            assert(c.no_duplicates()) by {
                assert forall|a: int, b: int| 0 <= a < c.len() && 0 <= b < c.len() && a != b implies c[a] != c[b] by {
                    if a < c0.len() && b < c0.len() {
                    } else if a < c0.len() {
                        assert(c0.contains(c[a]));
                    } else {
                        assert(c0.contains(c[b]));
                    }
                }
            }
            assert forall|v: Seq<char>| #[trigger] c.contains(v) == (c0.contains(v) || v == u) by {
                if c.contains(v) {
                    let j = choose|j: int| 0 <= j < c.len() && c[j] == v;
                    if j < c0.len() {
                        assert(c0[j] == v);
                    }
                }
                if c0.contains(v) {
                    let j = choose|j: int| 0 <= j < c0.len() && c0[j] == v;
                    assert(c[j] == v);
                }
                if v == u {
                    assert(c[c0.len() as int] == v);
                }
            }
            assert(m0.insert(u, Progress::Waiting) =~= marked_waiting(map, c));
            assert forall|a: int, b: int, j: int|
                #![trigger c[a], c[b], urls[j]]
                0 <= a < b < c.len() && 0 <= j < urls.len() && urls[j] == c[b] implies named_before(urls, j, c[a]) by {
                if b < c0.len() {
                    assert(c[b] == c0[b] && c[a] == c0[a]);
                    assert(c0.contains(c0[b]));
                    if j == n {
                        assert(false);
                    }
                    assert(pre[j] == c0[b]);
                    assert(named_before(pre, j, c0[a]));
                    let i = choose|i: int| 0 <= i < j && #[trigger] pre[i] == c0[a];
                    assert(urls[i] == c[a]);
                } else {
                    assert(c[b] == u);
                    if j < n {
                        assert(pre[j] == u);
                        assert(pre.contains(u));
                    }
                    assert(c[a] == c0[a]);
                    assert(c0.contains(c0[a]));
                    assert(pre.contains(c0[a]));
                    let i = choose|i: int| 0 <= i < pre.len() && pre[i] == c0[a];
                    assert(urls[i] == c[a]);
                }
            }
        } else {
            assert forall|a: int, b: int, j: int|
                #![trigger c0[a], c0[b], urls[j]]
                0 <= a < b < c0.len() && 0 <= j < urls.len() && urls[j] == c0[b] implies named_before(urls, j, c0[a]) by {
                if j == n {
                    assert(c0.contains(c0[b]));
                    assert(pre.contains(c0[b]));
                    let j2 = choose|j2: int| 0 <= j2 < pre.len() && pre[j2] == c0[b];
                    assert(named_before(pre, j2, c0[a]));
                    let i = choose|i: int| 0 <= i < j2 && #[trigger] pre[i] == c0[a];
                    assert(urls[i] == c0[a]);
                } else {
                    assert(pre[j] == c0[b]);
                    assert(named_before(pre, j, c0[a]));
                    let i = choose|i: int| 0 <= i < j && #[trigger] pre[i] == c0[a];
                    assert(urls[i] == c0[a]);
                }
            }
        }
    }
}

/// A promotion, said directly: a URL arrived at a landing the compile read
/// is done; nothing else moves.
proof fn lemma_promoted_direct(map: Map<Seq<char>, Progress>, read: Seq<(Seq<char>, u64)>)
    ensures
        promoted(map, read) == settled(map, read),
    decreases read.len(),
{
    if read.len() == 0 {
        assert(settled(map, read) =~= map);
    } else {
        let pre = read.drop_last();
        lemma_promoted_direct(map, pre);
        let n = read.len() - 1;
        let (u, g) = read.last();
        assert(read[n] == (u, g));
        assert forall|x: (Seq<char>, u64)| #[trigger] read.contains(x) == (pre.contains(x) || x == (u, g)) by {
            if read.contains(x) {
                let j = choose|j: int| 0 <= j < read.len() && read[j] == x;
                if j < n {
                    assert(pre[j] == x);
                }
            }
            if pre.contains(x) {
                let j = choose|j: int| 0 <= j < pre.len() && pre[j] == x;
                assert(read[j] == x);
            }
        }
        assert(promoted(map, read) =~= settled(map, read));
    }
}

/// What a claim answered, it left waiting.
proof fn lemma_claimed_are_asked(sites: Set<Seq<char>>, map: Map<Seq<char>, Progress>, urls: Seq<Seq<char>>, retry: bool, u: Seq<char>)
    requires
        claim_spec(sites, map, urls, retry).1.contains(u),
    ensures
        claim_spec(sites, map, urls, retry).0.contains_key(u),
    decreases urls.len(),
{
    if urls.len() > 0 {
        let prev = claim_spec(sites, map, urls.drop_last(), retry);
        if prev.1.contains(u) {
            lemma_claimed_are_asked(sites, map, urls.drop_last(), retry, u);
        }
    }
}

/// Over a map that already asked about every URL on an allowed site, a
/// claim without a retry takes nothing and moves nothing.
proof fn lemma_claim_over_asked(sites: Set<Seq<char>>, map: Map<Seq<char>, Progress>, urls: Seq<Seq<char>>)
    requires
        forall|i: int| 0 <= i < urls.len() && sites.contains(site(#[trigger] urls[i])) ==> map.contains_key(urls[i]),
    ensures
        claim_spec(sites, map, urls, false) == (map, Seq::<Seq<char>>::empty()),
    decreases urls.len(),
{
    if urls.len() > 0 {
        assert forall|i: int| 0 <= i < urls.drop_last().len() && sites.contains(site(#[trigger] urls.drop_last()[i])) implies map.contains_key(
            urls.drop_last()[i],
        ) by {
            assert(urls.drop_last()[i] == urls[i]);
        }
        lemma_claim_over_asked(sites, map, urls.drop_last());
        let u = urls.last();
        assert(sites.contains(site(u)) ==> map.contains_key(urls[urls.len() - 1]));
    }
}

/// **A claim takes an allowed site's URL once.** Claiming the same URLs
/// again, without a retry, takes nothing and moves nothing.
pub proof fn lemma_a_second_claim_takes_nothing(sites: Set<Seq<char>>, map: Map<Seq<char>, Progress>, urls: Seq<Seq<char>>, retry: bool)
    ensures
        claim_spec(sites, claim_spec(sites, map, urls, retry).0, urls, false) == (
            claim_spec(sites, map, urls, retry).0,
            Seq::<Seq<char>>::empty(),
        ),
{
    lemma_claim_asks(sites, map, urls, retry);
    lemma_claim_over_asked(sites, claim_spec(sites, map, urls, retry).0, urls);
}

/// **A promotion is only at the landing read**: bytes that arrived at a
/// landing no compile read stay on their way, whatever older landings are
/// promoted.
pub proof fn lemma_an_older_read_promotes_nothing(
    map: Map<Seq<char>, Progress>,
    read: Seq<(Seq<char>, u64)>,
    u: Seq<char>,
    b: Result<Seq<u8>, Seq<char>>,
    g: u64,
)
    requires
        map.contains_key(u),
        map[u] == Progress::Arrived(b, g),
        !read.contains((u, g)),
    ensures
        promoted(map, read).contains_key(u),
        promoted(map, read)[u] == Progress::Arrived(b, g),
    decreases read.len(),
{
    if read.len() > 0 {
        assert(!read.drop_last().contains((u, g))) by {
            if read.drop_last().contains((u, g)) {
                let j = choose|j: int| 0 <= j < read.drop_last().len() && read.drop_last()[j] == (u, g);
                assert(read[j] == (u, g));
            }
        }
        lemma_an_older_read_promotes_nothing(map, read.drop_last(), u, b, g);
        assert(read.last() != (u, g)) by {
            assert(read[read.len() - 1] == read.last());
        }
    }
}

/// **Try again is offered only once no site waits to be allowed**, so the
/// press it makes allows nothing new; and a URL that is only waiting draws no
/// line at all.
pub proof fn lemma_try_again_allows_nothing_new(
    sites: Set<Seq<char>>,
    map: Map<Seq<char>, Progress>,
    urls: Seq<Seq<char>>,
)
    ensures
        (line_spec(sites, map, urls) matches Some(l) && l.1 == Some("Try again"@)) ==> (not_allowed(sites, urls).len()
            == 0 && in_flight(map, urls).len() == 0),
{
    reveal_strlit("Try again");
    reveal_strlit("Fetch images from the web");
    let t = "Try again"@;
    let f = "Fetch images from the web"@;
    assert(t != f) by {
        assert(t.len() != f.len());
    }
}


impl Default for Web {
    fn default() -> (w: Web)
        ensures
            w.allowed_sites() == Set::<Seq<char>>::empty(),
            w.fetch_map() == Map::<Seq<char>, Progress>::empty(),
            w.landings() == 0,
    {
        Web::new()
    }
}

/// The largest image a fetch takes, in bytes: twenty megabytes.
pub const FETCH_LIMIT: u64 = 20971520;

/// What a fetch that answered outside 2xx is refused with: its code and
/// canonical reason, `404 Not Found`, or the code alone when it has none.
pub fn status_refusal(code: u16, reason: Option<&str>) -> (s: String)
    ensures
        s@ == match reason {
            Some(r) => crate::text::decimal(code as nat) + " "@ + r@,
            None => crate::text::decimal(code as nat),
        },
{
    let mut s = crate::text::decimal_of(code as u64);
    match reason {
        Some(r) => {
            s.append(" ");
            s.append(r);
        },
        None => {},
    }
    s
}

/// What a fetch whose body passes [`FETCH_LIMIT`] is refused with.
pub fn too_large() -> (s: String)
    ensures
        s@ == "larger than "@ + crate::text::decimal(20) + " MB"@,
{
    let mut s = crate::text::owned("larger than ");
    let n = crate::text::decimal_of(FETCH_LIMIT / 1048576);
    assert(FETCH_LIMIT / 1048576 == 20);
    s.append(n.as_str());
    s.append(" MB");
    s
}


/// **Nothing is fetched before the press**: while no URL the document names
/// is on a site its author allowed, a claim takes nothing and moves nothing.
pub proof fn lemma_nothing_is_claimed_off_the_allowed_sites(
    sites: Set<Seq<char>>,
    map: Map<Seq<char>, Progress>,
    urls: Seq<Seq<char>>,
    retry: bool,
)
    requires
        forall|i: int| 0 <= i < urls.len() ==> !sites.contains(site(#[trigger] urls[i])),
    ensures
        claim_spec(sites, map, urls, retry) == (map, Seq::<Seq<char>>::empty()),
    decreases urls.len(),
{
    if urls.len() > 0 {
        assert forall|i: int| 0 <= i < urls.drop_last().len() implies !sites.contains(site(#[trigger] urls.drop_last()[i])) by {
            assert(urls.drop_last()[i] == urls[i]);
        }
        lemma_nothing_is_claimed_off_the_allowed_sites(sites, map, urls.drop_last(), retry);
        assert(!sites.contains(site(urls[urls.len() - 1])));
    }
}

/// **A landing is newer than anything read before it**: when a fetch lands
/// after compiles read landings no later than the count then, the next
/// compile reads its bytes (where the site is allowed) at a landing newer
/// than any of those, and every landing is still within the count.
pub proof fn lemma_a_landing_is_newer_than_any_read(
    sites: Set<Seq<char>>,
    map: Map<Seq<char>, Progress>,
    n: u64,
    earlier: Seq<(Seq<char>, u64)>,
    u: Seq<char>,
    b: Result<Seq<u8>, Seq<char>>,
)
    requires
        landed_by(map, n),
        n < u64::MAX,
        forall|j: int| 0 <= j < earlier.len() ==> #[trigger] earlier[j].1 <= n,
    ensures
        ({
            let after = map.insert(u, Progress::Arrived(b, (n + 1) as u64));
            &&& landed_by(after, (n + 1) as u64)
            &&& sites.contains(site(u)) ==> ready(sites, after, u) == Some(b)
            &&& landing(after[u]) == Some((n + 1) as u64)
            &&& forall|j: int| 0 <= j < earlier.len() ==> #[trigger] earlier[j].1 < landing(after[u])->0
        }),
{
    let after = map.insert(u, Progress::Arrived(b, (n + 1) as u64));
    assert forall|v: Seq<char>| after.contains_key(v) implies #[trigger] landed_before(after[v], (n + 1) as u64) by {
        if v != u {
            assert(landed_before(map[v], n));
        }
    }
}

} // verus!
