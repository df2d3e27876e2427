//! Paths as this crate spells them: `/`-separated text, read segment by
//! segment.
use vstd::prelude::*;

verus! {

/// `s.split('/')`: the pieces between the slashes, empty ones included, so
/// there is always at least one.
pub open spec fn pieces(s: Seq<char>) -> Seq<Seq<char>>
    decreases s.len(),
{
    if s.len() == 0 {
        seq![Seq::<char>::empty()]
    } else {
        let init = pieces(s.drop_last());
        if s.last() == '/' {
            init.push(Seq::<char>::empty())
        } else {
            init.update(init.len() - 1, init.last().push(s.last()))
        }
    }
}

/// The pieces put back together with a `/` between each two.
pub open spec fn joined(parts: Seq<Seq<char>>) -> Seq<char>
    decreases parts.len(),
{
    if parts.len() == 0 {
        Seq::<char>::empty()
    } else if parts.len() == 1 {
        parts[0]
    } else {
        joined(parts.drop_last()) + seq!['/'] + parts.last()
    }
}

/// The segment `.`.
pub open spec fn is_dot(p: Seq<char>) -> bool {
    p == seq!['.']
}

/// The segment `..`.
pub open spec fn is_dot_dot(p: Seq<char>) -> bool {
    p == seq!['.', '.']
}

/// No slash anywhere in it.
pub open spec fn no_slash(p: Seq<char>) -> bool {
    forall|i: int| 0 <= i < p.len() ==> p[i] != '/'
}

pub proof fn lemma_pieces_nonempty(s: Seq<char>)
    ensures
        pieces(s).len() >= 1,
    decreases s.len(),
{
    if s.len() > 0 {
        lemma_pieces_nonempty(s.drop_last());
    }
}

/// No piece holds a slash.
pub proof fn lemma_pieces_no_slash(s: Seq<char>)
    ensures
        forall|i: int| 0 <= i < pieces(s).len() ==> no_slash(#[trigger] pieces(s)[i]),
    decreases s.len(),
{
    if s.len() > 0 {
        lemma_pieces_no_slash(s.drop_last());
        lemma_pieces_nonempty(s.drop_last());
        let init = pieces(s.drop_last());
        if s.last() != '/' {
            assert forall|i: int| 0 <= i < pieces(s).len() implies no_slash(
                #[trigger] pieces(s)[i],
            ) by {
                if i == init.len() - 1 {
                    assert(no_slash(init[i]));
                    let p = init[i].push(s.last());
                    assert forall|k: int| 0 <= k < p.len() implies p[k] != '/' by {
                        if k < init[i].len() {
                            assert(p[k] == init[i][k]);
                        }
                    }
                }
            }
        }
    }
}

/// Splitting and joining again gives the text back.
pub proof fn lemma_joined_pieces(s: Seq<char>)
    ensures
        joined(pieces(s)) == s,
    decreases s.len(),
{
    if s.len() > 0 {
        let t = s.drop_last();
        lemma_joined_pieces(t);
        lemma_pieces_nonempty(t);
        let init = pieces(t);
        if s.last() == '/' {
            let p = init.push(Seq::<char>::empty());
            assert(p.drop_last() == init);
            assert(joined(p) == joined(init) + seq!['/'] + Seq::<char>::empty());
            assert(s == t.push('/'));
        } else {
            assert(init.last().push(s.last()).drop_last() == init.last());
            lemma_joined_last(init, init.last().push(s.last()));
            assert(s == t.push(s.last()));
        }
    }
}

/// Joining with the last piece grown by one character grows the text by it.
proof fn lemma_joined_last(parts: Seq<Seq<char>>, last: Seq<char>)
    requires
        parts.len() >= 1,
        last.len() >= 1,
        last.drop_last() == parts.last(),
    ensures
        joined(parts.update(parts.len() - 1, last)) == joined(parts).push(last.last()),
{
    let q = parts.update(parts.len() - 1, last);
    if parts.len() == 1 {
        assert(q[0] == last);
        assert(last == parts[0].push(last.last()));
    } else {
        assert(q.drop_last() == parts.drop_last());
        assert(q.last() == last);
        assert(last == parts.last().push(last.last()));
        assert(joined(q) == joined(parts.drop_last()) + seq!['/'] + last);
        assert(joined(parts) == joined(parts.drop_last()) + seq!['/'] + parts.last());
        assert((joined(parts.drop_last()) + seq!['/'] + parts.last()).push(last.last())
            == joined(parts.drop_last()) + seq!['/'] + parts.last().push(last.last()));
    }
}

/// Joining pieces that hold no slash and splitting again gives the pieces back.
pub proof fn lemma_pieces_joined(parts: Seq<Seq<char>>)
    requires
        parts.len() >= 1,
        forall|i: int| 0 <= i < parts.len() ==> no_slash(#[trigger] parts[i]),
    ensures
        pieces(joined(parts)) == parts,
    decreases parts.len(),
{
    if parts.len() == 1 {
        lemma_pieces_of_plain(parts[0]);
        assert(pieces(joined(parts)) =~= parts);
    } else {
        let init = parts.drop_last();
        assert forall|i: int| 0 <= i < init.len() implies no_slash(#[trigger] init[i]) by {
            assert(init[i] == parts[i]);
        }
        lemma_pieces_joined(init);
        let head = joined(init) + seq!['/'];
        assert(pieces(head) == init.push(Seq::<char>::empty())) by {
            assert(head.drop_last() == joined(init));
        }
        lemma_pieces_append_plain(head, parts.last());
        assert(pieces(joined(parts)) =~= parts);
    }
}

/// A text with no slash is one piece.
proof fn lemma_pieces_of_plain(p: Seq<char>)
    requires
        no_slash(p),
    ensures
        pieces(p) == seq![p],
    decreases p.len(),
{
    if p.len() == 0 {
        assert(p =~= Seq::<char>::empty());
    } else {
        let t = p.drop_last();
        assert(no_slash(t)) by {
            assert forall|k: int| 0 <= k < t.len() implies t[k] != '/' by {
                assert(t[k] == p[k]);
            }
        }
        lemma_pieces_of_plain(t);
        assert(p.last() != '/');
        assert(t.push(p.last()) == p);
        assert(pieces(p) =~= seq![p]);
    }
}

/// Text without a slash, put after something, grows the last piece by that text.
proof fn lemma_pieces_append_plain(head: Seq<char>, tail: Seq<char>)
    requires
        no_slash(tail),
    ensures
        pieces(head + tail) == pieces(head).update(
            pieces(head).len() - 1,
            pieces(head).last() + tail,
        ),
    decreases tail.len(),
{
    lemma_pieces_nonempty(head);
    if tail.len() == 0 {
        assert(head + tail == head);
        assert(pieces(head).last() + tail == pieces(head).last());
        assert(pieces(head).update(pieces(head).len() - 1, pieces(head).last()) =~= pieces(head));
    } else {
        let t = tail.drop_last();
        assert(no_slash(t)) by {
            assert forall|k: int| 0 <= k < t.len() implies t[k] != '/' by {
                assert(t[k] == tail[k]);
            }
        }
        lemma_pieces_append_plain(head, t);
        assert((head + tail).drop_last() == head + t);
        assert((head + tail).last() == tail.last());
        assert(tail.last() != '/');
        assert((pieces(head).last() + t).push(tail.last()) == pieces(head).last() + tail);
        assert(pieces(head + tail) =~= pieces(head).update(
            pieces(head).len() - 1,
            pieces(head).last() + tail,
        ));
    }
}

/// The texts a vector of character vectors holds.
pub open spec fn texts(v: Seq<Vec<char>>) -> Seq<Seq<char>> {
    v.map_values(|x: Vec<char>| x@)
}

/// The pieces of a text, as vectors.
pub fn split_slash(s: &[char]) -> (parts: Vec<Vec<char>>)
    ensures
        texts(parts@) == pieces(s@),
{
    let mut done: Vec<Vec<char>> = Vec::new();
    let mut current: Vec<char> = Vec::new();
    let mut i: usize = 0;
    while i < s.len()
        invariant
            i <= s.len(),
            texts(done@).push(current@) == pieces(s@.subrange(0, i as int)),
        decreases s.len() - i,
    {
        let ghost before = s@.subrange(0, i as int);
        assert(s@.subrange(0, i + 1).drop_last() == before);
        proof { lemma_pieces_nonempty(before); }
        let c = s[i];
        if c == '/' {
            let finished = current;
            let ghost pre = done@;
            done.push(finished);
            assert(texts(done@) =~= texts(pre).push(finished@));
            current = Vec::new();
            assert(texts(done@) =~= pieces(before));
            assert(texts(done@).push(current@) =~= pieces(before).push(Seq::<char>::empty()));
        } else {
            current.push(c);
            assert(texts(done@).push(current@) =~= pieces(before).update(
                pieces(before).len() - 1,
                pieces(before).last().push(c),
            ));
        }
        i = i + 1;
    }
    assert(s@.subrange(0, s.len() as int) == s@);
    let ghost pre = done@;
    done.push(current);
    assert(texts(done@) =~= texts(pre).push(current@));
    done
}

/// The pieces joined with a `/` between each two.
pub fn join_slash(parts: &Vec<Vec<char>>) -> (s: Vec<char>)
    ensures
        s@ == joined(texts(parts@)),
{
    let mut s: Vec<char> = Vec::new();
    let mut i: usize = 0;
    while i < parts.len()
        invariant
            i <= parts.len(),
            s@ == joined(texts(parts@).subrange(0, i as int)),
        decreases parts.len() - i,
    {
        let ghost before = texts(parts@).subrange(0, i as int);
        let ghost after = texts(parts@).subrange(0, i + 1);
        assert(after.drop_last() == before);
        if i > 0 {
            s.push('/');
        }
        let part = &parts[i];
        let mut k: usize = 0;
        let ghost start = s@;
        while k < part.len()
            invariant
                k <= part.len(),
                s@ == start + part@.subrange(0, k as int),
            decreases part.len() - k,
        {
            s.push(part[k]);
            k = k + 1;
        }
        assert(part@.subrange(0, part.len() as int) == part@);
        assert(after.last() == part@);
        i = i + 1;
    }
    assert(texts(parts@).subrange(0, parts.len() as int) == texts(parts@));
    s
}

/// Is this segment `.`?
pub fn dot(p: &[char]) -> (b: bool)
    ensures
        b == is_dot(p@),
{
    let b = p.len() == 1 && p[0] == '.';
    proof {
        if b {
            assert(p@ =~= seq!['.']);
        }
    }
    b
}

/// Is this segment `..`?
pub fn dot_dot(p: &[char]) -> (b: bool)
    ensures
        b == is_dot_dot(p@),
{
    let b = p.len() == 2 && p[0] == '.' && p[1] == '.';
    proof {
        if b {
            assert(p@ =~= seq!['.', '.']);
        }
    }
    b
}

} // verus!

verus! {

/// Does `a` come before `b` as characters do: by code point, which is also the
/// order their UTF-8 bytes compare in.
pub open spec fn char_below(a: char, b: char) -> bool {
    (a as u32) < (b as u32)
}

/// [`char_below`], computed.
pub fn below(a: char, b: char) -> (r: bool)
    ensures
        r == char_below(a, b),
{
    (a as u32) < (b as u32)
}

} // verus!

verus! {

/// What is left of a sequence from position `i` on.
pub open spec fn rest_of<A>(s: Seq<A>, i: usize) -> Seq<A> {
    s.subrange(i as int, s.len() as int)
}

/// The element at position `i`.
pub open spec fn nth<A>(s: Seq<A>, i: usize) -> A {
    s[i as int]
}

} // verus!

verus! {

/// Two different characters are ordered one way and not the other.
pub proof fn lemma_char_below_total(a: char, b: char)
    ensures
        a != b ==> char_below(a, b) != char_below(b, a),
        !char_below(a, a),
        char_below(a, b) ==> !char_below(b, a),
{
    if a != b && (a as u32) == (b as u32) {
        vstd::utf8::char_u32_cast(a, a as u32);
        vstd::utf8::char_u32_cast(b, b as u32);
    }
}

/// Do two segments hold the same characters?
pub fn same_text(a: &Vec<char>, b: &Vec<char>) -> (r: bool)
    ensures
        r == (a@ == b@),
{
    if a.len() != b.len() {
        return false;
    }
    let mut i: usize = 0;
    while i < a.len()
        invariant
            i <= a.len(),
            a.len() == b.len(),
            forall|k: int| 0 <= k < i ==> a@[k] == b@[k],
        decreases a.len() - i,
    {
        if a[i] != b[i] {
            return false;
        }
        i = i + 1;
    }
    assert(a@ =~= b@);
    true
}

} // verus!

verus! {

/// The pieces that name something, in order: an empty piece and `.` dropped.
pub open spec fn kept(parts: Seq<Seq<char>>) -> Seq<Seq<char>>
    decreases parts.len(),
{
    if parts.len() == 0 {
        Seq::<Seq<char>>::empty()
    } else {
        let k = kept(parts.drop_last());
        let p = parts.last();
        if p.len() == 0 || is_dot(p) {
            k
        } else {
            k.push(p)
        }
    }
}

/// The component a leading `/` is: the root of the file system.
pub open spec fn root_mark() -> Seq<char> {
    seq!['/']
}

/// A path's components as a file-system path reads them: the root first when
/// the path begins with `/`, a `.` kept only where it leads, and otherwise
/// every piece that names something, `..` included.
pub open spec fn components(s: Seq<char>) -> Seq<Seq<char>> {
    let ps = pieces(s);
    if s.len() > 0 && s[0] == '/' {
        seq![root_mark()] + kept(ps.drop_first())
    } else if is_dot(ps[0]) {
        seq![ps[0]] + kept(ps.drop_first())
    } else {
        kept(ps)
    }
}

/// Components written out again: the root as a leading `/`, the rest joined
/// with `/`.
pub open spec fn rendered(c: Seq<Seq<char>>) -> Seq<char> {
    if c.len() > 0 && c[0] == root_mark() {
        root_mark() + joined(c.drop_first())
    } else {
        joined(c)
    }
}

/// The directory a document sits in: its components without the last, or
/// nothing for a path that is only a root or nothing at all.
pub open spec fn directory_spec(doc: Seq<char>) -> Seq<char> {
    let c = components(doc);
    if c.len() == 0 || (c.len() == 1 && c[0] == root_mark()) {
        Seq::<char>::empty()
    } else {
        rendered(c.drop_last())
    }
}

/// A path named under a directory: a name that begins with `/` stands alone,
/// an empty directory adds nothing, and otherwise one `/` goes between.
pub open spec fn join_spec(dir: Seq<char>, name: Seq<char>) -> Seq<char> {
    if name.len() > 0 && name[0] == '/' {
        name
    } else if dir.len() == 0 {
        name
    } else if dir.last() == '/' {
        dir + name
    } else {
        dir + seq!['/'] + name
    }
}

/// A path under a root, spelled from it: the root's components must begin the
/// path's, and what is left is joined with `/`, or `None` when nothing is.
pub open spec fn spell_spec(root: Seq<char>, path: Seq<char>) -> Option<Seq<char>> {
    let rc = components(root);
    let pc = components(path);
    if rc.is_prefix_of(pc) && pc.len() > rc.len() {
        Some(joined(pc.skip(rc.len() as int)))
    } else {
        None
    }
}

/// [`kept`], computed.
fn kept_of(parts: &Vec<Vec<char>>, from: usize) -> (k: Vec<Vec<char>>)
    requires
        from <= parts@.len(),
    ensures
        texts(k@) == kept(texts(parts@).skip(from as int)),
{
    let mut k: Vec<Vec<char>> = Vec::new();
    let mut i: usize = from;
    while i < parts.len()
        invariant
            from <= i <= parts@.len(),
            texts(k@) == kept(texts(parts@).subrange(from as int, i as int)),
        decreases parts.len() - i,
    {
        let ghost sub = texts(parts@).subrange(from as int, i + 1);
        assert(sub.drop_last() == texts(parts@).subrange(from as int, i as int));
        assert(sub.last() == parts@[i as int]@);
        let p = &parts[i];
        if !(p.len() == 0 || dot(p.as_slice())) {
            let ghost pre = k@;
            k.push(p.clone());
            assert(texts(k@) =~= texts(pre).push(parts@[i as int]@));
        }
        i = i + 1;
    }
    assert(texts(parts@).subrange(from as int, parts@.len() as int) == texts(parts@).skip(from as int));
    k
}

/// [`components`], computed.
pub fn components_of(s: &[char]) -> (c: Vec<Vec<char>>)
    ensures
        texts(c@) == components(s@),
{
    let ps = split_slash(s);
    proof { lemma_pieces_nonempty(s@); }
    assert(texts(ps@)[0] == ps@[0]@);
    if s.len() > 0 && s[0] == '/' {
        let rest = kept_of(&ps, 1);
        let mut c: Vec<Vec<char>> = Vec::new();
        let mut mark: Vec<char> = Vec::new();
        mark.push('/');
        assert(mark@ =~= root_mark());
        c.push(mark);
        let ghost first = c@;
        let mut tail = rest;
        c.append(&mut tail);
        assert(texts(first) =~= seq![root_mark()]);
        assert(texts(c@) =~= texts(first) + texts(rest@));
        assert(texts(ps@).skip(1) == texts(ps@).drop_first());
        c
    } else if dot(ps[0].as_slice()) {
        let rest = kept_of(&ps, 1);
        let mut c: Vec<Vec<char>> = Vec::new();
        c.push(ps[0].clone());
        let ghost first = c@;
        let mut tail = rest;
        c.append(&mut tail);
        assert(texts(first) =~= seq![pieces(s@)[0]]);
        assert(texts(c@) =~= texts(first) + texts(rest@));
        assert(texts(ps@).skip(1) == texts(ps@).drop_first());
        c
    } else {
        let c = kept_of(&ps, 0);
        assert(texts(ps@).skip(0) == texts(ps@));
        c
    }
}

/// A path under a root, spelled from it, or `None` when it is not under the
/// root or is the root itself.
pub fn spell(root: &str, path: &str) -> (spelled: Option<String>)
    ensures
        match spelled {
            Some(s) => spell_spec(root@, path@) == Some(s@),
            None => spell_spec(root@, path@) is None,
        },
{
    let rc = components_of(crate::text::chars_of(root).as_slice());
    let pc = components_of(crate::text::chars_of(path).as_slice());
    if rc.len() >= pc.len() {
        return None;
    }
    let mut i: usize = 0;
    while i < rc.len()
        invariant
            i <= rc@.len() < pc@.len(),
            texts(rc@) == components(root@),
            texts(pc@) == components(path@),
            forall|j: int| 0 <= j < i ==> texts(rc@)[j] == texts(pc@)[j],
        decreases rc.len() - i,
    {
        if !same_text(&rc[i], &pc[i]) {
            assert(texts(rc@)[i as int] != texts(pc@)[i as int]);
            assert(texts(pc@).subrange(0, texts(rc@).len() as int)[i as int] == texts(pc@)[i as int]);
            assert(!(texts(rc@) =~= texts(pc@).subrange(0, texts(rc@).len() as int)));
            return None;
        }
        i = i + 1;
    }
    assert(texts(rc@).is_prefix_of(texts(pc@)));
    let mut rest: Vec<Vec<char>> = Vec::new();
    let mut k: usize = rc.len();
    while k < pc.len()
        invariant
            rc@.len() <= k <= pc@.len(),
            texts(rest@) == texts(pc@).subrange(rc@.len() as int, k as int),
        decreases pc.len() - k,
    {
        let ghost pre = rest@;
        let piece = pc[k].clone();
        assert(piece@ =~= pc@[k as int]@);
        rest.push(piece);
        assert(texts(rest@) =~= texts(pre).push(pc@[k as int]@));
        assert(texts(rest@) =~= texts(pc@).subrange(rc@.len() as int, k + 1));
        k = k + 1;
    }
    assert(texts(pc@).subrange(rc@.len() as int, pc@.len() as int) == texts(pc@).skip(rc@.len() as int));
    let joined_chars = join_slash(&rest);
    Some(crate::text::string_of(joined_chars.as_slice()))
}

/// [`rendered`], computed.
fn rendered_of(c: &Vec<Vec<char>>) -> (s: Vec<char>)
    ensures
        s@ == rendered(texts(c@)),
{
    if c.len() > 0 && c[0].len() == 1 && c[0][0] == '/' {
        assert(texts(c@)[0] =~= root_mark());
        let mut rest: Vec<Vec<char>> = Vec::new();
        let mut k: usize = 1;
        while k < c.len()
            invariant
                1 <= k <= c@.len(),
                texts(rest@) == texts(c@).subrange(1, k as int),
            decreases c.len() - k,
        {
            let ghost pre = rest@;
            let piece = c[k].clone();
            assert(piece@ =~= c@[k as int]@);
            rest.push(piece);
            assert(texts(rest@) =~= texts(pre).push(c@[k as int]@));
            assert(texts(rest@) =~= texts(c@).subrange(1, k + 1));
            k = k + 1;
        }
        assert(texts(c@).subrange(1, c@.len() as int) == texts(c@).drop_first());
        let j = join_slash(&rest);
        let mut s: Vec<char> = Vec::new();
        s.push('/');
        let mut tail = j;
        let ghost jv = tail@;
        s.append(&mut tail);
        assert(s@ =~= root_mark() + jv);
        s
    } else {
        proof {
            if c@.len() > 0 && texts(c@)[0] == root_mark() {
                assert(c@[0]@ == root_mark());
                assert(c@[0]@.len() == 1);
            }
        }
        join_slash(c)
    }
}

/// The directory a document sits in, spelled as a file-system path would
/// spell its parent; empty for a document named with no directory at all.
pub fn directory(document: &str) -> (dir: String)
    ensures
        dir@ == directory_spec(document@),
{
    let mut c = components_of(crate::text::chars_of(document).as_slice());
    if c.len() == 0 || (c.len() == 1 && c[0].len() == 1 && c[0][0] == '/') {
        proof {
            if c@.len() == 1 {
                assert(texts(c@)[0] =~= root_mark());
            }
        }
        return String::new();
    }
    proof {
        if c@.len() == 1 && texts(c@)[0] == root_mark() {
            assert(c@[0]@ == root_mark());
        }
    }
    let ghost all = texts(c@);
    c.pop();
    assert(texts(c@) =~= all.drop_last());
    crate::text::string_of(rendered_of(&c).as_slice())
}

/// A name joined onto a directory, as a file-system path joins them.
pub fn join(dir: &str, name: &str) -> (p: String)
    ensures
        p@ == join_spec(dir@, name@),
{
    let d = crate::text::chars_of(dir);
    let n = crate::text::chars_of(name);
    if n.len() > 0 && n[0] == '/' {
        crate::text::owned(name)
    } else if d.len() == 0 {
        crate::text::owned(name)
    } else if d[d.len() - 1] == '/' {
        crate::text::cat(dir, name)
    } else {
        let mut s = crate::text::cat(dir, "/");
        s.append(name);
        proof {
            assert("/"@ == seq!['/']) by { reveal_strlit("/"); }
        }
        s
    }
}

/// The name a path ends in: its last component when that names something,
/// and nothing for a root, a `.` or a `..`.
pub open spec fn file_name_spec(path: Seq<char>) -> Option<Seq<char>> {
    let c = components(path);
    if c.len() == 0 {
        None
    } else if c.last() == root_mark() || is_dot(c.last()) || is_dot_dot(c.last()) {
        None
    } else {
        Some(c.last())
    }
}

/// [`file_name_spec`], computed.
pub fn file_name(path: &str) -> (name: Option<String>)
    ensures
        match name {
            Some(n) => file_name_spec(path@) == Some(n@),
            None => file_name_spec(path@) is None,
        },
{
    let c = components_of(crate::text::chars_of(path).as_slice());
    if c.len() == 0 {
        return None;
    }
    let last = &c[c.len() - 1];
    assert(last@ == texts(c@).last());
    let root = last.len() == 1 && last[0] == '/';
    proof {
        if last@ == root_mark() {
            assert(last@.len() == 1 && last@[0] == '/');
        }
        if root {
            assert(last@ =~= root_mark());
        }
    }
    if root || dot(last.as_slice()) || dot_dot(last.as_slice()) {
        None
    } else {
        Some(crate::text::string_of(last.as_slice()))
    }
}

} // verus!
