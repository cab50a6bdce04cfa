//! Absolute paths of LemonFS, split on `/`.

use vstd::prelude::*;
use vstd::string::*;

verus! {

broadcast use vstd::string::group_string_axioms;

/// The pieces of `s` between the `/` separators (empty ones included).
pub open spec fn split_pieces(s: Seq<char>) -> Seq<Seq<char>>
    decreases s.len(),
{
    if s.len() == 0 {
        seq![Seq::<char>::empty()]
    } else {
        let p = split_pieces(s.drop_last());
        if s.last() == '/' {
            p.push(Seq::<char>::empty())
        } else {
            p.update(p.len() - 1, p.last().push(s.last()))
        }
    }
}

/// A piece is a path component unless it is empty or `.`.
pub open spec fn keep_component(c: Seq<char>) -> bool {
    c.len() > 0 && c != seq!['.']
}

/// The pieces that are components, in order.
pub open spec fn kept(pieces: Seq<Seq<char>>) -> Seq<Seq<char>>
    decreases pieces.len(),
{
    if pieces.len() == 0 {
        Seq::empty()
    } else if keep_component(pieces.last()) {
        kept(pieces.drop_last()).push(pieces.last())
    } else {
        kept(pieces.drop_last())
    }
}

/// The components of a path: the pieces between `/` that are neither empty nor `.`.
pub open spec fn path_components(s: Seq<char>) -> Seq<Seq<char>> {
    kept(split_pieces(s))
}

/// `/` followed by each component and `/`.
pub open spec fn joined(parts: Seq<Seq<char>>) -> Seq<char>
    decreases parts.len(),
{
    if parts.len() == 0 { seq!['/'] } else { joined(parts.drop_last()) + parts.last() + seq!['/'] }
}

/// The components of the parent path of `p`: those of `p` but the last, joined and split
/// again (see [`Path::parent`]).
pub open spec fn parent_components(p: Seq<char>) -> Seq<Seq<char>> {
    let c = path_components(p);
    path_components(joined(c.subrange(0, if c.len() == 0 { 0int } else { c.len() - 1 })))
}

/// Appending characters other than `/` extends the last piece.
proof fn lemma_split_extend(s: Seq<char>, c: Seq<char>)
    requires
        forall|k: int| 0 <= k < c.len() ==> c[k] != '/',
    ensures
        split_pieces(s + c) == split_pieces(s).update(split_pieces(s).len() - 1, split_pieces(s).last() + c),
        split_pieces(s).len() >= 1,
    decreases c.len(),
{
    lemma_split_nonempty(s);
    if c.len() == 0 {
        assert(s + c =~= s);
        assert(split_pieces(s).last() + c =~= split_pieces(s).last());
        assert(split_pieces(s).update(split_pieces(s).len() - 1, split_pieces(s).last()) =~= split_pieces(s));
    } else {
        let d = c.drop_last();
        lemma_split_extend(s, d);
        assert((s + c).drop_last() =~= s + d);
        assert((s + c).last() == c.last());
        let p = split_pieces(s);
        assert(p.last() + d + seq![c.last()] =~= p.last() + c);
        assert((p.last() + d).push(c.last()) =~= p.last() + c);
        assert(split_pieces(s + c) =~= p.update(p.len() - 1, p.last() + c));
    }
}

proof fn lemma_split_nonempty(s: Seq<char>)
    ensures
        split_pieces(s).len() >= 1,
    decreases s.len(),
{
    if s.len() > 0 {
        lemma_split_nonempty(s.drop_last());
    }
}

/// The pieces of `joined(parts)` are an empty piece, the parts, and an empty piece.
proof fn lemma_split_joined(parts: Seq<Seq<char>>)
    requires
        forall|i: int, k: int| 0 <= i < parts.len() && 0 <= k < parts[i].len() ==> #[trigger] parts[i][k] != '/',
    ensures
        split_pieces(joined(parts)) == seq![Seq::<char>::empty()] + parts + seq![Seq::<char>::empty()],
    decreases parts.len(),
{
    let e = Seq::<char>::empty();
    if parts.len() == 0 {
        let s = seq!['/'];
        assert(joined(parts) == s);
        assert(s.drop_last() =~= e);
        assert(split_pieces(s.drop_last()) == seq![e]);
        assert(s.last() == '/');
        assert(split_pieces(s) == seq![e].push(e));
        assert(split_pieces(s) =~= seq![e] + parts + seq![e]);
    } else {
        let init = parts.drop_last();
        let c = parts.last();
        assert forall|i: int, k: int| 0 <= i < init.len() && 0 <= k < init[i].len() implies #[trigger] init[i][k] != '/' by {
            assert(init[i] == parts[i]);
        }
        lemma_split_joined(init);
        assert forall|k: int| 0 <= k < c.len() implies c[k] != '/' by {
            assert(parts[parts.len() - 1][k] != '/');
        }
        let q = seq![e] + init + seq![e];
        lemma_split_extend(joined(init), c);
        assert(q.last() + c =~= c);
        let mid = q.update(q.len() - 1, c);
        assert(mid =~= seq![e] + parts);
        let j = joined(parts);
        assert(j == joined(init) + c + seq!['/']);
        assert(j.drop_last() =~= joined(init) + c);
        assert(j.last() == '/');
        assert(split_pieces(j) =~= mid.push(e));
        assert(mid.push(e) =~= seq![e] + parts + seq![e]);
    }
}

/// Keeping the components of an empty piece followed by components gives those components.
proof fn lemma_kept_parts(parts: Seq<Seq<char>>)
    requires
        forall|i: int| 0 <= i < parts.len() ==> keep_component(#[trigger] parts[i]),
    ensures
        kept(seq![Seq::<char>::empty()] + parts) == parts,
    decreases parts.len(),
{
    let e = Seq::<char>::empty();
    if parts.len() == 0 {
        let a = seq![e] + parts;
        assert(a =~= seq![e]);
        assert(a.drop_last() =~= Seq::<Seq<char>>::empty());
        assert(a.last() == e);
        assert(!keep_component(e));
        assert(kept(a.drop_last()) == Seq::<Seq<char>>::empty());
        assert(kept(a) =~= parts);
    } else {
        let init = parts.drop_last();
        assert forall|i: int| 0 <= i < init.len() implies keep_component(#[trigger] init[i]) by {
            assert(init[i] == parts[i]);
        }
        lemma_kept_parts(init);
        assert((seq![e] + parts).drop_last() =~= seq![e] + init);
        assert(keep_component(parts[parts.len() - 1]));
        assert(kept(seq![e] + parts) =~= init.push(parts.last()));
    }
}

/// Joining components and splitting again gives them back: for parts that are components
/// (neither empty nor `.`) without `/`, `path_components(joined(parts)) == parts` (see
/// [`Path::from_vec`] and [`Path::components`]).
pub proof fn lemma_components_of_joined(parts: Seq<Seq<char>>)
    requires
        forall|i: int| 0 <= i < parts.len() ==> keep_component(#[trigger] parts[i]),
        forall|i: int, k: int| 0 <= i < parts.len() && 0 <= k < parts[i].len() ==> #[trigger] parts[i][k] != '/',
    ensures
        path_components(joined(parts)) == parts,
        parts.len() == 0 ==> joined(parts) == seq!['/'],
{
    let e = Seq::<char>::empty();
    lemma_split_joined(parts);
    let a = seq![e] + parts;
    assert(seq![e] + parts + seq![e] =~= a.push(e));
    assert(a.push(e).drop_last() =~= a);
    assert(!keep_component(e));
    lemma_kept_parts(parts);
}

/// No piece of a split holds `/`.
proof fn lemma_pieces_have_no_slash(s: Seq<char>)
    ensures
        forall|i: int, k: int| 0 <= i < split_pieces(s).len() && 0 <= k < split_pieces(s)[i].len()
            ==> #[trigger] split_pieces(s)[i][k] != '/',
    decreases s.len(),
{
    if s.len() > 0 {
        lemma_pieces_have_no_slash(s.drop_last());
        lemma_split_nonempty(s.drop_last());
    }
}

/// The kept pieces are components, each one of the pieces.
proof fn lemma_kept_from(pieces: Seq<Seq<char>>)
    ensures
        forall|i: int| 0 <= i < kept(pieces).len() ==> keep_component(#[trigger] kept(pieces)[i])
            && exists|j: int| 0 <= j < pieces.len() && pieces[j] == kept(pieces)[i],
    decreases pieces.len(),
{
    if pieces.len() > 0 {
        let d = pieces.drop_last();
        lemma_kept_from(d);
        assert forall|i: int| 0 <= i < kept(pieces).len() implies keep_component(#[trigger] kept(pieces)[i])
            && exists|j: int| 0 <= j < pieces.len() && pieces[j] == kept(pieces)[i] by {
            if i < kept(d).len() {
                assert(kept(pieces)[i] == kept(d)[i]);
                let j = choose|j: int| 0 <= j < d.len() && d[j] == kept(d)[i];
                assert(pieces[j] == d[j]);
            } else {
                assert(kept(pieces)[i] == pieces.last());
                assert(pieces[pieces.len() - 1] == pieces.last());
            }
        }
    }
}

/// A path rebuilt from its components has the same components: for every path `s`,
/// `path_components(joined(path_components(s))) == path_components(s)`.
pub proof fn lemma_components_round_trip(s: Seq<char>)
    ensures
        path_components(joined(path_components(s))) == path_components(s),
{
    let c = path_components(s);
    lemma_pieces_have_no_slash(s);
    lemma_kept_from(split_pieces(s));
    assert forall|i: int, k: int| 0 <= i < c.len() && 0 <= k < c[i].len() implies #[trigger] c[i][k] != '/' by {
        let j = choose|j: int| 0 <= j < split_pieces(s).len() && split_pieces(s)[j] == c[i];
        assert(split_pieces(s)[j][k] != '/');
    }
    lemma_components_of_joined(c);
}

/// The path `/` has no components.
pub proof fn lemma_root_has_no_components()
    ensures
        path_components(joined(Seq::<Seq<char>>::empty())).len() == 0,
{
    let s = seq!['/'];
    assert(joined(Seq::<Seq<char>>::empty()) == s);
    assert(s.drop_last() =~= Seq::<char>::empty());
    assert(split_pieces(s.drop_last()) == seq![Seq::<char>::empty()]);
    assert(s.last() == '/');
    let p = split_pieces(s);
    assert(p == seq![Seq::<char>::empty()].push(Seq::<char>::empty()));
    assert(p =~= seq![Seq::<char>::empty(), Seq::<char>::empty()]);
    assert(p.drop_last() =~= seq![Seq::<char>::empty()]);
    assert(p.drop_last().drop_last() =~= Seq::<Seq<char>>::empty());
    assert(kept(p.drop_last().drop_last()).len() == 0);
    assert(kept(p.drop_last()).len() == 0);
    assert(kept(p).len() == 0);
}

/// Returns `true` if the two strings hold the same text.
pub fn str_eq(a: &str, b: &str) -> (r: bool)
    ensures
        r == (a@ == b@),
{
    broadcast use vstd::utf8::encode_utf8_decode_utf8;
    let x = a.as_bytes();
    let y = b.as_bytes();
    proof {
        vstd::utf8::encode_utf8_decode_utf8(a@);
        vstd::utf8::encode_utf8_decode_utf8(b@);
    }
    if x.len() != y.len() { return false }
    let mut i: usize = 0;
    while i < x.len()
        invariant
            x@ == a.spec_bytes(),
            y@ == b.spec_bytes(),
            x@.len() == y@.len(),
            i <= x@.len(),
            forall|j: int| 0 <= j < i ==> x@[j] == y@[j],
        decreases x@.len() - i,
    {
        if x[i] != y[i] { return false }
        i = i + 1;
    }
    assert(x@ =~= y@);
    true
}

/// An absolute path.
pub struct Path(String);

impl View for Path {
    type V = Seq<char>;

    closed spec fn view(&self) -> Seq<char> {
        self.0@
    }
}

impl Path {
    /// Returns `true` if the path is exactly `/`.
    pub fn is_root(&self) -> (r: bool)
        ensures
            r == (self@ == seq!['/']),
    {
        let root = "/";
        proof {
            reveal_strlit("/");
            assert(root@ =~= seq!['/']);
        }
        str_eq(self.0.as_str(), root)
    }

    /// The components of the path (see [`path_components`]).
    pub fn components(&self) -> (r: Vec<&str>)
        ensures
            r@.len() == path_components(self@).len(),
            forall|k: int| 0 <= k < r@.len() ==> #[trigger] r@[k]@ == path_components(self@)[k],
    {
        let s: &str = self.0.as_str();
        let n = s.unicode_len();
        let ghost chars = s@;
        let mut res: Vec<&str> = Vec::new();
        let ghost mut done: Seq<Seq<char>> = Seq::empty();
        let mut start: usize = 0;
        let mut i: usize = 0;
        assert(chars.subrange(0, 0) =~= Seq::<char>::empty());
        while i < n
            invariant
                n == chars.len(),
                chars == s@,
                chars == self@,
                start <= i <= n,
                split_pieces(chars.subrange(0, i as int)) == done.push(chars.subrange(start as int, i as int)),
                res@.len() == kept(done).len(),
                forall|k: int| 0 <= k < res@.len() ==> #[trigger] res@[k]@ == kept(done)[k],
            decreases n - i,
        {
            let c = s.get_char(i);
            proof {
                let t = chars.subrange(0, i + 1);
                assert(t.drop_last() =~= chars.subrange(0, i as int));
                assert(t.last() == c);
            }
            if c == '/' {
                let piece = s.substring_char(start, i);
                let is_dot = i - start == 1 && s.get_char(start) == '.';
                proof {
                    assert(piece@.len() == i - start);
                    assert(seq!['.'].len() == 1);
                    if i - start == 1 {
                        assert(piece@ =~= seq![chars[start as int]]);
                        if chars[start as int] == '.' { assert(piece@ =~= seq!['.']); } else { assert(piece@[0] != seq!['.'][0]); }
                    }
                    assert(keep_component(piece@) == (i > start && !is_dot));
                    assert(done.push(piece@).drop_last() =~= done);
                }
                if i > start && !is_dot {
                    res.push(piece);
                }
                proof {
                    done = done.push(piece@);
                    assert(chars.subrange(i + 1, i + 1) =~= Seq::<char>::empty());
                }
                start = i + 1;
            } else {
                proof {
                    assert(chars.subrange(start as int, i + 1) =~= chars.subrange(start as int, i as int).push(c));
                }
            }
            i = i + 1;
            assert(split_pieces(chars.subrange(0, i as int)) =~= done.push(chars.subrange(start as int, i as int)));
        }
        let piece = s.substring_char(start, n);
        let is_dot = n - start == 1 && s.get_char(start) == '.';
        proof {
            assert(piece@.len() == n - start);
            assert(seq!['.'].len() == 1);
            if n - start == 1 {
                assert(piece@ =~= seq![chars[start as int]]);
                if chars[start as int] == '.' { assert(piece@ =~= seq!['.']); } else { assert(piece@[0] != seq!['.'][0]); }
            }
            assert(keep_component(piece@) == (n > start && !is_dot));
            assert(done.push(piece@).drop_last() =~= done);
            assert(chars.subrange(0, n as int) =~= chars);
        }
        if n > start && !is_dot {
            res.push(piece);
        }
        res
    }

    /// The path held by `s`.
    pub fn from_string(s: String) -> (r: Self)
        ensures
            r@ == s@,
    {
        Self(s)
    }

    /// The path `/` followed by each part and `/`.
    pub fn from_vec(vec: Vec<&str>) -> (r: Self)
        ensures
            r@ == joined(vec@.map_values(|x: &str| x@)),
    {
        let slash = "/";
        proof {
            reveal_strlit("/");
            assert(slash@ =~= seq!['/']);
            assert(vec@.subrange(0, 0).map_values(|x: &str| x@) =~= Seq::<Seq<char>>::empty());
        }
        let mut res = String::from_str(slash);
        let mut i: usize = 0;
        while i < vec.len()
            invariant
                i <= vec@.len(),
                slash@ == seq!['/'],
                res@ == joined(vec@.subrange(0, i as int).map_values(|x: &str| x@)),
            decreases vec@.len() - i,
        {
            let ghost before = res@;
            let part: &str = vec[i];
            res.append(part);
            res.append(slash);
            proof {
                assert(res@ == before + part@ + seq!['/']);
                let a = vec@.subrange(0, i + 1).map_values(|x: &str| x@);
                assert(a.drop_last() =~= vec@.subrange(0, i as int).map_values(|x: &str| x@));
                assert(a.last() == vec@[i as int]@);
                assert(res@ =~= joined(a));
            }
            i = i + 1;
        }
        assert(vec@.subrange(0, vec@.len() as int) =~= vec@);
        Self(res)
    }

    /// The parent path: all components but the last, joined again.
    pub fn parent(&self) -> (r: Self)
        ensures
            r@ == joined(path_components(self@).subrange(0, if path_components(self@).len() == 0 { 0int } else { path_components(self@).len() - 1 })),
    {
        let mut res = self.components();
        let ghost comps = path_components(self@);
        let _ = res.pop();
        let r = Self::from_vec(res);
        proof {
            let m = if comps.len() == 0 { 0int } else { comps.len() - 1 };
            assert(res@.map_values(|x: &str| x@) =~= comps.subrange(0, m));
        }
        r
    }

    /// The last component, or `/` for a path without components.
    pub fn name(&self) -> (r: String)
        ensures
            r@ == (if path_components(self@).len() == 0 { seq!['/'] } else { path_components(self@).last() }),
    {
        let comps = self.components();
        let slash = "/";
        proof {
            reveal_strlit("/");
            assert(slash@ =~= seq!['/']);
        }
        if comps.len() == 0 {
            String::from_str(slash)
        } else {
            String::from_str(comps[comps.len() - 1])
        }
    }
}

} // verus!
