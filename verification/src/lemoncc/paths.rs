//! Paths as the image tool reads them: leading `/` are dropped, the rest is split on `/`, and
//! empty pieces are skipped.

use vstd::prelude::*;
use vstd::string::*;
use crate::fs::lemonfs::path::split_pieces;
use crate::fs::hashtable::hash::{pad_name, padded_name};
use super::ImageError;
use super::disk::FILENAME_LEN;

verus! {

broadcast use vstd::string::group_string_axioms;

/// The number of `/` at the start of `s`.
pub open spec fn leading_slashes(s: Seq<char>) -> nat
    decreases s.len(),
{
    if s.len() == 0 || s[0] != '/' { 0 } else { 1 + leading_slashes(s.drop_first()) }
}

/// `s` without its leading `/`.
pub open spec fn trimmed(s: Seq<char>) -> Seq<char> {
    s.skip(leading_slashes(s) as int)
}

/// The pieces that are not empty, in order.
pub open spec fn nonempty(pieces: Seq<Seq<char>>) -> Seq<Seq<char>>
    decreases pieces.len(),
{
    if pieces.len() == 0 {
        Seq::empty()
    } else if pieces.last().len() > 0 {
        nonempty(pieces.drop_last()).push(pieces.last())
    } else {
        nonempty(pieces.drop_last())
    }
}

/// The components of a path: its non-empty pieces between `/`.
pub open spec fn components(s: Seq<char>) -> Seq<Seq<char>> {
    nonempty(split_pieces(s))
}

/// The last piece of a path: what follows its last `/` (empty if it ends in `/`).
pub open spec fn last_piece(s: Seq<char>) -> Seq<char> {
    split_pieces(s).last()
}

proof fn lemma_leading_bound(s: Seq<char>)
    ensures
        leading_slashes(s) <= s.len(),
        forall|i: int| 0 <= i < leading_slashes(s) ==> s[i] == '/',
        leading_slashes(s) < s.len() ==> s[leading_slashes(s) as int] != '/',
    decreases s.len(),
{
    if s.len() > 0 && s[0] == '/' {
        lemma_leading_bound(s.drop_first());
        assert forall|i: int| 0 <= i < leading_slashes(s) implies s[i] == '/' by {
            if i > 0 {
                assert(s[i] == s.drop_first()[i - 1]);
            }
        }
    }
}

proof fn lemma_leading_step(s: Seq<char>, k: int)
    requires
        0 <= k <= s.len(),
        forall|i: int| 0 <= i < k ==> s[i] == '/',
    ensures
        leading_slashes(s) == k + leading_slashes(s.skip(k)),
    decreases k,
{
    if k > 0 {
        assert(s.skip(1) =~= s.drop_first());
        assert(s.drop_first().skip(k - 1) =~= s.skip(k));
        lemma_leading_step(s.drop_first(), k - 1);
    } else {
        assert(s.skip(0) =~= s);
    }
}

/// A path split on `/` has at least one piece.
proof fn lemma_pieces_nonempty(s: Seq<char>)
    ensures
        split_pieces(s).len() >= 1,
    decreases s.len(),
{
    if s.len() > 0 {
        lemma_pieces_nonempty(s.drop_last());
    }
}

/// Lengthening the last piece keeps every component and may add one.
proof fn lemma_nonempty_grow(p: Seq<Seq<char>>, x: Seq<char>)
    requires
        p.len() >= 1,
        x.len() > 0,
    ensures
        nonempty(p.update(p.len() - 1, x)).len() >= nonempty(p).len(),
        nonempty(p.update(p.len() - 1, x)).len() >= 1,
{
    let q = p.update(p.len() - 1, x);
    assert(q.drop_last() =~= p.drop_last());
}

/// A non-empty path that does not start with `/` has a component.
/// The empty path has no components.
pub proof fn lemma_no_components_of_empty()
    ensures
        components(Seq::<char>::empty()).len() == 0,
{
    let p = split_pieces(Seq::<char>::empty());
    assert(p =~= seq![Seq::<char>::empty()]);
    assert(p.drop_last() =~= Seq::<Seq<char>>::empty());
    assert(p.last().len() == 0);
    assert(nonempty(p.drop_last()).len() == 0);
    assert(nonempty(p) == nonempty(p.drop_last()));
}

pub proof fn lemma_components_nonempty(s: Seq<char>)
    requires
        s.len() > 0,
        s[0] != '/',
    ensures
        components(s).len() > 0,
    decreases s.len(),
{
    let t = s.drop_last();
    lemma_pieces_nonempty(t);
    let p = split_pieces(t);
    if s.len() == 1 {
        assert(t =~= Seq::<char>::empty());
        assert(p =~= seq![Seq::<char>::empty()]);
        lemma_nonempty_grow(p, p.last().push(s.last()));
    } else {
        assert(t[0] == s[0]);
        lemma_components_nonempty(t);
        if s.last() == '/' {
            assert(p.push(Seq::<char>::empty()).drop_last() =~= p);
        } else {
            lemma_nonempty_grow(p, p.last().push(s.last()));
        }
    }
}

/// The trimmed path does not start with `/`.
pub proof fn lemma_trimmed_start(s: Seq<char>)
    ensures
        trimmed(s).len() > 0 ==> trimmed(s)[0] != '/',
{
    lemma_leading_bound(s);
}

/// A name without `/` is a single piece.
proof fn lemma_split_plain(s: Seq<char>)
    requires
        forall|k: int| 0 <= k < s.len() ==> s[k] != '/',
    ensures
        split_pieces(s) == seq![s],
    decreases s.len(),
{
    if s.len() > 0 {
        let t = s.drop_last();
        lemma_split_plain(t);
        assert(t.push(s.last()) =~= s);
        assert(seq![t].update(0, t.push(s.last())) =~= seq![s]);
    } else {
        assert(s =~= Seq::<char>::empty());
    }
}

/// A non-empty name without `/` is the path's only component and its last piece.
pub proof fn lemma_plain_name(s: Seq<char>)
    requires
        s.len() > 0,
        forall|k: int| 0 <= k < s.len() ==> s[k] != '/',
    ensures
        components(s) == seq![s],
        last_piece(s) == s,
{
    lemma_split_plain(s);
    let p = seq![s];
    assert(p.drop_last() =~= Seq::<Seq<char>>::empty());
    assert(nonempty(Seq::<Seq<char>>::empty()).push(s) =~= seq![s]);
}

/// `s` without its leading `/` (see [`trimmed`]).
pub fn trim_slashes(s: &str) -> (r: &str)
    ensures
        r@ == trimmed(s@),
{
    let n = s.unicode_len();
    let mut i: usize = 0;
    while i < n && s.get_char(i) == '/'
        invariant
            n == s@.len(),
            i <= n,
            forall|j: int| 0 <= j < i ==> s@[j] == '/',
        decreases n - i,
    {
        i = i + 1;
    }
    proof {
        lemma_leading_step(s@, i as int);
        if i < n {
            assert(s@.skip(i as int)[0] == s@[i as int]);
        }
        assert(leading_slashes(s@.skip(i as int)) == 0);
    }
    let r = s.substring_char(i, n);
    assert(r@ =~= s@.skip(i as int));
    r
}

/// The components of `s` (see [`components`]).
pub fn path_components(s: &str) -> (r: Vec<&str>)
    ensures
        r@.len() == components(s@).len(),
        forall|k: int| 0 <= k < r@.len() ==> #[trigger] r@[k]@ == components(s@)[k],
{
    let n = s.unicode_len();
    let ghost chars = s@;
    let mut res: Vec<&str> = Vec::new();
    let ghost mut done: Seq<Seq<char>> = Seq::empty();
    let mut start: usize = 0;
    let mut i: usize = 0;
    assert(chars.subrange(0, 0) =~= Seq::<char>::empty());
    while i < n
        invariant
            n == chars.len(),
            chars == s@,
            start <= i <= n,
            split_pieces(chars.subrange(0, i as int)) == done.push(chars.subrange(start as int, i as int)),
            res@.len() == nonempty(done).len(),
            forall|k: int| 0 <= k < res@.len() ==> #[trigger] res@[k]@ == nonempty(done)[k],
        decreases n - i,
    {
        let c = s.get_char(i);
        proof {
            let t = chars.subrange(0, i + 1);
            assert(t.drop_last() =~= chars.subrange(0, i as int));
            assert(t.last() == c);
        }
        if c == '/' {
            let piece = s.substring_char(start, i);
            proof {
                assert(piece@.len() == i - start);
                assert(done.push(piece@).drop_last() =~= done);
            }
            if i > start {
                res.push(piece);
            }
            proof {
                done = done.push(piece@);
                assert(chars.subrange(i + 1, i + 1) =~= Seq::<char>::empty());
            }
            start = i + 1;
        } else {
            proof {
                assert(chars.subrange(start as int, i + 1) =~= chars.subrange(start as int, i as int).push(c));
            }
        }
        i = i + 1;
        assert(split_pieces(chars.subrange(0, i as int)) =~= done.push(chars.subrange(start as int, i as int)));
    }
    let piece = s.substring_char(start, n);
    proof {
        assert(piece@.len() == n - start);
        assert(done.push(piece@).drop_last() =~= done);
        assert(chars.subrange(0, n as int) =~= chars);
    }
    if n > start {
        res.push(piece);
    }
    res
}

/// The last piece of `s` (see [`last_piece`]).
pub fn path_last_piece(s: &str) -> (r: &str)
    ensures
        r@ == last_piece(s@),
{
    let n = s.unicode_len();
    let ghost chars = s@;
    let mut start: usize = 0;
    let mut i: usize = 0;
    let ghost mut done: Seq<Seq<char>> = Seq::empty();
    assert(chars.subrange(0, 0) =~= Seq::<char>::empty());
    while i < n
        invariant
            n == chars.len(),
            chars == s@,
            start <= i <= n,
            split_pieces(chars.subrange(0, i as int)) == done.push(chars.subrange(start as int, i as int)),
        decreases n - i,
    {
        let c = s.get_char(i);
        proof {
            let t = chars.subrange(0, i + 1);
            assert(t.drop_last() =~= chars.subrange(0, i as int));
            assert(t.last() == c);
        }
        if c == '/' {
            proof {
                done = done.push(chars.subrange(start as int, i as int));
                assert(chars.subrange(i + 1, i + 1) =~= Seq::<char>::empty());
            }
            start = i + 1;
        } else {
            proof {
                assert(chars.subrange(start as int, i + 1) =~= chars.subrange(start as int, i as int).push(c));
            }
        }
        i = i + 1;
        assert(split_pieces(chars.subrange(0, i as int)) =~= done.push(chars.subrange(start as int, i as int)));
    }
    assert(chars.subrange(0, n as int) =~= chars);
    s.substring_char(start, n)
}

/// The name field of `name`: its bytes padded with zeros. An empty name, or one longer than
/// the field, is `InvalidFilename`.
pub fn name_field(name: &str) -> (r: Result<[u8; FILENAME_LEN], ImageError>)
    ensures
        (name.spec_bytes().len() == 0 || name.spec_bytes().len() > FILENAME_LEN)
            ==> r == Err::<[u8; FILENAME_LEN], ImageError>(ImageError::InvalidFilename),
        (0 < name.spec_bytes().len() <= FILENAME_LEN) ==> (r matches Ok(b) && b@ == padded_name(name.spec_bytes())),
{
    let bytes = name.as_bytes();
    if bytes.len() == 0 || bytes.len() > FILENAME_LEN {
        return Err(ImageError::InvalidFilename);
    }
    Ok(pad_name(bytes))
}

} // verus!
