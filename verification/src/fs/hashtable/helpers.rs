//! File names, path strings, and the file and directory records of the hash-table layout.

use vstd::prelude::*;
use vstd::string::*;
use super::{FILENAME_LEN, HashFsError};
use super::hash::{padded_name, name_len, name_text, bytes_to_name};
use super::headers::{DirectoryEntry, HashPointer, CHILDREN_PER_BLOCK};
use crate::fs::lemonfs::path::split_pieces;

verus! {

broadcast use vstd::string::group_string_axioms;

/// A name field: up to 40 bytes, padded with zeros.
#[derive(Debug, Clone, Copy, PartialEq)]
pub struct FileName(pub [u8; FILENAME_LEN]);

impl FileName {
    /// The name field of `s`; an empty name or one longer than the field is refused.
    pub fn from_str(s: &str) -> (r: Result<Self, HashFsError>)
        ensures
            (s.spec_bytes().len() == 0 || s.spec_bytes().len() > FILENAME_LEN)
                ==> r == Err::<FileName, HashFsError>(HashFsError::InvalidFilename),
            (0 < s.spec_bytes().len() <= FILENAME_LEN) ==> (r matches Ok(n) && n.0@ == padded_name(s.spec_bytes())),
    {
        match super::hash::name_to_bytes(s) {
            Ok(b) => Ok(Self(b)),
            Err(e) => Err(e),
        }
    }

    /// The name as text (empty when the stored bytes are not UTF-8).
    pub fn inner(&self) -> (r: &str)
        ensures
            r@ == name_text(self.0@),
    {
        proof {
            if exists|n: int| super::hash::is_name_end(self.0@, n) {
                let n = choose|n: int| super::hash::is_name_end(self.0@, n);
                assert(n < FILENAME_LEN);
            }
        }
        bytes_to_name(&self.0)
    }

    /// The name of the root directory, `/`.
    pub fn root() -> (r: Self)
        ensures
            r.0@ == padded_name(seq![47u8]),
    {
        let mut res = [0u8; FILENAME_LEN];
        res[0] = 47u8;
        assert(res@ =~= padded_name(seq![47u8]));
        Self(res)
    }
}

/// The index of the last `/` in `s`, or -1 if there is none.
pub open spec fn last_slash(s: Seq<char>) -> int
    decreases s.len(),
{
    if s.len() == 0 {
        -1
    } else if s.last() == '/' {
        s.len() - 1
    } else {
        last_slash(s.drop_last())
    }
}

proof fn lemma_last_slash_range(s: Seq<char>)
    ensures
        -1 <= last_slash(s) < s.len(),
        last_slash(s) >= 0 ==> s[last_slash(s)] == '/',
    decreases s.len(),
{
    if s.len() > 0 && s.last() != '/' {
        lemma_last_slash_range(s.drop_last());
    }
}

/// A path given as text.
pub struct Path(String);

impl View for Path {
    type V = Seq<char>;

    closed spec fn view(&self) -> Seq<char> {
        self.0@
    }
}

impl Path {
    /// The path spelled by `s`.
    pub fn from_str(s: &str) -> (r: Self)
        ensures
            r@ == s@,
    {
        Path(String::from_str(s))
    }

    /// Every piece of the path between `/` separators, empty ones included.
    pub fn to_dir_vec(&self) -> (r: Vec<&str>)
        ensures
            r@.len() == split_pieces(self@).len(),
            forall|k: int| 0 <= k < r@.len() ==> #[trigger] r@[k]@ == split_pieces(self@)[k],
    {
        let s: &str = self.0.as_str();
        let n = s.unicode_len();
        let ghost chars = s@;
        let mut res: Vec<&str> = Vec::new();
        let mut start: usize = 0;
        let mut i: usize = 0;
        assert(chars.subrange(0, 0) =~= Seq::<char>::empty());
        while i < n
            invariant
                n == chars.len(),
                chars == s@,
                chars == self@,
                start <= i <= n,
                split_pieces(chars.subrange(0, i as int)).len() == res@.len() + 1,
                forall|k: int| 0 <= k < res@.len() ==> #[trigger] res@[k]@ == split_pieces(chars.subrange(0, i as int))[k],
                split_pieces(chars.subrange(0, i as int)).last() == chars.subrange(start as int, i as int),
            decreases n - i,
        {
            let c = s.get_char(i);
            proof {
                let t = chars.subrange(0, i + 1);
                assert(t.drop_last() =~= chars.subrange(0, i as int));
                assert(t.last() == c);
            }
            if c == '/' {
                let piece = s.substring_char(start, i);
                res.push(piece);
                start = i + 1;
                assert(chars.subrange(start as int, i + 1) =~= Seq::<char>::empty());
            } else {
                assert(chars.subrange(start as int, i + 1) =~= chars.subrange(start as int, i as int).push(c));
            }
            i = i + 1;
        }
        let piece = s.substring_char(start, n);
        res.push(piece);
        assert(chars.subrange(0, n as int) =~= chars);
        res
    }

    /// The index of the last `/` of the path, if any.
    fn find_last_slash(&self) -> (r: Option<usize>)
        ensures
            last_slash(self@) == (match r { Some(k) => k as int, None => -1 }),
    {
        let s: &str = self.0.as_str();
        let n = s.unicode_len();
        let mut i: usize = n;
        assert(self@.subrange(0, n as int) =~= self@);
        while i > 0
            invariant
                i <= n,
                n == self@.len(),
                s@ == self@,
                last_slash(self@) == last_slash(self@.subrange(0, i as int)),
            decreases i,
        {
            let c = s.get_char(i - 1);
            proof {
                assert(self@.subrange(0, i as int).drop_last() =~= self@.subrange(0, i - 1));
            }
            if c == '/' {
                return Some(i - 1);
            }
            i = i - 1;
        }
        None
    }

    /// The path before the last `/`, or `/` when there is no `/`.
    pub fn parent(&self) -> (r: Path)
        ensures
            r@ == (if last_slash(self@) >= 0 { self@.subrange(0, last_slash(self@)) } else { seq!['/'] }),
    {
        proof { lemma_last_slash_range(self@); }
        match self.find_last_slash() {
            Some(k) => Path(String::from_str(self.0.as_str().substring_char(0, k))),
            None => {
                let slash = "/";
                proof {
                    reveal_strlit("/");
                    assert(slash@ =~= seq!['/']);
                }
                Path(String::from_str(slash))
            },
        }
    }

    /// The text after the last `/` (all of it when there is no `/`).
    pub fn file_name(&self) -> (r: &str)
        ensures
            r@ == self@.subrange(last_slash(self@) + 1, self@.len() as int),
    {
        proof { lemma_last_slash_range(self@); }
        let s = self.0.as_str();
        let n = s.unicode_len();
        match self.find_last_slash() {
            Some(k) => s.substring_char(k + 1, n),
            None => s.substring_char(0, n),
        }
    }

    /// The path as text.
    pub fn as_str(&self) -> (r: &str)
        ensures
            r@ == self@,
    {
        self.0.as_str()
    }
}

/// A file to be entered in the table: its name, first data block and size.
pub struct File {
    pub name: FileName,
    pub start: u64,
    pub size: u64,
}

/// A directory in memory: its name, its table entry, its first block and its children.
pub struct Directory {
    pub name: FileName,
    pub hash: HashPointer,
    pub start: u64,
    pub children: Vec<HashPointer>,
}

/// The first slot of a directory block that holds no child, if any.
pub fn find_free_dentry_slot(dentry: &DirectoryEntry) -> (r: Option<usize>)
    ensures
        match r {
            Some(i) => i < CHILDREN_PER_BLOCK && dentry.entries@[i as int].lba == 0
                && forall|j: int| 0 <= j < i ==> dentry.entries@[j].lba != 0,
            None => forall|j: int| 0 <= j < CHILDREN_PER_BLOCK ==> dentry.entries@[j].lba != 0,
        },
{
    let mut i: usize = 0;
    while i < CHILDREN_PER_BLOCK
        invariant
            i <= CHILDREN_PER_BLOCK,
            forall|j: int| 0 <= j < i ==> dentry.entries@[j].lba != 0,
        decreases CHILDREN_PER_BLOCK - i,
    {
        if !dentry.entries[i].is_valid() {
            return Some(i);
        }
        i = i + 1;
    }
    None
}

} // verus!
