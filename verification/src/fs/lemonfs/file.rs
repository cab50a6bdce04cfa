//! Files of LemonFS.

use vstd::prelude::*;
use vstd::string::StringSliceAdditionalSpecFns;
use super::disk::{Filename, LinkPointer, name_bytes};

verus! {

/// A file: its name, its size in bytes, the head of its link chain and its data pointers.
#[derive(Debug, Clone)]
pub struct File {
    pub name: Filename,
    pub size: u64,
    pub head: LinkPointer,
    pub links: Vec<LinkPointer>,
}

/// The sum of the sizes of `links`.
pub open spec fn links_size(links: Seq<LinkPointer>) -> int
    decreases links.len(),
{
    if links.len() == 0 { 0 } else { links_size(links.drop_last()) + links.last().size }
}

impl File {
    /// An empty file named `name` whose single block is at `start`.
    pub fn new(name: &str, start: u64) -> (r: Self)
        ensures
            r.name.0@ == name_bytes(name.spec_bytes()),
            r.size == 0,
            r.head == (LinkPointer { start, size: 1 }),
            r.links@ == Seq::<LinkPointer>::empty(),
    {
        let pointer = LinkPointer::new(start, 1);
        Self {
            name: Filename::from_str(name),
            size: 0,
            head: pointer,
            links: Vec::new(),
        }
    }

    /// The file described by a directory entry's name and head, given the data pointers that
    /// its chain resolves to; its size is the sum of their sizes.
    pub fn from_links(name: Filename, head: LinkPointer, links: Vec<LinkPointer>) -> (r: Self)
        requires
            links_size(links@) <= u64::MAX,
        ensures
            r.name == name,
            r.head == head,
            r.links@ == links@,
            r.size == links_size(links@),
    {
        let size = total_size(&links);
        Self { name, size, head, links }
    }
}

/// The sum of the sizes of `links`.
pub fn total_size(links: &Vec<LinkPointer>) -> (r: u64)
    requires
        links_size(links@) <= u64::MAX,
    ensures
        r == links_size(links@),
{
    let mut sum: u64 = 0;
    let mut i: usize = 0;
    while i < links.len()
        invariant
            i <= links@.len(),
            links_size(links@) <= u64::MAX,
            sum == links_size(links@.subrange(0, i as int)),
        decreases links@.len() - i,
    {
        proof {
            assert(links@.subrange(0, i + 1).drop_last() =~= links@.subrange(0, i as int));
            lemma_links_size_prefix(links@, i + 1);
        }
        sum = sum + links[i].size;
        i = i + 1;
    }
    assert(links@.subrange(0, links@.len() as int) =~= links@);
    sum
}

/// The sizes of a prefix add up to no more than the sizes of the whole sequence.
pub proof fn lemma_links_size_prefix(links: Seq<LinkPointer>, n: int)
    requires
        0 <= n <= links.len(),
    ensures
        links_size(links.subrange(0, n)) <= links_size(links),
    decreases links.len() - n,
{
    if n < links.len() {
        lemma_links_size_prefix(links, n + 1);
        assert(links.subrange(0, n + 1).drop_last() =~= links.subrange(0, n));
    } else {
        assert(links.subrange(0, n) =~= links);
    }
}

} // verus!
