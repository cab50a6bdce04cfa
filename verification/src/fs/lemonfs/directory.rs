//! Directories of LemonFS and their entries.

use vstd::prelude::*;
use vstd::string::StringSliceAdditionalSpecFns;
use super::disk::{DirEntry, DirEntryFlags, Filename, LinkPointer, DIR_IS_DIR, DIR_IS_SYMLINK, name_bytes};
use super::file::File;
use crate::text::lossy_utf8;
use vstd::utf8::encode_utf8;

verus! {

/// The kinds of directory entries.
pub enum FileType {
    File,
    Directory,
    Symlink,
}

impl FileType {
    /// The kind that the flags of an on-disk entry stand for.
    pub fn from_dirflags(flags: DirEntryFlags) -> (r: Self)
        ensures
            r == (if flags.bits & DIR_IS_DIR == DIR_IS_DIR {
                FileType::Directory
            } else if flags.bits & DIR_IS_SYMLINK == DIR_IS_SYMLINK {
                FileType::Symlink
            } else {
                FileType::File
            }),
    {
        if flags.contains(DIR_IS_DIR) { Self::Directory }
        else if flags.contains(DIR_IS_SYMLINK) { Self::Symlink }
        else { Self::File }
    }
}

/// An entry of a directory.
#[derive(Debug, Clone)]
pub enum DirectoryEntry {
    File(File),
    Directory { name: Filename, link: LinkPointer },
    SymLink { name: Filename, dest: LinkPointer },
}

/// The name of an entry, as text.
pub open spec fn entry_name(e: DirectoryEntry) -> Seq<char> {
    match e {
        DirectoryEntry::File(f) => lossy_utf8(f.name.stored()),
        DirectoryEntry::Directory { name, .. } => lossy_utf8(name.stored()),
        DirectoryEntry::SymLink { name, .. } => lossy_utf8(name.stored()),
    }
}

/// The on-disk entry that stands for a directory entry.
pub open spec fn spec_dentry(e: DirectoryEntry) -> DirEntry {
    match e {
        DirectoryEntry::File(f) => DirEntry { name: f.name, flags: DirEntryFlags { bits: 0 }, link: f.head },
        DirectoryEntry::Directory { name, link } => DirEntry { name, flags: DirEntryFlags { bits: DIR_IS_DIR }, link },
        DirectoryEntry::SymLink { name, dest } => DirEntry { name, flags: DirEntryFlags { bits: DIR_IS_SYMLINK }, link: dest },
    }
}

impl DirectoryEntry {
    /// A new entry of kind `filetype` named `name` whose first block is at `start`. A new
    /// symbolic link points nowhere; a new file's name goes through its text form.
    pub fn new(name: Filename, start: u64, filetype: &FileType) -> (r: Self)
        ensures
            match *filetype {
                FileType::Directory => r == (DirectoryEntry::Directory { name, link: LinkPointer { start, size: 512 } }),
                FileType::Symlink => r == (DirectoryEntry::SymLink { name, dest: LinkPointer { start: 0, size: 0 } }),
                FileType::File => r matches DirectoryEntry::File(f) && f.size == 0
                    && f.head == (LinkPointer { start, size: 1 }) && f.links@.len() == 0
                    && f.name.0@ == name_bytes(encode_utf8(lossy_utf8(name.stored()))),
            },
    {
        match filetype {
            FileType::Directory => Self::Directory { name, link: LinkPointer::new(start, 512) },
            FileType::File => {
                let s = name.to_str();
                Self::File(File::new(s.as_str(), start))
            },
            FileType::Symlink => Self::SymLink { name, dest: LinkPointer::new(0, 0) },
        }
    }

    /// The name of the entry, as text.
    pub fn name(&self) -> (r: String)
        ensures
            r@ == entry_name(*self),
    {
        match self {
            Self::Directory { name, link: _ } | Self::SymLink { name, dest: _ } => name.to_str(),
            Self::File(f) => f.name.to_str(),
        }
    }

    /// A directory entry whose first block is at `start`.
    pub fn new_dir(name: Filename, start: u64) -> (r: Self)
        ensures
            r == (DirectoryEntry::Directory { name, link: LinkPointer { start, size: 512 } }),
    {
        Self::Directory { name, link: LinkPointer::new(start, 512) }
    }

    /// The on-disk entry that stands for this entry.
    pub fn to_dentry(&self) -> (r: DirEntry)
        ensures
            r == spec_dentry(*self),
    {
        match self {
            Self::File(f) => DirEntry::new(&f.name, DirEntryFlags::empty(), f.head),
            Self::Directory { name, link } => DirEntry::new(name, DirEntryFlags { bits: DIR_IS_DIR }, *link),
            Self::SymLink { name, dest } => DirEntry::new(name, DirEntryFlags { bits: DIR_IS_SYMLINK }, *dest),
        }
    }
}

/// A directory: its name, its parent's first block, its entries and the head of its block chain.
#[derive(Debug, Clone)]
pub struct Directory {
    pub name: Filename,
    pub parent: u64,
    pub children: Vec<DirectoryEntry>,
    pub head: LinkPointer,
}

/// The position of the first entry of `children` named `name`, if any.
pub open spec fn first_named(children: Seq<DirectoryEntry>, name: Seq<char>) -> Option<int> {
    if exists|i: int| 0 <= i < children.len() && entry_name(children[i]) == name {
        Some(choose|i: int| 0 <= i < children.len() && entry_name(children[i]) == name
            && forall|j: int| 0 <= j < i ==> entry_name(children[j]) != name)
    } else {
        None
    }
}

impl Directory {
    /// The position of the first child named `name`.
    pub fn find_child_idx(&self, name: &String) -> (r: Option<usize>)
        ensures
            match r {
                Some(i) => i < self.children@.len() && entry_name(self.children@[i as int]) == name@
                    && forall|j: int| 0 <= j < i ==> entry_name(self.children@[j]) != name@,
                None => forall|j: int| 0 <= j < self.children@.len() ==> entry_name(self.children@[j]) != name@,
            },
    {
        let mut i: usize = 0;
        while i < self.children.len()
            invariant
                i <= self.children@.len(),
                forall|j: int| 0 <= j < i ==> entry_name(self.children@[j]) != name@,
            decreases self.children@.len() - i,
        {
            let n = self.children[i].name();
            if n == *name { return Some(i) }
            i = i + 1;
        }
        None
    }

    /// The first child named `name`.
    pub fn get_child(&self, name: &String) -> (r: Option<&DirectoryEntry>)
        ensures
            match r {
                Some(e) => exists|i: int| 0 <= i < self.children@.len() && self.children@[i] == *e
                    && entry_name(*e) == name@
                    && forall|j: int| 0 <= j < i ==> entry_name(self.children@[j]) != name@,
                None => forall|j: int| 0 <= j < self.children@.len() ==> entry_name(self.children@[j]) != name@,
            },
    {
        match self.find_child_idx(name) {
            Some(i) => Some(&self.children[i]),
            None => None,
        }
    }
}

} // verus!
