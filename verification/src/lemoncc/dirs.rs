//! Directories of an image: a first sector of 56 hash pointers, and further such sectors as
//! the extents of the directory's link chain. A pointer with `lba == 0` is an empty slot.

use vstd::prelude::*;
use vstd::string::*;
use crate::fs::hashtable::drive::StorageDrive;
use crate::fs::hashtable::hash::{name_len, stored_name_len};
use super::ImageError;
use super::io::{read_lba, write_lba};
use super::disk::{HashEntry, HashPointer, LinkEntry, SuperBlock, FILENAME_LEN, HASHPTRS_PER_BLOCK,
    ptrs_of, get_hash_ptr, put_hash_ptr, lemma_entry_fields, entry_status, u64_at};
use super::table::{entry_bytes, hash_ptr_read, sector_spliced};
use super::links::{chain, walk_chain, extend_link};
use super::space::{alloc_blocks, layout_ok};

verus! {

/// The pointers of `ps` that are not empty, in order.
pub open spec fn live_ptrs(ps: Seq<HashPointer>) -> Seq<HashPointer>
    decreases ps.len(),
{
    if ps.len() == 0 {
        Seq::empty()
    } else {
        live_ptrs(ps.drop_last()) + (if ps.last().lba != 0 { seq![ps.last()] } else { Seq::empty() })
    }
}

/// The live pointers of the directory sectors that the extents of `v` point to, in order.
pub open spec fn chain_children(sectors: Seq<[u8; 512]>, v: Seq<LinkEntry>) -> Seq<HashPointer>
    decreases v.len(),
{
    if v.len() == 0 {
        Seq::empty()
    } else {
        chain_children(sectors, v.drop_last())
            + (if v.last().size != 0 { live_ptrs(ptrs_of(sectors[v.last().ptr as int]@)) } else { Seq::empty() })
    }
}

/// The children a directory lists: the live pointers of its first sector, then those of the
/// sectors its link chain visits.
pub open spec fn listing(sectors: Seq<[u8; 512]>, start: u64, v: Seq<LinkEntry>) -> Seq<HashPointer> {
    live_ptrs(ptrs_of(sectors[start as int]@)) + chain_children(sectors, v)
}

/// The link chain an entry holds.
pub open spec fn entry_chain(dir: HashEntry) -> LinkEntry {
    LinkEntry { ptr: dir.link_ptr, size: dir.link_size }
}

/// Appends the live pointers of directory sector `lba` to `kids`.
fn append_live<D: StorageDrive>(drive: &mut D, lba: u64, kids: &mut Vec<HashPointer>) -> (r: Result<(), ImageError>)
    ensures
        final(drive).sectors() == old(drive).sectors(),
        r is Ok ==> lba < old(drive).sectors().len() && final(kids)@ == old(kids)@ + live_ptrs(ptrs_of(old(drive).sectors()[lba as int]@)),
        r matches Err(e) ==> e == ImageError::Io,
{
    let b = read_lba(drive, lba)?;
    let ghost k0 = kids@;
    let mut i: usize = 0;
    assert(ptrs_of(b@).subrange(0, 0) =~= Seq::<HashPointer>::empty());
    assert(k0 + Seq::<HashPointer>::empty() =~= k0);
    while i < HASHPTRS_PER_BLOCK
        invariant
            i <= HASHPTRS_PER_BLOCK,
            kids@ == k0 + live_ptrs(ptrs_of(b@).subrange(0, i as int)),
        decreases HASHPTRS_PER_BLOCK - i,
    {
        let p = get_hash_ptr(&b, i);
        let ghost w = ptrs_of(b@).subrange(0, i + 1);
        assert(w.drop_last() =~= ptrs_of(b@).subrange(0, i as int));
        assert(w.last() == p);
        if p.lba != 0 {
            kids.push(p);
            assert(kids@ =~= k0 + live_ptrs(w));
        } else {
            assert(kids@ =~= k0 + live_ptrs(w));
        }
        i = i + 1;
    }
    assert(ptrs_of(b@).subrange(0, 56) =~= ptrs_of(b@));
    Ok(())
}

/// The children that directory `dir` lists (see [`listing`]).
pub fn dir_children<D: StorageDrive>(drive: &mut D, dir: &HashEntry) -> (r: Result<Vec<HashPointer>, ImageError>)
    ensures
        final(drive).sectors() == old(drive).sectors(),
        r matches Ok(kids) ==> dir.start_block < old(drive).sectors().len()
            && (chain(old(drive).sectors(), entry_chain(*dir)) matches Some(v)
            && kids@ == listing(old(drive).sectors(), dir.start_block, v)),
        r matches Err(e) ==> e == ImageError::Io || e == ImageError::Corrupt,
{
    let ghost s = drive.sectors();
    let mut kids: Vec<HashPointer> = Vec::new();
    append_live(drive, dir.start_block, &mut kids)?;
    let ghost k1 = kids@;
    let link = LinkEntry { ptr: dir.link_ptr, size: dir.link_size };
    let v = walk_chain(drive, link)?;
    let mut i: usize = 0;
    assert(k1 + chain_children(s, v@.subrange(0, 0)) =~= k1);
    while i < v.len()
        invariant
            drive.sectors() == s,
            s == old(drive).sectors(),
            i <= v@.len(),
            kids@ == k1 + chain_children(s, v@.subrange(0, i as int)),
        decreases v@.len() - i,
    {
        let e = v[i];
        let ghost w = v@.subrange(0, i + 1);
        assert(w.drop_last() =~= v@.subrange(0, i as int));
        assert(w.last() == e);
        if e.is_direct() {
            append_live(drive, e.ptr, &mut kids)?;
            assert(kids@ =~= k1 + chain_children(s, w));
        } else {
            assert(kids@ =~= k1 + chain_children(s, w));
        }
        i = i + 1;
    }
    assert(v@.subrange(0, v@.len() as int) =~= v@);
    Ok(kids)
}

/// The name stored in a name field: its bytes up to the first zero, or all of them.
pub open spec fn stored_name(b: Seq<u8>) -> Seq<u8> {
    b.subrange(0, name_len(b))
}

/// Whether the name stored in `bytes` is `name`, byte for byte.
pub fn name_matches(bytes: &[u8; FILENAME_LEN], name: &str) -> (r: bool)
    ensures
        r == (stored_name(bytes@) == name.spec_bytes()),
{
    let len = stored_name_len(bytes);
    let nb = name.as_bytes();
    if len != nb.len() {
        return false;
    }
    let mut i: usize = 0;
    while i < len
        invariant
            len == name_len(bytes@),
            len == nb@.len(),
            len <= FILENAME_LEN,
            nb@ == name.spec_bytes(),
            i <= len,
            forall|j: int| 0 <= j < i ==> bytes@[j] == nb@[j],
        decreases len - i,
    {
        if bytes[i] != nb[i] {
            return false;
        }
        i = i + 1;
    }
    assert(stored_name(bytes@) =~= nb@);
    true
}

/// Pointer `p` names a used entry that holds `name`.
pub open spec fn child_matches(sectors: Seq<[u8; 512]>, p: HashPointer, name: Seq<u8>) -> bool {
    &&& p.offset < 6
    &&& p.lba < sectors.len()
    &&& entry_status(entry_bytes(sectors, p)) == 1
    &&& stored_name(entry_bytes(sectors, p).subrange(2, 42)) == name
}

/// The first pointer of `kids` to a used entry named `name`.
pub open spec fn first_match(sectors: Seq<[u8; 512]>, kids: Seq<HashPointer>, name: Seq<u8>) -> Option<HashPointer>
    decreases kids.len(),
{
    if kids.len() == 0 {
        None
    } else if child_matches(sectors, kids[0], name) {
        Some(kids[0])
    } else {
        first_match(sectors, kids.drop_first(), name)
    }
}

/// The first child of directory `dir` that is a used entry named `name` (see [`listing`]);
/// none when the directory's chain does not read.
pub open spec fn first_child(sectors: Seq<[u8; 512]>, dir: HashEntry, name: Seq<u8>) -> Option<HashPointer> {
    match chain(sectors, entry_chain(dir)) {
        Some(v) => first_match(sectors, listing(sectors, dir.start_block, v), name),
        None => None,
    }
}

/// The entry that the table holds at `p`.
pub open spec fn entry_at(sectors: Seq<[u8; 512]>, p: HashPointer) -> HashEntry {
    choose|e: HashEntry| e.image() == entry_bytes(sectors, p)
}

/// An entry read at `p` is the entry the table holds there.
pub proof fn lemma_entry_at(sectors: Seq<[u8; 512]>, p: HashPointer, e: HashEntry)
    requires
        e.image() == entry_bytes(sectors, p),
    ensures
        entry_at(sectors, p) == e,
{
    let c = entry_at(sectors, p);
    assert(c.image() == entry_bytes(sectors, p));
    super::disk::lemma_entry_reads_back(e, c);
}

/// The first matching pointer is the one before which none matches.
proof fn lemma_first_match(sectors: Seq<[u8; 512]>, kids: Seq<HashPointer>, name: Seq<u8>, k: int)
    requires
        0 <= k < kids.len(),
        child_matches(sectors, kids[k], name),
        forall|j: int| 0 <= j < k ==> !child_matches(sectors, #[trigger] kids[j], name),
    ensures
        first_match(sectors, kids, name) == Some(kids[k]),
    decreases k,
{
    if k > 0 {
        let rest = kids.drop_first();
        assert forall|j: int| 0 <= j < k - 1 implies !child_matches(sectors, #[trigger] rest[j], name) by {
            assert(rest[j] == kids[j + 1]);
        }
        assert(!child_matches(sectors, kids[0], name));
        lemma_first_match(sectors, rest, name, k - 1);
    }
}

/// No pointer matches: there is no first match.
proof fn lemma_no_match(sectors: Seq<[u8; 512]>, kids: Seq<HashPointer>, name: Seq<u8>)
    requires
        forall|j: int| 0 <= j < kids.len() ==> !child_matches(sectors, #[trigger] kids[j], name),
    ensures
        first_match(sectors, kids, name) is None,
    decreases kids.len(),
{
    if kids.len() > 0 {
        let rest = kids.drop_first();
        assert forall|j: int| 0 <= j < rest.len() implies !child_matches(sectors, #[trigger] rest[j], name) by {
            assert(rest[j] == kids[j + 1]);
        }
        assert(!child_matches(sectors, kids[0], name));
        lemma_no_match(sectors, rest, name);
    }
}

/// The first child of `dir` (in [`listing`] order) that is a used entry named `child_name`.
/// None is `NotFound`; a child pointer past the six entries of a sector is `Corrupt`.
pub fn dir_find_child<D: StorageDrive>(drive: &mut D, dir: &HashEntry, child_name: &str) -> (r: Result<(HashPointer, HashEntry), ImageError>)
    ensures
        final(drive).sectors() == old(drive).sectors(),
        r matches Ok((p, e)) ==> (chain(old(drive).sectors(), entry_chain(*dir)) matches Some(v) && ({
            let kids = listing(old(drive).sectors(), dir.start_block, v);
            exists|k: int| 0 <= k < kids.len() && kids[k] == p
                && child_matches(old(drive).sectors(), p, child_name.spec_bytes())
                && forall|j: int| 0 <= j < k ==> !child_matches(old(drive).sectors(), #[trigger] kids[j], child_name.spec_bytes())
        }) && e.image() == entry_bytes(old(drive).sectors(), p)),
        r == Err::<(HashPointer, HashEntry), ImageError>(ImageError::NotFound) ==> (chain(old(drive).sectors(), entry_chain(*dir)) matches Some(v) && ({
            let kids = listing(old(drive).sectors(), dir.start_block, v);
            forall|j: int| 0 <= j < kids.len() ==> !child_matches(old(drive).sectors(), #[trigger] kids[j], child_name.spec_bytes())
        })),
        r matches Ok((p, e)) ==> first_child(old(drive).sectors(), *dir, child_name.spec_bytes()) == Some(p)
            && entry_at(old(drive).sectors(), p) == e,
        r == Err::<(HashPointer, HashEntry), ImageError>(ImageError::NotFound)
            ==> first_child(old(drive).sectors(), *dir, child_name.spec_bytes()) is None,
        r matches Err(e) ==> e == ImageError::Io || e == ImageError::Corrupt || e == ImageError::NotFound,
{
    let ghost s = drive.sectors();
    let kids = dir_children(drive, dir)?;
    let mut i: usize = 0;
    while i < kids.len()
        invariant
            drive.sectors() == s,
            s == old(drive).sectors(),
            i <= kids@.len(),
            chain(s, entry_chain(*dir)) matches Some(v) && kids@ == listing(s, dir.start_block, v),
            forall|j: int| 0 <= j < i ==> !child_matches(s, #[trigger] kids@[j], child_name.spec_bytes()),
        decreases kids@.len() - i,
    {
        let p = kids[i];
        if p.offset >= 6 {
            return Err(ImageError::Corrupt);
        }
        let entry = hash_ptr_read(drive, &p)?;
        proof {
            lemma_entry_fields(entry);
        }
        let found = entry.status == 1 && name_matches(&entry.name, child_name);
        if found {
            proof {
                assert(entry.image().subrange(2, 42) == entry.name@);
                assert(child_matches(s, p, child_name.spec_bytes()));
                assert(kids@[i as int] == p);
            }
            proof {
                lemma_first_match(s, kids@, child_name.spec_bytes(), i as int);
                lemma_entry_at(s, p, entry);
            }
            return Ok((p, entry));
        }
        i = i + 1;
    }
    proof {
        lemma_no_match(s, kids@, child_name.spec_bytes());
    }
    Err(ImageError::NotFound)
}

/// The first empty slot of a directory sector.
pub fn find_free_dentry_slot(b: &[u8; 512]) -> (r: Option<usize>)
    ensures
        r matches Some(i) ==> i < 56 && ptrs_of(b@)[i as int].lba == 0
            && forall|j: int| 0 <= j < i ==> #[trigger] ptrs_of(b@)[j].lba != 0,
        r is None ==> forall|j: int| 0 <= j < 56 ==> #[trigger] ptrs_of(b@)[j].lba != 0,
{
    let mut i: usize = 0;
    while i < HASHPTRS_PER_BLOCK
        invariant
            i <= HASHPTRS_PER_BLOCK,
            forall|j: int| 0 <= j < i ==> #[trigger] ptrs_of(b@)[j].lba != 0,
        decreases HASHPTRS_PER_BLOCK - i,
    {
        let p = get_hash_ptr(b, i);
        if p.lba == 0 {
            return Some(i);
        }
        i = i + 1;
    }
    None
}

/// The first slot of a directory sector that holds `p`.
pub fn find_ptr_slot(b: &[u8; 512], p: &HashPointer) -> (r: Option<usize>)
    ensures
        r matches Some(i) ==> i < 56 && ptrs_of(b@)[i as int] == *p
            && forall|j: int| 0 <= j < i ==> #[trigger] ptrs_of(b@)[j] != *p,
        r is None ==> forall|j: int| 0 <= j < 56 ==> #[trigger] ptrs_of(b@)[j] != *p,
{
    let mut i: usize = 0;
    while i < HASHPTRS_PER_BLOCK
        invariant
            i <= HASHPTRS_PER_BLOCK,
            forall|j: int| 0 <= j < i ==> #[trigger] ptrs_of(b@)[j] != *p,
        decreases HASHPTRS_PER_BLOCK - i,
    {
        let q = get_hash_ptr(b, i);
        if q.lba == p.lba && q.offset == p.offset {
            return Some(i);
        }
        i = i + 1;
    }
    None
}

/// The empty pointer.
pub open spec fn null_ptr() -> HashPointer {
    HashPointer { lba: 0, offset: 0 }
}

/// After writing `p` at slot `i` of a directory sector, that slot reads back as `p`.
pub proof fn lemma_ptr_written(b0: Seq<u8>, b: Seq<u8>, i: int, p: HashPointer)
    requires
        0 <= i < 56,
        b0.len() == 512,
        b == super::disk::splice(b0, i * 9, p.image()),
    ensures
        ptrs_of(b)[i] == p,
{
    vstd::bytes::lemma_auto_spec_u64_to_from_le_bytes();
    assert(b.subrange(i * 9, i * 9 + 8) =~= super::disk::le64(p.lba));
}

/// Writing a pointer in slot `i` of a directory sector leaves the other slots.
pub proof fn lemma_ptr_others(b0: Seq<u8>, b: Seq<u8>, i: int, j: int, p: HashPointer)
    requires
        0 <= i < 56,
        0 <= j < 56,
        i != j,
        b0.len() == 512,
        b == super::disk::splice(b0, i * 9, p.image()),
    ensures
        ptrs_of(b)[j] == ptrs_of(b0)[j],
{
    vstd::bytes::lemma_auto_spec_u64_to_from_le_bytes();
    assert(p.image().len() == 9);
    assert(b.subrange(j * 9, j * 9 + 8) =~= b0.subrange(j * 9, j * 9 + 8));
    assert(b[j * 9 + 8] == b0[j * 9 + 8]);
}

/// The live pointers of slots that are all empty but one are that one.
pub proof fn lemma_live_single(ps: Seq<HashPointer>, i: int, p: HashPointer, k: int)
    requires
        0 <= i < ps.len(),
        0 <= k <= ps.len(),
        ps[i] == p,
        p.lba != 0,
        forall|j: int| 0 <= j < ps.len() && j != i ==> #[trigger] ps[j].lba == 0,
    ensures
        live_ptrs(ps.subrange(0, k)) == (if k > i { seq![p] } else { Seq::<HashPointer>::empty() }),
    decreases k,
{
    if k > 0 {
        lemma_live_single(ps, i, p, k - 1);
        assert(ps.subrange(0, k).drop_last() =~= ps.subrange(0, k - 1));
        if k - 1 == i {
            assert(Seq::<HashPointer>::empty() + seq![p] =~= seq![p]);
        } else if k - 1 > i {
            assert(seq![p] + Seq::<HashPointer>::empty() =~= seq![p]);
        } else {
            assert(Seq::<HashPointer>::empty() + Seq::<HashPointer>::empty() =~= Seq::<HashPointer>::empty());
        }
    } else {
        assert(ps.subrange(0, 0) =~= Seq::<HashPointer>::empty());
    }
}

/// Adds `child` to the directory whose first sector is `dir_lba` and whose chain is
/// `dir_link`: in the first empty slot of the first sector, else of the first directory sector
/// the chain visits, else in a newly allocated directory sector that is appended to the chain
/// (see [`extend_link`]), which may change `dir_link`.
pub fn dir_add_child<D: StorageDrive>(drive: &mut D, sb: &SuperBlock, dir_lba: u64, dir_link: &mut LinkEntry, child: HashPointer) -> (r: Result<(), ImageError>)
    requires
        layout_ok(*sb),
    ensures
        old(dir_link).ptr != 0 ==> *final(dir_link) == *old(dir_link),
        *final(dir_link) != *old(dir_link) ==> r is Ok && final(dir_link).size == 512
            && final(dir_link).ptr < final(drive).sectors().len()
            && ptrs_of(final(drive).sectors()[final(dir_link).ptr as int]@)[0] == child,
        r is Ok && old(dir_link).ptr == 0 && *final(dir_link) == *old(dir_link) ==> dir_lba < old(drive).sectors().len() && (exists|i: int|
            0 <= i < 56 && ptrs_of(old(drive).sectors()[dir_lba as int]@)[i].lba == 0
            && sector_spliced(old(drive).sectors(), final(drive).sectors(), dir_lba as int, i * 9, child.image())),
        r is Ok && dir_lba < old(drive).sectors().len()
            && (exists|i: int| 0 <= i < 56 && #[trigger] ptrs_of(old(drive).sectors()[dir_lba as int]@)[i].lba == 0)
            ==> *final(dir_link) == *old(dir_link) && (exists|i: int| 0 <= i < 56
                && ptrs_of(old(drive).sectors()[dir_lba as int]@)[i].lba == 0
                && #[trigger] sector_spliced(old(drive).sectors(), final(drive).sectors(), dir_lba as int, i * 9, child.image())),
        final(drive).sectors().len() == old(drive).sectors().len(),
        r matches Err(e) ==> e == ImageError::Io || e == ImageError::Corrupt || e == ImageError::DiskFull,
        D::answers_all() && dir_lba < old(drive).sectors().len()
            && (exists|i: int| 0 <= i < 56 && #[trigger] ptrs_of(old(drive).sectors()[dir_lba as int]@)[i].lba == 0)
            ==> r is Ok,
{
    let mut b = read_lba(drive, dir_lba)?;
    let slot = find_free_dentry_slot(&b);
    if slot.is_none() {
        proof {
            assert(!(exists|i: int| 0 <= i < 56 && #[trigger] ptrs_of(old(drive).sectors()[dir_lba as int]@)[i].lba == 0));
        }
    }
    if let Some(idx) = slot {
        let ghost b0 = b@;
        put_hash_ptr(&mut b, idx, &child);
        let r = write_lba(drive, dir_lba, &b);
        proof {
            if r is Ok {
                assert(drive.sectors()[dir_lba as int]@ == super::disk::splice(b0, idx * 9, child.image()));
                assert(sector_spliced(old(drive).sectors(), drive.sectors(), dir_lba as int, idx * 9, child.image()));
                assert(ptrs_of(old(drive).sectors()[dir_lba as int]@)[idx as int].lba == 0);
            }
        }
        return r;
    }
    let v = walk_chain(drive, *dir_link)?;
    let ghost len0 = drive.sectors().len();
    assert(old(dir_link).ptr == 0 ==> v@.len() == 0) by {
        if old(dir_link).ptr == 0 {
            let st = seq![*old(dir_link)];
            assert(st.drop_last() =~= Seq::<LinkEntry>::empty());
            reveal_with_fuel(super::links::walk, 2);
        }
    }
    let mut i: usize = 0;
    while i < v.len()
        invariant
            i <= v@.len(),
            drive.sectors().len() == len0,
            len0 == old(drive).sectors().len(),
            *dir_link == *old(dir_link),
            old(dir_link).ptr == 0 ==> v@.len() == 0,
            !(exists|j: int| 0 <= j < 56 && #[trigger] ptrs_of(old(drive).sectors()[dir_lba as int]@)[j].lba == 0),
        decreases v@.len() - i,
    {
        let e = v[i];
        if e.is_direct() {
            let mut db = read_lba(drive, e.ptr)?;
            if let Some(idx) = find_free_dentry_slot(&db) {
                put_hash_ptr(&mut db, idx, &child);
                return write_lba(drive, e.ptr, &db);
            }
        }
        i = i + 1;
    }
    let new_lba = alloc_blocks(drive, sb, 1)?;
    let mut nb = [0u8; 512];
    let ghost nb0 = nb@;
    put_hash_ptr(&mut nb, 0, &child);
    proof { lemma_ptr_written(nb0, nb@, 0, child); }
    write_lba(drive, new_lba, &nb)?;
    let ghost mid = drive.sectors();
    let r = extend_link(drive, sb, dir_link, LinkEntry { ptr: new_lba, size: 512 });
    proof {
        if *dir_link != *old(dir_link) {
            assert(drive.sectors() == mid);
            assert(mid[new_lba as int] == nb);
        }
    }
    r
}

/// `p` is in some slot of directory sector `lba`.
pub open spec fn holds_ptr(sectors: Seq<[u8; 512]>, lba: int, p: HashPointer) -> bool {
    exists|k: int| 0 <= k < 56 && #[trigger] ptrs_of(sectors[lba]@)[k] == p
}

/// Removes `child` from directory `dir`: empties the first slot that holds it, in the first
/// sector, else in the first directory sector the chain visits that holds it. A directory that
/// does not hold it is `NotInDirectory`.
pub fn dir_remove_child<D: StorageDrive>(drive: &mut D, dir: &HashEntry, child: &HashPointer) -> (r: Result<(), ImageError>)
    ensures
        r is Ok ==> exists|lba: int, k: int| 0 <= k < 56 && 0 <= lba < old(drive).sectors().len()
            && #[trigger] ptrs_of(old(drive).sectors()[lba]@)[k] == *child
            && sector_spliced(old(drive).sectors(), final(drive).sectors(), lba, k * 9, null_ptr().image()),
        r is Ok && holds_ptr(old(drive).sectors(), dir.start_block as int, *child) ==> exists|k: int| 0 <= k < 56
            && ptrs_of(old(drive).sectors()[dir.start_block as int]@)[k] == *child
            && (forall|j: int| 0 <= j < k ==> #[trigger] ptrs_of(old(drive).sectors()[dir.start_block as int]@)[j] != *child)
            && #[trigger] sector_spliced(old(drive).sectors(), final(drive).sectors(), dir.start_block as int, k * 9, null_ptr().image()),
        r is Ok && !holds_ptr(old(drive).sectors(), dir.start_block as int, *child)
            ==> (chain(old(drive).sectors(), entry_chain(*dir)) matches Some(v) && exists|i: int, k: int|
                0 <= i < v.len() && v[i].size != 0 && 0 <= k < 56
                && (forall|j: int| 0 <= j < i && #[trigger] v[j].size != 0 ==> !holds_ptr(old(drive).sectors(), v[j].ptr as int, *child))
                && ptrs_of(old(drive).sectors()[v[i].ptr as int]@)[k] == *child
                && (forall|j: int| 0 <= j < k ==> #[trigger] ptrs_of(old(drive).sectors()[v[i].ptr as int]@)[j] != *child)
                && #[trigger] sector_spliced(old(drive).sectors(), final(drive).sectors(), v[i].ptr as int, k * 9, null_ptr().image())),
        r is Err ==> final(drive).sectors() == old(drive).sectors(),
        r == Err::<(), ImageError>(ImageError::NotInDirectory) ==> !holds_ptr(old(drive).sectors(), dir.start_block as int, *child)
            && (chain(old(drive).sectors(), entry_chain(*dir)) matches Some(v)
            && forall|j: int| 0 <= j < v.len() && #[trigger] v[j].size != 0 ==> !holds_ptr(old(drive).sectors(), v[j].ptr as int, *child)),
        r matches Err(e) ==> e == ImageError::Io || e == ImageError::Corrupt || e == ImageError::NotInDirectory,
{
    let ghost s = drive.sectors();
    let mut b = read_lba(drive, dir.start_block)?;
    let null = HashPointer { lba: 0, offset: 0 };
    if let Some(idx) = find_ptr_slot(&b, child) {
        let ghost b0 = b@;
        put_hash_ptr(&mut b, idx, &null);
        let r = write_lba(drive, dir.start_block, &b);
        proof {
            if r is Ok {
                assert(ptrs_of(s[dir.start_block as int]@)[idx as int] == *child);
                assert(sector_spliced(s, drive.sectors(), dir.start_block as int, idx * 9, null_ptr().image()));
            }
        }
        return r;
    }
    proof {
        assert(!holds_ptr(s, dir.start_block as int, *child));
    }
    let link = LinkEntry { ptr: dir.link_ptr, size: dir.link_size };
    let v = walk_chain(drive, link)?;
    let mut i: usize = 0;
    while i < v.len()
        invariant
            drive.sectors() == s,
            s == old(drive).sectors(),
            i <= v@.len(),
            !holds_ptr(s, dir.start_block as int, *child),
            chain(s, entry_chain(*dir)) == Some(v@),
            forall|j: int| 0 <= j < i && #[trigger] v@[j].size != 0 ==> !holds_ptr(s, v@[j].ptr as int, *child),
            null == null_ptr(),
        decreases v@.len() - i,
    {
        let e = v[i];
        if e.is_direct() {
            let mut db = read_lba(drive, e.ptr)?;
            match find_ptr_slot(&db, child) {
                Some(idx) => {
                    put_hash_ptr(&mut db, idx, &null);
                    let r = write_lba(drive, e.ptr, &db);
                    proof {
                        if r is Ok {
                            assert(ptrs_of(s[e.ptr as int]@)[idx as int] == *child);
                            assert(sector_spliced(s, drive.sectors(), e.ptr as int, idx * 9, null_ptr().image()));
                            assert(v@[i as int] == e);
                            let ii = i as int;
                            let kk = idx as int;
                            assert(v@[ii].size != 0);
                            assert(forall|j: int| 0 <= j < kk ==> #[trigger] ptrs_of(s[v@[ii].ptr as int]@)[j] != *child);
                            assert(sector_spliced(s, drive.sectors(), v@[ii].ptr as int, kk * 9, null_ptr().image()));
                            assert(exists|i2: int, k2: int| 0 <= i2 < v@.len() && v@[i2].size != 0 && 0 <= k2 < 56
                                && (forall|j: int| 0 <= j < i2 && #[trigger] v@[j].size != 0 ==> !holds_ptr(s, v@[j].ptr as int, *child))
                                && ptrs_of(s[v@[i2].ptr as int]@)[k2] == *child
                                && (forall|j: int| 0 <= j < k2 ==> #[trigger] ptrs_of(s[v@[i2].ptr as int]@)[j] != *child)
                                && #[trigger] sector_spliced(s, drive.sectors(), v@[i2].ptr as int, k2 * 9, null_ptr().image()));
                            assert(chain(s, entry_chain(*dir)) matches Some(w) && exists|i2: int, k2: int|
                                0 <= i2 < w.len() && w[i2].size != 0 && 0 <= k2 < 56
                                && (forall|j: int| 0 <= j < i2 && #[trigger] w[j].size != 0 ==> !holds_ptr(s, w[j].ptr as int, *child))
                                && ptrs_of(s[w[i2].ptr as int]@)[k2] == *child
                                && (forall|j: int| 0 <= j < k2 ==> #[trigger] ptrs_of(s[w[i2].ptr as int]@)[j] != *child)
                                && #[trigger] sector_spliced(s, drive.sectors(), w[i2].ptr as int, k2 * 9, null_ptr().image()));
                        }
                    }
                    return r;
                }
                None => {}
            }
        }
        i = i + 1;
    }
    Err(ImageError::NotInDirectory)
}

} // verus!
