//! An in-memory cache of directory entries, keyed by parent and name, with least-recently-used
//! eviction.

use vstd::prelude::*;
use super::FILENAME_LEN;
use super::hash::{name_len, name_text, name_eq, is_name_end};
use super::headers::HashEntry;

verus! {

/// Number of entries the cache holds.
pub const CACHE_SLOTS: usize = 128;

/// `p` is the cached entry for `name` under `parent`.
pub open spec fn key_matches(p: (u64, HashEntry), parent: u64, name: Seq<char>) -> bool {
    p.0 == parent && name_text(p.1.name@) == name
}

/// The first index of `s` whose entry is cached for `name` under `parent`.
pub open spec fn first_match(s: Seq<(u64, HashEntry)>, parent: u64, name: Seq<char>) -> Option<int>
    decreases s.len(),
{
    if s.len() == 0 {
        None
    } else {
        match first_match(s.drop_last(), parent, name) {
            Some(i) => Some(i),
            None => if key_matches(s.last(), parent, name) { Some(s.len() - 1) } else { None },
        }
    }
}

/// The first index of the smallest age in `ages` (0 for an empty sequence).
pub open spec fn oldest(ages: Seq<u64>) -> int
    decreases ages.len(),
{
    if ages.len() <= 1 {
        0
    } else {
        let j = oldest(ages.drop_last());
        if ages.last() < ages[j] { ages.len() - 1 } else { j }
    }
}

/// No two entries of `s` are cached under the same parent and name.
pub open spec fn keys_unique(s: Seq<(u64, HashEntry)>) -> bool {
    forall|i: int, j: int| #![trigger s[i], s[j]]
        0 <= i < j < s.len() ==> !key_matches(s[j], s[i].0, name_text(s[i].1.name@))
}

/// The entries after `insert(parent, entry)` on entries `s` with ages `ages`.
pub open spec fn inserted_slots(s: Seq<(u64, HashEntry)>, ages: Seq<u64>, parent: u64, entry: HashEntry)
    -> Seq<(u64, HashEntry)>
{
    match first_match(s, parent, name_text(entry.name@)) {
        Some(i) => s.update(i, (parent, entry)),
        None => if s.len() < CACHE_SLOTS { s.push((parent, entry)) } else { s.update(oldest(ages), (parent, entry)) },
    }
}

/// The ages after `insert(parent, entry)`, the entry touched getting age `tick`.
pub open spec fn inserted_ages(s: Seq<(u64, HashEntry)>, ages: Seq<u64>, parent: u64, entry: HashEntry, tick: u64)
    -> Seq<u64>
{
    match first_match(s, parent, name_text(entry.name@)) {
        Some(i) => ages.update(i, tick),
        None => if s.len() < CACHE_SLOTS { ages.push(tick) } else { ages.update(oldest(ages), tick) },
    }
}

/// What a lookup of `name` under `parent` finds in entries `s`.
pub open spec fn looked_up(s: Seq<(u64, HashEntry)>, parent: u64, name: Seq<char>) -> Option<HashEntry> {
    match first_match(s, parent, name) {
        Some(i) => Some(s[i].1),
        None => None,
    }
}

/// The entries after removing the one cached for `name` under `parent`.
pub open spec fn removed_slots(s: Seq<(u64, HashEntry)>, parent: u64, name: Seq<char>) -> Seq<(u64, HashEntry)> {
    match first_match(s, parent, name) {
        Some(i) => s.remove(i),
        None => s,
    }
}

/// The ages after removing the entry cached for `name` under `parent`.
pub open spec fn removed_ages(s: Seq<(u64, HashEntry)>, ages: Seq<u64>, parent: u64, name: Seq<char>) -> Seq<u64> {
    match first_match(s, parent, name) {
        Some(i) => ages.remove(i),
        None => ages,
    }
}

proof fn lemma_first_match_range(s: Seq<(u64, HashEntry)>, parent: u64, name: Seq<char>)
    ensures
        match first_match(s, parent, name) {
            Some(i) => 0 <= i < s.len() && key_matches(s[i], parent, name)
                && forall|j: int| 0 <= j < i ==> !key_matches(#[trigger] s[j], parent, name),
            None => forall|j: int| 0 <= j < s.len() ==> !key_matches(#[trigger] s[j], parent, name),
        },
    decreases s.len(),
{
    if s.len() > 0 {
        lemma_first_match_range(s.drop_last(), parent, name);
        let d = s.drop_last();
        assert forall|j: int| 0 <= j < d.len() implies d[j] == s[j] by {}
    }
}

/// The first index with the property is the one `first_match` gives.
proof fn lemma_first_match_is(s: Seq<(u64, HashEntry)>, parent: u64, name: Seq<char>, i: int)
    requires
        0 <= i < s.len(),
        key_matches(s[i], parent, name),
        forall|j: int| 0 <= j < i ==> !key_matches(#[trigger] s[j], parent, name),
    ensures
        first_match(s, parent, name) == Some(i),
{
    lemma_first_match_range(s, parent, name);
    match first_match(s, parent, name) {
        Some(k) => {
            if k < i {
                assert(!key_matches(s[k], parent, name));
            }
            if k > i {
                assert(!key_matches(s[i], parent, name));
            }
        },
        None => {
            assert(!key_matches(s[i], parent, name));
        },
    }
}

proof fn lemma_first_match_none(s: Seq<(u64, HashEntry)>, parent: u64, name: Seq<char>)
    requires
        forall|j: int| 0 <= j < s.len() ==> !key_matches(#[trigger] s[j], parent, name),
    ensures
        first_match(s, parent, name) is None,
{
    lemma_first_match_range(s, parent, name);
    if let Some(k) = first_match(s, parent, name) {
        assert(!key_matches(s[k], parent, name));
    }
}

proof fn lemma_oldest_range(ages: Seq<u64>)
    ensures
        ages.len() > 0 ==> 0 <= oldest(ages) < ages.len(),
        ages.len() > 0 ==> forall|j: int| 0 <= j < ages.len() ==> ages[oldest(ages)] <= #[trigger] ages[j],
    decreases ages.len(),
{
    if ages.len() > 1 {
        let d = ages.drop_last();
        lemma_oldest_range(d);
        assert forall|j: int| 0 <= j < d.len() implies d[j] == ages[j] by {}
    }
}

/// A name field always holds its name's end within the field.
proof fn lemma_field_name_len(b: Seq<u8>)
    requires
        b.len() == FILENAME_LEN,
    ensures
        name_len(b) <= b.len(),
{
    if exists|n: int| is_name_end(b, n) {
        let n = choose|n: int| is_name_end(b, n);
        assert(n < b.len());
    }
}

/// A cache of up to 128 directory entries, each stored with the block of its parent.
/// Each use of an entry stamps it with the current tick; when the cache is full, inserting a
/// new entry replaces the one used longest ago.
#[derive(Debug)]
pub struct DirectoryCache {
    entries: [(u64, HashEntry); CACHE_SLOTS],
    ages: [u64; CACHE_SLOTS],
    count: usize,
    tick: u64,
}

impl DirectoryCache {
    /// The cached entries, in slot order, each with its parent.
    pub closed spec fn slots(&self) -> Seq<(u64, HashEntry)> {
        self.entries@.subrange(0, self.count as int)
    }

    /// The tick at which each cached entry was last used.
    pub closed spec fn ages(&self) -> Seq<u64> {
        self.ages@.subrange(0, self.count as int)
    }

    /// The current tick.
    pub closed spec fn now(&self) -> u64 {
        self.tick
    }

    /// At most 128 entries, no key twice, every age before the current tick.
    pub closed spec fn wf(&self) -> bool {
        &&& self.count <= CACHE_SLOTS
        &&& keys_unique(self.slots())
        &&& forall|i: int| 0 <= i < self.count ==> self.ages@[i] < self.tick
    }

    proof fn lemma_views(&self)
        requires
            self.count <= CACHE_SLOTS,
        ensures
            self.slots().len() == self.count,
            self.ages().len() == self.count,
            forall|i: int| 0 <= i < self.count ==> self.slots()[i] == #[trigger] self.entries@[i],
            forall|i: int| 0 <= i < self.count ==> self.ages()[i] == #[trigger] self.ages@[i],
    {
    }

    /// An empty cache.
    pub fn new() -> (r: Self)
        ensures
            r.wf(),
            r.slots() == Seq::<(u64, HashEntry)>::empty(),
            r.ages() == Seq::<u64>::empty(),
            r.now() == 0,
    {
        let r = Self {
            entries: [(0u64, HashEntry::unused()); CACHE_SLOTS],
            ages: [0u64; CACHE_SLOTS],
            count: 0,
            tick: 0,
        };
        assert(r.slots() =~= Seq::<(u64, HashEntry)>::empty());
        assert(r.ages() =~= Seq::<u64>::empty());
        r
    }

    /// The index of the first cached entry for `name` under `parent`.
    fn position(&self, parent: u64, name: &str) -> (r: Option<usize>)
        requires
            self.count <= CACHE_SLOTS,
        ensures
            match first_match(self.slots(), parent, name@) {
                Some(i) => r == Some(i as usize),
                None => r is None,
            },
    {
        let ghost s = self.slots();
        let mut i: usize = 0;
        while i < self.count
            invariant
                self.count <= CACHE_SLOTS,
                s == self.slots(),
                i <= self.count,
                forall|j: int| 0 <= j < i ==> !key_matches(#[trigger] s[j], parent, name@),
            decreases self.count - i,
        {
            proof {
                self.lemma_views();
                lemma_field_name_len(self.entries@[i as int].1.name@);
            }
            if self.entries[i].0 == parent && name_eq(&self.entries[i].1.name, name) {
                proof { lemma_first_match_is(s, parent, name@, i as int); }
                return Some(i);
            }
            i = i + 1;
        }
        proof { lemma_first_match_none(s, parent, name@); }
        None
    }

    /// The slot of the entry used longest ago (the first, among equal ages).
    fn oldest_slot(&self) -> (r: usize)
        requires
            self.count == CACHE_SLOTS,
        ensures
            r == oldest(self.ages()),
    {
        let ghost a = self.ages();
        let mut idx: usize = 0;
        let mut age = self.ages[0];
        let mut i: usize = 1;
        proof {
            self.lemma_views();
            assert(a.subrange(0, 1).len() == 1);
        }
        while i < CACHE_SLOTS
            invariant
                self.count == CACHE_SLOTS,
                a == self.ages(),
                a.len() == CACHE_SLOTS,
                1 <= i <= CACHE_SLOTS,
                idx == oldest(a.subrange(0, i as int)),
                idx < i,
                age == a[idx as int],
            decreases CACHE_SLOTS - i,
        {
            proof {
                self.lemma_views();
                let t = a.subrange(0, i + 1);
                assert(t.drop_last() =~= a.subrange(0, i as int));
                assert(t.last() == a[i as int]);
                assert(t[idx as int] == a[idx as int]);
            }
            if self.ages[i] < age {
                age = self.ages[i];
                idx = i;
            }
            i = i + 1;
        }
        assert(a.subrange(0, CACHE_SLOTS as int) =~= a);
        idx
    }

    /// Caches `entry` under `parent`. An entry already cached under the same parent and name is
    /// replaced in place; otherwise the entry takes a free slot, or, when all 128 are taken, the
    /// slot of the entry used longest ago. The entry is stamped with the current tick.
    pub fn insert(&mut self, parent: u64, entry: &HashEntry)
        requires
            old(self).wf(),
            old(self).now() < u64::MAX,
        ensures
            final(self).wf(),
            final(self).slots() == inserted_slots(old(self).slots(), old(self).ages(), parent, *entry),
            final(self).ages() == inserted_ages(old(self).slots(), old(self).ages(), parent, *entry, old(self).now()),
            final(self).now() == old(self).now() + 1,
    {
        proof {
            self.lemma_views();
            lemma_field_name_len(entry.name@);
        }
        let ghost s = self.slots();
        let ghost a = self.ages();
        let ghost key = name_text(entry.name@);
        let name = super::hash::bytes_to_name(&entry.name);
        proof {
            lemma_first_match_range(s, parent, key);
        }
        match self.position(parent, name) {
            Some(i) => {
                self.entries[i] = (parent, *entry);
                self.ages[i] = self.tick;
                proof {
                    assert(self.slots() =~= s.update(i as int, (parent, *entry)));
                    assert(self.ages() =~= a.update(i as int, old(self).tick));
                    assert forall|x: int, y: int| #![trigger self.slots()[x], self.slots()[y]]
                        0 <= x < y < self.slots().len() implies
                        !key_matches(self.slots()[y], self.slots()[x].0, name_text(self.slots()[x].1.name@)) by {
                        if x != i && y != i {
                            assert(s[x] == self.slots()[x] && s[y] == self.slots()[y]);
                        } else if x == i {
                            assert(s[y] == self.slots()[y]);
                            assert(key_matches(s[x], parent, key));
                        } else {
                            assert(s[x] == self.slots()[x]);
                            assert(key_matches(s[y], parent, key));
                        }
                    }
                }
            },
            None => {
                if self.count == CACHE_SLOTS {
                    let k = self.oldest_slot();
                    proof { lemma_oldest_range(a); }
                    self.entries[k] = (parent, *entry);
                    self.ages[k] = self.tick;
                    proof {
                        assert(self.slots() =~= s.update(k as int, (parent, *entry)));
                        assert(self.ages() =~= a.update(k as int, old(self).tick));
                        assert forall|x: int, y: int| #![trigger self.slots()[x], self.slots()[y]]
                            0 <= x < y < self.slots().len() implies
                            !key_matches(self.slots()[y], self.slots()[x].0, name_text(self.slots()[x].1.name@)) by {
                            if x != k && y != k {
                                assert(s[x] == self.slots()[x] && s[y] == self.slots()[y]);
                            } else if x == k {
                                assert(s[y] == self.slots()[y]);
                                assert(!key_matches(s[y], parent, key));
                            } else {
                                assert(s[x] == self.slots()[x]);
                                assert(!key_matches(s[x], parent, key));
                            }
                        }
                    }
                } else {
                    let c = self.count;
                    self.entries[c] = (parent, *entry);
                    self.ages[c] = self.tick;
                    self.count = c + 1;
                    proof {
                        assert(self.slots() =~= s.push((parent, *entry)));
                        assert(self.ages() =~= a.push(old(self).tick));
                        assert forall|x: int, y: int| #![trigger self.slots()[x], self.slots()[y]]
                            0 <= x < y < self.slots().len() implies
                            !key_matches(self.slots()[y], self.slots()[x].0, name_text(self.slots()[x].1.name@)) by {
                            assert(s[x] == self.slots()[x]);
                            if y == c {
                                assert(!key_matches(s[x], parent, key));
                            } else {
                                assert(s[y] == self.slots()[y]);
                            }
                        }
                    }
                }
            },
        }
        self.tick = self.tick + 1;
    }

    /// The entry cached for `name` under `parent`, if any; a hit stamps it with the current tick.
    pub fn lookup(&mut self, parent: u64, name: &str) -> (r: Option<&HashEntry>)
        requires
            old(self).wf(),
            old(self).now() < u64::MAX,
        ensures
            final(self).wf(),
            final(self).slots() == old(self).slots(),
            match first_match(old(self).slots(), parent, name@) {
                Some(i) => r == Some(&old(self).slots()[i].1)
                    && final(self).ages() == old(self).ages().update(i, old(self).now())
                    && final(self).now() == old(self).now() + 1,
                None => r is None && final(self).ages() == old(self).ages() && final(self).now() == old(self).now(),
            },
    {
        proof {
            self.lemma_views();
            lemma_first_match_range(self.slots(), parent, name@);
        }
        let ghost a = self.ages();
        match self.position(parent, name) {
            Some(i) => {
                self.ages[i] = self.tick;
                self.tick = self.tick + 1;
                proof {
                    assert(self.ages() =~= a.update(i as int, old(self).tick));
                    assert(self.slots() =~= old(self).slots());
                }
                Some(&self.entries[i].1)
            },
            None => None,
        }
    }

    /// Drops the entry cached for `name` under `parent`, if any; the entries after it move up.
    pub fn remove(&mut self, parent: u64, name: &str)
        requires
            old(self).wf(),
        ensures
            final(self).wf(),
            final(self).slots() == removed_slots(old(self).slots(), parent, name@),
            final(self).ages() == removed_ages(old(self).slots(), old(self).ages(), parent, name@),
            final(self).now() == old(self).now(),
    {
        proof {
            self.lemma_views();
            lemma_first_match_range(self.slots(), parent, name@);
        }
        let ghost s = self.slots();
        let ghost a = self.ages();
        if let Some(i) = self.position(parent, name) {
            let mut j: usize = i;
            while j + 1 < self.count
                invariant
                    old(self).wf(),
                    s == old(self).slots(),
                    a == old(self).ages(),
                    self.count == old(self).count,
                    self.tick == old(self).tick,
                    self.count <= CACHE_SLOTS,
                    i < self.count,
                    i <= j < self.count,
                    forall|k: int| 0 <= k < i ==> self.entries@[k] == s[k] && self.ages@[k] == a[k],
                    forall|k: int| i <= k < j ==> self.entries@[k] == s[k + 1] && self.ages@[k] == a[k + 1],
                    forall|k: int| j < k < self.count ==> self.entries@[k] == s[k] && self.ages@[k] == a[k],
                decreases self.count - j,
            {
                let e = self.entries[j + 1];
                let g = self.ages[j + 1];
                self.entries[j] = e;
                self.ages[j] = g;
                j = j + 1;
            }
            self.count = self.count - 1;
            proof {
                assert(self.slots() =~= s.remove(i as int));
                assert(self.ages() =~= a.remove(i as int));
                assert forall|k: int| 0 <= k < self.count implies self.ages@[k] < self.tick by {
                    if k < i { assert(self.ages@[k] == old(self).ages@[k]); }
                    else { assert(self.ages@[k] == old(self).ages@[k + 1]); }
                }
                assert forall|x: int, y: int| #![trigger self.slots()[x], self.slots()[y]]
                    0 <= x < y < self.slots().len() implies
                    !key_matches(self.slots()[y], self.slots()[x].0, name_text(self.slots()[x].1.name@)) by {
                    let xx = if x < i { x } else { x + 1 };
                    let yy = if y < i { y } else { y + 1 };
                    assert(self.slots()[x] == s[xx] && self.slots()[y] == s[yy]);
                }
            }
        }
    }
}

/// A lookup right after inserting an entry finds that entry, under its parent and name.
pub proof fn lemma_insert_then_lookup(s: Seq<(u64, HashEntry)>, ages: Seq<u64>, parent: u64, entry: HashEntry)
    requires
        s.len() <= CACHE_SLOTS,
        ages.len() == s.len(),
    ensures
        looked_up(inserted_slots(s, ages, parent, entry), parent, name_text(entry.name@)) == Some(entry),
{
    let key = name_text(entry.name@);
    let t = inserted_slots(s, ages, parent, entry);
    lemma_first_match_range(s, parent, key);
    match first_match(s, parent, key) {
        Some(i) => {
            assert forall|j: int| 0 <= j < i implies !key_matches(#[trigger] t[j], parent, key) by {
                assert(t[j] == s[j]);
            }
            lemma_first_match_is(t, parent, key, i);
        },
        None => {
            let k = if s.len() < CACHE_SLOTS { s.len() as int } else { oldest(ages) };
            lemma_oldest_range(ages);
            assert forall|j: int| 0 <= j < k implies !key_matches(#[trigger] t[j], parent, key) by {
                assert(t[j] == s[j]);
            }
            lemma_first_match_is(t, parent, key, k);
        },
    }
}

/// After removing the entry cached for a name under a parent, a lookup of it finds nothing,
/// provided no key was cached twice (which every operation keeps).
pub proof fn lemma_remove_then_lookup(s: Seq<(u64, HashEntry)>, parent: u64, name: Seq<char>)
    requires
        keys_unique(s),
    ensures
        looked_up(removed_slots(s, parent, name), parent, name) is None,
{
    lemma_first_match_range(s, parent, name);
    let t = removed_slots(s, parent, name);
    match first_match(s, parent, name) {
        Some(i) => {
            assert forall|j: int| 0 <= j < t.len() implies !key_matches(#[trigger] t[j], parent, name) by {
                if j >= i {
                    assert(t[j] == s[j + 1]);
                    assert(s[i].0 == parent && name_text(s[i].1.name@) == name);
                    assert(!key_matches(s[j + 1], s[i].0, name_text(s[i].1.name@)));
                } else {
                    assert(t[j] == s[j]);
                }
            }
            lemma_first_match_none(t, parent, name);
        },
        None => {},
    }
}

/// Removing the entry cached for a name under a parent changes no lookup of another key; and
/// removing a key that is not cached changes nothing.
pub proof fn lemma_remove_keeps_others(s: Seq<(u64, HashEntry)>, parent: u64, name: Seq<char>, p: u64, n: Seq<char>)
    requires
        p != parent || n != name,
    ensures
        looked_up(removed_slots(s, parent, name), p, n) == looked_up(s, p, n),
        looked_up(s, parent, name) is None ==> removed_slots(s, parent, name) == s,
{
    lemma_first_match_range(s, parent, name);
    lemma_first_match_range(s, p, n);
    let t = removed_slots(s, parent, name);
    match first_match(s, parent, name) {
        Some(i) => {
            assert(!key_matches(s[i], p, n));
            match first_match(s, p, n) {
                Some(j) => {
                    let jj = if j < i { j } else { j - 1 };
                    assert(t[jj] == s[j]);
                    assert forall|k: int| 0 <= k < jj implies !key_matches(#[trigger] t[k], p, n) by {
                        if k < i { assert(t[k] == s[k]); } else { assert(t[k] == s[k + 1]); }
                    }
                    lemma_first_match_is(t, p, n, jj);
                },
                None => {
                    assert forall|k: int| 0 <= k < t.len() implies !key_matches(#[trigger] t[k], p, n) by {
                        if k < i { assert(t[k] == s[k]); } else { assert(t[k] == s[k + 1]); }
                    }
                    lemma_first_match_none(t, p, n);
                },
            }
        },
        None => {},
    }
}

/// Inserting an entry leaves every entry cached under another key in the cache, unless the
/// cache was full and that entry was the one used longest ago.
pub proof fn lemma_insert_keeps_others(
    s: Seq<(u64, HashEntry)>,
    ages: Seq<u64>,
    parent: u64,
    entry: HashEntry,
    other_parent: u64,
    other_name: Seq<char>,
)
    requires
        keys_unique(s),
        s.len() <= CACHE_SLOTS,
        ages.len() == s.len(),
        !(other_parent == parent && other_name == name_text(entry.name@)),
        looked_up(s, other_parent, other_name) is Some,
        !(s.len() == CACHE_SLOTS && first_match(s, parent, name_text(entry.name@)) is None
            && first_match(s, other_parent, other_name) == Some(oldest(ages))),
    ensures
        looked_up(inserted_slots(s, ages, parent, entry), other_parent, other_name)
            == looked_up(s, other_parent, other_name),
{
    let key = name_text(entry.name@);
    let t = inserted_slots(s, ages, parent, entry);
    lemma_first_match_range(s, parent, key);
    lemma_first_match_range(s, other_parent, other_name);
    lemma_oldest_range(ages);
    let o = first_match(s, other_parent, other_name)->0;
    let k = match first_match(s, parent, key) {
        Some(i) => i,
        None => if s.len() < CACHE_SLOTS { s.len() as int } else { oldest(ages) },
    };
    assert(k != o) by {
        if k == o && first_match(s, parent, key) is Some {
            assert(key_matches(s[o], parent, key));
        }
    }
    assert forall|j: int| 0 <= j < o implies !key_matches(#[trigger] t[j], other_parent, other_name) by {
        if j == k {
            assert(t[j] == (parent, entry));
        } else {
            assert(t[j] == s[j]);
        }
    }
    assert(t[o] == s[o]);
    lemma_first_match_is(t, other_parent, other_name, o);
}

} // verus!
