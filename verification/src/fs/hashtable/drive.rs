//! The storage under the hash-table layout: a drive of 512-byte sectors.

use vstd::prelude::*;
use super::HashFsError;

verus! {

/// A drive of 512-byte sectors, read and written one sector at a time.
pub trait StorageDrive {
    /// The contents of the drive, sector by sector.
    spec fn sectors(&self) -> Seq<[u8; 512]>;

    /// Whether drives of this kind answer every read and write of a sector they hold.
    spec fn answers_all() -> bool;

    /// The number of sectors.
    fn sector_count(&self) -> (r: u64)
        ensures
            r == self.sectors().len();

    /// Reads sector `lba`; a sector past the end, or a failing read, is an error.
    fn read_sector(&mut self, lba: u64) -> (r: Result<[u8; 512], HashFsError>)
        ensures
            final(self).sectors() == old(self).sectors(),
            r matches Ok(b) ==> lba < old(self).sectors().len() && b == old(self).sectors()[lba as int],
            lba >= old(self).sectors().len() ==> r is Err,
            Self::answers_all() && lba < old(self).sectors().len() ==> r is Ok;

    /// Writes sector `lba`; a sector past the end, or a failing write, is an error and changes
    /// nothing.
    fn write_sector(&mut self, lba: u64, data: &[u8; 512]) -> (r: Result<(), HashFsError>)
        ensures
            r is Ok ==> lba < old(self).sectors().len() && final(self).sectors() == old(self).sectors().update(lba as int, *data),
            r is Err ==> final(self).sectors() == old(self).sectors(),
            lba >= old(self).sectors().len() ==> r is Err,
            Self::answers_all() && lba < old(self).sectors().len() ==> r is Ok;

    /// Appends `count` zeroed sectors at the end; a drive that cannot grow that far refuses and
    /// changes nothing.
    fn grow(&mut self, count: u64) -> (r: Result<(), HashFsError>)
        ensures
            r is Ok ==> final(self).sectors().len() == old(self).sectors().len() + count
                && (forall|i: int| 0 <= i < old(self).sectors().len() ==> #[trigger] final(self).sectors()[i] == old(self).sectors()[i])
                && (forall|i: int| old(self).sectors().len() <= i < final(self).sectors().len()
                    ==> #[trigger] final(self).sectors()[i]@ == Seq::new(512, |k: int| 0u8)),
            r is Err ==> final(self).sectors() == old(self).sectors(),
            Self::answers_all() && old(self).sectors().len() + count <= usize::MAX ==> r is Ok;
}

/// A drive held in memory.
#[derive(Clone)]
pub struct MemDrive {
    data: Vec<[u8; 512]>,
}

impl MemDrive {
    /// A drive of `count` zeroed sectors.
    pub fn new(count: usize) -> (r: Self)
        ensures
            r.sectors().len() == count,
            forall|i: int| 0 <= i < count ==> #[trigger] r.sectors()[i]@ == Seq::new(512, |k: int| 0u8),
    {
        let mut data: Vec<[u8; 512]> = Vec::new();
        let mut i: usize = 0;
        while i < count
            invariant
                i <= count,
                data@.len() == i,
                forall|j: int| 0 <= j < i ==> #[trigger] data@[j]@ == Seq::new(512, |k: int| 0u8),
            decreases count - i,
        {
            let z = [0u8; 512];
            assert(z@ =~= Seq::new(512, |k: int| 0u8));
            data.push(z);
            i = i + 1;
        }
        let r = MemDrive { data };
        assert forall|i: int| 0 <= i < count implies #[trigger] r.sectors()[i]@ == Seq::new(512, |k: int| 0u8) by {
            assert(r.sectors()[i] == r.data@[i]);
        }
        r
    }
}

impl StorageDrive for MemDrive {
    closed spec fn sectors(&self) -> Seq<[u8; 512]> {
        self.data@
    }

    open spec fn answers_all() -> bool {
        true
    }

    fn sector_count(&self) -> (r: u64) {
        self.data.len() as u64
    }

    fn read_sector(&mut self, lba: u64) -> (r: Result<[u8; 512], HashFsError>)
        ensures
            lba < old(self).sectors().len() ==> r == Ok::<[u8; 512], HashFsError>(old(self).sectors()[lba as int]),
    {
        if lba >= self.data.len() as u64 {
            return Err(HashFsError::IO);
        }
        Ok(self.data[lba as usize])
    }

    fn write_sector(&mut self, lba: u64, data: &[u8; 512]) -> (r: Result<(), HashFsError>)
        ensures
            lba < old(self).sectors().len() ==> r is Ok,
    {
        if lba >= self.data.len() as u64 {
            return Err(HashFsError::IO);
        }
        self.data.set(lba as usize, *data);
        Ok(())
    }

    fn grow(&mut self, count: u64) -> (r: Result<(), HashFsError>) {
        let len = self.data.len();
        if count as u128 > (usize::MAX - len) as u128 {
            return Err(HashFsError::IO);
        }
        let ghost s0 = self.data@;
        let mut i: u64 = 0;
        while i < count
            invariant
                i <= count,
                len == s0.len(),
                len + count <= usize::MAX,
                self.data@.len() == len + i,
                forall|j: int| 0 <= j < len ==> #[trigger] self.data@[j] == s0[j],
                forall|j: int| len <= j < len + i ==> #[trigger] self.data@[j]@ == Seq::new(512, |k: int| 0u8),
            decreases count - i,
        {
            let z = [0u8; 512];
            assert(z@ =~= Seq::new(512, |k: int| 0u8));
            self.data.push(z);
            i = i + 1;
        }
        Ok(())
    }
}

} // verus!
