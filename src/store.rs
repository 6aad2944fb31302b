use vstd::prelude::*;

use crate::data::{BobData, DataView};
use crate::error::Error;

verus! {

/// One blob kept by a partition store.
#[derive(Debug, Clone)]
pub struct Record {
    pub key: u64,
    pub data: BobData,
}

/// The records have distinct keys and hold exactly the entries of `contents`.
spec fn records_match(records: Seq<Record>, contents: Map<u64, DataView>) -> bool {
    &&& forall|i: int, j: int| 0 <= i < j < records.len() ==> records[i].key != records[j].key
    &&& forall|i: int|
        0 <= i < records.len() ==> contents.contains_key(#[trigger] records[i].key)
            && contents[records[i].key] == records[i].data@
    &&& forall|k: u64|
        #[trigger] contents.contains_key(k) ==> exists|i: int| 0 <= i < records.len() && records[i].key == k
}

/// An in-memory partition store: a set of blobs with distinct keys that can
/// be read and written while it is open.
pub struct MemStore {
    records: Vec<Record>,
    open: bool,
    contents: Ghost<Map<u64, DataView>>,
}

impl MemStore {
    pub closed spec fn is_open(&self) -> bool {
        self.open
    }

    /// The blobs that the store holds, by key.
    pub closed spec fn view(&self) -> Map<u64, DataView> {
        self.contents@
    }

    pub closed spec fn wf(&self) -> bool {
        records_match(self.records@, self.contents@)
    }

    /// An empty store, closed.
    pub fn new() -> (r: MemStore)
        ensures
            r.wf(),
            !r.is_open(),
            r.view() == Map::<u64, DataView>::empty(),
    {
        MemStore { records: Vec::new(), open: false, contents: Ghost(Map::empty()) }
    }

    pub fn is_opened(&self) -> (r: bool)
        ensures
            r == self.is_open(),
    {
        self.open
    }

    /// Opens the store; what it holds is kept.
    pub fn open(&mut self)
        requires
            old(self).wf(),
        ensures
            final(self).wf(),
            final(self).is_open(),
            final(self).view() == old(self).view(),
    {
        self.open = true;
    }

    /// Closes the store; what it holds is kept.
    pub fn close(&mut self)
        requires
            old(self).wf(),
        ensures
            final(self).wf(),
            !final(self).is_open(),
            final(self).view() == old(self).view(),
    {
        self.open = false;
    }

    fn position(&self, key: u64) -> (r: Option<usize>)
        requires
            self.wf(),
        ensures
            match r {
                Some(i) => i < self.records@.len() && self.records@[i as int].key == key,
                None => !self.view().contains_key(key),
            },
    {
        let mut i: usize = 0;
        while i < self.records.len()
            invariant
                i <= self.records@.len(),
                forall|j: int| 0 <= j < i ==> self.records@[j].key != key,
            decreases self.records@.len() - i,
        {
            if self.records[i].key == key {
                return Some(i);
            }
            i = i + 1;
        }
        None
    }

    /// Stores `data` under `key`, replacing what was there. Fails with
    /// `StorageError` when the store is closed.
    pub fn write(&mut self, key: u64, data: BobData) -> (r: Result<(), Error>)
        requires
            old(self).wf(),
        ensures
            final(self).wf(),
            final(self).is_open() == old(self).is_open(),
            r is Ok <==> old(self).is_open(),
            r is Err ==> r->Err_0 is StorageError && final(self).view() == old(self).view(),
            r is Ok ==> final(self).view() == old(self).view().insert(key, data@),
    {
        if !self.open {
            return Err(Error::StorageError(String::from_str("partition store is closed")));
        }
        let ghost v = data@;
        match self.position(key) {
            Some(i) => {
                self.records.set(i, Record { key, data });
                self.contents = Ghost(self.contents@.insert(key, v));
                assert forall|k: u64| #[trigger] self.contents@.contains_key(k) implies exists|j: int|
                    0 <= j < self.records@.len() && self.records@[j].key == k by {
                    if k != key {
                        let j = choose|j: int| 0 <= j < old(self).records@.len() && old(self).records@[j].key == k;
                        assert(self.records@[j].key == k);
                    } else {
                        assert(self.records@[i as int].key == k);
                    }
                }
            },
            None => {
                self.records.push(Record { key, data });
                self.contents = Ghost(self.contents@.insert(key, v));
                assert forall|k: u64| #[trigger] self.contents@.contains_key(k) implies exists|j: int|
                    0 <= j < self.records@.len() && self.records@[j].key == k by {
                    if k != key {
                        let j = choose|j: int| 0 <= j < old(self).records@.len() && old(self).records@[j].key == k;
                        assert(self.records@[j].key == k);
                    } else {
                        assert(self.records@[self.records@.len() - 1].key == k);
                    }
                }
            },
        }
        Ok(())
    }

    /// The blob under `key`. Fails with `StorageError` when the store is
    /// closed, with `KeyNotFound` when it holds no such key.
    pub fn read(&self, key: u64) -> (r: Result<BobData, Error>)
        requires
            self.wf(),
        ensures
            !self.is_open() ==> r is Err && r->Err_0 is StorageError,
            self.is_open() && !self.view().contains_key(key) ==> r is Err && r->Err_0 is KeyNotFound,
            self.is_open() && self.view().contains_key(key) ==> r is Ok && r->Ok_0@ == self.view()[key],
    {
        if !self.open {
            return Err(Error::StorageError(String::from_str("partition store is closed")));
        }
        match self.position(key) {
            Some(i) => Ok(self.records[i].data.duplicate()),
            None => Err(Error::KeyNotFound),
        }
    }

    /// Whether the store holds `key`. Fails with `StorageError` when closed.
    pub fn contains(&self, key: u64) -> (r: Result<bool, Error>)
        requires
            self.wf(),
        ensures
            r is Ok <==> self.is_open(),
            r is Err ==> r->Err_0 is StorageError,
            r matches Ok(b) ==> b == self.view().contains_key(key),
    {
        if !self.open {
            return Err(Error::StorageError(String::from_str("partition store is closed")));
        }
        match self.position(key) {
            Some(_) => Ok(true),
            None => Ok(false),
        }
    }

    /// A copy of every blob the store holds, one record per key.
    pub fn records(&self) -> (r: Vec<Record>)
        requires
            self.wf(),
        ensures
            forall|i: int|
                0 <= i < r@.len() ==> self.view().contains_key((#[trigger] r@[i]).key) && self.view()[r@[i].key]
                    == r@[i].data@,
            forall|k: u64|
                #[trigger] self.view().contains_key(k) ==> exists|i: int| 0 <= i < r@.len() && r@[i].key == k,
    {
        let mut out: Vec<Record> = Vec::new();
        let mut i: usize = 0;
        while i < self.records.len()
            invariant
                self.wf(),
                i <= self.records@.len(),
                out@.len() == i,
                forall|j: int| 0 <= j < i ==> (#[trigger] out@[j]).key == self.records@[j].key && out@[j].data@
                    == self.records@[j].data@,
            decreases self.records@.len() - i,
        {
            let rec = &self.records[i];
            out.push(Record { key: rec.key, data: rec.data.duplicate() });
            i = i + 1;
        }
        proof {
            assert forall|k: u64| #[trigger] self.view().contains_key(k) implies exists|j: int|
                0 <= j < out@.len() && out@[j].key == k by {
                let j = choose|j: int| 0 <= j < self.records@.len() && self.records@[j].key == k;
                assert(out@[j].key == k);
            }
        }
        out
    }
}

} // verus!
