use vstd::prelude::*;

use crate::data::{BobData, DataView};
use crate::error::Error;
use crate::store::{MemStore, Record};

verus! {

/// Life-cycle state of a holder.
#[derive(Debug, Clone, Copy, PartialEq, Eq, Structural)]
pub enum HolderState {
    /// Not opened yet, or being reopened after an I/O error.
    Initializing,
    /// The store is open and serves reads and writes.
    Ready,
}

/// What a holder looks like to contracts.
pub struct HolderView {
    pub path: Seq<char>,
    pub start: u64,
    pub end: u64,
    pub ready: bool,
    pub contents: Map<u64, DataView>,
}

impl HolderView {
    /// The holder serves a value for `k`.
    pub open spec fn has(self, k: u64) -> bool {
        self.ready && self.contents.contains_key(k)
    }

    /// The interval of the holder contains `t`.
    pub open spec fn covers(self, t: u64) -> bool {
        self.start <= t < self.end
    }
}

/// One partition store opened at a directory, covering the timestamps
/// `[start, end)`.
pub struct Holder {
    path: String,
    start: u64,
    end: u64,
    state: HolderState,
    store: MemStore,
}

impl Holder {
    pub closed spec fn spec_state(&self) -> HolderState {
        self.state
    }

    pub closed spec fn store_open(&self) -> bool {
        self.store.is_open()
    }

    /// A holder is Ready exactly when its store is open.
    pub closed spec fn wf(&self) -> bool {
        &&& self.store.wf()
        &&& self.start < self.end
        &&& (self.state == HolderState::Ready <==> self.store.is_open())
    }

    pub closed spec fn view(&self) -> HolderView {
        HolderView {
            path: self.path@,
            start: self.start,
            end: self.end,
            ready: self.state == HolderState::Ready,
            contents: self.store.view(),
        }
    }

    /// A holder for `[start, end)` at `path`, not yet prepared.
    pub fn new(path: String, start: u64, end: u64) -> (r: Holder)
        requires
            start < end,
        ensures
            r.wf(),
            r.view() == (HolderView { path: path@, start, end, ready: false, contents: Map::empty() }),
            r.spec_state() == HolderState::Initializing,
    {
        Holder { path, start, end, state: HolderState::Initializing, store: MemStore::new() }
    }

    /// A holder is Ready exactly when its store is open.
    pub proof fn law_ready_iff_open(&self)
        requires
            self.wf(),
        ensures
            (self.spec_state() == HolderState::Ready) <==> self.store_open(),
    {
    }

    pub proof fn lemma_wf(&self)
        requires
            self.wf(),
        ensures
            self.view().ready <==> self.store_open(),
            self.view().ready <==> self.spec_state() == HolderState::Ready,
            self.view().start < self.view().end,
    {
    }

    pub fn path(&self) -> (r: &String)
        ensures
            r@ == self.view().path,
    {
        &self.path
    }

    pub fn start(&self) -> (r: u64)
        ensures
            r == self.view().start,
    {
        self.start
    }

    pub fn end(&self) -> (r: u64)
        ensures
            r == self.view().end,
    {
        self.end
    }

    pub fn get_state(&self) -> (r: HolderState)
        ensures
            r == self.spec_state(),
    {
        self.state
    }

    pub fn is_ready(&self) -> (r: bool)
        requires
            self.wf(),
        ensures
            r == self.view().ready,
    {
        self.state == HolderState::Ready
    }

    /// Opens the store and marks the holder Ready; what it holds is kept.
    pub fn prepare(&mut self)
        requires
            old(self).wf(),
        ensures
            final(self).wf(),
            final(self).view() == (HolderView { ready: true, ..old(self).view() }),
    {
        self.store.open();
        self.state = HolderState::Ready;
    }

    /// Starts a reinit: false where one is under way already; else the holder
    /// turns Initializing, its store is closed, and the result is true.
    pub fn try_reinit(&mut self) -> (r: bool)
        requires
            old(self).wf(),
        ensures
            final(self).wf(),
            r == old(self).view().ready,
            final(self).view() == (HolderView { ready: false, ..old(self).view() }),
    {
        if self.state == HolderState::Initializing {
            return false;
        }
        self.state = HolderState::Initializing;
        self.store.close();
        true
    }

    /// Writes `data` under `key`; fails with `VDiskIsNotReady` unless Ready.
    pub fn write(&mut self, key: u64, data: BobData) -> (r: Result<(), Error>)
        requires
            old(self).wf(),
        ensures
            final(self).wf(),
            r is Ok <==> old(self).view().ready,
            r is Err ==> r->Err_0 is VDiskIsNotReady && final(self).view() == old(self).view(),
            r is Ok ==> final(self).view() == (HolderView {
                contents: old(self).view().contents.insert(key, data@),
                ..old(self).view()
            }),
    {
        if self.state != HolderState::Ready {
            return Err(Error::VDiskIsNotReady);
        }
        self.store.write(key, data)
    }

    /// Reads the value under `key`; fails with `VDiskIsNotReady` unless Ready,
    /// with `KeyNotFound` where the holder has no such key.
    pub fn read(&self, key: u64) -> (r: Result<BobData, Error>)
        requires
            self.wf(),
        ensures
            !self.view().ready ==> r is Err && r->Err_0 is VDiskIsNotReady,
            self.view().ready && !self.view().contents.contains_key(key) ==> r is Err
                && r->Err_0 is KeyNotFound,
            self.view().has(key) ==> r is Ok && r->Ok_0@ == self.view().contents[key],
    {
        if self.state != HolderState::Ready {
            return Err(Error::VDiskIsNotReady);
        }
        self.store.read(key)
    }

    /// For each key, whether the holder has it; fails with `VDiskIsNotReady`
    /// unless Ready.
    pub fn exist(&self, keys: &Vec<u64>) -> (r: Result<Vec<bool>, Error>)
        requires
            self.wf(),
        ensures
            r is Ok <==> self.view().ready,
            r is Err ==> r->Err_0 is VDiskIsNotReady,
            r matches Ok(v) ==> v@.len() == keys@.len() && forall|i: int|
                0 <= i < keys@.len() ==> v@[i] == self.view().contents.contains_key(keys@[i]),
    {
        if self.state != HolderState::Ready {
            return Err(Error::VDiskIsNotReady);
        }
        let mut out: Vec<bool> = Vec::with_capacity(keys.len());
        let mut i: usize = 0;
        while i < keys.len()
            invariant
                self.wf(),
                self.view().ready,
                i <= keys@.len(),
                out@.len() == i,
                forall|j: int| 0 <= j < i ==> out@[j] == self.view().contents.contains_key(keys@[j]),
            decreases keys@.len() - i,
        {
            let b = match self.store.contains(keys[i]) {
                Ok(b) => b,
                Err(_) => false,
            };
            out.push(b);
            i = i + 1;
        }
        Ok(out)
    }

    /// What the holder serves: every blob of a Ready holder; nothing else.
    pub fn records(&self) -> (r: Vec<Record>)
        requires
            self.wf(),
        ensures
            forall|i: int|
                0 <= i < r@.len() ==> self.view().has((#[trigger] r@[i]).key) && self.view().contents[r@[i].key]
                    == r@[i].data@,
            forall|k: u64|
                #[trigger] self.view().has(k) ==> exists|i: int| 0 <= i < r@.len() && r@[i].key == k,
    {
        if self.state != HolderState::Ready {
            return Vec::new();
        }
        self.store.records()
    }
}

} // verus!
