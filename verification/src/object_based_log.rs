//! An append-only log stored as numbered cloud objects per generation.
//! The accounting state machine lives here; the caller persists each
//! chunk this module hands back and replays chunks it fetched.

use vstd::prelude::*;
use crate::base::PoolGuid;
use crate::base::Txg;

verus! {

/// Entry types an object-based log can hold.
pub trait ObjectBasedLogEntry: Sized + Copy {

}

/// The durable identity of a log: its generation, how many chunks and
/// entries that generation holds, and its key prefix.
#[derive(Debug, Clone)]
pub struct ObjectBasedLogPhys {
    pub generation: u64,
    pub num_chunks: u64,
    pub num_entries: u64,
    pub key: String,
}

/// A resumption token: iteration up to here has been handed out; the
/// remainder starts at this chunk.
#[derive(Debug, Copy, Clone, PartialEq, Eq, Structural)]
pub struct ObjectBasedLogRemainder {
    pub chunk: u64,
}

/// One chunk ready to be written: the entries it carries and where.
#[derive(Debug)]
pub struct ObjectBasedLogChunk<T> {
    pub guid: PoolGuid,
    pub generation: u64,
    pub chunk: u64,
    pub txg: Txg,
    pub entries: Vec<T>,
}

/// The in-memory side of an object-based log: counts of what is durable
/// plus the entries not yet flushed.
#[derive(Debug)]
pub struct ObjectBasedLog<T> {
    pub guid: PoolGuid,
    pub generation: u64,
    pub num_flushed_chunks: u64,
    pub num_chunks: u64,
    pub num_entries: u64,
    pub pending_entries: Vec<T>,
}

impl<T: Copy> ObjectBasedLog<T> {
    pub fn create(guid: PoolGuid) -> (r: ObjectBasedLog<T>)
        ensures
            r.guid == guid,
            r.generation == 0,
            r.num_chunks == 0,
            r.num_entries == 0,
            r.pending_entries@.len() == 0,
            r.num_flushed_chunks == 0,
    {
        ObjectBasedLog {
            guid,
            generation: 0,
            num_flushed_chunks: 0,
            num_chunks: 0,
            num_entries: 0,
            pending_entries: Vec::new(),
        }
    }

    /// Reopen from the durable record: nothing pending.
    pub fn open_by_phys(guid: PoolGuid, phys: &ObjectBasedLogPhys) -> (r: ObjectBasedLog<T>)
        ensures
            r.guid == guid,
            r.generation == phys.generation,
            r.num_chunks == phys.num_chunks,
            r.num_flushed_chunks == phys.num_chunks,
            r.num_entries == phys.num_entries,
            r.pending_entries@.len() == 0,
    {
        ObjectBasedLog {
            guid,
            generation: phys.generation,
            num_flushed_chunks: phys.num_chunks,
            num_chunks: phys.num_chunks,
            num_entries: phys.num_entries,
            pending_entries: Vec::new(),
        }
    }

    pub fn to_phys(&self, key: String) -> (r: ObjectBasedLogPhys)
        ensures
            r.generation == self.generation,
            r.num_chunks == self.num_chunks,
            r.num_entries == self.num_entries,
    {
        ObjectBasedLogPhys {
            generation: self.generation,
            num_chunks: self.num_chunks,
            num_entries: self.num_entries,
            key,
        }
    }

    pub fn append(&mut self, entry: T)
        ensures
            final(self).pending_entries@ == old(self).pending_entries@.push(entry),
            *final(self) == (ObjectBasedLog {
                pending_entries: final(self).pending_entries,
                ..*old(self)
            }),
    {
        self.pending_entries.push(entry);
    }

    /// Seal the pending entries into a chunk for the caller to persist.
    /// The chunk takes the next chunk number of the current generation.
    pub fn initiate_flush(&mut self, txg: Txg) -> (r: ObjectBasedLogChunk<T>)
        requires
            old(self).num_chunks < u64::MAX,
            old(self).num_entries + old(self).pending_entries@.len() <= u64::MAX,
        ensures
            r.guid == old(self).guid,
            r.generation == old(self).generation,
            r.chunk == old(self).num_chunks,
            r.txg == txg,
            r.entries@ == old(self).pending_entries@,
            final(self).pending_entries@.len() == 0,
            final(self).num_chunks == old(self).num_chunks + 1,
            final(self).num_entries == old(self).num_entries
                + old(self).pending_entries@.len(),
            final(self).generation == old(self).generation,
            final(self).guid == old(self).guid,
            final(self).num_flushed_chunks == old(self).num_flushed_chunks,
    {
        let mut entries: Vec<T> = Vec::new();
        std::mem::swap(&mut entries, &mut self.pending_entries);
        let chunk = ObjectBasedLogChunk {
            guid: self.guid,
            generation: self.generation,
            chunk: self.num_chunks,
            txg,
            entries,
        };
        self.num_chunks = self.num_chunks + 1;
        self.num_entries = self.num_entries + chunk.entries.len() as u64;
        chunk
    }

    /// Mark every initiated chunk durable: the caller's writes finished.
    pub fn flush_complete(&mut self)
        ensures
            final(self).num_flushed_chunks == final(self).num_chunks,
            *final(self) == (ObjectBasedLog {
                num_flushed_chunks: final(self).num_flushed_chunks,
                ..*old(self)
            }),
    {
        self.num_flushed_chunks = self.num_chunks;
    }

    /// Start a fresh generation; the old one's objects can be deleted
    /// once the new state is durable.
    pub fn clear(&mut self)
        requires
            old(self).pending_entries@.len() == 0,
            old(self).generation < u64::MAX,
        ensures
            final(self).generation == old(self).generation + 1,
            final(self).num_chunks == 0,
            final(self).num_entries == 0,
            final(self).num_flushed_chunks == 0,
            final(self).pending_entries@.len() == 0,
            final(self).guid == old(self).guid,
    {
        self.generation = self.generation + 1;
        self.num_chunks = 0;
        self.num_entries = 0;
        self.num_flushed_chunks = 0;
    }

    /// Where iteration of the durable chunks stops now; entries flushed
    /// later form the remainder.
    pub fn iter_most_remainder(&self) -> (r: ObjectBasedLogRemainder)
        ensures
            r.chunk == self.num_flushed_chunks,
    {
        ObjectBasedLogRemainder { chunk: self.num_flushed_chunks }
    }
}

/// Whether a listed chunk object is leftover from a crashed run: a chunk
/// of the current generation past its logical end, or any chunk of the
/// next generation that never committed.
pub fn chunk_is_stale(generation: u64, num_chunks: u64, chunk_gen: u64, chunk_id: u64) -> (r:
    bool)
    requires
        generation < u64::MAX,
    ensures
        r == ((chunk_gen == generation && chunk_id >= num_chunks)
            || chunk_gen == generation + 1),
{
    (chunk_gen == generation && chunk_id >= num_chunks) || chunk_gen == generation + 1
}

/// Whether a whole generation's objects may be deleted by the periodic
/// cleanup: every generation strictly before the live one.
pub fn generation_is_obsolete(live_generation: u64, g: u64) -> (r: bool)
    ensures
        r == (g < live_generation),
{
    g < live_generation
}

} // verus!
