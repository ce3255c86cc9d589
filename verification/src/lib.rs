//! Core logic of an object-backed storage agent: the pool storage engine
//! (transaction groups, data-object batching, the block-to-object index,
//! extendible-hashed reclaim logs) and the block-cache machinery (the atime
//! histogram, pending-change tracking, index merge, space maps, and the
//! chunk codec used on the cache device).

pub mod base;
pub mod bitmap;
pub mod block_allocator;
pub mod block_based_log;
pub mod cache;
pub mod checkpoint;
pub mod chunk;
pub mod data_object;
pub mod extent_allocator;
pub mod features;
pub mod heartbeat;
pub mod histogram;
pub mod merge;
pub mod object_based_log;
pub mod object_block_map;
pub mod pending;
pub mod pool;
pub mod range_tree;
pub mod reclaim;
pub mod reclaim_table;
pub mod slab;
pub mod space_map;
pub mod zcachedb;

use vstd::prelude::*;

verus! {

/// Conversion from `u64` into an index-sized integer, for values that are
/// known to fit.
pub trait From64: Sized {
    spec fn back_to_u64(&self) -> u64;

    fn from64(v: u64) -> (r: Self)
        requires
            v <= usize::MAX,
        ensures
            r.back_to_u64() == v,
        ;
}

impl From64 for usize {
    open spec fn back_to_u64(&self) -> u64 {
        *self as u64
    }

    fn from64(v: u64) -> (r: usize)
        ensures
            r == v as usize,
            r.back_to_u64() == v,
    {
        v as usize
    }
}

/// A vector wrapper used where the full contents are not worth printing.
#[derive(Clone)]
pub struct TerseVec<T>(pub Vec<T>);

impl<T> TerseVec<T> {
    pub fn from_vec(v: Vec<T>) -> (r: TerseVec<T>)
        ensures
            r.0@ == v@,
    {
        TerseVec(v)
    }
}

} // verus!
