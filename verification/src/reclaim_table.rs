//! The extendible hash table that routes each data object's frees and size
//! records to one reclaim log.
//!
//! The table has `2^table_bits` slots. An object hashes to the bit-reversal
//! of its object group (`object / OBJECTS_PER_LOG`, modulo `2^16`); the top
//! `table_bits` bits of the hash select the slot. Each log has a local
//! depth `num_bits <= table_bits` and a `prefix` of that many bits; every
//! slot whose index starts with that prefix points at the log.

use vstd::prelude::*;
use crate::base::ObjectId;
use crate::base::ReclaimLogId;

verus! {

/// Adjacent objects grouped into one log, so consolidation stays local.
pub const OBJECTS_PER_LOG: u64 = 1024;

/// Greatest table depth: the table never exceeds `2^16` slots.
pub const RECLAIM_TABLE_MAX_BITS: u8 = 16;

/// `2^n`.
pub open spec fn p2(n: nat) -> nat
    decreases n,
{
    if n == 0 {
        1
    } else {
        2 * p2((n - 1) as nat)
    }
}

/// Bit `k` of a 16-bit value.
pub open spec fn bit_at(v: u16, k: int) -> int {
    ((v as int) / p2(k as nat) as int) % 2
}

/// The reversal of the low `n` bits of `v`: bit `k` of the input becomes
/// bit `n - 1 - k` of the result.
pub open spec fn rev_prefix(v: u16, n: nat) -> int
    decreases n,
{
    if n == 0 {
        0
    } else {
        2 * rev_prefix(v, (n - 1) as nat) + bit_at(v, n - 1)
    }
}

/// The full 16-bit bit-reversal.
pub open spec fn rev16(v: u16) -> int {
    rev_prefix(v, 16)
}

/// The hash of an object: the bit-reversal of its object group.
pub open spec fn spec_object_hash(object: ObjectId) -> int {
    rev16(((object.0 as int / OBJECTS_PER_LOG as int) % p2(16) as int) as u16)
}

/// The table slot an object selects at depth `table_bits`.
pub open spec fn spec_table_slot(object: ObjectId, table_bits: nat) -> int {
    spec_object_hash(object) / p2((16 - table_bits) as nat) as int
}

pub proof fn lemma_p2_pos(n: nat)
    ensures
        p2(n) >= 1,
    decreases n,
{
    if n > 0 {
        lemma_p2_pos((n - 1) as nat);
    }
}

pub proof fn lemma_p2_monotone(a: nat, b: nat)
    requires
        a <= b,
    ensures
        p2(a) <= p2(b),
    decreases b,
{
    if a < b {
        lemma_p2_monotone(a, (b - 1) as nat);
        lemma_p2_pos((b - 1) as nat);
    }
}

/// The reversal of `n` bits fits in `n` bits.
pub proof fn lemma_rev_prefix_bound(v: u16, n: nat)
    ensures
        0 <= rev_prefix(v, n) < p2(n),
    decreases n,
{
    if n > 0 {
        lemma_rev_prefix_bound(v, (n - 1) as nat);
        lemma_p2_pos((n - 1) as nat);
    }
}

/// `2^n` computed executably, for `n <= 16`.
#[verifier::rlimit(50)]
pub fn pow2_u32(n: u8) -> (r: u32)
    requires
        n <= 16,
    ensures
        r == p2(n as nat),
{
    let mut r: u32 = 1;
    let mut i: u8 = 0;
    while i < n
        invariant
            i <= n <= 16,
            r == p2(i as nat),
        decreases n - i,
    {
        proof {
            lemma_p2_monotone(i as nat + 1, 16);
            assert(p2(16) == 65536) by {
                reveal_with_fuel(p2, 17);
            }
        }
        r = r * 2;
        i = i + 1;
    }
    r
}

/// The 16-bit bit-reversal, computed by peeling bits off arithmetically.
pub fn reverse16(v: u16) -> (r: u16)
    ensures
        r == rev16(v),
{
    let v32: u32 = v as u32;
    let mut r: u32 = 0;
    let mut p: u32 = 1;
    let mut i: u8 = 0;
    while i < 16
        invariant
            i <= 16,
            p == p2(i as nat),
            r == rev_prefix(v, i as nat),
            v32 == v,
        decreases 16 - i,
    {
        proof {
            lemma_rev_prefix_bound(v, i as nat);
            lemma_p2_monotone(i as nat, 16);
            lemma_p2_pos(i as nat);
            assert(p2(16) == 65536) by {
                reveal_with_fuel(p2, 17);
            }
        }
        let bit = (v32 / p) % 2;
        r = r * 2 + bit;
        p = p * 2;
        i = i + 1;
    }
    proof {
        lemma_rev_prefix_bound(v, 16);
        assert(p2(16) == 65536) by {
                reveal_with_fuel(p2, 17);
            }
    }
    r as u16
}

/// The indirect table of the extendible hash: `2^table_bits` slots, each
/// naming a reclaim log.
#[derive(Debug, Clone)]
pub struct ReclaimIndirectTable {
    pub table_bits: u8,
    pub log_ids: Vec<ReclaimLogId>,
}

impl ReclaimIndirectTable {
    pub open spec fn wf(&self) -> bool {
        &&& self.table_bits <= RECLAIM_TABLE_MAX_BITS
        &&& self.log_ids@.len() == p2(self.table_bits as nat)
    }

    /// A table of one slot pointing at log 0.
    pub fn new_single() -> (r: ReclaimIndirectTable)
        ensures
            r.wf(),
            r.table_bits == 0,
            r.log_ids@.len() == 1,
            r.log_ids@[0] == ReclaimLogId(0),
    {
        let mut log_ids = Vec::new();
        log_ids.push(ReclaimLogId(0));
        ReclaimIndirectTable { table_bits: 0, log_ids }
    }

    /// The log an object selects: slot `hash >> (16 - table_bits)`.
    pub fn lookup(&self, object: ObjectId) -> (r: ReclaimLogId)
        requires
            self.wf(),
        ensures
            r == self.log_ids@[spec_table_slot(object, self.table_bits as nat)],
            0 <= spec_table_slot(object, self.table_bits as nat) < self.log_ids@.len(),
    {
        let object_group = object.0 / OBJECTS_PER_LOG;
        proof {
            assert(p2(16) == 65536) by {
                reveal_with_fuel(p2, 17);
            }
        }
        let hash_value = reverse16((object_group % 65536) as u16);
        let divisor = pow2_u32(16 - self.table_bits);
        proof {
            lemma_rev_prefix_bound((object_group % 65536) as u16, 16);
            lemma_p2_pos((16 - self.table_bits) as nat);
            lemma_slot_in_range(hash_value as int, self.table_bits as nat);
            lemma_p2_monotone(self.table_bits as nat, 16);
            assert(p2(16) == 65536) by {
                reveal_with_fuel(p2, 17);
            }
        }
        let index = (hash_value as u32 / divisor) as usize;
        self.log_ids[index]
    }

    /// Double the table: each old slot becomes two adjacent slots naming
    /// the same log.
    pub fn grow_table(&mut self)
        requires
            old(self).wf(),
            old(self).table_bits < RECLAIM_TABLE_MAX_BITS,
        ensures
            final(self).wf(),
            final(self).table_bits == old(self).table_bits + 1,
            final(self).log_ids@.len() == 2 * old(self).log_ids@.len(),
            forall|i: int| 0 <= i < final(self).log_ids@.len()
                ==> #[trigger] final(self).log_ids@[i] == old(self).log_ids@[i / 2],
    {
        let old_len = self.log_ids.len();
        let mut new_log_ids: Vec<ReclaimLogId> = Vec::new();
        let mut i: usize = 0;
        while i < old_len
            invariant
                i <= old_len == self.log_ids@.len(),
                new_log_ids@.len() == 2 * i,
                forall|j: int| 0 <= j < new_log_ids@.len()
                    ==> #[trigger] new_log_ids@[j] == self.log_ids@[j / 2],
            decreases old_len - i,
        {
            let id = self.log_ids[i];
            new_log_ids.push(id);
            new_log_ids.push(id);
            i = i + 1;
        }
        self.log_ids = new_log_ids;
        self.table_bits = self.table_bits + 1;
    }

    /// Point every slot that begins with `log_prefix` (of `log_bits` bits)
    /// at `new_log_id`.
    pub fn update_siblings(&mut self, log_bits: u8, log_prefix: u16, new_log_id: ReclaimLogId)
        requires
            old(self).wf(),
            log_bits <= old(self).table_bits,
            log_prefix < p2(log_bits as nat),
        ensures
            final(self).wf(),
            final(self).table_bits == old(self).table_bits,
            final(self).log_ids@.len() == old(self).log_ids@.len(),
            forall|i: int| 0 <= i < final(self).log_ids@.len()
                ==> #[trigger] final(self).log_ids@[i] == if i / p2(
                    (old(self).table_bits - log_bits) as nat,
                ) as int == log_prefix {
                    new_log_id
                } else {
                    old(self).log_ids@[i]
                },
    {
        let prefix_diff = self.table_bits - log_bits;
        let count = pow2_u32(prefix_diff);
        proof {
            lemma_p2_pos(prefix_diff as nat);
            assert(p2(self.table_bits as nat) == p2(log_bits as nat) * p2(prefix_diff as nat)) by {
                lemma_p2_adds(log_bits as nat, prefix_diff as nat);
            }
            vstd::arithmetic::mul::lemma_mul_inequality(
                log_prefix as int + 1,
                p2(log_bits as nat) as int,
                p2(prefix_diff as nat) as int,
            );
            vstd::arithmetic::mul::lemma_mul_is_distributive_add_other_way(
                p2(prefix_diff as nat) as int,
                log_prefix as int,
                1,
            );
            assert(log_prefix as int * count as int + count as int
                <= p2(self.table_bits as nat));
            lemma_p2_monotone(self.table_bits as nat, 16);
            assert(p2(16) == 65536) by {
                reveal_with_fuel(p2, 17);
            }
            vstd::arithmetic::mul::lemma_mul_nonnegative(log_prefix as int, count as int);
        }
        let sibling_index: usize = (log_prefix as usize) * (count as usize);
        let total_len = self.log_ids.len();
        let mut i: usize = 0;
        while i < count as usize
            invariant
                old(self).wf(),
                self.table_bits == old(self).table_bits,
                total_len == self.log_ids@.len(),
                self.log_ids@.len() == old(self).log_ids@.len(),
                i <= count,
                count == p2((old(self).table_bits - log_bits) as nat),
                sibling_index == log_prefix * count,
                sibling_index + count <= self.log_ids@.len(),
                forall|j: int| 0 <= j < self.log_ids@.len()
                    ==> #[trigger] self.log_ids@[j] == if sibling_index <= j < sibling_index + i {
                        new_log_id
                    } else {
                        old(self).log_ids@[j]
                    },
            decreases count - i,
        {
            self.log_ids.set(sibling_index + i, new_log_id);
            i = i + 1;
        }
        proof {
            let diff = (old(self).table_bits - log_bits) as nat;
            assert forall|j: int| 0 <= j < self.log_ids@.len()
                implies #[trigger] self.log_ids@[j] == if j / p2(diff) as int == log_prefix {
                    new_log_id
                } else {
                    old(self).log_ids@[j]
                } by {
                lemma_p2_pos(diff);
                vstd::arithmetic::div_mod::lemma_fundamental_div_mod(j, p2(diff) as int);
                if sibling_index <= j < sibling_index + count {
                    assert(j / p2(diff) as int == log_prefix) by (nonlinear_arith)
                        requires
                            p2(diff) >= 1,
                            log_prefix * p2(diff) <= j < (log_prefix + 1) * p2(diff),
                    ;
                } else {
                    assert(j / p2(diff) as int != log_prefix) by (nonlinear_arith)
                        requires
                            p2(diff) >= 1,
                            0 <= j,
                            !(log_prefix * p2(diff) <= j < (log_prefix + 1) * p2(diff)),
                    ;
                }
            }
        }
    }
}

pub proof fn lemma_p2_adds(a: nat, b: nat)
    ensures
        p2(a + b) == p2(a) * p2(b),
    decreases a,
{
    if a > 0 {
        lemma_p2_adds((a - 1) as nat, b);
        let x = p2((a - 1) as nat) as int;
        let y = p2(b) as int;
        assert((a + b - 1) as nat == (a - 1) as nat + b);
        assert(p2(a + b) == 2 * p2((a - 1) as nat + b));
        assert(p2((a - 1) as nat + b) == x * y);
        assert(p2(a) == 2 * p2((a - 1) as nat));
        assert(p2(a + b) == p2(a) * p2(b)) by (nonlinear_arith)
            requires
                p2(a + b) == 2 * (x * y),
                p2(a) == 2 * x,
                p2(b) == y,
        ;
    } else {
        assert(a + b == b);
        assert(p2(a) == 1);
        assert(p2(a) * p2(b) == p2(b)) by (nonlinear_arith)
            requires
                p2(a) == 1,
        ;
    }
}

pub proof fn lemma_slot_in_range(hash: int, table_bits: nat)
    requires
        0 <= hash < p2(16),
        table_bits <= 16,
    ensures
        0 <= hash / p2((16 - table_bits) as nat) as int,
        (hash / p2((16 - table_bits) as nat) as int) < p2(table_bits),
{
    let diff = (16 - table_bits) as nat;
    lemma_p2_pos(diff);
    lemma_p2_adds(table_bits, diff);
    vstd::arithmetic::div_mod::lemma_fundamental_div_mod(hash, p2(diff) as int);
    assert((hash / p2(diff) as int) < p2(table_bits)) by (nonlinear_arith)
        requires
            p2(diff) >= 1,
            hash < p2(table_bits) * p2(diff),
            hash == p2(diff) * (hash / p2(diff) as int) + hash % p2(diff) as int,
            0 <= hash % p2(diff) as int,
    ;
    vstd::arithmetic::div_mod::lemma_div_pos_is_pos(hash, p2(diff) as int);
}

/// The object hash lies in `[0, 2^16)`.
pub proof fn lemma_hash_range(object: ObjectId)
    ensures
        0 <= spec_object_hash(object) < p2(16),
{
    lemma_rev_prefix_bound(
        ((object.0 as int / OBJECTS_PER_LOG as int) % p2(16) as int) as u16,
        16,
    );
}

/// Deepening the table by one bit halves each slot: the slot at depth
/// `tb + 1` is twice the slot at depth `tb`, give or take the new bit.
pub proof fn lemma_slot_refines(object: ObjectId, tb: nat)
    requires
        tb < 16,
    ensures
        spec_table_slot(object, tb) == spec_table_slot(object, tb + 1) / 2,
{
    let h = spec_object_hash(object);
    lemma_hash_range(object);
    let c = p2((16 - (tb + 1)) as nat) as int;
    lemma_p2_pos((16 - (tb + 1)) as nat);
    assert(p2((16 - tb) as nat) == 2 * p2((16 - (tb + 1)) as nat));
    vstd::arithmetic::div_mod::lemma_div_denominator(h, c, 2);
    assert(h / c / 2 == h / (c * 2));
    assert(c * 2 == 2 * c) by (nonlinear_arith);
}

} // verus!
