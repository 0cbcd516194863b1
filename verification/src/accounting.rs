//! Split memory accounting of an opened store.

use vstd::prelude::*;

verus! {

/// Budget for schema, owner and metadata handles (16 MiB).
pub const SCHEMA_OWNER_BUDGET_BYTES: usize = 16777216;

/// The default schema and owner budget.
pub fn default_schema_owner_budget() -> (r: usize)
    ensures
        r == 16777216,
{
    SCHEMA_OWNER_BUDGET_BYTES
}

/// Memory of a store by category.
#[derive(Debug, Clone, Copy, PartialEq, Eq, Structural)]
pub struct CompactMemoryAccounting {
    /// Mapped payload and index bytes.
    pub mapped_payload_index_bytes: usize,
    /// Heap bytes that grow with the schema only.
    pub anonymous_owner_schema_bytes: usize,
    /// Heap bytes that grow with the graph.
    pub anonymous_proportional_structure_bytes: usize,
    /// Read cache bytes.
    pub read_cache_bytes: usize,
    /// Most scratch bytes that a query used since the store was opened.
    pub query_scratch_high_water_bytes: usize,
    /// Budget for the bytes that grow with the schema.
    pub schema_owner_budget_bytes: usize,
}

/// The sum, or the greatest number where the sum does not fit.
pub open spec fn saturating(x: int) -> int {
    if x > usize::MAX {
        usize::MAX as int
    } else {
        x
    }
}

/// Nothing on the heap grows with the graph, and the schema stays within its
/// budget.
pub open spec fn disk_native(a: CompactMemoryAccounting) -> bool {
    a.anonymous_proportional_structure_bytes == 0 && a.anonymous_owner_schema_bytes
        <= a.schema_owner_budget_bytes
}

impl Default for CompactMemoryAccounting {
    fn default() -> (r: Self)
        ensures
            r == (CompactMemoryAccounting {
                mapped_payload_index_bytes: 0,
                anonymous_owner_schema_bytes: 0,
                anonymous_proportional_structure_bytes: 0,
                read_cache_bytes: 0,
                query_scratch_high_water_bytes: 0,
                schema_owner_budget_bytes: 0,
            }),
    {
        CompactMemoryAccounting {
            mapped_payload_index_bytes: 0,
            anonymous_owner_schema_bytes: 0,
            anonymous_proportional_structure_bytes: 0,
            read_cache_bytes: 0,
            query_scratch_high_water_bytes: 0,
            schema_owner_budget_bytes: 0,
        }
    }
}

impl CompactMemoryAccounting {
    /// Nothing accounted, under the default budget.
    pub fn with_defaults() -> (r: Self)
        ensures
            r == (CompactMemoryAccounting {
                mapped_payload_index_bytes: 0,
                anonymous_owner_schema_bytes: 0,
                anonymous_proportional_structure_bytes: 0,
                read_cache_bytes: 0,
                query_scratch_high_water_bytes: 0,
                schema_owner_budget_bytes: 16777216,
            }),
    {
        CompactMemoryAccounting {
            mapped_payload_index_bytes: 0,
            anonymous_owner_schema_bytes: 0,
            anonymous_proportional_structure_bytes: 0,
            read_cache_bytes: 0,
            query_scratch_high_water_bytes: 0,
            schema_owner_budget_bytes: SCHEMA_OWNER_BUDGET_BYTES,
        }
    }

    /// True when the schema bytes exceed their budget.
    pub fn schema_budget_exceeded(&self) -> (r: bool)
        ensures
            r == (self.anonymous_owner_schema_bytes > self.schema_owner_budget_bytes),
    {
        self.anonymous_owner_schema_bytes > self.schema_owner_budget_bytes
    }

    /// Heap bytes of schema, structures and cache together.
    pub fn settled_anonymous_bytes(&self) -> (r: usize)
        ensures
            r == saturating(
                self.anonymous_owner_schema_bytes + self.anonymous_proportional_structure_bytes
                    + self.read_cache_bytes,
            ),
            r < usize::MAX ==> r == self.anonymous_owner_schema_bytes
                + self.anonymous_proportional_structure_bytes + self.read_cache_bytes,
            r <= self.anonymous_owner_schema_bytes + self.anonymous_proportional_structure_bytes
                + self.read_cache_bytes,
    {
        self.anonymous_owner_schema_bytes.saturating_add(
            self.anonymous_proportional_structure_bytes,
        ).saturating_add(self.read_cache_bytes)
    }

    /// True when nothing on the heap grows with the graph and the schema
    /// stays within its budget.
    pub fn is_disk_native_graph(&self) -> (r: bool)
        ensures
            r == disk_native(*self),
            r <==> self.anonymous_proportional_structure_bytes == 0
                && self.anonymous_owner_schema_bytes <= self.schema_owner_budget_bytes,
    {
        self.anonymous_proportional_structure_bytes == 0 && !self.schema_budget_exceeded()
    }
}

} // verus!
