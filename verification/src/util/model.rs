//! The consolidation entry point under its alternate home: some callers
//! reach the pipeline through this module; it carries the same contract and
//! delegates to the shared implementation.

use vstd::prelude::*;

use crate::cache::Cache;
use crate::models::{models, slot_entries, FullItem, Inventory, SlotKey};
use crate::util::{all_items, entry_sum, filter_name, sorted_by_name};

verus! {

/// Merges each character's occupied slots by identity, summing counts, joins
/// each merged stack against the cache, tags it with its character, and
/// returns all rows sorted by name, stably.
pub fn process_inventories(inventories: &Vec<(String, Inventory)>, cache: &Cache) -> (r: Vec<
    FullItem,
>)
    requires
        forall|ci: int, k: SlotKey|
            #![trigger entry_sum(slot_entries(inventories@[ci].1.contents()), k)]
            0 <= ci < inventories@.len() ==> entry_sum(
                slot_entries(inventories@[ci].1.contents()),
                k,
            ) <= u64::MAX,
        forall|ci: int, si: int|
            #![trigger inventories@[ci].1.contents()[si]]
            0 <= ci < inventories@.len() && 0 <= si < inventories@[ci].1.contents().len()
                ==> cache@.contains_key(inventories@[ci].1.contents()[si].id),
    ensures
        sorted_by_name(models(r@)),
        forall|n: Seq<char>| #[trigger] filter_name(models(r@), n) == filter_name(
            all_items(inventories@, cache@),
            n,
        ),
{
    crate::util::process_inventories(inventories, cache)
}

} // verus!
