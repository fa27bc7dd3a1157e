//! The item-metadata cache: a read-only mapping from item id to its
//! descriptive metadata, populated exactly once per session and total for
//! every id that is looked up afterwards.

use std::collections::HashMap;

use vstd::prelude::*;

use crate::models::ItemInfo;

verus! {

broadcast use vstd::std_specs::hash::group_hash_axioms;

/// The mapping from item id to metadata. Empty at construction; populated
/// once, from a snapshot or from a full remote fetch, before any lookup.
pub struct Cache {
    items: HashMap<u64, ItemInfo>,
}

/// The mapping a list of metadata records populates: each record keyed by its
/// own id, a later record overriding an earlier one with the same id.
pub open spec fn info_map(infos: Seq<ItemInfo>) -> Map<u64, ItemInfo>
    decreases infos.len(),
{
    if infos.len() == 0 {
        Map::empty()
    } else {
        info_map(infos.drop_last()).insert(infos.last().id, infos.last())
    }
}

impl View for Cache {
    type V = Map<u64, ItemInfo>;

    closed spec fn view(&self) -> Map<u64, ItemInfo> {
        self.items@
    }
}

impl Cache {
    /// A cache with no metadata at all.
    pub fn new() -> (r: Self)
        ensures
            r@ == Map::<u64, ItemInfo>::empty(),
    {
        Cache { items: HashMap::new() }
    }

    /// Adopts a full list of metadata records as the cache contents,
    /// replacing whatever was held before. The caller obtains the list either
    /// from a deserialized snapshot or from a bulk remote fetch.
    pub fn populate_from_items(&mut self, infos: Vec<ItemInfo>)
        ensures
            final(self)@ == info_map(infos@),
    {
        let mut data: HashMap<u64, ItemInfo> = HashMap::new();
        let mut i: usize = 0;
        while i < infos.len()
            invariant
                0 <= i <= infos@.len(),
                data@ == info_map(infos@.take(i as int)),
            decreases infos@.len() - i,
        {
            let info = infos[i].clone();
            let id = info.id;
            data.insert(id, info);
            proof {
                assert(infos@.take(i as int + 1).drop_last() =~= infos@.take(i as int));
                assert(infos@.take(i as int + 1).last() == infos@[i as int]);
            }
            i += 1;
        }
        proof {
            assert(infos@.take(infos@.len() as int) =~= infos@);
        }
        self.items = data;
    }

    /// The stored metadata for `id`. Lookups are total once the cache is
    /// populated: calling with an id the cache does not hold is a contract
    /// violation, which the caller rules out.
    pub fn lookup(&self, item: &u64) -> (r: &ItemInfo)
        requires
            self@.contains_key(*item),
        ensures
            *r == self@[*item],
    {
        match self.items.get(item) {
            Some(info) => info,
            None => vstd::pervasive::unreached(),
        }
    }

    /// How many ids the cache holds metadata for.
    pub fn len(&self) -> (n: usize)
        ensures
            n == self@.dom().len(),
    {
        self.items.len()
    }

    /// Whether the cache holds metadata for `id`: the condition under which
    /// `lookup` may be called.
    pub fn contains(&self, id: &u64) -> (r: bool)
        ensures
            r == self@.contains_key(*id),
    {
        self.items.contains_key(id)
    }
}

} // verus!
