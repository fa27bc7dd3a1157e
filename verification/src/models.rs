//! Data model: raw inventory slots as the remote API reports them, bags and
//! inventories, item metadata, and the display-ready consolidated item.

use vstd::prelude::*;

verus! {

/// One occupied bag position. Two slots are "the same item" when every field
/// except `count` agrees; merging sums the counts of same-item slots.
pub struct InventorySlot {
    pub id: u64,
    pub count: u64,
    pub binding: Option<String>,
    pub bound_to: Option<String>,
    pub infusions: Vec<u64>,
    pub upgrades: Vec<u64>,
    pub skin: Option<u64>,
}

/// The merge identity of a slot: every field except `count`, with strings and
/// vectors taken by their contents.
pub ghost struct SlotKey {
    pub id: u64,
    pub binding: Option<Seq<char>>,
    pub bound_to: Option<Seq<char>>,
    pub infusions: Seq<u64>,
    pub upgrades: Seq<u64>,
    pub skin: Option<u64>,
}

pub open spec fn opt_str_view(o: Option<String>) -> Option<Seq<char>> {
    match o {
        Some(s) => Some(s@),
        None => None,
    }
}

impl InventorySlot {
    /// The non-count structural key that decides which slots merge.
    pub open spec fn key(self) -> SlotKey {
        SlotKey {
            id: self.id,
            binding: opt_str_view(self.binding),
            bound_to: opt_str_view(self.bound_to),
            infusions: self.infusions@,
            upgrades: self.upgrades@,
            skin: self.skin,
        }
    }

    /// Structural equality of every field except `count`.
    pub fn same_item(&self, other: &InventorySlot) -> (r: bool)
        ensures
            r == (self.key() == other.key()),
    {
        let r = self.id == other.id && eq_opt_str(&self.binding, &other.binding) && eq_opt_str(
            &self.bound_to,
            &other.bound_to,
        ) && eq_vec_u64(&self.infusions, &other.infusions) && eq_vec_u64(
            &self.upgrades,
            &other.upgrades,
        ) && eq_opt_u64(&self.skin, &other.skin);
        proof {
            if r {
                assert(self.key() == other.key());
            } else {
                assert(self.key() != other.key());
            }
        }
        r
    }
}

impl Clone for InventorySlot {
    fn clone(&self) -> (r: Self)
        ensures
            r.key() == self.key(),
            r.count == self.count,
    {
        InventorySlot {
            id: self.id,
            count: self.count,
            binding: clone_opt_str(&self.binding),
            bound_to: clone_opt_str(&self.bound_to),
            infusions: clone_vec_u64(&self.infusions),
            upgrades: clone_vec_u64(&self.upgrades),
            skin: match &self.skin {
                Some(v) => Some(*v),
                None => None,
            },
        }
    }
}

fn eq_opt_str(a: &Option<String>, b: &Option<String>) -> (r: bool)
    ensures
        r == (opt_str_view(*a) == opt_str_view(*b)),
{
    match (a, b) {
        (Some(x), Some(y)) => *x == *y,
        (None, None) => true,
        _ => false,
    }
}

fn eq_opt_u64(a: &Option<u64>, b: &Option<u64>) -> (r: bool)
    ensures
        r == (*a == *b),
{
    match (a, b) {
        (Some(x), Some(y)) => x == y,
        (None, None) => true,
        _ => false,
    }
}

fn eq_vec_u64(a: &Vec<u64>, b: &Vec<u64>) -> (r: bool)
    ensures
        r == (a@ == b@),
{
    if a.len() != b.len() {
        return false;
    }
    let mut i: usize = 0;
    while i < a.len()
        invariant
            0 <= i <= a.len(),
            a@.len() == b@.len(),
            forall|j: int| 0 <= j < i ==> a@[j] == b@[j],
        decreases a.len() - i,
    {
        if a[i] != b[i] {
            return false;
        }
        i += 1;
    }
    proof {
        assert(a@ =~= b@);
    }
    true
}

fn clone_opt_str(o: &Option<String>) -> (r: Option<String>)
    ensures
        r == *o,
{
    match o {
        Some(s) => Some(s.clone()),
        None => None,
    }
}

fn clone_vec_u64(v: &Vec<u64>) -> (r: Vec<u64>)
    ensures
        r@ == v@,
{
    let mut r: Vec<u64> = Vec::new();
    let mut i: usize = 0;
    while i < v.len()
        invariant
            0 <= i <= v.len(),
            r@ == v@.take(i as int),
        decreases v.len() - i,
    {
        r.push(v[i]);
        proof {
            assert(r@ =~= v@.take(i as int + 1));
        }
        i += 1;
    }
    proof {
        assert(v@.take(v@.len() as int) =~= v@);
    }
    r
}

/// One bag carried by a character; empty positions are `None`.
pub struct Bag {
    pub id: u64,
    pub size: u64,
    pub inventory: Vec<Option<InventorySlot>>,
}

/// A character's whole inventory.
pub struct Inventory {
    pub bags: Vec<Bag>,
}

/// The occupied slots of one bag's positions, in order.
pub open spec fn occupied(positions: Seq<Option<InventorySlot>>) -> Seq<InventorySlot>
    decreases positions.len(),
{
    if positions.len() == 0 {
        Seq::empty()
    } else {
        let rest = occupied(positions.drop_last());
        match positions.last() {
            Some(s) => rest.push(s),
            None => rest,
        }
    }
}

pub open spec fn bags_contents(bags: Seq<Bag>) -> Seq<InventorySlot>
    decreases bags.len(),
{
    if bags.len() == 0 {
        Seq::empty()
    } else {
        bags_contents(bags.drop_last()) + occupied(bags.last().inventory@)
    }
}

/// What the merge logic reads of each slot: its identity key and its count.
pub open spec fn slot_entries(slots: Seq<InventorySlot>) -> Seq<(SlotKey, int)> {
    slots.map_values(|s: InventorySlot| (s.key(), s.count as int))
}

impl Inventory {
    /// All occupied slots of this inventory, bag by bag, in order.
    pub open spec fn contents(self) -> Seq<InventorySlot> {
        bags_contents(self.bags@)
    }

    /// Flattens the bags into the sequence of occupied slots, dropping the
    /// empty positions.
    pub fn all_content(&self) -> (r: Vec<InventorySlot>)
        ensures
            slot_entries(r@) == slot_entries(self.contents()),
    {
        let mut r: Vec<InventorySlot> = Vec::new();
        let mut i: usize = 0;
        while i < self.bags.len()
            invariant
                0 <= i <= self.bags@.len(),
                slot_entries(r@) == slot_entries(bags_contents(self.bags@.take(i as int))),
            decreases self.bags@.len() - i,
        {
            let bag = &self.bags[i];
            let mut j: usize = 0;
            while j < bag.inventory.len()
                invariant
                    0 <= j <= bag.inventory@.len(),
                    bag == &self.bags@[i as int],
                    0 <= i < self.bags@.len(),
                    slot_entries(r@) == slot_entries(
                        bags_contents(self.bags@.take(i as int)) + occupied(
                            bag.inventory@.take(j as int),
                        ),
                    ),
                decreases bag.inventory@.len() - j,
            {
                proof {
                    assert(bag.inventory@.take(j as int + 1).drop_last() =~= bag.inventory@.take(
                        j as int,
                    ));
                    assert(bag.inventory@.take(j as int + 1).last() == bag.inventory@[j as int]);
                }
                let ghost old_r = r@;
                let ghost prev = bags_contents(self.bags@.take(i as int)) + occupied(
                    bag.inventory@.take(j as int),
                );
                match &bag.inventory[j] {
                    Some(s) => {
                        let c = s.clone();
                        let ghost ck = c.key();
                        let ghost cc = c.count;
                        r.push(c);
                        proof {
                            let x = bag.inventory@[j as int]->Some_0;
                            let cur = bags_contents(self.bags@.take(i as int)) + occupied(
                                bag.inventory@.take(j as int + 1),
                            );
                            assert(cur =~= prev.push(x));
                            assert(ck == x.key() && cc == x.count);
                            assert(slot_entries(old_r).len() == old_r.len());
                            assert(slot_entries(prev).len() == prev.len());
                            assert(old_r.len() == prev.len());
                            assert(r@ == old_r.push(c));
                            assert(r@[r@.len() - 1] == c);
                            assert(cur[cur.len() - 1] == x);
                            assert(slot_entries(r@)[r@.len() - 1] == (ck, cc as int));
                            assert(slot_entries(cur)[cur.len() - 1] == (x.key(), x.count as int));
                            assert forall|k: int| 0 <= k < r@.len() implies slot_entries(r@)[k]
                                == slot_entries(cur)[k] by {
                                if k < old_r.len() {
                                    assert(slot_entries(old_r)[k] == slot_entries(prev)[k]);
                                    assert(slot_entries(r@)[k] == slot_entries(old_r)[k]);
                                    assert(slot_entries(cur)[k] == slot_entries(prev)[k]);
                                } else {
                                    assert(k == r@.len() - 1);
                                }
                            }
                            assert(slot_entries(r@) =~= slot_entries(cur));
                        }
                    },
                    None => {
                        proof {
                            let cur = bags_contents(self.bags@.take(i as int)) + occupied(
                                bag.inventory@.take(j as int + 1),
                            );
                            assert(cur =~= prev);
                        }
                    },
                }
                j += 1;
            }
            proof {
                assert(bag.inventory@.take(bag.inventory@.len() as int) =~= bag.inventory@);
                assert(self.bags@.take(i as int + 1).drop_last() =~= self.bags@.take(i as int));
                assert(self.bags@.take(i as int + 1).last() == self.bags@[i as int]);
            }
            i += 1;
        }
        proof {
            assert(self.bags@.take(self.bags@.len() as int) =~= self.bags@);
        }
        r
    }
}

/// Descriptive metadata for one item id, immutable once fetched.
pub struct ItemInfo {
    pub id: u64,
    pub name: String,
    pub description: Option<String>,
    pub item_type: String,
    pub level: u8,
    pub rarity: String,
    pub icon: Option<String>,
}

impl Clone for ItemInfo {
    fn clone(&self) -> (r: Self)
        ensures
            r == *self,
    {
        let r = ItemInfo {
            id: self.id,
            name: self.name.clone(),
            description: clone_opt_str(&self.description),
            item_type: self.item_type.clone(),
            level: self.level,
            rarity: self.rarity.clone(),
            icon: clone_opt_str(&self.icon),
        };
        proof {
            assert(r == *self);
        }
        r
    }
}

/// One display-ready row: a character's merged stack of one item identity,
/// joined against the metadata cache.
pub struct FullItem {
    pub id: u64,
    pub count: u64,
    pub name: String,
    pub description: Option<String>,
    pub item_type: String,
    pub character: String,
}

/// The mathematical content of a `FullItem`.
pub ghost struct ItemModel {
    pub id: u64,
    pub count: int,
    pub name: Seq<char>,
    pub description: Option<Seq<char>>,
    pub item_type: Seq<char>,
    pub character: Seq<char>,
}

impl FullItem {
    pub open spec fn model(self) -> ItemModel {
        ItemModel {
            id: self.id,
            count: self.count as int,
            name: self.name@,
            description: opt_str_view(self.description),
            item_type: self.item_type@,
            character: self.character@,
        }
    }

    /// Joins a merged slot with its metadata, tagged with the owning character.
    pub fn new(slot: &InventorySlot, info: &ItemInfo, character: &str) -> (r: Self)
        ensures
            r.model() == (ItemModel {
                id: info.id,
                count: slot.count as int,
                name: info.name@,
                description: opt_str_view(info.description),
                item_type: info.item_type@,
                character: character@,
            }),
    {
        FullItem {
            id: info.id,
            count: slot.count,
            name: info.name.clone(),
            description: clone_opt_str(&info.description),
            item_type: info.item_type.clone(),
            character: character.to_owned(),
        }
    }
}

impl Clone for FullItem {
    fn clone(&self) -> (r: Self)
        ensures
            r == *self,
    {
        let r = FullItem {
            id: self.id,
            count: self.count,
            name: self.name.clone(),
            description: clone_opt_str(&self.description),
            item_type: self.item_type.clone(),
            character: self.character.clone(),
        };
        proof {
            assert(r == *self);
        }
        r
    }
}

/// The sequence of models of a sequence of display items.
pub open spec fn models(items: Seq<FullItem>) -> Seq<ItemModel> {
    items.map_values(|it: FullItem| it.model())
}

} // verus!
