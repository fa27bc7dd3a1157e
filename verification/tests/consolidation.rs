use gw2_inventory::cache::Cache;
use gw2_inventory::models::{Bag, FullItem, Inventory, InventorySlot, ItemInfo};
use gw2_inventory::util::process_inventories;

fn slot(id: u64, count: u64) -> InventorySlot {
    InventorySlot {
        id,
        count,
        binding: None,
        bound_to: None,
        infusions: Vec::new(),
        upgrades: Vec::new(),
        skin: None,
    }
}

fn info(id: u64, name: &str) -> ItemInfo {
    ItemInfo {
        id,
        name: name.to_string(),
        description: None,
        item_type: "Material".to_string(),
        level: 0,
        rarity: "Basic".to_string(),
        icon: None,
    }
}

fn inventory_of(slots: Vec<Option<InventorySlot>>) -> Inventory {
    let size = slots.len() as u64;
    Inventory { bags: vec![Bag { id: 1, size, inventory: slots }] }
}

fn row(items: &[FullItem], i: usize) -> (String, u64, String) {
    (items[i].name.clone(), items[i].count, items[i].character.clone())
}

#[test]
fn merges_same_item_within_character_but_not_across() {
    let mut cache = Cache::new();
    cache.populate_from_items(vec![info(10, "Copper Ore")]);
    let inventories = vec![
        ("Aria".to_string(), inventory_of(vec![Some(slot(10, 3)), None, Some(slot(10, 2))])),
        ("Beo".to_string(), inventory_of(vec![Some(slot(10, 5))])),
    ];
    let items = process_inventories(&inventories, &cache);
    assert_eq!(items.len(), 2);
    assert_eq!(row(&items, 0), ("Copper Ore".to_string(), 5, "Aria".to_string()));
    assert_eq!(row(&items, 1), ("Copper Ore".to_string(), 5, "Beo".to_string()));
}

#[test]
fn counts_sum_over_all_matching_slots() {
    let mut cache = Cache::new();
    cache.populate_from_items(vec![info(7, "Iron Ore")]);
    let inventories = vec![(
        "Aria".to_string(),
        inventory_of(vec![Some(slot(7, 1)), Some(slot(7, 2)), Some(slot(7, 4)), None]),
    )];
    let items = process_inventories(&inventories, &cache);
    assert_eq!(items.len(), 1);
    assert_eq!(items[0].count, 7);
}

#[test]
fn differing_binding_is_never_merged() {
    let mut cache = Cache::new();
    cache.populate_from_items(vec![info(10, "Copper Ore")]);
    let mut bound = slot(10, 2);
    bound.binding = Some("Account".to_string());
    let inventories = vec![(
        "Aria".to_string(),
        inventory_of(vec![Some(slot(10, 3)), Some(bound)]),
    )];
    let items = process_inventories(&inventories, &cache);
    assert_eq!(items.len(), 2);
    assert_eq!(items[0].count, 3);
    assert_eq!(items[1].count, 2);
}

#[test]
fn differing_upgrades_or_infusions_or_skin_are_never_merged() {
    let mut cache = Cache::new();
    cache.populate_from_items(vec![info(10, "Sword")]);
    let plain = slot(10, 1);
    let mut infused = slot(10, 1);
    infused.infusions = vec![77];
    let mut upgraded = slot(10, 1);
    upgraded.upgrades = vec![88];
    let mut skinned = slot(10, 1);
    skinned.skin = Some(99);
    let inventories = vec![(
        "Aria".to_string(),
        inventory_of(vec![Some(plain), Some(infused), Some(upgraded), Some(skinned)]),
    )];
    let items = process_inventories(&inventories, &cache);
    assert_eq!(items.len(), 4);
    for it in &items {
        assert_eq!(it.count, 1);
    }
}

#[test]
fn differing_only_in_count_is_merged_to_one() {
    let mut cache = Cache::new();
    cache.populate_from_items(vec![info(10, "Sword")]);
    let mut a = slot(10, 4);
    a.infusions = vec![77];
    a.binding = Some("Character".to_string());
    let mut b = slot(10, 9);
    b.infusions = vec![77];
    b.binding = Some("Character".to_string());
    let inventories = vec![("Aria".to_string(), inventory_of(vec![Some(a), Some(b)]))];
    let items = process_inventories(&inventories, &cache);
    assert_eq!(items.len(), 1);
    assert_eq!(items[0].count, 13);
}

#[test]
fn output_is_sorted_by_name_and_stable_for_equal_names() {
    let mut cache = Cache::new();
    cache.populate_from_items(vec![info(1, "Wood"), info(2, "Copper Ore"), info(3, "Copper Ore")]);
    let inventories = vec![
        ("Aria".to_string(), inventory_of(vec![Some(slot(1, 1)), Some(slot(3, 2))])),
        ("Beo".to_string(), inventory_of(vec![Some(slot(2, 3))])),
    ];
    let items = process_inventories(&inventories, &cache);
    assert_eq!(items.len(), 3);
    // both "Copper Ore" rows precede "Wood"; Aria's id 3 row was produced
    // before Beo's id 2 row, so it stays first among the equal names
    assert_eq!(row(&items, 0), ("Copper Ore".to_string(), 2, "Aria".to_string()));
    assert_eq!(row(&items, 1), ("Copper Ore".to_string(), 3, "Beo".to_string()));
    assert_eq!(row(&items, 2), ("Wood".to_string(), 1, "Aria".to_string()));
}

#[test]
fn empty_bag_positions_are_dropped() {
    let inv = inventory_of(vec![None, Some(slot(5, 2)), None]);
    let content = inv.all_content();
    assert_eq!(content.len(), 1);
    assert_eq!(content[0].id, 5);
    assert_eq!(content[0].count, 2);
}

#[test]
fn same_item_ignores_count_only() {
    let a = slot(10, 3);
    let b = slot(10, 250);
    assert!(a.same_item(&b));
    let mut c = slot(10, 3);
    c.bound_to = Some("Aria".to_string());
    assert!(!a.same_item(&c));
    let mut d = slot(11, 3);
    d.count = 3;
    assert!(!a.same_item(&d));
}

#[test]
fn cache_lookup_returns_populated_metadata() {
    let mut cache = Cache::new();
    cache.populate_from_items(vec![info(10, "Copper Ore"), info(11, "Iron Ore")]);
    assert_eq!(cache.len(), 2);
    let got = cache.lookup(&11);
    assert_eq!(got.name, "Iron Ore");
    assert_eq!(got.id, 11);
}

#[test]
fn cache_population_keeps_the_later_record_for_a_repeated_id() {
    let mut cache = Cache::new();
    cache.populate_from_items(vec![info(10, "Old Name"), info(10, "New Name")]);
    assert_eq!(cache.len(), 1);
    assert_eq!(cache.lookup(&10).name, "New Name");
}

#[test]
fn full_item_joins_slot_count_with_metadata() {
    let s = slot(10, 5);
    let i = info(10, "Copper Ore");
    let item = FullItem::new(&s, &i, "Aria");
    assert_eq!(item.id, 10);
    assert_eq!(item.count, 5);
    assert_eq!(item.name, "Copper Ore");
    assert_eq!(item.item_type, "Material");
    assert_eq!(item.character, "Aria");
}

#[test]
fn cache_contains_reports_populated_ids_only() {
    let mut cache = Cache::new();
    assert!(!cache.contains(&10));
    cache.populate_from_items(vec![info(10, "Copper Ore")]);
    assert!(cache.contains(&10));
    assert!(!cache.contains(&11));
}
