use gw2_inventory::api::{id_batches, selected_names};

#[test]
fn no_ids_make_no_batches() {
    let batches = id_batches(&Vec::new());
    assert!(batches.is_empty());
}

#[test]
fn up_to_two_hundred_ids_fit_one_batch() {
    let ids: Vec<u64> = (0..200).collect();
    let batches = id_batches(&ids);
    assert_eq!(batches.len(), 1);
    assert_eq!(batches[0], ids);
    let short = id_batches(&vec![5, 6, 7]);
    assert_eq!(short.len(), 1);
    assert_eq!(short[0], vec![5, 6, 7]);
}

#[test]
fn the_last_batch_may_be_partial() {
    let ids: Vec<u64> = (0..450).collect();
    let batches = id_batches(&ids);
    assert_eq!(batches.len(), 3);
    assert_eq!(batches[0].len(), 200);
    assert_eq!(batches[1].len(), 200);
    assert_eq!(batches[2].len(), 50);
    let flat: Vec<u64> = batches.into_iter().flatten().collect();
    assert_eq!(flat, ids);
}

#[test]
fn two_hundred_one_ids_take_two_batches() {
    let ids: Vec<u64> = (0..201).collect();
    let batches = id_batches(&ids);
    assert_eq!(batches.len(), 2);
    assert_eq!(batches[1], vec![200]);
}

#[test]
fn selection_keeps_chosen_names_in_order() {
    let names = vec!["Aria".to_string(), "Beo".to_string(), "Cyn".to_string()];
    assert_eq!(selected_names(&names, &vec![0, 2]), vec!["Aria".to_string(), "Cyn".to_string()]);
    assert_eq!(selected_names(&names, &Vec::new()), Vec::<String>::new());
    assert_eq!(selected_names(&names, &vec![2, 1, 0]), names);
}
