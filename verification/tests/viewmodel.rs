use gw2_inventory::filtering;
use gw2_inventory::models::FullItem;
use gw2_inventory::screen::{App, AppEvent};
use gw2_inventory::util::{filter, paginate};

fn item(name: &str, count: u64, character: &str) -> FullItem {
    FullItem {
        id: 1,
        count,
        name: name.to_string(),
        description: None,
        item_type: "Material".to_string(),
        character: character.to_string(),
    }
}

fn ores() -> Vec<FullItem> {
    vec![
        item("Copper Ore", 5, "Aria"),
        item("Iron Ore", 2, "Aria"),
        item("Copper Wire", 7, "Beo"),
    ]
}

fn seven() -> Vec<FullItem> {
    (0..7u64).map(|i| item(&format!("Item {}", i), i + 1, "Aria")).collect()
}

#[test]
fn empty_query_matches_everything_in_order() {
    let items = ores();
    let matched = filter(&items, "");
    assert_eq!(matched.len(), 3);
    assert_eq!(matched[0].name, "Copper Ore");
    assert_eq!(matched[1].name, "Iron Ore");
    assert_eq!(matched[2].name, "Copper Wire");
}

#[test]
fn exact_full_name_is_included() {
    let items = ores();
    let matched = filter(&items, "Copper Ore");
    assert!(matched.iter().any(|it| it.name == "Copper Ore"));
}

#[test]
fn cop_matches_both_coppers_and_excludes_iron() {
    let items = ores();
    let matched = filter(&items, "cop");
    assert_eq!(matched.len(), 2);
    assert_eq!(matched[0].name, "Copper Ore");
    assert_eq!(matched[1].name, "Copper Wire");
}

#[test]
fn paginate_never_exceeds_page_size() {
    let items = seven();
    assert_eq!(paginate(&items, 0, 3).len(), 3);
    assert_eq!(paginate(&items, 1, 3).len(), 3);
    assert_eq!(paginate(&items, 2, 3).len(), 1);
    assert_eq!(paginate(&items, 0, 100).len(), 7);
}

#[test]
fn paginate_past_the_end_is_empty() {
    let items = seven();
    assert_eq!(paginate(&items, 3, 3).len(), 0);
    assert_eq!(paginate(&items, 100, 3).len(), 0);
    assert_eq!(paginate(&items, 0, 0).len(), 0);
    let none: Vec<FullItem> = Vec::new();
    assert_eq!(paginate(&none, 0, 3).len(), 0);
}

#[test]
fn paginate_slices_the_requested_page() {
    let items = seven();
    let page = paginate(&items, 1, 3);
    assert_eq!(page[0].name, "Item 3");
    assert_eq!(page[1].name, "Item 4");
    assert_eq!(page[2].name, "Item 5");
}

#[test]
fn seven_items_with_page_size_three_fill_three_pages() {
    let mut app = App::new(seven());
    app.set_page_size(3);
    assert_eq!(app.max_pages(), 3);
    assert_eq!(app.get_all_slots_count(), 7);
}

#[test]
fn max_pages_is_at_least_one() {
    let mut app = App::new(Vec::new());
    app.set_page_size(10);
    assert_eq!(app.max_pages(), 1);
    let app2 = App::new(seven());
    assert_eq!(app2.max_pages(), 1);
}

#[test]
fn for_display_shows_name_and_count() {
    let it = item("Copper Ore", 5, "Aria");
    assert_eq!(filtering::for_display(&it), "Copper Ore (x5)");
    let big = item("Mystic Coin", 1234567890, "Beo");
    assert_eq!(filtering::for_display(&big), "Mystic Coin (x1234567890)");
}

#[test]
fn filtering_filter_renders_one_page() {
    let items = seven();
    let lines = filtering::filter(&items, 2, 3);
    assert_eq!(lines, vec!["Item 6 (x7)".to_string()]);
    let empty = filtering::filter(&items, 9, 3);
    assert!(empty.is_empty());
}

#[test]
fn filtered_items_renders_rows_with_characters() {
    let mut app = App::new(ores());
    app.set_page_size(10);
    let lines = app.filtered_items();
    assert_eq!(
        lines,
        vec![
            "Copper Ore (x5) - Aria".to_string(),
            "Iron Ore (x2) - Aria".to_string(),
            "Copper Wire (x7) - Beo".to_string(),
        ]
    );
}

#[test]
fn typing_filters_and_resets_the_page() {
    let mut app = App::new(seven());
    app.set_page_size(3);
    app.handle_event(&AppEvent::PageDown);
    app.handle_event(&AppEvent::Input('I'));
    app.handle_event(&AppEvent::Input('t'));
    assert_eq!(app.input_text(), "It");
    // the page reset to 0, so the first page of matches is shown
    let lines = app.filtered_items();
    assert_eq!(lines.len(), 3);
    assert_eq!(lines[0], "Item 0 (x1) - Aria");
}

#[test]
fn backspace_removes_last_character_and_is_safe_on_empty() {
    let mut app = App::new(ores());
    app.handle_event(&AppEvent::Input('a'));
    app.handle_event(&AppEvent::Input('b'));
    app.handle_event(&AppEvent::Backspace);
    assert_eq!(app.input_text(), "a");
    app.handle_event(&AppEvent::Backspace);
    app.handle_event(&AppEvent::Backspace);
    assert_eq!(app.input_text(), "");
}

#[test]
fn clear_empties_the_query_and_resets_the_page() {
    let mut app = App::new(seven());
    app.set_page_size(3);
    app.handle_event(&AppEvent::Input('x'));
    app.handle_event(&AppEvent::Clear);
    assert_eq!(app.input_text(), "");
    assert_eq!(app.filtered_items().len(), 3);
}

#[test]
fn paging_stays_within_bounds() {
    let mut app = App::new(seven());
    app.set_page_size(3);
    app.handle_event(&AppEvent::PageUp);
    assert_eq!(app.filtered_items()[0], "Item 0 (x1) - Aria");
    app.handle_event(&AppEvent::PageDown);
    app.handle_event(&AppEvent::PageDown);
    // on the last page now: one row, and a further page-down stays put
    assert_eq!(app.filtered_items(), vec!["Item 6 (x7) - Aria".to_string()]);
    app.handle_event(&AppEvent::PageDown);
    assert_eq!(app.filtered_items(), vec!["Item 6 (x7) - Aria".to_string()]);
    app.handle_event(&AppEvent::PageUp);
    assert_eq!(app.filtered_items().len(), 3);
}

#[test]
fn search_status_reports_page_and_counts() {
    let mut app = App::new(seven());
    app.set_page_size(3);
    assert_eq!(app.search_status(), "Page 1/3, showing 3 per page, 7 total items");
    app.handle_event(&AppEvent::PageDown);
    assert_eq!(app.search_status(), "Page 2/3, showing 3 per page, 7 total items");
}

#[test]
fn resize_does_not_reset_the_page_but_pagination_clips() {
    let mut app = App::new(seven());
    app.set_page_size(1);
    for _ in 0..6 {
        app.handle_event(&AppEvent::PageDown);
    }
    // on page 7 of 7; shrinking the page count leaves the index out of
    // range, and the view shows an empty page rather than failing
    app.set_page_size(3);
    assert_eq!(app.filtered_items().len(), 0);
    assert_eq!(app.max_pages(), 3);
}

#[test]
fn decimal_rendering_is_exact() {
    assert_eq!(gw2_inventory::text::dec_string(0), "0");
    assert_eq!(gw2_inventory::text::dec_string(7), "7");
    assert_eq!(gw2_inventory::text::dec_string(250), "250");
    assert_eq!(gw2_inventory::text::dec_string(u64::MAX), "18446744073709551615");
}
