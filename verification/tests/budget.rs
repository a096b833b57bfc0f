use basemind::budget::{apply_budget, kept_count};

struct Item {
    v: String,
}

fn item(tag: char) -> Item {
    Item { v: std::iter::repeat_n(tag, 10).collect() }
}

/// The sizes of the items as they are sent: `{"v":"xxxxxxxxxx"}` is 18 bytes, 4 tokens.
fn sizes(items: &[Item]) -> Vec<u64> {
    items.iter().map(|i| format!("{{\"v\":\"{}\"}}", i.v).len() as u64).collect()
}

const ITEM_TOKENS: u64 = 4;

#[test]
fn none_budget_keeps_everything_without_serializing() {
    let items: Vec<Item> = ('a'..='e').map(item).collect();
    let input_len = 5;
    let s = sizes(&items);
    let out = apply_budget(items, &s, None);
    assert_eq!(out.items.len(), 5);
    assert!(!out.budgeted);
    assert_eq!(input_len - out.items.len(), 0, "nothing dropped");
}

#[test]
fn keeps_exact_prefix_that_fits_and_reports_dropped_count() {
    let items: Vec<Item> = ('a'..='e').map(item).collect();
    let input_len = items.len();
    let s = sizes(&items);
    let budget = ITEM_TOKENS * 2 + 1;
    let out = apply_budget(items, &s, Some(budget as u32));
    assert_eq!(out.items.len(), 2, "exactly the 2-item prefix fits");
    assert_eq!(
        out.items.iter().map(|i| i.v.clone()).collect::<Vec<_>>(),
        vec!["aaaaaaaaaa".to_string(), "bbbbbbbbbb".to_string()],
        "kept items must be the leading prefix, in order"
    );
    assert!(out.budgeted);
    assert_eq!(input_len - out.items.len(), 3, "dropped count");
}

#[test]
fn budget_exactly_at_boundary_keeps_all() {
    let items: Vec<Item> = ('a'..='c').map(item).collect();
    let s = sizes(&items);
    let out = apply_budget(items, &s, Some((ITEM_TOKENS * 3) as u32));
    assert_eq!(out.items.len(), 3);
    assert!(!out.budgeted);
}

#[test]
fn zero_budget_still_keeps_first_item_for_forward_progress() {
    let items: Vec<Item> = ('a'..='c').map(item).collect();
    let input_len = items.len();
    let s = sizes(&items);
    let out = apply_budget(items, &s, Some(0));
    assert_eq!(out.items.len(), 1, "first item always admitted");
    assert_eq!(out.items[0].v, "aaaaaaaaaa");
    assert!(out.budgeted);
    assert_eq!(input_len - out.items.len(), 2, "dropped count");
}

#[test]
fn empty_input_is_never_budgeted() {
    let out = apply_budget(Vec::<Item>::new(), &[], Some(0));
    assert!(out.items.is_empty());
    assert!(!out.budgeted);
}

#[test]
fn an_item_over_budget_stops_the_page() {
    assert_eq!(kept_count(&[40, 400, 4], Some(20)), 1);
    assert_eq!(kept_count(&[40, 40, 4], Some(20)), 2);
    assert_eq!(kept_count(&[40, 40, 4], Some(21)), 3);
}
