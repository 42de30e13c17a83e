use todo::todo_item::{get_todo_file_path, set_priority, sort_by_priority, TodoItem};

fn texts(v: &[TodoItem]) -> Vec<&str> {
    v.iter().map(|t| t.text.as_str()).collect()
}

#[test]
fn sorting_orders_by_priority_ascending() {
    let items = vec![
        TodoItem::new("low", false, 9),
        TodoItem::new("high", false, 1),
        TodoItem::new("mid", false, 4),
    ];
    let sorted = sort_by_priority(&items);
    assert_eq!(texts(&sorted), vec!["high", "mid", "low"]);
}

#[test]
fn sorting_is_stable_for_equal_priorities() {
    let items = vec![
        TodoItem::new("first", false, 2),
        TodoItem::new("second", false, 2),
        TodoItem::new("urgent", false, 1),
        TodoItem::new("third", false, 2),
    ];
    let sorted = sort_by_priority(&items);
    assert_eq!(texts(&sorted), vec!["urgent", "first", "second", "third"]);
}

#[test]
fn listing_shows_higher_priority_first() {
    let items = vec![
        TodoItem::new("Call Bob", false, 1),
        TodoItem::new("Do laundry", false, 3),
    ];
    let sorted = sort_by_priority(&items);
    assert_eq!(texts(&sorted), vec!["Call Bob", "Do laundry"]);
    let bob = sorted.iter().position(|t| t.text == "Call Bob").unwrap();
    let laundry = sorted.iter().position(|t| t.text == "Do laundry").unwrap();
    assert!(bob < laundry);
}

#[test]
fn todo_item_new_default_and_toggle() {
    let mut t = TodoItem::new("wash", false, 2);
    assert_eq!(t.text, "wash");
    assert_eq!(t.priority, 2);
    assert!(!t.completed);
    t.toggle_complete();
    assert!(t.completed);
    t.toggle_complete();
    assert!(!t.completed);
    let d = TodoItem::default();
    assert_eq!(d.text, "");
    assert!(!d.completed);
    assert_eq!(d.priority, 1);
}

#[test]
fn todo_file_path_joins_home_and_fixed_name() {
    assert_eq!(get_todo_file_path("/home/someone"), "/home/someone/.todos");
}

#[test]
fn set_priority_changes_one_item_and_tolerates_misses() {
    let mut items = vec![
        TodoItem::new("a", false, 1),
        TodoItem::new("b", true, 2),
    ];
    set_priority(&mut items, 1, 7);
    assert_eq!(items[0].priority, 1);
    assert_eq!(items[1].priority, 7);
    assert_eq!(items[1].text, "b");
    assert!(items[1].completed);
    set_priority(&mut items, 5, 9);
    assert_eq!(items[0].priority, 1);
    assert_eq!(items[1].priority, 7);
}
