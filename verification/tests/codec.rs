use todo::codec::{items_from_json, items_to_json, todos_from_json, todos_to_json};
use todo::item::{Item, ItemRepository, StoreError};
use todo::todo_item::TodoItem;

#[test]
fn empty_collection_prints_as_empty_array() {
    let repo = ItemRepository::new(None).unwrap();
    assert_eq!(repo.to_json(), "[]");
}

#[test]
fn one_item_prints_exactly() {
    let mut repo = ItemRepository::new(None).unwrap();
    repo.add("Buy milk");
    assert_eq!(repo.to_json(), "[{\"id\":1,\"text\":\"Buy milk\",\"completed\":false}]");
}

#[test]
fn several_items_print_exactly() {
    let items = vec![Item::new(1, "a", false), Item::new(2, "b", true)];
    assert_eq!(
        items_to_json(&items),
        "[{\"id\":1,\"text\":\"a\",\"completed\":false},{\"id\":2,\"text\":\"b\",\"completed\":true}]"
    );
}

#[test]
fn text_is_escaped() {
    let items = vec![Item::new(1, "say \"hi\"\\\n\t\r\u{1}", false)];
    assert_eq!(
        items_to_json(&items),
        "[{\"id\":1,\"text\":\"say \\\"hi\\\"\\\\\\n\\t\\r\\u0001\",\"completed\":false}]"
    );
}

#[test]
fn round_trip_keeps_every_field() {
    let mut repo = ItemRepository::new(None).unwrap();
    repo.add("plain");
    repo.add("with \"quotes\" and \\slashes\\");
    repo.add("line\nbreak\ttab\rreturn");
    repo.add("control \u{1}\u{8}\u{c}\u{1f} chars");
    repo.add("unicode \u{e9}\u{4e16}\u{1f600}");
    repo.toggle(2);
    let json = repo.to_json();
    let mut back = ItemRepository::new(None).unwrap();
    back.load_items(&json).unwrap();
    assert_eq!(back.items().len(), repo.items().len());
    for (a, b) in repo.items().iter().zip(back.items().iter()) {
        assert_eq!(a.id, b.id);
        assert_eq!(a.text, b.text);
        assert_eq!(a.completed, b.completed);
    }
}

#[test]
fn reading_accepts_named_escapes_and_hex_case() {
    let json = "[{\"id\":1,\"text\":\"a\\b\\f\\/\\u001F\\u0041\",\"completed\":false}]";
    let items = items_from_json(json).unwrap();
    assert_eq!(items[0].text, "a\u{8}\u{c}/\u{1f}A");
}

#[test]
fn reading_rejects_malformed_text() {
    for bad in [
        "",
        "not json",
        "{}",
        "[",
        "[]extra",
        "[{\"id\":1,\"text\":\"a\",\"completed\":false}",
        "[{\"id\":,\"text\":\"a\",\"completed\":false}]",
        "[{\"id\":1,\"text\":\"a\",\"completed\":maybe}]",
        "[{\"id\":1,\"text\":\"unterminated,\"completed\":false}]",
        "[{\"id\":1,\"text\":\"bad\\q\",\"completed\":false}]",
        "[{\"id\":1,\"text\":\"lone\\uD800\",\"completed\":false}]",
        "[ {\"id\":1,\"text\":\"a\",\"completed\":false}]",
    ] {
        assert!(
            matches!(items_from_json(bad), Err(StoreError::MalformedJson)),
            "input: {bad}"
        );
    }
}

#[test]
fn reading_rejects_ids_beyond_usize() {
    let json = "[{\"id\":99999999999999999999999999,\"text\":\"a\",\"completed\":false}]";
    assert!(matches!(items_from_json(json), Err(StoreError::NumberTooLarge)));
}

#[test]
fn empty_array_reads_as_empty_collection() {
    assert!(items_from_json("[]").unwrap().is_empty());
    assert!(todos_from_json("[]").unwrap().is_empty());
}

#[test]
fn todos_print_exactly() {
    let todos = vec![TodoItem::new("wash", false, 2), TodoItem::new("dry", true, 1)];
    assert_eq!(
        todos_to_json(&todos),
        "[{\"text\":\"wash\",\"completed\":false,\"priority\":2},{\"text\":\"dry\",\"completed\":true,\"priority\":1}]"
    );
}

#[test]
fn todos_round_trip_keeps_every_field() {
    let todos = vec![
        TodoItem::new("wash \"it\"\n", false, 2),
        TodoItem::new("dry", true, 1),
        TodoItem::new("", false, 9),
    ];
    let json = todos_to_json(&todos);
    let back = todos_from_json(&json).unwrap();
    assert_eq!(back.len(), todos.len());
    for (a, b) in todos.iter().zip(back.iter()) {
        assert_eq!(a.text, b.text);
        assert_eq!(a.completed, b.completed);
        assert_eq!(a.priority, b.priority);
    }
}

#[test]
fn todos_reject_priorities_beyond_usize() {
    let json = "[{\"text\":\"a\",\"completed\":false,\"priority\":88888888888888888888888888}]";
    assert!(matches!(todos_from_json(json), Err(StoreError::NumberTooLarge)));
}

#[test]
fn written_text_is_json_for_other_readers() {
    let mut repo = ItemRepository::new(None).unwrap();
    repo.add("say \"hi\"\n\u{1}");
    repo.add("plain");
    repo.toggle(1);
    let parsed: serde_json::Value = serde_json::from_str(&repo.to_json()).unwrap();
    let arr = parsed.as_array().unwrap();
    assert_eq!(arr.len(), 2);
    assert_eq!(arr[0]["id"], 1);
    assert_eq!(arr[0]["text"], "say \"hi\"\n\u{1}");
    assert_eq!(arr[0]["completed"], true);
    assert_eq!(arr[1]["id"], 2);
    assert_eq!(arr[1]["text"], "plain");
    assert_eq!(arr[1]["completed"], false);
}
