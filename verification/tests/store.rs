use todo::item::{Item, ItemRepository, StoreError};

fn ids(repo: &ItemRepository) -> Vec<usize> {
    repo.items().iter().map(|it| it.id).collect()
}

#[test]
fn it_is_instantiatable() {
    let repository = ItemRepository::new(None);
    assert!(repository.is_ok())
}

#[test]
fn new_repository_is_empty() {
    let repo = ItemRepository::new(Some(".todos")).unwrap();
    assert!(repo.items().is_empty());
    assert_eq!(repo.file_path().as_deref(), Some(".todos"));
    let bare = ItemRepository::new(None).unwrap();
    assert!(bare.file_path().is_none());
}

#[test]
fn add_assigns_one_to_empty_collection() {
    let mut repo = ItemRepository::new(None).unwrap();
    repo.add("Buy milk");
    assert_eq!(repo.items().len(), 1);
    assert_eq!(repo.items()[0].id, 1);
    assert_eq!(repo.items()[0].text, "Buy milk");
    assert!(!repo.items()[0].completed);
}

#[test]
fn add_assigns_strictly_increasing_ids() {
    let mut repo = ItemRepository::new(None).unwrap();
    repo.add("a");
    repo.add("b");
    repo.add("c");
    assert_eq!(ids(&repo), vec![1, 2, 3]);
    repo.delete(2);
    repo.add("d");
    assert_eq!(ids(&repo), vec![1, 3, 4]);
}

#[test]
fn delete_removes_the_id_and_keeps_the_rest() {
    let mut repo = ItemRepository::new(None).unwrap();
    repo.add("a");
    repo.add("b");
    repo.add("c");
    repo.delete(2);
    assert_eq!(ids(&repo), vec![1, 3]);
    assert!(repo.items().iter().all(|it| it.id != 2));
    assert_eq!(repo.items()[0].text, "a");
    assert_eq!(repo.items()[1].text, "c");
}

#[test]
fn delete_of_missing_id_changes_nothing() {
    let mut repo = ItemRepository::new(None).unwrap();
    repo.add("a");
    repo.add("b");
    repo.delete(77);
    assert_eq!(ids(&repo), vec![1, 2]);
    assert_eq!(repo.items()[0].text, "a");
    assert_eq!(repo.items()[1].text, "b");
}

#[test]
fn toggle_twice_restores_the_flag() {
    let mut repo = ItemRepository::new(None).unwrap();
    repo.add("a");
    assert!(!repo.items()[0].completed);
    repo.toggle(1);
    assert!(repo.items()[0].completed);
    repo.toggle(1);
    assert!(!repo.items()[0].completed);
}

#[test]
fn toggle_of_missing_id_changes_nothing() {
    let mut repo = ItemRepository::new(None).unwrap();
    repo.add("a");
    repo.toggle(9);
    assert!(!repo.items()[0].completed);
    assert_eq!(ids(&repo), vec![1]);
}

#[test]
fn update_text_replaces_only_the_matching_item() {
    let mut repo = ItemRepository::new(None).unwrap();
    repo.add("a");
    repo.add("b");
    repo.update_text(2, "changed");
    assert_eq!(repo.items()[0].text, "a");
    assert_eq!(repo.items()[1].text, "changed");
    repo.update_text(5, "nobody");
    assert_eq!(repo.items()[0].text, "a");
    assert_eq!(repo.items()[1].text, "changed");
}

#[test]
fn item_new_and_default() {
    let it = Item::new(4, "hello", true);
    assert_eq!(it.id, 4);
    assert_eq!(it.text, "hello");
    assert!(it.completed);
    let d = Item::default();
    assert_eq!(d.id, 0);
    assert_eq!(d.text, "");
    assert!(!d.completed);
}

#[test]
fn scenario_add_complete_delete() {
    let mut repo = ItemRepository::new(None).unwrap();
    repo.add("Buy milk");
    assert_eq!(repo.items().len(), 1);
    assert_eq!(repo.items()[0].id, 1);
    assert!(!repo.items()[0].completed);
    repo.add("Call Bob");
    repo.add("Do laundry");
    repo.toggle(1);
    assert!(repo.items()[0].completed);
    repo.toggle(1);
    assert!(!repo.items()[0].completed);
    repo.delete(2);
    assert_eq!(ids(&repo), vec![1, 3]);
    assert_eq!(repo.items()[0].text, "Buy milk");
    assert_eq!(repo.items()[1].text, "Do laundry");
}

#[test]
fn load_rejects_duplicate_ids() {
    let mut repo = ItemRepository::new(None).unwrap();
    repo.add("keep");
    let json = "[{\"id\":1,\"text\":\"a\",\"completed\":false},{\"id\":1,\"text\":\"b\",\"completed\":true}]";
    assert_eq!(repo.load_items(json), Err(StoreError::DuplicateId));
    // the collection is untouched on error
    assert_eq!(repo.items().len(), 1);
    assert_eq!(repo.items()[0].text, "keep");
}
