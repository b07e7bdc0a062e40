//! Collection store behaviour: add, update, remove, get, iterate, and
//! the dirty flag.

use awth::{Document, Pointer, Post, Posts, User, Users};

fn post(id: u128, caption: &str) -> Post {
    Post {
        id,
        created_at: 100,
        updated_at: 200,
        caption: caption.to_string(),
    }
}

#[test]
fn add_then_get_returns_equal_document() {
    let mut ps = Posts::empty();
    ps.add(post(1, "a"));
    let got = ps.get(1).expect("live document");
    assert_eq!(got.id, 1);
    assert_eq!(got.created_at, 100);
    assert_eq!(got.updated_at, 200);
    assert_eq!(got.caption, "a");
    assert!(ps.changed());
}

#[test]
fn second_add_with_same_id_is_noop() {
    let mut ps = Posts::empty();
    ps.add(post(1, "a"));
    ps.add(post(1, "different"));
    assert_eq!(ps.iterate().len(), 1);
    assert_eq!(ps.get(1).unwrap().caption, "a");
}

#[test]
fn add_with_sentinel_id_changes_nothing() {
    let mut ps = Posts::empty();
    ps.add(post(0, "ghost"));
    assert_eq!(ps.iterate().len(), 0);
    assert!(!ps.changed());
    ps.add(post(7, "x"));
    let before = ps.changed();
    ps.add(post(0, "ghost again"));
    assert_eq!(ps.iterate().len(), 1);
    assert_eq!(ps.changed(), before);
}

#[test]
fn remove_unknown_or_sentinel_is_noop() {
    let mut ps = Posts::empty();
    ps.add(post(1, "a"));
    let _ = ps.save_bytes();
    assert!(!ps.changed());
    ps.remove(0);
    ps.remove(42);
    assert!(!ps.changed());
    assert_eq!(ps.iterate().len(), 1);
    assert_eq!(ps.get(1).unwrap().caption, "a");
}

#[test]
fn remove_tombstones_slot_in_place() {
    let mut ps = Posts::empty();
    ps.add(post(1, "a"));
    ps.add(post(2, "b"));
    ps.remove(1);
    assert!(ps.get(1).is_none());
    assert_eq!(ps.get(2).unwrap().caption, "b");
    // the slot is retained, with the sentinel identifier
    let slots = ps.iterate();
    assert_eq!(slots.len(), 2);
    assert_eq!(slots[0].id, 0);
    assert_eq!(slots[0].caption, "a");
    assert_eq!(slots[1].id, 2);
    assert!(ps.changed());
}

#[test]
fn get_of_sentinel_is_none_even_with_tombstones() {
    let mut ps = Posts::empty();
    ps.add(post(1, "a"));
    ps.remove(1);
    assert!(ps.get(0).is_none());
}

#[test]
fn update_replaces_in_place() {
    let mut ps = Posts::empty();
    ps.add(post(1, "a"));
    ps.add(post(2, "b"));
    let _ = ps.save_bytes();
    assert!(!ps.changed());
    ps.update(post(1, "a2"));
    assert!(ps.changed());
    assert_eq!(ps.get(1).unwrap().caption, "a2");
    let slots = ps.iterate();
    assert_eq!(slots.len(), 2);
    assert_eq!(slots[0].id, 1);
    assert_eq!(slots[1].caption, "b");
}

#[test]
fn update_unknown_or_sentinel_is_noop() {
    let mut ps = Posts::empty();
    ps.add(post(1, "a"));
    let _ = ps.save_bytes();
    ps.update(post(9, "nobody"));
    ps.update(post(0, "sentinel"));
    assert!(!ps.changed());
    assert_eq!(ps.iterate().len(), 1);
    assert_eq!(ps.get(1).unwrap().caption, "a");
}

#[test]
fn filter_drops_tombstones_and_clears_flag() {
    let mut ps = Posts::empty();
    ps.add(post(1, "a"));
    ps.add(post(2, "b"));
    ps.add(post(3, "c"));
    ps.remove(2);
    let live = ps.filter();
    assert!(!live.changed());
    let slots = live.iterate();
    assert_eq!(slots.len(), 2);
    assert_eq!(slots[0].id, 1);
    assert_eq!(slots[0].caption, "a");
    assert_eq!(slots[1].id, 3);
    assert_eq!(slots[1].caption, "c");
    // the filtered-from store is untouched
    assert_eq!(ps.iterate().len(), 3);
}

#[test]
fn post_new_stamps_matching_timestamps() {
    let p = Post::new(5, "hello".to_string());
    assert_eq!(p.id, 5);
    assert_eq!(p.caption, "hello");
    assert_eq!(p.created_at, p.updated_at);
    assert_eq!(p.id(), 5);
}

#[test]
fn user_new_copies_ids_and_leaves_cache_empty() {
    let ids: Vec<u128> = vec![3, 1, 2];
    let u = User::new(10, "ada".to_string(), "ada@example.com".to_string(), 77, &ids);
    assert_eq!(u.id, 10);
    assert_eq!(u.username, "ada");
    assert_eq!(u.email, "ada@example.com");
    assert_eq!(u.hashed_password, 77);
    assert_eq!(u.post_ids, vec![3, 1, 2]);
    assert!(u.posts.is_empty());
    assert_eq!(u.created_at, u.updated_at);
}

#[test]
fn pointer_absent_cases() {
    let none: Pointer<Post> = Pointer::new(None);
    assert!(none.get().is_none());
    let tomb = post(0, "gone");
    let p = Pointer::new(Some(&tomb));
    assert!(p.get().is_none());
}

#[test]
fn pointer_present_holds_a_copy() {
    let target = post(4, "kept");
    let p = Pointer::new(Some(&target));
    let got = p.get().expect("present");
    assert_eq!(got.id, 4);
    assert_eq!(got.caption, "kept");
    let dup = p.duplicate();
    assert_eq!(dup.get().unwrap().caption, "kept");
}

#[test]
fn users_store_mirrors_posts_behaviour() {
    let mut us = Users::empty();
    us.add(User::new(10, "ada".to_string(), "a@x".to_string(), 1, &vec![]));
    us.add(User::new(11, "bob".to_string(), "b@x".to_string(), 2, &vec![]));
    assert!(us.changed());
    assert_eq!(us.get(10).unwrap().username, "ada");
    us.remove(10);
    assert!(us.get(10).is_none());
    assert_eq!(us.iterate().len(), 2);
    assert_eq!(us.iterate()[0].id, 0);
    assert_eq!(us.iterate()[0].username, "ada");
}

#[test]
fn update_of_tombstoned_id_is_noop() {
    let mut ps = Posts::empty();
    ps.add(post(1, "a"));
    ps.remove(1);
    let _ = ps.save_bytes();
    ps.update(post(1, "resurrected"));
    assert!(!ps.changed());
    assert!(ps.get(1).is_none());
    assert_eq!(ps.iterate()[0].id, 0);
    assert_eq!(ps.iterate()[0].caption, "a");
}

#[test]
fn new_wraps_documents_with_clear_flag() {
    let docs = vec![post(1, "a"), post(2, "b")];
    let ps = Posts::new(docs);
    assert!(!ps.changed());
    assert_eq!(ps.iterate().len(), 2);
    assert_eq!(ps.get(2).unwrap().caption, "b");
}
