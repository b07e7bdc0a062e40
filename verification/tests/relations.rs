//! Relation resolution: caches derived from a target collection, and
//! how they track removals across resolution passes.

use awth::{Post, Posts, User, Users};

fn post(id: u128, caption: &str) -> Post {
    Post {
        id,
        created_at: 1,
        updated_at: 1,
        caption: caption.to_string(),
    }
}

#[test]
fn resolve_all_marks_removed_targets_absent() {
    let mut posts = Posts::empty();
    posts.add(post(1, "one"));
    posts.add(post(3, "three"));
    posts.remove(3);
    let mut users = Users::empty();
    users.add(User::new(10, "ada".to_string(), "a@x".to_string(), 1, &vec![1, 3]));
    users.resolve_all(&posts);
    let u = users.get(10).expect("live user");
    assert_eq!(u.posts.len(), 2);
    let first = u.posts[0].get().expect("post 1 is live");
    assert_eq!(first.id, 1);
    assert!(u.posts[1].get().is_none());
}

#[test]
fn resolve_then_remove_then_resolve_again() {
    // posts "a" and "b"; a user holding both; after removing post 1 a
    // fresh resolution shows it absent while "b" stays present
    let mut posts = Posts::empty();
    posts.add(post(1, "a"));
    posts.add(post(2, "b"));
    let mut users = Users::empty();
    users.add(User::new(10, "ada".to_string(), "a@x".to_string(), 1, &vec![1, 2]));
    users.resolve_all(&posts);
    {
        let u = users.get(10).unwrap();
        assert_eq!(u.posts.len(), 2);
        assert_eq!(u.posts[0].get().unwrap().caption, "a");
        assert_eq!(u.posts[1].get().unwrap().caption, "b");
    }
    posts.remove(1);
    users.resolve_all(&posts);
    {
        let u = users.get(10).unwrap();
        assert_eq!(u.posts.len(), 2);
        assert!(u.posts[0].get().is_none());
        assert_eq!(u.posts[1].get().unwrap().caption, "b");
    }
}

#[test]
fn resolution_is_idempotent() {
    let mut posts = Posts::empty();
    posts.add(post(1, "a"));
    let mut users = Users::empty();
    users.add(User::new(10, "ada".to_string(), "a@x".to_string(), 1, &vec![1, 1]));
    users.resolve_all(&posts);
    users.resolve_all(&posts);
    let u = users.get(10).unwrap();
    // the cache is rebuilt, never appended to
    assert_eq!(u.posts.len(), 2);
    assert_eq!(u.posts[0].get().unwrap().caption, "a");
    assert_eq!(u.posts[1].get().unwrap().caption, "a");
}

#[test]
fn resolve_single_user_against_store() {
    let mut posts = Posts::empty();
    posts.add(post(5, "five"));
    let mut u = User::new(10, "ada".to_string(), "a@x".to_string(), 1, &vec![5, 6]);
    u.resolve(&posts);
    assert_eq!(u.posts.len(), 2);
    assert_eq!(u.posts[0].get().unwrap().caption, "five");
    assert!(u.posts[1].get().is_none());
}

#[test]
fn resolution_does_not_touch_dirty_flag() {
    let mut posts = Posts::empty();
    posts.add(post(1, "a"));
    let mut users = Users::empty();
    users.add(User::new(10, "ada".to_string(), "a@x".to_string(), 1, &vec![1]));
    let _ = users.save_bytes();
    assert!(!users.changed());
    users.resolve_all(&posts);
    assert!(!users.changed());
}

#[test]
fn caches_are_snapshots_not_aliases() {
    // mutating the target after resolution leaves the cache as it
    // was: stale, but safe to read
    let mut posts = Posts::empty();
    posts.add(post(1, "before"));
    let mut users = Users::empty();
    users.add(User::new(10, "ada".to_string(), "a@x".to_string(), 1, &vec![1]));
    users.resolve_all(&posts);
    posts.update(post(1, "after"));
    let u = users.get(10).unwrap();
    assert_eq!(u.posts[0].get().unwrap().caption, "before");
}
