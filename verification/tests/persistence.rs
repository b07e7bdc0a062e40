//! The persistence codec: round trips, compaction, verbatim saves,
//! and decode failures.

use awth::{CollectionError, Post, Posts, User, Users};

fn post(id: u128, caption: &str) -> Post {
    Post {
        id,
        created_at: 11,
        updated_at: 22,
        caption: caption.to_string(),
    }
}

#[test]
fn posts_round_trip_preserves_live_set() {
    let mut ps = Posts::empty();
    ps.add(post(1, "a"));
    ps.add(post(2, "b"));
    let blob = ps.save_bytes();
    let loaded = Posts::load_bytes(&blob).expect("well-formed blob");
    let slots = loaded.iterate();
    assert_eq!(slots.len(), 2);
    assert_eq!(slots[0].id, 1);
    assert_eq!(slots[0].created_at, 11);
    assert_eq!(slots[0].updated_at, 22);
    assert_eq!(slots[0].caption, "a");
    assert_eq!(slots[1].id, 2);
    assert_eq!(slots[1].caption, "b");
    assert!(!loaded.changed());
}

#[test]
fn unicode_captions_round_trip_exactly() {
    let mut ps = Posts::empty();
    ps.add(post(1, "héllo wörld \u{1F980} \u{3042}"));
    let blob = ps.save_bytes();
    let loaded = Posts::load_bytes(&blob).expect("well-formed blob");
    assert_eq!(loaded.get(1).unwrap().caption, "héllo wörld \u{1F980} \u{3042}");
}

#[test]
fn dirty_save_compacts_tombstones() {
    let mut ps = Posts::empty();
    ps.add(post(1, "a"));
    ps.add(post(2, "b"));
    ps.add(post(3, "c"));
    ps.remove(2);
    assert!(ps.changed());
    let blob = ps.save_bytes();
    assert!(!ps.changed());
    let loaded = Posts::load_bytes(&blob).expect("well-formed blob");
    let slots = loaded.iterate();
    assert_eq!(slots.len(), 2);
    assert!(slots.iter().all(|d| d.id != 0));
    assert_eq!(slots[0].caption, "a");
    assert_eq!(slots[1].caption, "c");
}

#[test]
fn clean_save_preserves_tombstones_verbatim() {
    let mut ps = Posts::empty();
    ps.add(post(1, "a"));
    ps.add(post(2, "b"));
    ps.remove(1);
    // the compacting save clears the flag but keeps the slots
    let _ = ps.save_bytes();
    assert!(!ps.changed());
    assert_eq!(ps.iterate().len(), 2);
    // a second save, with no mutation since, writes every slot verbatim
    let blob = ps.save_bytes();
    let loaded = Posts::load_bytes(&blob).expect("well-formed blob");
    let slots = loaded.iterate();
    assert_eq!(slots.len(), 2);
    assert_eq!(slots[0].id, 0);
    assert_eq!(slots[0].caption, "a");
    assert_eq!(slots[1].id, 2);
    assert_eq!(slots[1].caption, "b");
}

#[test]
fn empty_collection_round_trips() {
    let mut ps = Posts::empty();
    let blob = ps.save_bytes();
    let loaded = Posts::load_bytes(&blob).expect("well-formed blob");
    assert_eq!(loaded.iterate().len(), 0);
}

#[test]
fn load_rejects_empty_and_short_input() {
    assert!(matches!(Posts::load_bytes(&vec![]), Err(CollectionError::Decode)));
    assert!(matches!(Posts::load_bytes(&vec![0x61, 0x77]), Err(CollectionError::Decode)));
}

#[test]
fn load_rejects_wrong_tag_version_or_kind() {
    let mut ps = Posts::empty();
    ps.add(post(1, "a"));
    let blob = ps.save_bytes();
    let mut wrong_tag = blob.clone();
    wrong_tag[0] = 0x5A;
    assert!(matches!(Posts::load_bytes(&wrong_tag), Err(CollectionError::Decode)));
    let mut wrong_version = blob.clone();
    wrong_version[2] = 0x02;
    assert!(matches!(Posts::load_bytes(&wrong_version), Err(CollectionError::Decode)));
    // a posts blob is not a users blob
    assert!(matches!(Users::load_bytes(&blob), Err(CollectionError::Decode)));
}

#[test]
fn load_rejects_truncated_and_padded_input() {
    let mut ps = Posts::empty();
    ps.add(post(1, "abc"));
    let blob = ps.save_bytes();
    let truncated: Vec<u8> = blob[..blob.len() - 1].to_vec();
    assert!(matches!(Posts::load_bytes(&truncated), Err(CollectionError::Decode)));
    let mut padded = blob.clone();
    padded.push(0);
    assert!(matches!(Posts::load_bytes(&padded), Err(CollectionError::Decode)));
}

#[test]
fn load_rejects_invalid_character_code() {
    let mut ps = Posts::empty();
    ps.add(post(1, "a"));
    let mut blob = ps.save_bytes();
    // the caption's single character is the last four bytes: make it a
    // surrogate code, which no character carries
    let n = blob.len();
    blob[n - 4] = 0x00;
    blob[n - 3] = 0xD8;
    blob[n - 2] = 0x00;
    blob[n - 1] = 0x00;
    assert!(matches!(Posts::load_bytes(&blob), Err(CollectionError::Decode)));
}

#[test]
fn load_rejects_duplicate_live_identifiers() {
    let mut ps = Posts::empty();
    ps.add(post(1, "a"));
    let blob = ps.save_bytes();
    // splice the single encoded document in twice and fix the count
    let body: Vec<u8> = blob[12..].to_vec();
    let mut forged: Vec<u8> = blob[..4].to_vec();
    forged.extend_from_slice(&2u64.to_le_bytes());
    forged.extend_from_slice(&body);
    forged.extend_from_slice(&body);
    assert!(matches!(Posts::load_bytes(&forged), Err(CollectionError::Decode)));
}

#[test]
fn users_round_trip_drops_caches_keeps_ids() {
    let mut us = Users::empty();
    let mut u = User::new(10, "ada".to_string(), "ada@x".to_string(), 99, &vec![1, 2, 3]);
    u.created_at = 7;
    u.updated_at = 8;
    us.add(u);
    let blob = us.save_bytes();
    let loaded = Users::load_bytes(&blob).expect("well-formed blob");
    let got = loaded.get(10).expect("live user");
    assert_eq!(got.username, "ada");
    assert_eq!(got.email, "ada@x");
    assert_eq!(got.hashed_password, 99);
    assert_eq!(got.created_at, 7);
    assert_eq!(got.updated_at, 8);
    assert_eq!(got.post_ids, vec![1, 2, 3]);
    assert!(got.posts.is_empty());
}

#[test]
fn users_dirty_save_compacts() {
    let mut us = Users::empty();
    us.add(User::new(10, "ada".to_string(), "a@x".to_string(), 1, &vec![]));
    us.add(User::new(11, "bob".to_string(), "b@x".to_string(), 2, &vec![]));
    us.remove(10);
    let blob = us.save_bytes();
    let loaded = Users::load_bytes(&blob).expect("well-formed blob");
    assert_eq!(loaded.iterate().len(), 1);
    assert_eq!(loaded.iterate()[0].id, 11);
}

#[test]
fn extreme_values_round_trip() {
    let mut ps = Posts::empty();
    ps.add(Post {
        id: u128::MAX,
        created_at: u64::MAX,
        updated_at: 0,
        caption: String::new(),
    });
    let blob = ps.save_bytes();
    let loaded = Posts::load_bytes(&blob).expect("well-formed blob");
    let got = loaded.get(u128::MAX).expect("live document");
    assert_eq!(got.created_at, u64::MAX);
    assert_eq!(got.updated_at, 0);
    assert_eq!(got.caption, "");
}

#[test]
fn empty_texts_and_empty_id_list_round_trip() {
    let mut us = Users::empty();
    us.add(User::new(1, String::new(), String::new(), 0, &vec![]));
    let blob = us.save_bytes();
    let loaded = Users::load_bytes(&blob).expect("well-formed blob");
    let got = loaded.get(1).expect("live user");
    assert_eq!(got.username, "");
    assert_eq!(got.email, "");
    assert!(got.post_ids.is_empty());
}

#[test]
fn many_documents_round_trip_in_order() {
    let mut ps = Posts::empty();
    for i in 1..=50u128 {
        ps.add(post(i, &format!("caption {}", i)));
    }
    let blob = ps.save_bytes();
    let loaded = Posts::load_bytes(&blob).expect("well-formed blob");
    let slots = loaded.iterate();
    assert_eq!(slots.len(), 50);
    for i in 0..50usize {
        assert_eq!(slots[i].id, (i + 1) as u128);
        assert_eq!(slots[i].caption, format!("caption {}", i + 1));
    }
}

#[test]
fn error_messages() {
    assert_eq!(CollectionError::Io.message(), "IO error");
    assert_eq!(CollectionError::Decode.message(), "Decode error");
}
