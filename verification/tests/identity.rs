//! Profiles, the registry of known users, and history bookkeeping.

use lan_chat::message::{Message, MessageHistory};
use lan_chat::profile::Profile;
use lan_chat::utilities::{gen_rand_id, get_curr_time, KnownUsers};

fn profile(name: &str, uid: u32) -> Profile {
    Profile { name: name.to_string(), uid, join_time: 7, pic: vec![3, 4] }
}

#[test]
fn new_profiles_start_with_the_given_name_and_no_avatar() {
    let p = Profile::new("fresh".to_string());
    assert_eq!(p.name, "fresh");
    assert!(p.pic.is_empty());
}

#[test]
fn personalize_keeps_the_old_name_when_the_new_one_is_empty() {
    let mut p = profile("old", 1);
    p.personalize("", vec![9]);
    assert_eq!(p.name, "old");
    assert_eq!(p.pic, vec![9]);
    assert_eq!(p.uid, 1);
    assert_eq!(p.join_time, 7);
    p.personalize("new", vec![8, 8]);
    assert_eq!(p.name, "new");
    assert_eq!(p.pic, vec![8, 8]);
}

#[test]
fn hello_carries_the_profile() {
    let p = profile("ada", 31);
    match p.make_hello_msg() {
        Message::Hello(h, pay) => {
            assert_eq!(h.name, "ada");
            assert_eq!(h.uid, 31);
            assert_eq!(pay, vec![3, 4]);
        }
        _ => panic!("a greeting must be a hello message"),
    }
}

#[test]
fn outgoing_chat_messages_carry_name_id_and_payload() {
    let p = profile("ada", 31);
    match p.make_text_msg(b"hi".to_vec()) {
        Message::Text(h, pay) => {
            assert_eq!(h.uid, 31);
            assert_eq!(pay, b"hi".to_vec());
        }
        _ => panic!("expected a text message"),
    }
    match p.make_image_msg(vec![0xab]) {
        Message::Image(h, pay) => {
            assert_eq!(h.name, "ada");
            assert_eq!(pay, vec![0xab]);
        }
        _ => panic!("expected an image message"),
    }
    match p.make_goodbye_msg() {
        Message::Goodbye(h, pay) => {
            assert_eq!(h.uid, 31);
            assert_eq!(pay, vec![3, 4]);
        }
        _ => panic!("expected a goodbye message"),
    }
}

#[test]
fn registry_lists_every_known_user_once() {
    let mut known = KnownUsers::new();
    assert!(known.all_users().is_empty());
    known.add_user(profile("a", 5));
    known.add_user(profile("b", 6));
    known.add_user(profile("c", 5)); // overwrites the first entry
    let mut users = known.all_users();
    users.sort_by_key(|p| p.uid);
    assert_eq!(users.len(), 2);
    assert_eq!(users[0].uid, 5);
    assert_eq!(users[0].name, "c");
    assert_eq!(users[1].uid, 6);
    assert_eq!(users[1].name, "b");
}

#[test]
fn registry_upserts_and_removes_by_identifier() {
    let mut known = KnownUsers::new();
    assert!(!known.does_user_exist(5));
    known.add_user(profile("a", 5));
    assert!(known.does_user_exist(5));
    assert_eq!(known.get_user(5).unwrap().name, "a");
    // an upsert replaces the profile under the same identifier
    known.add_user(profile("b", 5));
    assert_eq!(known.get_user(5).unwrap().name, "b");
    let removed = known.remove_user(5).unwrap();
    assert_eq!(removed.name, "b");
    assert!(!known.does_user_exist(5));
    assert!(known.remove_user(5).is_none());
}

#[test]
fn history_records_messages_and_deduplicates_id_pairs() {
    let mut history = MessageHistory::new();
    assert!(history.msgs.is_empty());
    history.push(Message::Ack(1, 2));
    assert_eq!(history.msgs.len(), 1);
    assert!(history.mark_received(10, 20));
    assert!(!history.mark_received(10, 20));
    // the same message id from another sender is fresh
    assert!(history.mark_received(11, 20));
}

#[test]
fn random_identifiers_do_not_repeat_immediately() {
    // not a guarantee, but a sanity check that the source is not constant
    let a = gen_rand_id();
    let b = gen_rand_id();
    let c = gen_rand_id();
    assert!(!(a == b && b == c));
    // and the clock sits after the epoch
    assert!(get_curr_time() > 0);
}
