use vetkd_notes::{Action, Limits, NoteError, NoteStore};

fn name(x: &str) -> String {
    x.to_string()
}

fn ids(store: &NoteStore, who: &str, now: u64) -> Vec<u128> {
    store.get_notes(&name(who), now).iter().map(|n| n.id()).collect()
}

#[test]
fn ids_start_at_one_and_increase() {
    let mut st = NoteStore::new(Limits::standard());
    assert_eq!(st.next_id(), 1);
    assert_eq!(st.create_note(&name("alice"), 1), Ok(1));
    assert_eq!(st.create_note(&name("bob"), 2), Ok(2));
    assert_eq!(st.create_note(&name("alice"), 3), Ok(3));
    assert_eq!(st.next_id(), 4);
    assert_eq!(st.owned_ids(&name("alice")).to_vec(), vec![1, 3]);
    assert_eq!(st.owner_count(), 2);
    assert_eq!(st.delete_note(&name("alice"), 3), Ok(()));
    assert_eq!(st.create_note(&name("alice"), 4), Ok(4));
}

#[test]
fn visibility_union_sorted_without_duplicates() {
    let mut st = NoteStore::new(Limits::standard());
    let n1 = st.create_note(&name("O"), 1).unwrap();
    let n2 = st.create_note(&name("A"), 2).unwrap();
    let n3 = st.create_note(&name("B"), 3).unwrap();
    let n4 = st.create_note(&name("C"), 4).unwrap();
    assert_eq!(st.add_user(&name("A"), n2, &None, None, 5), Ok(()));
    assert_eq!(st.add_user(&name("A"), n2, &Some(name("O")), Some(6), 6), Ok(()));
    assert_eq!(st.add_user(&name("B"), n3, &None, None, 7), Ok(()));
    assert_eq!(st.add_user(&name("C"), n4, &Some(name("Z")), None, 8), Ok(()));
    assert_eq!(ids(&st, "O", 10), vec![n1, n2, n3]);
    assert_eq!(ids(&st, "Z", 10), vec![n2, n3, n4]);
    assert_eq!(ids(&st, "nobody", 10), vec![n2, n3]);
}

#[test]
fn future_share_is_not_yet_visible() {
    let mut st = NoteStore::new(Limits::standard());
    let n = st.create_note(&name("A"), 1).unwrap();
    assert_eq!(st.add_user(&name("A"), n, &Some(name("O")), Some(100), 2), Ok(()));
    assert!(ids(&st, "O", 99).is_empty());
    assert_eq!(ids(&st, "O", 100), vec![n]);
}

#[test]
fn indices_follow_rules_and_owners() {
    let mut st = NoteStore::new(Limits::standard());
    let a = st.create_note(&name("alice"), 1).unwrap();
    let b = st.create_note(&name("alice"), 2).unwrap();
    assert_eq!(st.add_user(&name("alice"), a, &Some(name("bob")), None, 3), Ok(()));
    assert_eq!(st.add_user(&name("alice"), b, &Some(name("bob")), None, 4), Ok(()));
    assert_eq!(st.add_user(&name("alice"), b, &Some(name("bob")), Some(9), 5), Ok(()));
    assert_eq!(st.shared_ids(&Some(name("bob"))).to_vec(), vec![a, b]);
    assert_eq!(st.remove_user(&name("alice"), a, &Some(name("bob")), 6), Ok(()));
    assert_eq!(st.shared_ids(&Some(name("bob"))).to_vec(), vec![b]);
    assert_eq!(st.remove_user(&name("alice"), b, &Some(name("bob")), 7), Ok(()));
    assert_eq!(st.shared_ids(&Some(name("bob"))).len(), 0);
    assert_eq!(st.remove_user(&name("alice"), b, &Some(name("bob")), 8), Ok(()));
    let c = st.create_note(&name("carol"), 9).unwrap();
    assert_eq!(st.owner_count(), 2);
    assert_eq!(st.delete_note(&name("carol"), c), Ok(()));
    assert_eq!(st.owner_count(), 1);
    assert_eq!(st.owned_ids(&name("carol")).len(), 0);
    assert!(st.note(c).is_none());
}

#[test]
fn share_quota_leaves_rules_unchanged() {
    let limits = Limits { max_shares_per_note: 2, ..Limits::standard() };
    let mut st = NoteStore::new(limits);
    let n = st.create_note(&name("alice"), 1).unwrap();
    assert_eq!(st.add_user(&name("alice"), n, &Some(name("b")), None, 2), Ok(()));
    assert_eq!(st.add_user(&name("alice"), n, &Some(name("c")), None, 3), Ok(()));
    let before = st.note(n).unwrap();
    assert_eq!(st.add_user(&name("alice"), n, &Some(name("d")), None, 4), Err(NoteError::QuotaExceeded));
    let after = st.note(n).unwrap();
    assert_eq!(after, before);
    assert_eq!(after.users().len(), 2);
    assert_eq!(st.add_user(&name("alice"), n, &Some(name("c")), Some(8), 5), Ok(()));
}

#[test]
fn store_share_read_scenario() {
    let mut st = NoteStore::new(Limits::standard());
    let id = st.create_note(&name("alice"), 1).unwrap();
    assert_eq!(st.add_user(&name("alice"), id, &Some(name("bob")), None, 2), Ok(()));
    let n = st.note(id).unwrap();
    assert!(n.is_locked());
    let acts: Vec<Action> = n.history().iter().map(|h| h.action()).collect();
    assert_eq!(acts, vec![Action::Created, Action::Locked, Action::Shared]);
    assert!(st.request_key(&name("bob"), id, 3).is_ok());
    let n = st.note(id).unwrap();
    assert_eq!(n.read_by(), vec![name("bob")]);
    assert_eq!(n.history().pop().unwrap().action(), Action::ReadLocked);
    assert_eq!(st.remove_user(&name("alice"), id, &Some(name("bob")), 4), Err(NoteError::AlreadyLocked));
    assert_eq!(st.update_note(&name("alice"), id, name("d"), name("c"), 5), Ok(()));
    assert_eq!(st.update_note(&name("bob"), id, name("d"), name("c"), 6), Err(NoteError::AlreadyLocked));
    assert_eq!(st.delete_note(&name("alice"), id), Err(NoteError::AlreadyLocked));
}

#[test]
fn key_request_records_first_read_once() {
    let mut st = NoteStore::new(Limits::standard());
    let id = st.create_note(&name("alice"), 1).unwrap();
    assert_eq!(st.add_user(&name("alice"), id, &None, None, 2), Ok(()));
    let k1 = st.request_key(&name("bob"), id, 3).unwrap();
    let k2 = st.request_key(&name("bob"), id, 4).unwrap();
    assert_eq!(k1, k2);
    assert_eq!(st.note(id).unwrap().history().len(), 4);
    let own = st.request_key(&name("alice"), id, 5).unwrap();
    assert_eq!(own, k1);
    assert_eq!(st.note(id).unwrap().history().len(), 5);
    let own_again = st.request_key(&name("alice"), id, 6).unwrap();
    assert_eq!(own_again, k1);
    assert_eq!(st.note(id).unwrap().history().len(), 5);
    let mut expected = vec![0u8; 15];
    expected.push(1);
    expected.extend_from_slice(b"alice");
    assert_eq!(k1, expected);
}

#[test]
fn key_request_errors() {
    let mut st = NoteStore::new(Limits::standard());
    let id = st.create_note(&name("alice"), 1).unwrap();
    assert_eq!(st.request_key(&name("bob"), id, 2), Err(NoteError::Unauthorized));
    assert_eq!(st.request_key(&name("bob"), 99, 2), Err(NoteError::NotFound));
    assert_eq!(st.note(id).unwrap().history().len(), 1);
}

#[test]
fn owner_only_operations() {
    let mut st = NoteStore::new(Limits::standard());
    let id = st.create_note(&name("alice"), 1).unwrap();
    assert_eq!(st.add_user(&name("bob"), id, &Some(name("bob")), None, 2), Err(NoteError::Unauthorized));
    assert_eq!(st.add_user(&name("alice"), id, &Some(name("alice")), None, 2), Err(NoteError::Unauthorized));
    assert_eq!(st.remove_user(&name("bob"), id, &None, 2), Err(NoteError::Unauthorized));
    assert_eq!(st.delete_note(&name("bob"), id), Err(NoteError::Unauthorized));
    assert_eq!(st.update_note(&name("bob"), id, name("d"), name("c"), 2), Err(NoteError::Unauthorized));
    assert_eq!(st.delete_note(&name("alice"), 42), Err(NoteError::NotFound));
    assert_eq!(st.add_user(&name("alice"), 42, &None, None, 2), Err(NoteError::NotFound));
    assert_eq!(st.remove_user(&name("alice"), 42, &None, 2), Err(NoteError::NotFound));
    assert_eq!(st.update_note(&name("alice"), 42, name("d"), name("c"), 2), Err(NoteError::NotFound));
}

#[test]
fn wildcard_share_refused_once_locked() {
    let mut st = NoteStore::new(Limits::standard());
    let id = st.create_note(&name("alice"), 1).unwrap();
    assert_eq!(st.add_user(&name("alice"), id, &Some(name("bob")), None, 2), Ok(()));
    assert_eq!(st.add_user(&name("alice"), id, &None, None, 3), Err(NoteError::AlreadyLocked));
    assert_eq!(st.shared_ids(&None).len(), 0);
}

#[test]
fn payload_size_bound() {
    let limits = Limits { max_note_chars: 3, ..Limits::standard() };
    let mut st = NoteStore::new(limits);
    let id = st.create_note(&name("alice"), 1).unwrap();
    assert_eq!(st.update_note(&name("alice"), id, name("d"), name("abc"), 2), Ok(()));
    assert_eq!(st.update_note(&name("alice"), id, name("d"), name("ééé"), 3), Ok(()));
    assert_eq!(st.update_note(&name("alice"), id, name("d"), name("abcd"), 4), Err(NoteError::QuotaExceeded));
    assert_eq!(st.note(id).unwrap().encrypted_text(), "ééé");
}

#[test]
fn note_and_owner_quotas() {
    let limits = Limits { max_users: 1, max_notes_per_user: 2, ..Limits::standard() };
    let mut st = NoteStore::new(limits);
    assert_eq!(st.create_note(&name("alice"), 1), Ok(1));
    assert_eq!(st.create_note(&name("alice"), 2), Ok(2));
    assert_eq!(st.create_note(&name("alice"), 3), Err(NoteError::QuotaExceeded));
    assert_eq!(st.create_note(&name("bob"), 4), Err(NoteError::QuotaExceeded));
    assert_eq!(st.next_id(), 3);
    assert_eq!(st.limits(), limits);
}

#[test]
fn standard_limits() {
    let l = Limits::standard();
    assert_eq!(l.max_users, 1000);
    assert_eq!(l.max_notes_per_user, 50);
    assert_eq!(l.max_note_chars, 100000);
    assert_eq!(l.max_shares_per_note, 50);
}

#[test]
fn owner_key_request_recorded_once() {
    let mut st = NoteStore::new(Limits::standard());
    let id = st.create_note(&name("alice"), 1).unwrap();
    assert!(st.request_key(&name("alice"), id, 2).is_ok());
    let n = st.note(id).unwrap();
    let h = n.history();
    assert_eq!(h.len(), 2);
    assert_eq!(h[1].action(), Action::Read);
    assert_eq!(h[1].user(), Some(name("alice")));
    assert_eq!(h[1].created_at(), 2);
    assert!(!n.is_locked());
    assert!(n.read_by().is_empty());
    assert!(st.request_key(&name("alice"), id, 3).is_ok());
    assert_eq!(st.note(id).unwrap().history().len(), 2);
    assert_eq!(st.delete_note(&name("alice"), id), Ok(()));
}

#[test]
fn pending_named_rule_does_not_hide_public_note() {
    let mut st = NoteStore::new(Limits::standard());
    let id = st.create_note(&name("O"), 1).unwrap();
    assert_eq!(st.add_user(&name("O"), id, &None, None, 2), Ok(()));
    assert_eq!(st.add_user(&name("O"), id, &Some(name("B")), Some(100), 3), Ok(()));
    assert_eq!(ids(&st, "B", 50), vec![id]);
    assert_eq!(ids(&st, "B", 100), vec![id]);
    assert_eq!(st.request_key(&name("B"), id, 50), Err(NoteError::Unauthorized));
}

#[test]
fn unlocked_note_is_owner_only() {
    let mut st = NoteStore::new(Limits::standard());
    let id = st.create_note(&name("alice"), 1).unwrap();
    assert!(ids(&st, "bob", 2).is_empty());
    assert_eq!(st.update_note(&name("bob"), id, name("d"), name("c"), 2), Err(NoteError::Unauthorized));
    assert_eq!(st.request_key(&name("bob"), id, 2), Err(NoteError::Unauthorized));
}
