use vetkd_notes::{Access, Action, EncryptedNote, HistoryEntry};

fn name(x: &str) -> String {
    x.to_string()
}

fn actions(history: &[HistoryEntry]) -> Vec<Action> {
    history.iter().map(|h| h.action()).collect()
}

#[test]
fn create_starts_unlocked_with_created_entry() {
    let n = EncryptedNote::create(7, name("alice"), 100);
    assert_eq!(n.id(), 7);
    assert_eq!(n.owner(), "alice");
    assert!(!n.is_locked());
    assert!(!n.locked());
    assert!(!n.is_shared());
    assert_eq!(n.created_at(), 100);
    assert_eq!(n.updated_at(), 100);
    assert_eq!(n.data(), "");
    assert_eq!(n.encrypted_text(), "");
    let h = n.history();
    assert_eq!(actions(&h), vec![Action::Created]);
    assert_eq!(h[0].user(), Some(name("alice")));
    assert_eq!(h[0].rule(), None);
    assert_eq!(h[0].created_at(), 100);
}

#[test]
fn share_read_lock_scenario() {
    let mut n = EncryptedNote::create(1, name("alice"), 10);
    assert!(n.add_reader(&Some(name("bob")), None, 11));
    assert!(n.is_locked());
    assert_eq!(actions(&n.history()), vec![Action::Created, Action::Locked, Action::Shared]);
    assert!(n.lock_authorized(&name("bob"), 12));
    assert_eq!(n.read_by(), vec![name("bob")]);
    assert!(n.user_read(&name("bob")));
    assert_eq!(
        actions(&n.history()),
        vec![Action::Created, Action::Locked, Action::Shared, Action::ReadLocked]
    );
    let last = n.history().pop().unwrap();
    assert_eq!(last.user(), Some(name("bob")));
    assert_eq!(last.rule(), Some((Some(name("bob")), None)));
    assert!(!n.remove_reader(&Some(name("bob")), 13));
    assert!(n.set_data(&name("alice"), name("owner text"), 14));
    assert!(!n.set_data(&name("bob"), name("reader text"), 15));
    assert_eq!(n.data(), "owner text");
    assert_eq!(n.updated_at(), 14);
}

#[test]
fn rule_window_is_inclusive() {
    let mut n = EncryptedNote::create(1, name("alice"), 0);
    assert!(n.add_reader(&Some(name("B")), Some(50), 1));
    assert!(!n.is_authorized(&name("B"), 49));
    assert!(n.is_authorized(&name("B"), 50));
    assert!(n.is_authorized(&name("B"), 51));
    assert_eq!(n.access(&name("B"), 50), Access::DirectShare);
}

#[test]
fn wildcard_grants_without_exact_rule() {
    let mut n = EncryptedNote::create(1, name("alice"), 0);
    assert!(!n.is_authorized(&name("carol"), 5));
    assert!(n.add_reader(&None, None, 1));
    assert!(n.is_authorized(&name("carol"), 5));
    assert_eq!(n.access(&name("carol"), 5), Access::WildcardShare);
    assert!(n.is_authorized(&name("alice"), 5));
    assert_eq!(n.access(&name("alice"), 5), Access::Owner);
}

#[test]
fn exact_rule_overrides_wildcard() {
    let mut n = EncryptedNote::create(1, name("alice"), 0);
    assert!(n.add_reader(&None, None, 1));
    assert!(n.add_reader(&Some(name("dave")), Some(100), 2));
    assert!(!n.is_authorized(&name("dave"), 99));
    assert_eq!(n.access(&name("dave"), 99), Access::Denied);
    assert!(n.is_authorized(&name("dave"), 100));
    assert!(n.is_authorized(&name("erin"), 99));
}

#[test]
fn read_through_wildcard_marks_wildcard_rule() {
    let mut n = EncryptedNote::create(1, name("alice"), 0);
    assert!(n.add_reader(&None, Some(5), 1));
    assert!(!n.lock_authorized(&name("carol"), 4));
    assert_eq!(n.history().len(), 3);
    assert!(n.lock_authorized(&name("carol"), 5));
    let users = n.users();
    assert_eq!(users.len(), 1);
    assert_eq!(users[0].name(), None);
    assert!(users[0].rule().was_read());
    assert_eq!(users[0].rule().when(), Some(5));
    let last = n.history().pop().unwrap();
    assert_eq!(last.action(), Action::ReadLocked);
    assert_eq!(last.rule(), Some((None, Some(5))));
    assert!(n.lock_authorized(&name("dave"), 6));
    assert_eq!(n.history().pop().unwrap().action(), Action::Read);
    assert!(!n.remove_reader(&None, 7));
}

#[test]
fn owner_read_changes_nothing() {
    let mut n = EncryptedNote::create(1, name("alice"), 0);
    assert!(n.lock_authorized(&name("alice"), 3));
    assert!(!n.is_locked());
    assert_eq!(n.history().len(), 1);
    assert!(n.read_by().is_empty());
}

#[test]
fn denied_read_changes_nothing() {
    let mut n = EncryptedNote::create(1, name("alice"), 0);
    assert!(!n.lock_authorized(&name("mallory"), 3));
    assert_eq!(n.history().len(), 1);
    assert!(n.read_by().is_empty());
}

#[test]
fn share_refusals() {
    let mut n = EncryptedNote::create(1, name("alice"), 0);
    assert!(!n.add_reader(&Some(name("alice")), None, 1));
    assert!(!n.is_locked());
    assert!(n.add_reader(&Some(name("bob")), None, 2));
    assert!(!n.add_reader(&None, None, 3));
    assert!(n.lock_authorized(&name("bob"), 4));
    assert!(!n.add_reader(&Some(name("bob")), Some(9), 5));
    assert!(n.add_reader(&Some(name("carol")), None, 6));
    assert_eq!(n.users().len(), 2);
}

#[test]
fn share_upserts_start() {
    let mut n = EncryptedNote::create(1, name("alice"), 0);
    assert!(n.add_reader(&Some(name("bob")), Some(10), 1));
    assert!(n.add_reader(&Some(name("bob")), Some(20), 2));
    let users = n.users();
    assert_eq!(users.len(), 1);
    assert_eq!(users[0].rule().when(), Some(20));
    assert_eq!(
        actions(&n.history()),
        vec![Action::Created, Action::Locked, Action::Shared, Action::Shared]
    );
}

#[test]
fn unshare_unread_rule() {
    let mut n = EncryptedNote::create(1, name("alice"), 0);
    assert!(n.add_reader(&Some(name("bob")), None, 1));
    assert!(n.add_reader(&Some(name("carol")), None, 2));
    assert!(n.lock_authorized(&name("bob"), 3));
    assert!(n.remove_reader(&Some(name("carol")), 4));
    assert!(!n.remove_reader(&Some(name("carol")), 5));
    assert_eq!(n.users().len(), 1);
    assert!(n.is_locked());
    let last = n.history().pop().unwrap();
    assert_eq!(last.action(), Action::Unshared);
    assert_eq!(last.user(), Some(name("carol")));
}

#[test]
fn lock_survives_removing_every_rule() {
    let mut n = EncryptedNote::create(1, name("alice"), 0);
    assert!(n.add_reader(&Some(name("bob")), None, 1));
    assert!(n.remove_reader(&Some(name("bob")), 2));
    assert!(!n.is_shared());
    assert!(n.is_locked());
    assert!(n.set_encrypted_text(&name("alice"), name("cipher"), 3));
    assert!(n.is_locked());
}

#[test]
fn payload_setters() {
    let mut n = EncryptedNote::create(1, name("alice"), 0);
    assert!(n.set_encrypted_text(&name("alice"), name("c1"), 5));
    assert_eq!(n.encrypted_text(), "c1");
    assert!(n.set_data_and_encrypted_text(&name("alice"), name("d2"), name("c2"), 6));
    assert_eq!(n.data(), "d2");
    assert_eq!(n.encrypted_text(), "c2");
    assert_eq!(n.updated_at(), 6);
    let h = n.history();
    assert_eq!(actions(&h), vec![Action::Created, Action::Updated, Action::Updated]);
    assert_eq!(h[2].user(), Some(name("alice")));
    assert!(n.add_reader(&Some(name("bob")), None, 7));
    assert!(!n.set_encrypted_text(&name("bob"), name("x"), 8));
    assert!(!n.set_data_and_encrypted_text(&name("bob"), name("x"), name("y"), 8));
    assert_eq!(n.encrypted_text(), "c2");
}

#[test]
fn first_read_time() {
    let mut n = EncryptedNote::create(1, name("alice"), 0);
    assert!(n.add_reader(&Some(name("bob")), None, 1));
    assert_eq!(n.user_read_when(&name("bob")), None);
    assert!(n.lock_authorized(&name("bob"), 30));
    assert!(n.lock_authorized(&name("bob"), 40));
    assert_eq!(n.user_read_when(&name("bob")), Some(30));
    assert_eq!(n.user_read_when(&name("carol")), None);
}

#[test]
fn copy_keeps_everything() {
    let mut n = EncryptedNote::create(3, name("alice"), 0);
    assert!(n.add_reader(&Some(name("bob")), Some(2), 1));
    let c = n.copy();
    assert_eq!(c, n);
}

#[test]
fn removing_unread_wildcard_ends_access_of_others() {
    let mut n = EncryptedNote::create(1, name("alice"), 0);
    assert!(n.add_reader(&None, None, 1));
    assert!(n.add_reader(&Some(name("bob")), None, 2));
    assert!(n.is_authorized(&name("carol"), 3));
    assert!(n.remove_reader(&None, 4));
    assert!(!n.is_authorized(&name("carol"), 5));
    assert!(n.is_authorized(&name("bob"), 5));
    assert!(n.is_locked());
}

#[test]
fn wildcard_reader_keeps_access_since_rule_stays() {
    let mut n = EncryptedNote::create(1, name("alice"), 0);
    assert!(n.add_reader(&None, None, 1));
    assert!(n.lock_authorized(&name("carol"), 2));
    assert!(!n.remove_reader(&None, 3));
    assert!(n.is_authorized(&name("carol"), 4));
    assert!(!n.add_reader(&Some(name("carol")), None, 5));
}

#[test]
fn listing_differs_from_access_for_pending_named_rule() {
    let mut n = EncryptedNote::create(1, name("alice"), 0);
    assert!(n.add_reader(&None, None, 1));
    assert!(n.add_reader(&Some(name("dave")), Some(100), 2));
    assert!(n.is_listed(&name("dave"), 50));
    assert!(!n.is_authorized(&name("dave"), 50));
    assert!(n.is_listed(&name("alice"), 50));
    let mut private = EncryptedNote::create(2, name("alice"), 0);
    assert!(!private.is_listed(&name("dave"), 50));
    assert!(private.add_reader(&Some(name("dave")), Some(100), 1));
    assert!(!private.is_listed(&name("dave"), 99));
    assert!(private.is_listed(&name("dave"), 100));
}

#[test]
fn owner_read_record_leaves_lock() {
    let mut n = EncryptedNote::create(1, name("alice"), 0);
    n.record_owner_read(4);
    assert!(!n.is_locked());
    assert_eq!(n.user_read_when(&name("alice")), Some(4));
    assert_eq!(actions(&n.history()), vec![Action::Created, Action::Read]);
}
