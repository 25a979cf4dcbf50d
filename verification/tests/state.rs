use dms_email_client::state::{
    changed_since, clear_account_error, default_folder, list_anew, notifier, notify_state_changed,
    set_account_error, sort_by_date, AccountError, DaemonState, MailInfo, Notifier,
};

fn mail(account: &str, uid: u32, date: &str) -> MailInfo {
    MailInfo {
        account: account.to_string(),
        folder: default_folder(),
        uid,
        from: "f".to_string(),
        subject: "s".to_string(),
        date: date.to_string(),
        seen: false,
    }
}

fn uids(list: &[MailInfo]) -> Vec<u32> {
    list.iter().map(|m| m.uid).collect()
}

fn error(account: &str, message: &str) -> AccountError {
    AccountError { account: account.to_string(), message: message.to_string() }
}

#[test]
fn nothing_has_happened_at_first() {
    let state = DaemonState::default();
    assert!(state.unread_mails.is_empty());
    assert!(state.errors.is_empty());
    assert_eq!(state.last_update, "");
    assert_eq!(notifier().version, 0);
    assert_eq!(default_folder(), "INBOX");
}

#[test]
fn every_change_moves_the_version_on() {
    let mut n = notifier();
    notify_state_changed(&mut n);
    assert_eq!(n.version, 1);
    assert!(changed_since(&n, 0));
    assert!(!changed_since(&n, 1));
    let mut last = Notifier { version: u64::MAX };
    notify_state_changed(&mut last);
    assert_eq!(last.version, 0);
}

#[test]
fn an_account_has_one_error() {
    let mut state = DaemonState::default();
    let mut n = notifier();
    set_account_error(&mut state, &mut n, "a", "one".to_string());
    set_account_error(&mut state, &mut n, "b", "two".to_string());
    set_account_error(&mut state, &mut n, "a", "three".to_string());
    assert_eq!(state.errors, vec![error("b", "two"), error("a", "three")]);
    assert_eq!(n.version, 3);
}

#[test]
fn clearing_tells_only_of_a_change() {
    let mut state = DaemonState::default();
    let mut n = notifier();
    clear_account_error(&mut state, &mut n, "a");
    assert_eq!(n.version, 0);
    set_account_error(&mut state, &mut n, "a", "one".to_string());
    set_account_error(&mut state, &mut n, "b", "two".to_string());
    clear_account_error(&mut state, &mut n, "a");
    assert_eq!(n.version, 3);
    assert_eq!(state.errors, vec![error("b", "two")]);
    clear_account_error(&mut state, &mut n, "a");
    assert_eq!(n.version, 3);
}

#[test]
fn newest_mails_come_first_and_equal_dates_keep_their_order() {
    let list = sort_by_date(vec![
        mail("a", 1, "2026-01-01"),
        mail("a", 2, "2026-03-01"),
        mail("a", 3, "2026-01-01"),
        mail("a", 4, "Unknown Date"),
        mail("a", 5, "2026-03-01"),
        mail("a", 6, ""),
    ]);
    assert_eq!(uids(&list), vec![4, 2, 5, 1, 3, 6]);
}

#[test]
fn listing_anew_replaces_one_account() {
    let mut state = DaemonState::default();
    let mut n = notifier();
    let now = || "2026-07-05 08:30:00".to_string();
    list_anew(&mut state, &mut n, "a", vec![mail("a", 1, "1"), mail("a", 2, "5")], 0, now());
    list_anew(&mut state, &mut n, "b", vec![mail("b", 3, "3")], 0, now());
    assert_eq!(uids(&state.unread_mails), vec![2, 3, 1]);
    list_anew(
        &mut state,
        &mut n,
        "a",
        vec![mail("a", 4, "2"), mail("a", 5, "4"), mail("a", 6, "6")],
        2,
        now(),
    );
    assert_eq!(uids(&state.unread_mails), vec![6, 5, 3]);
    assert_eq!(state.last_update, now());
    assert_eq!(n.version, 3);
}
