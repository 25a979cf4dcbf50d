use dms_email_client::message::HeaderInfo;
use dms_email_client::state::{notifier, DaemonState};
use dms_email_client::sync::{
    end_session, read_fetched, window, write_uids, AccountSync, Action, Event, Fetched, Notice,
    SessionEnd, RETRY_SECS,
};

fn header(uid: u32) -> HeaderInfo {
    HeaderInfo {
        from: format!("from {uid}"),
        subject: format!("subject {uid}"),
        date: format!("2026-01-{uid:02}"),
    }
}

fn with_header(uid: u32, seen: bool) -> Fetched {
    Fetched { uid: Some(uid), seen, header: Some(header(uid)) }
}

fn flag(uid: u32, seen: bool) -> Fetched {
    Fetched { uid: Some(uid), seen, header: None }
}

fn fetch(set: &str, items: &str) -> Action {
    Action::Fetch { set: set.to_string(), items: items.to_string() }
}

fn open(folder: &str) -> Action {
    Action::Open(folder.to_string())
}

fn headers(set: &str) -> Action {
    fetch(set, "(FLAGS RFC822.HEADER)")
}

/// What the server would do: each expected action with the event that answers it.
fn play(sync: &mut AccountSync, script: Vec<(Action, Event)>) -> Vec<Notice> {
    let mut notices = Vec::new();
    for (action, event) in script {
        assert_eq!(sync.action(), action);
        notices.extend(sync.step(event));
    }
    notices
}

fn publish(sync: &mut AccountSync, state: &mut DaemonState) {
    assert_eq!(sync.action(), Action::Publish);
    let mut n = notifier();
    sync.publish(state, &mut n, "now".to_string());
    assert_eq!(n.version, 1);
    assert_eq!(sync.action(), Action::Wait("INBOX".to_string()));
    assert!(sync.step(Event::Woken).is_empty());
}

fn listed(state: &DaemonState) -> Vec<(String, u32, bool)> {
    state.unread_mails.iter().map(|m| (m.folder.clone(), m.uid, m.seen)).collect()
}

#[test]
fn windows_hold_the_largest_uids() {
    assert_eq!(window(vec![3, 9, 1, 7], 2), vec![9, 7]);
    assert_eq!(window(vec![3, 9, 1, 7], 0), vec![9, 7, 3, 1]);
    assert_eq!(window(vec![3, 9, 1, 7], 4), vec![9, 7, 3, 1]);
    assert_eq!(window(vec![3, 9, 1, 7], 9), vec![9, 7, 3, 1]);
    assert_eq!(window(vec![], 3), Vec::<u32>::new());
}

#[test]
fn uids_are_written_with_commas() {
    assert_eq!(write_uids(&[10, 0, 4294967295]), "10,0,4294967295");
    assert_eq!(write_uids(&[7]), "7");
    assert_eq!(write_uids(&[]), "");
}

#[test]
fn a_first_round_lists_and_is_silent() {
    let mut state = DaemonState::default();
    let mut sync = AccountSync::new("acc", 2, vec!["INBOX".to_string(), "Spam".to_string()]);
    let notices = play(
        &mut sync,
        vec![
            (open("INBOX"), Event::Opened(Some(1))),
            (Action::Search, Event::Found(vec![4, 8, 6])),
            (headers("8,6"), Event::Fetched(vec![with_header(6, true), with_header(8, false)])),
            (open("Spam"), Event::Refused),
        ],
    );
    assert!(notices.is_empty());
    publish(&mut sync, &mut state);
    assert_eq!(
        listed(&state),
        vec![("INBOX".to_string(), 8, false), ("INBOX".to_string(), 6, true)]
    );
    let m = &state.unread_mails[0];
    assert_eq!((m.account.as_str(), m.from.as_str()), ("acc", "from 8"));
    assert_eq!((m.subject.as_str(), m.date.as_str()), ("subject 8", "2026-01-08"));
    assert_eq!(state.last_update, "now");
}

#[test]
fn later_rounds_fetch_and_announce_only_what_is_new() {
    let mut state = DaemonState::default();
    let mut sync = AccountSync::new("acc", 3, vec!["INBOX".to_string()]);
    play(
        &mut sync,
        vec![
            (open("INBOX"), Event::Opened(Some(1))),
            (Action::Search, Event::Found(vec![1, 2])),
            (headers("2,1"), Event::Fetched(vec![with_header(1, false), with_header(2, true)])),
        ],
    );
    publish(&mut sync, &mut state);

    let notices = play(
        &mut sync,
        vec![
            (open("INBOX"), Event::Opened(Some(1))),
            (Action::Search, Event::Found(vec![1, 2, 3])),
            (headers("3"), Event::Fetched(vec![with_header(3, false)])),
            (fetch("2,1", "FLAGS"), Event::Fetched(vec![flag(2, false), flag(1, false)])),
        ],
    );
    assert_eq!(
        notices,
        vec![
            Notice {
                summary: "新邮件 - acc · 收件箱".to_string(),
                body: "发件人: from 3\n主题: subject 3".to_string(),
            },
            Notice {
                summary: "新邮件 - acc · 收件箱".to_string(),
                body: "发件人: from 2\n主题: subject 2".to_string(),
            },
        ]
    );
    publish(&mut sync, &mut state);
    assert_eq!(state.unread_mails.len(), 3);

    let notices = play(
        &mut sync,
        vec![
            (open("INBOX"), Event::Opened(Some(1))),
            (Action::Search, Event::Found(vec![3, 4, 2, 1])),
            (headers("4"), Event::Fetched(vec![with_header(4, true)])),
            (fetch("3,2", "FLAGS"), Event::Fetched(vec![flag(3, false), flag(2, true)])),
        ],
    );
    assert!(notices.is_empty());
    publish(&mut sync, &mut state);
    assert_eq!(
        state.unread_mails.iter().map(|m| (m.uid, m.seen)).collect::<Vec<_>>(),
        vec![(4, true), (3, false), (2, true)]
    );
}

#[test]
fn a_round_lists_the_newest_of_what_the_server_shows() {
    let mut state = DaemonState::default();
    let mut other = AccountSync::new("other", 0, vec!["INBOX".to_string()]);
    one_round(&mut other, 1, headers("1"), Event::Fetched(vec![with_header(1, true)]));
    publish(&mut other, &mut state);

    let folders = vec!["INBOX".to_string(), "Spam".to_string()];
    let mut sync = AccountSync::new("acc", 2, folders);
    play(
        &mut sync,
        vec![
            (open("INBOX"), Event::Opened(Some(1))),
            (Action::Search, Event::Found(vec![3, 4])),
            (headers("4,3"), Event::Fetched(vec![with_header(3, true), with_header(4, false)])),
            (open("Spam"), Event::Opened(Some(1))),
            (Action::Search, Event::Found(vec![5, 2])),
            (headers("5,2"), Event::Fetched(vec![with_header(5, true), with_header(2, false)])),
        ],
    );
    publish(&mut sync, &mut state);
    assert_eq!(
        listed(&state),
        vec![
            ("Spam".to_string(), 5, true),
            ("INBOX".to_string(), 4, false),
            ("INBOX".to_string(), 1, true),
        ]
    );
}

#[test]
fn junk_is_announced_as_junk() {
    let mut state = DaemonState::default();
    let mut sync = AccountSync::new("acc", 0, vec!["Spam".to_string()]);
    play(
        &mut sync,
        vec![(open("Spam"), Event::Opened(None)), (Action::Search, Event::Found(vec![]))],
    );
    publish(&mut sync, &mut state);
    let notices = play(
        &mut sync,
        vec![
            (open("Spam"), Event::Opened(None)),
            (Action::Search, Event::Found(vec![5])),
            (headers("5"), Event::Fetched(vec![with_header(5, false)])),
        ],
    );
    assert_eq!(notices.len(), 1);
    assert_eq!(notices[0].summary, "新邮件 - acc · 垃圾邮件");
}

fn one_round(sync: &mut AccountSync, validity: u32, expected: Action, answer: Event) {
    play(
        sync,
        vec![
            (open("INBOX"), Event::Opened(Some(validity))),
            (Action::Search, Event::Found(vec![1])),
            (expected, answer),
        ],
    );
}

#[test]
fn another_uidvalidity_drops_the_headers() {
    let mut state = DaemonState::default();
    let mut sync = AccountSync::new("acc", 0, vec!["INBOX".to_string()]);
    one_round(&mut sync, 1, headers("1"), Event::Fetched(vec![with_header(1, true)]));
    publish(&mut sync, &mut state);
    one_round(&mut sync, 1, fetch("1", "FLAGS"), Event::Fetched(vec![flag(1, true)]));
    publish(&mut sync, &mut state);
    one_round(&mut sync, 2, headers("1"), Event::Fetched(vec![with_header(1, true)]));
    publish(&mut sync, &mut state);
}

#[test]
fn an_empty_folder_drops_the_headers() {
    let mut state = DaemonState::default();
    let mut sync = AccountSync::new("acc", 0, vec!["INBOX".to_string()]);
    one_round(&mut sync, 1, headers("1"), Event::Fetched(vec![with_header(1, true)]));
    publish(&mut sync, &mut state);
    play(
        &mut sync,
        vec![(open("INBOX"), Event::Opened(Some(1))), (Action::Search, Event::Found(vec![]))],
    );
    publish(&mut sync, &mut state);
    assert!(state.unread_mails.is_empty());
    one_round(&mut sync, 1, headers("1"), Event::Fetched(vec![with_header(1, true)]));
}

#[test]
fn mails_without_header_or_flag_are_skipped() {
    let mut state = DaemonState::default();
    let mut sync = AccountSync::new("acc", 0, vec!["INBOX".to_string()]);
    play(
        &mut sync,
        vec![
            (open("INBOX"), Event::Opened(Some(1))),
            (Action::Search, Event::Found(vec![1, 2, 3])),
            (
                headers("3,2,1"),
                Event::Fetched(vec![
                    with_header(1, true),
                    flag(2, true),
                    Fetched { uid: None, seen: true, header: Some(header(3)) },
                ]),
            ),
            (fetch("3", "FLAGS"), Event::Fetched(vec![])),
        ],
    );
    publish(&mut sync, &mut state);
    assert_eq!(listed(&state), vec![("INBOX".to_string(), 1, true)]);
}

#[test]
fn a_skipped_folder_forgets_what_was_unread() {
    let mut state = DaemonState::default();
    let mut sync = AccountSync::new("acc", 0, vec!["INBOX".to_string()]);
    one_round(&mut sync, 1, headers("1"), Event::Fetched(vec![with_header(1, false)]));
    publish(&mut sync, &mut state);
    play(&mut sync, vec![(open("INBOX"), Event::Opened(Some(1))), (Action::Search, Event::Refused)]);
    publish(&mut sync, &mut state);
    let notices = play(
        &mut sync,
        vec![
            (open("INBOX"), Event::Opened(Some(1))),
            (Action::Search, Event::Found(vec![1])),
            (fetch("1", "FLAGS"), Event::Fetched(vec![flag(1, false)])),
        ],
    );
    assert_eq!(notices.len(), 1);
}

#[test]
fn an_answer_that_was_not_asked_for_changes_nothing() {
    let mut state = DaemonState::default();
    let mut n = notifier();
    let mut sync = AccountSync::new("acc", 0, vec!["INBOX".to_string()]);
    for event in [Event::Woken, Event::Found(vec![1]), Event::Fetched(vec![with_header(1, false)])] {
        assert!(sync.step(event).is_empty());
        assert_eq!(sync.action(), open("INBOX"));
    }
    sync.publish(&mut state, &mut n, "now".to_string());
    assert_eq!(n.version, 0);
    assert_eq!(state.last_update, "");
    assert_eq!(sync.action(), open("INBOX"));
}

#[test]
fn other_accounts_stay_in_the_list() {
    let mut state = DaemonState::default();
    for account in ["one", "two"] {
        let mut sync = AccountSync::new(account, 0, vec!["INBOX".to_string()]);
        one_round(&mut sync, 1, headers("1"), Event::Fetched(vec![with_header(1, true)]));
        publish(&mut sync, &mut state);
    }
    let accounts: Vec<&str> = state.unread_mails.iter().map(|m| m.account.as_str()).collect();
    assert_eq!(accounts, vec!["one", "two"]);
}

#[test]
fn the_bytes_of_a_header_are_read() {
    let raw = b"From: Ann <ann@example.org>\r\nSubject: Hi\r\n\r\n";
    let line = read_fetched(Some(7), true, Some(&raw[..]));
    assert_eq!((line.uid, line.seen), (Some(7), true));
    let h = line.header.unwrap();
    assert_eq!(h.from, "Ann <ann@example.org>");
    assert_eq!(h.subject, "Hi");
    assert_eq!(h.date, "Unknown Date");
    assert!(read_fetched(None, false, None).header.is_none());
}

#[test]
fn a_session_that_fails_leaves_an_error() {
    let mut state = DaemonState::default();
    let mut n = notifier();
    end_session(&mut state, &mut n, "a", SessionEnd::Closed);
    assert!(state.errors.is_empty());
    assert_eq!(n.version, 0);
    end_session(&mut state, &mut n, "a", SessionEnd::Failed("no route".to_string()));
    assert_eq!(state.errors[0].message, "no route");
    end_session(&mut state, &mut n, "a", SessionEnd::Panicked);
    assert_eq!(state.errors.len(), 1);
    assert_eq!(state.errors[0].message, "内部错误(panic)，已自动重启该账户");
    assert_eq!(n.version, 2);
    assert_eq!(RETRY_SECS, 10);
}
