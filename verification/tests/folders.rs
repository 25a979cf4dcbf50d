use dms_email_client::folders::{folder_label, FolderSearch, ListedFolder};

fn listed(name: &str, attributes: &[&str]) -> ListedFolder {
    ListedFolder {
        name: name.to_string(),
        attributes: attributes.iter().map(|a| a.to_string()).collect(),
    }
}

#[test]
fn a_marked_folder_is_watched() {
    let search = FolderSearch::new(&[
        listed("INBOX", &[]),
        listed("Sent", &["\\Sent"]),
        listed("[Gmail]/垃圾邮件", &["\\HasNoChildren", "\\JUNK"]),
        listed("Other", &["\\junk"]),
        listed("Other", &["\\Junk"]),
    ]);
    assert_eq!(search.next(), None);
    assert_eq!(search.folders(), vec!["INBOX", "[Gmail]/垃圾邮件", "Other"]);
}

#[test]
fn the_inbox_is_not_watched_twice() {
    let search = FolderSearch::new(&[listed("INBOX", &["\\Junk"])]);
    assert_eq!(search.next(), Some("[Gmail]/Spam".to_string()));
    assert_eq!(search.folders(), vec!["INBOX"]);
}

#[test]
fn usual_names_are_tried_in_turn() {
    let mut search = FolderSearch::new(&[]);
    let mut tried = Vec::new();
    while let Some(name) = search.next() {
        let opened = name == "Spam";
        tried.push(name);
        search.step(opened);
    }
    assert_eq!(
        tried,
        vec!["[Gmail]/Spam", "[Google Mail]/Spam", "Junk", "Junk E-mail", "Junk Email", "Spam"]
    );
    assert_eq!(search.folders(), vec!["INBOX", "Spam"]);
}

#[test]
fn an_account_may_have_the_inbox_alone() {
    let mut search = FolderSearch::new(&[]);
    let mut tried = 0;
    while search.next().is_some() {
        search.step(false);
        tried += 1;
    }
    assert_eq!(tried, 8);
    assert_eq!(search.folders(), vec!["INBOX"]);
}

#[test]
fn folders_have_labels() {
    assert_eq!(folder_label("INBOX"), "收件箱");
    assert_eq!(folder_label("inbox"), "垃圾邮件");
    assert_eq!(folder_label("Spam"), "垃圾邮件");
}
