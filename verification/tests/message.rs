use dms_email_client::message::{
    format_address, list_header, local_now, local_time, open_header, parse_header, parse_message,
    read_header, sent_at, Address, MailGroup, MailMessage, MailParts, Mailbox,
};

fn mailbox(name: Option<&str>, address: Option<&str>) -> Mailbox {
    Mailbox { name: name.map(|n| n.to_string()), address: address.map(|a| a.to_string()) }
}

#[test]
fn addresses_are_shown_with_their_names() {
    let list = Address::List(vec![
        mailbox(Some("Ann"), Some("ann@example.org")),
        mailbox(None, Some("bob@example.org")),
        mailbox(Some(""), Some("eve@example.org")),
        mailbox(Some("Nobody"), None),
        mailbox(None, None),
    ]);
    assert_eq!(
        format_address(&list),
        "Ann <ann@example.org>, bob@example.org, eve@example.org, Nobody <>, "
    );
    assert_eq!(format_address(&Address::List(vec![])), "");
}

#[test]
fn groups_are_shown_with_their_members() {
    let groups = Address::Group(vec![
        MailGroup {
            name: Some("Team".to_string()),
            addresses: vec![
                mailbox(Some("Ann"), Some("a@x.y")),
                mailbox(None, Some("b@x.y")),
            ],
        },
        MailGroup { name: None, addresses: vec![] },
    ]);
    assert_eq!(format_address(&groups), "Team: [Ann <a@x.y>, b@x.y], Group: []");
}

#[test]
fn a_mail_is_parsed() {
    let raw = b"From: Ann <ann@example.org>\r\nSubject: =?utf-8?B?5L2g5aW9?=\r\n\
Date: Thu, 1 Jan 1970 00:01:40 +0000\r\nContent-Type: text/plain\r\n\r\nHello\r\n";
    let m = parse_message(raw).unwrap();
    assert_eq!(m.parts.subject.as_deref(), Some("你好"));
    assert_eq!(m.parts.text.as_deref(), Some("Hello\r\n"));
    assert_eq!(m.parts.timestamp, Some(100));
    assert_eq!(format_address(m.from.as_ref().unwrap()), "Ann <ann@example.org>");
    assert!(parse_message(b"").is_none());
}

#[test]
fn a_group_of_senders_is_parsed() {
    let raw = b"From: Team: Ann <a@x.y>, b@x.y;\r\nSubject: x\r\n\r\n";
    let m = parse_message(raw).unwrap();
    assert_eq!(format_address(m.from.as_ref().unwrap()), "Team: [Ann <a@x.y>, b@x.y]");
}

#[test]
fn mails_of_odd_shape_are_parsed() {
    let part = |kind: &str| format!("--i\r\nContent-Type: text/{kind}\r\n\r\n{kind}\r\n");
    let nested = |parts: &[&str]| {
        let inner: String = parts.iter().map(|k| part(k)).collect();
        format!(
            "--o\r\nContent-Type: multipart/alternative; boundary=i\r\n\r\n{inner}--i--\r\n"
        )
    };
    let raw = format!(
        "Subject: s\r\nContent-Type: multipart/mixed; boundary=o\r\n\r\n{}{}--o--\r\n",
        nested(&["html", "html", "html", "plain"]),
        nested(&["plain"]),
    );
    let m = parse_message(raw.as_bytes()).unwrap();
    assert_eq!(m.parts.subject.as_deref(), Some("s"));
    assert_eq!(m.parts.text.as_deref(), Some("plain"));
    assert_eq!(m.parts.html.as_deref(), Some("html"));

    let raw = b"Received: by x; 1 Jan 2020 1:1:1 -9223372036854775808\r\nSubject: s\r\n\r\nx";
    assert_eq!(parse_message(raw).unwrap().parts.text.as_deref(), Some("x"));

    let raw = b"Subject: s\r\n\
Content-Type: multipart/mixed; boundary=o\r\n\r\n\
--o\r\nContent-Transfer-Encoding: quoted-printable\r\n\r\nab=3Dcd=\r\n--o--\r\n";
    assert!(parse_message(raw).is_some());
}

#[test]
fn mails_that_are_not_readable_are_not_parsed() {
    let raw = b"Subject: s\r\n\
Content-Type: multipart/mixed; boundary=o\r\n\r\n\
--o\r\nContent-Transfer-Encoding: quoted-printable\r\n\r\n=\r\n--o--\r\n";
    assert!(parse_message(raw).is_none());
    assert_eq!(parse_header(raw).unwrap().parts.subject.as_deref(), Some("s"));
    let raw = b"Content-Type: multipart/mixed; boundary=b\n\n--b\nContent-Type: message/rfc822\n\n\
Content-Type: message/rfc822\n\nSubject: x\n\nhi\n--b--";
    assert!(parse_message(raw).is_none());
    let raw = "Content-Type: message/rfc822\n\n".repeat(100_000);
    assert!(parse_message(raw.as_bytes()).is_none());
}

#[test]
fn ordinary_words_stop_no_mail_from_being_parsed() {
    let raw = b"Subject: message (1)\r\nContent-Transfer-Encoding: base64\r\n\r\nSGk=";
    assert_eq!(parse_message(raw).unwrap().parts.text.as_deref(), Some("Hi"));
    let raw = b"a: b\n\nx=\n--\nme";
    assert_eq!(parse_message(raw).unwrap().parts.text.as_deref(), Some("x=\n--\nme"));
}

#[test]
fn an_encoding_may_be_an_encoded_word() {
    let raw = b"Content-Transfer-Encoding: =?utf-8?q?base64?=\r\n\r\nSGk=";
    assert_eq!(parse_message(raw).unwrap().parts.text.as_deref(), Some("Hi"));
}

#[test]
fn mails_in_mails_are_parsed() {
    let mut raw = "Subject: inner\r\n\r\nhi\r\n".to_string();
    for i in 0..128 {
        raw = format!(
            "Subject: {i}\r\nContent-Type: multipart/mixed; boundary=b{i}x\r\n\r\n\
--b{i}x\r\nContent-Type: text/plain\r\n\r\ntext {i}\r\n\
--b{i}x\r\nContent-Type: message/rfc822\r\n\r\n{raw}--b{i}x--\r\n"
        );
    }
    let m = parse_message(raw.as_bytes()).unwrap();
    assert_eq!(m.parts.text.as_deref(), Some("text 127"));
}

#[test]
fn dates_may_lack_their_zone() {
    let with = |date: &str| {
        let raw = format!("Date: {date}\r\nSubject: x\r\n\r\n");
        let m = parse_header(raw.as_bytes()).unwrap();
        (m.parts.timestamp, m.parts.subject)
    };
    let subject = Some("x".to_string());
    assert_eq!(with("Thu, 1 Jan 1970 00:01:40 "), (Some(100), subject.clone()));
    assert_eq!(with("Thu, 1 Jan 1970 00:01:40"), (None, subject.clone()));
    assert_eq!(with("Thu, 1 Jan 1970 00:01:40 GMT"), (Some(100), subject));
    assert_eq!(with("Thu, 1 Jan 1970 00:01:40 Z"), (Some(100), None));
}

#[test]
fn a_header_may_be_empty() {
    for raw in ["\r\n", "junk\r\n\r\n"] {
        let m = parse_header(raw.as_bytes()).unwrap();
        assert!(m.parts.subject.is_none() && m.from.is_none());
    }
    for raw in ["", "  ", "junk\r\n"] {
        assert!(parse_header(raw.as_bytes()).is_none(), "{raw:?}");
    }
    let m = parse_message(b"\r\nHello").unwrap();
    assert_eq!(m.parts.text.as_deref(), Some("Hello"));
}

#[test]
fn a_forwarded_mail_is_parsed() {
    let raw = b"Content-Type: multipart/mixed; boundary=o\r\n\r\n\
--o\r\nContent-Type: text/plain\r\n\r\nSee below\r\n\
--o\r\nContent-Type: message/rfc822\r\n\r\n\
Subject: inner\r\nContent-Transfer-Encoding: base64\r\n\r\nSGk=\r\n--o--\r\n";
    let m = parse_message(raw).unwrap();
    assert_eq!(m.parts.text.as_deref(), Some("See below"));
}

fn bare() -> MailMessage {
    MailMessage {
        parts: MailParts { text: None, html: None, subject: None, timestamp: None },
        from: None,
    }
}

#[test]
fn what_is_missing_has_its_words() {
    let h = list_header(&bare(), None);
    assert_eq!((h.from.as_str(), h.subject.as_str()), ("Unknown Sender", "No Subject"));
    assert_eq!(h.date, "Unknown Date");
    let h = open_header(&bare(), None);
    assert_eq!((h.from.as_str(), h.subject.as_str(), h.date.as_str()), ("", "(无主题)", ""));
    assert!(sent_at(&bare()).is_none());
}

#[test]
fn what_is_there_is_shown() {
    let mut m = bare();
    m.parts.subject = Some("s".to_string());
    m.from = Some(Address::List(vec![mailbox(None, Some("a@x.y"))]));
    let h = list_header(&m, Some("d".to_string()));
    assert_eq!((h.from.as_str(), h.subject.as_str(), h.date.as_str()), ("a@x.y", "s", "d"));
    let h = open_header(&m, Some("d".to_string()));
    assert_eq!((h.from.as_str(), h.subject.as_str(), h.date.as_str()), ("a@x.y", "s", "d"));
}

#[test]
fn a_header_is_read() {
    let h = read_header(b"From: a@x.y\r\nSubject: s\r\n\r\n").unwrap();
    assert_eq!((h.from.as_str(), h.subject.as_str()), ("a@x.y", "s"));
    assert_eq!(h.date, "Unknown Date");
    assert!(read_header(b"").is_none());
}

#[test]
fn the_time_now_is_a_time() {
    let now = local_now();
    let number = |from: usize, to: usize| now[from..to].parse::<u32>().unwrap();
    assert!(number(0, 4) >= 1969);
    assert!((1..=12).contains(&number(5, 7)));
    assert!((1..=31).contains(&number(8, 10)));
    assert!(number(11, 13) < 24);
    assert!(number(14, 16) < 60);
    assert!(number(17, 19) < 60);
    assert_eq!(now.len(), 19);
}

#[test]
fn a_local_time_is_near_its_timestamp() {
    let one_of = |t: i64, days: [&str; 3]| {
        let shown = local_time(t).unwrap();
        assert!(days.iter().any(|d| shown.starts_with(d)), "{shown}");
    };
    one_of(1783240200, ["2026-07-04", "2026-07-05", "2026-07-06"]);
    one_of(951825600, ["2000-02-28", "2000-02-29", "2000-03-01"]);
    one_of(-62135553600, ["0001-01-01", "0001-01-02", "0001-01-03"]);
    one_of(-62167176000, ["0000-01-01", "0000-01-02", "-0001-12-31"]);
    one_of(253402344000, ["+10000-01-01", "+10000-01-02", "9999-12-31"]);
}

#[test]
fn times_have_one_shape() {
    let shape = |t: &str| {
        t.chars().map(|c| if c.is_ascii_digit() { '0' } else { c }).collect::<String>()
    };
    assert_eq!(shape(&local_now()), "0000-00-00 00:00:00");
    assert_eq!(shape(&local_time(1_000_000_000).unwrap()), "0000-00-00 00:00:00");
    assert_eq!(local_time(i64::MAX), None);
    for (edge, beyond) in [(8210266876799, 1), (-8334601228800, -1)] {
        assert!(local_time(edge).is_some());
        assert_eq!(local_time(edge + beyond), None);
    }
}
