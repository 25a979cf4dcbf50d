use dms_email_client::readable::{is_headerless, is_readable, MAX_NESTED};

#[test]
fn ordinary_mails_are_readable() {
    for raw in [
        "",
        "Subject: x\r\n\r\nbody",
        "A: b\r\n\r\n--b\r\n\r\ntext=\r\n--b--\r\n",
        "A: b\r\n\r\n--b\r\n\r\nSGVsbG8=\r\n--b--\r\n",
        "A: b\r\n\r\n--b\r\n\r\nSGk=\r\n--b--\r\n",
        "From: a@global.example\r\nContent-Transfer-Encoding: base64\r\n\r\nSGk=",
        "subject: message (1)\ncontent-transfer-encoding: base64\n\naaa=",
        "Subject: message/rfc822\r\nContent-Transfer-Encoding: base64\r\n\r\nSGk=",
        "a: b\n\nx=\n--\nme",
        "Content-Type: message/rfc822\r\n\r\nContent-Transfer-Encoding: base64\r\n\r\nSGk=",
        "Content-Type: message/delivery-status\r\nContent-Transfer-Encoding: base64\r\n\r\nSGk=",
        "Content-Type: message/global-headers\r\nContent-Transfer-Encoding: base64\r\n\r\nSGk=",
        "Content-Type: message/rfc822\r\nContent-Transfer-Encoding: 7bit\r\n\r\nSubject: x\r\n\r\n",
        "Content-Type: text/plain (message/rfc822)\r\nContent-Transfer-Encoding: base64\r\n\r\nSGk=",
    ] {
        assert!(is_readable(raw.as_bytes()), "{raw:?}");
    }
}

#[test]
fn forwarded_mails_are_readable() {
    let raw = "Content-Type: multipart/mixed; boundary=\"--b\"\r\n\r\n----b\r\n\
Content-Type: text/plain\r\nContent-Transfer-Encoding: quoted-printable\r\n\r\nfor you=\r\n----b\r\n\
Content-Type: message/rfc822\r\n\r\n\
Subject: x\r\nContent-Type: multipart/mixed; boundary=c\r\n\r\n--c\r\n\
Content-Type: message/rfc822\r\n\r\n\
Subject: y\r\nContent-Type: text/plain\r\nContent-Transfer-Encoding: base64\r\n\r\nSGk=\r\n--c--\r\n\
----b--\r\n";
    assert!(is_readable(raw.as_bytes()));
}

#[test]
fn digests_are_readable() {
    for raw in [
        "Content-Type: multipart/digest; boundary=b\r\n\r\n--b\r\n\r\nSubject: x\r\n\r\nhi\r\n--b--",
        "Content-Type: multipart/digest; boundary=\"----b\"\r\n\r\n------b\r\n\
Content-Type: message/rfc822\r\n\r\n\
Content-Type: text/plain\r\nContent-Transfer-Encoding: base64\r\n\r\nSGk=\r\n------b--",
        "Subject: =?utf-8?b?SGk=?=\r\nContent-Type: multipart/digest; boundary=b\r\n\r\n--b\r\n\
Content-Type: text/plain\r\nContent-Transfer-Encoding: quoted-printable\r\n\r\nhi there\r\n--b--",
        "Content-Type: multipart/mixed; boundary=a\r\n\r\n--a\r\n\
Content-Transfer-Encoding: base64\r\n\r\nSGk=\r\n--a\r\n\
Content-Type: multipart/digest; boundary=b\r\n\r\n--b\r\n\r\n\
Subject: x\r\n\r\nhi\r\n--b--\r\n--a--",
    ] {
        assert!(is_readable(raw.as_bytes()), "{raw:?}");
    }
}

#[test]
fn short_parts_with_a_soft_end_are_not() {
    let head = "Content-Transfer-Encoding: Quoted-Printable\r\n\r\n";
    for line in ["=", "= \t", "a=", "=41=", " = 4 1 = ", "=\r", "=\n=", "\n="] {
        let raw = format!("{head}{line}\n--b--");
        assert!(!is_readable(raw.as_bytes()), "{raw:?}");
        let raw = format!("A: b\r\n\r\n{line}\n--b--");
        assert!(is_readable(raw.as_bytes()), "{raw:?}");
    }
    for line in ["ab=", "=41b=", "=41", "a", "", "some\na="] {
        let raw = format!("{head}{line}\n--b--");
        assert!(is_readable(raw.as_bytes()), "{raw:?}");
    }
}

#[test]
fn encoded_mails_in_a_mail_are_not() {
    for kind in [
        "message/rfc822",
        "MESSAGE/Global",
        "message / rfc822",
        "message (x)/rfc822",
        "message/(x)rfc822",
        "message\r\n /rfc822",
        "text\r\n message/rfc822",
        "(x)message/rfc822",
    ] {
        for encoding in ["base64", "Quoted-Printable", "=?utf-8?q?base64?="] {
            let a = format!("Content-Type: {kind}\r\nContent-Transfer-Encoding: {encoding}\r\n");
            assert!(!is_readable(a.as_bytes()), "{a:?}");
            let b = format!("content-transfer-encoding :{encoding}\n--b content -type:{kind}\n\nx");
            assert!(!is_readable(b.as_bytes()), "{b:?}");
        }
    }
    for part in [
        "\r\nContent-Transfer-Encoding: base64\r\n",
        "\r\nContent-Type: ;x\r\nContent-Transfer-Encoding: base64\r\n",
        "Content-Transfer-Encoding: base64\r\n \r\nContent-Type: text/plain\r\n",
    ] {
        let raw = format!("Content-Type: multipart/digest; boundary=b\r\n\r\n--b{part}\r\nSGk=");
        assert!(!is_readable(raw.as_bytes()), "{raw:?}");
    }
}

#[test]
fn mails_that_are_mere_envelopes_are_not() {
    for raw in [
        "Content-Type: multipart/mixed; boundary=b\r\n\r\n--b\r\nContent-Type: message/rfc822\r\n\r\n\
Content-Type: message/rfc822\r\n\r\nSubject: x\r\n\r\nhi\r\n--b--",
        "Content-Type: multipart/digest; boundary=b\r\n\r\n--b\r\n\r\n\
Content-Type: message/rfc822\r\n\r\nSubject: x\r\n\r\nhi\r\n--b--",
        "Content-Type: multipart/digest; boundary=b\r\n\r\n--b\x0c\r\n\
Content-Type: message/rfc822\r\n\r\nSubject: x\r\n\r\nhi\r\n--b--",
    ] {
        assert!(!is_readable(raw.as_bytes()), "{raw:?}");
    }
}

#[test]
fn headers_of_no_plain_end_are_not_where_mails_are_in_mails() {
    let mail = "Content-Type: message/rfc822\r\n\r\nSubject: x\r\n\r\nhi";
    for field in [
        "Date: Thu, 1 Jan 1970 00:01:40 Z\r\n",
        "Date: Thu, 1 Jan 1970 00:01:40 UT\n",
    ] {
        assert!(!is_readable(format!("{field}{mail}").as_bytes()));
        assert!(is_readable(format!("{field}\r\nhi").as_bytes()));
    }
    for field in [
        "Date: Thu, 1 Jan 1970 00:01:40 GMT\r\n",
        "Date: Thu, 1 Jan 1970 00:01:40 UT\r\n",
        "Date: Thu, 1 Jan 1970 00:01:40 +0000\r\n",
        "Subject: =?utf-8?b?SGk=?=\r\n",
    ] {
        assert!(is_readable(format!("{field}{mail}").as_bytes()));
    }
    assert!(!is_readable(format!("Subject: =?utf-8?b?SGk\r\n\r\n?=\r\n{mail}").as_bytes()));
    let digest = "Subject: x\r\n\r\n--\n\n\r\nhi";
    for boundary in ["boundary*=%0A%0A", "boundary==?utf-8?q?=0A=0A?="] {
        let raw = format!("Content-Type: multipart/digest; {boundary}\r\n{digest}");
        assert!(!is_readable(raw.as_bytes()));
    }
}

#[test]
fn too_many_mails_in_a_mail_are_not_readable() {
    let block = "Content-Type: message/rfc822\n\nSubject: x\n\nhi\n\n";
    assert!(is_readable(block.repeat(MAX_NESTED).as_bytes()));
    assert!(!is_readable(block.repeat(MAX_NESTED + 1).as_bytes()));
}

#[test]
fn a_mail_without_header_has_an_empty_line_before_any_field() {
    for raw in ["\n", " \r\nx", "junk\r\n\r\n", "junk\n: :\n\t\r\na: b"] {
        assert!(is_headerless(raw.as_bytes()), "{raw:?}");
    }
    for raw in ["", "  ", "x\n", "x", "a: b\n\n", "junk\na:\n\n", ": a: b\n\n"] {
        assert!(!is_headerless(raw.as_bytes()), "{raw:?}");
    }
}
