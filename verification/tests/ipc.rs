use dms_email_client::ipc::{is_status_reply, socket_path, Request};

fn s(t: &str) -> String {
    t.to_string()
}

fn some(t: &str) -> Option<String> {
    Some(t.to_string())
}

#[test]
fn socket_lies_in_the_runtime_dir() {
    let path = socket_path(&some("/run/user/1000"), &some("me"), &None, "/tmp");
    assert_eq!(path, "/run/user/1000/dms-email-client.sock");
    let path = socket_path(&some("/run/user/1000//"), &None, &None, "/tmp");
    assert_eq!(path, "/run/user/1000/dms-email-client.sock");
}

#[test]
fn socket_falls_back_to_the_temp_dir() {
    assert_eq!(
        socket_path(&None, &some("me"), &some("other"), "/tmp"),
        "/tmp/dms-email-client-me.sock"
    );
    assert_eq!(
        socket_path(&some(""), &None, &some("other"), "/tmp/"),
        "/tmp/dms-email-client-other.sock"
    );
    assert_eq!(socket_path(&some("///"), &None, &None, "/t"), "/t/dms-email-client-user.sock");
}

fn all_requests() -> Vec<(Request, &'static str)> {
    vec![
        (Request::Status, "status"),
        (Request::Watch, "watch"),
        (Request::Reload, "reload"),
        (Request::Shutdown, "shutdown"),
        (
            Request::Body { account: s("QQ Mail"), folder: s("INBOX"), uid: s("7") },
            "body\tQQ Mail\tINBOX\t7",
        ),
        (
            Request::Read { account: s("a"), folder: s("垃圾邮件"), uid: s("") },
            "read\ta\t垃圾邮件\t",
        ),
        (Request::ReadAll { account: s("a") }, "read_all\ta"),
        (Request::ReadAll { account: s("") }, "read_all\t"),
        (
            Request::Translate {
                account: s("a"),
                folder: s("f"),
                uid: s("1"),
                src: s("auto"),
                tgt: s("zho_Hans"),
                engine: s("deeplx"),
                deeplx_url: s("http://localhost:1188"),
            },
            "translate\ta\tf\t1\tauto\tzho_Hans\tdeeplx\thttp://localhost:1188",
        ),
    ]
}

#[test]
fn requests_have_their_lines() {
    for (request, line) in all_requests() {
        assert_eq!(request.encode(), line);
        assert_eq!(Request::parse(line), request);
    }
}

#[test]
fn line_ends_do_not_count() {
    for (request, line) in all_requests() {
        for end in ["\n", "\r\n", "\n\n\r"] {
            assert_eq!(Request::parse(&format!("{line}{end}")), request);
        }
    }
}

#[test]
fn a_translation_without_engine_is_offline() {
    assert_eq!(
        Request::parse("translate\ta\tf\t1\tauto\tzho_Hans\n"),
        Request::Translate {
            account: s("a"),
            folder: s("f"),
            uid: s("1"),
            src: s("auto"),
            tgt: s("zho_Hans"),
            engine: s("nllb"),
            deeplx_url: s(""),
        }
    );
}

#[test]
fn unknown_lines_ask_for_the_state() {
    for line in ["", "\n", "nope", "watch\t", "body\ta\tf", "body\ta\tf\t1\t2", "read_all",
        "translate\ta\tf\t1\tauto\tt\tnllb", "WATCH", " watch"]
    {
        assert_eq!(Request::parse(line), Request::Status, "{line:?}");
    }
}

#[test]
fn what_was_read_reads_the_same_again() {
    for line in ["status\tx", "body\ta\tf\t1\r\n", "translate\ta\tf\t1\tauto\tt", "read_all\t\n"] {
        let once = Request::parse(line);
        assert_eq!(Request::parse(&once.encode()), once);
    }
}

#[test]
fn a_status_reply_is_an_object() {
    assert!(is_status_reply("{\"unread_mails\":[]}"));
    assert!(!is_status_reply(""));
    assert!(!is_status_reply("[]"));
}
