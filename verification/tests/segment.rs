use dms_email_client::segment::{segment, Segment};

#[test]
fn splits_url_code_and_prose_in_order() {
    let got = segment("Click https://gog.com/deal now, code 482913 ok");
    assert_eq!(
        got,
        vec![
            Segment::Text("Click "),
            Segment::Url("https://gog.com/deal"),
            Segment::Text(" now, code "),
            Segment::Code("482913"),
            Segment::Text(" ok"),
        ]
    );
}

#[test]
fn angle_wrapped_url_body_only() {
    assert_eq!(segment("<https://a.com/x>"), vec![Segment::Url("https://a.com/x")]);
}

#[test]
fn adjacent_codes_keep_separator_text() {
    assert_eq!(
        segment("482913 123456"),
        vec![Segment::Code("482913"), Segment::Text(" "), Segment::Code("123456")]
    );
}

#[test]
fn non_4_8_digit_runs_stay_prose() {
    assert_eq!(segment("id 123 num 123456789"), vec![Segment::Text("id 123 num 123456789")]);
}

#[test]
fn empty_input_yields_nothing() {
    assert_eq!(segment(""), Vec::<Segment>::new());
}

#[test]
fn code_lengths_at_the_edges() {
    assert_eq!(segment("1234"), vec![Segment::Code("1234")]);
    assert_eq!(segment("12345678"), vec![Segment::Code("12345678")]);
    assert_eq!(segment("123"), vec![Segment::Text("123")]);
    assert_eq!(segment("123456789"), vec![Segment::Text("123456789")]);
    assert_eq!(
        segment("a1234b"),
        vec![Segment::Text("a"), Segment::Code("1234"), Segment::Text("b")]
    );
}

#[test]
fn digits_of_a_link_are_no_code() {
    assert_eq!(segment("http://a.b/482913"), vec![Segment::Url("http://a.b/482913")]);
}

#[test]
fn a_bare_scheme_is_no_link() {
    assert_eq!(segment("https:// x"), vec![Segment::Text("https:// x")]);
    assert_eq!(segment("ftp://a.b"), vec![Segment::Text("ftp://a.b")]);
}

#[test]
fn quotes_and_space_end_a_link() {
    assert_eq!(
        segment("\"https://a.com/x\" 'http://b.c' \u{3000}"),
        vec![
            Segment::Text("\""),
            Segment::Url("https://a.com/x"),
            Segment::Text("\" '"),
            Segment::Url("http://b.c"),
            Segment::Text("' \u{3000}"),
        ]
    );
}

#[test]
fn an_open_bracket_belongs_to_the_link() {
    assert_eq!(
        segment("see <https://a.com/x now"),
        vec![Segment::Text("see "), Segment::Url("https://a.com/x"), Segment::Text(" now")]
    );
    assert_eq!(
        segment("https://a.com/x> now"),
        vec![Segment::Url("https://a.com/x"), Segment::Text(" now")]
    );
}

#[test]
fn non_ascii_digits_are_prose() {
    assert_eq!(segment("٤٨٢٩١٣"), vec![Segment::Text("٤٨٢٩١٣")]);
}

fn flat(input: &str) -> String {
    segment(input)
        .iter()
        .map(|s| match s {
            Segment::Text(t) => *t,
            Segment::Url(u) => *u,
            Segment::Code(c) => *c,
        })
        .collect::<Vec<_>>()
        .concat()
}

#[test]
fn pieces_put_together_are_the_body() {
    for body in ["", "a", "code 1234, 12345 and http://x.y/z?q=1\n尾", "你好 482913 https://例.中"] {
        assert_eq!(flat(body), body);
    }
}

#[test]
fn only_brackets_around_links_are_lost() {
    for (body, left) in [
        ("a <http://x.y> b", "a http://x.y b"),
        ("<http://x.y", "http://x.y"),
        ("http://x.y>1234", "http://x.y1234"),
        ("<a> 1 < 2 > 0 <1234>", "<a> 1 < 2 > 0 <1234>"),
    ] {
        assert_eq!(flat(body), left);
    }
}

#[test]
fn prose_and_codes_alternate() {
    let got = segment("a 1234 b https://x.y 5678 123 9012\nhttp://z http://w");
    for pair in got.windows(2) {
        assert!(!matches!(pair, [Segment::Text(_), Segment::Text(_)]));
        assert!(!matches!(pair, [Segment::Code(_), Segment::Code(_)]));
    }
    assert_eq!(got.len(), 12);
}

#[test]
fn pieces_are_settled() {
    for piece in segment("Click <https://gog.com/deal> now, code 482913 ok") {
        match piece {
            Segment::Text(t) => assert_eq!(segment(t), vec![Segment::Text(t)]),
            Segment::Url(u) => assert_eq!(segment(u), vec![Segment::Url(u)]),
            Segment::Code(c) => assert_eq!(segment(c), vec![Segment::Code(c)]),
        }
    }
}
