use dms_email_client::mailhtml::{
    body_to_html, choose_body, decode_entities, extract_body, html_escape, html_to_text,
    is_placeholder_text, page_text, process_text_segment, reads_as_placeholder, render_code,
    render_text, render_url,
};
use dms_email_client::message::{parse_message, MailMessage, MailParts};

fn parse(raw: &[u8]) -> MailMessage {
    parse_message(raw).unwrap()
}

#[test]
fn placeholder_plain_falls_back_to_html() {
    let raw = b"Content-Type: multipart/alternative; boundary=\"b\"\r\n\r\n\
--b\r\nContent-Type: text/plain\r\n\r\nPlain text version not available\r\n\
--b\r\nContent-Type: text/html\r\n\r\n\
<html><head><style>.x{color:red}</style></head><body><p>Real&nbsp;deal&mdash;here</p></body></html>\r\n\
--b--\r\n";
    let body = extract_body(&parse(raw));
    assert!(body.contains("Real deal—here"), "got: {:?}", body);
    assert!(!body.contains("not available"), "placeholder leaked: {:?}", body);
    assert!(!body.to_lowercase().contains("color:red"), "css leaked: {:?}", body);
}

#[test]
fn substantive_plain_text_is_kept() {
    let raw = b"Content-Type: multipart/alternative; boundary=\"b\"\r\n\r\n\
--b\r\nContent-Type: text/plain\r\n\r\n\
You can view this report online in HTML, but here is the full plain summary with all the numbers and details you asked for so nothing is missing at all.\r\n\
--b\r\nContent-Type: text/html\r\n\r\n<p>short</p>\r\n--b--\r\n";
    let body = extract_body(&parse(raw));
    assert!(body.contains("full plain summary"), "substantive text dropped: {:?}", body);
}

#[test]
fn html_to_text_strips_style_and_decodes_entities() {
    let t = html_to_text(
        "<head><style>.a{x:1}</style></head><body>Hi&nbsp;there &amp; more&zwnj;&zwnj;</body>",
    );
    assert!(!t.contains("x:1"), "style leaked: {:?}", t);
    assert!(t.contains("Hi there & more"), "got: {:?}", t);
}

#[test]
fn body_to_html_renders_url_code_and_escapes() {
    let html = body_to_html("a & b, code 482913, see https://ex.com/p?x=1&y=2");
    assert!(html.contains("a &amp; b"), "text not escaped: {html}");
    assert!(html.contains("copy:482913"), "code not linkified: {html}");
    assert!(html.contains("🔗 ex.com"), "url domain missing: {html}");
    assert!(html.contains("x=1&amp;y=2"), "url attr not escaped: {html}");
}

#[test]
fn html_of_each_piece_is_exact() {
    assert_eq!(html_escape("<a & b>"), "&lt;a &amp; b&gt;");
    assert_eq!(render_text("a<b\nc"), "a&lt;b<br>c");
    assert_eq!(render_code("482913"), "<a href=\"copy:482913\">482913 ⧉</a>");
    assert_eq!(
        render_url("https://ex.com/p?x=1&y=\"2\""),
        "<a href=\"https://ex.com/p?x=1&amp;y=&quot;2&quot;\">🔗 ex.com</a>\
<a href=\"copy:https://ex.com/p?x=1&amp;y=&quot;2&quot;\"> ⧉</a>"
    );
    assert_eq!(
        render_url("http://a&b"),
        "<a href=\"http://a&amp;b\">🔗 a&amp;b</a><a href=\"copy:http://a&amp;b\"> ⧉</a>"
    );
    assert_eq!(
        render_url("a.b/c"),
        "<a href=\"a.b/c\">🔗 a.b</a><a href=\"copy:a.b/c\"> ⧉</a>"
    );
}

#[test]
fn body_html_is_the_html_of_its_pieces() {
    assert_eq!(
        body_to_html("x 1234\n<http://a.b>"),
        "x <a href=\"copy:1234\">1234 ⧉</a><br>\
<a href=\"http://a.b\">🔗 a.b</a><a href=\"copy:http://a.b\"> ⧉</a>"
    );
    assert_eq!(body_to_html(""), "");
    assert_eq!(process_text_segment("x 1234 <"), "x <a href=\"copy:1234\">1234 ⧉</a> &lt;");
}

#[test]
fn bodies_are_rendered_line_by_line() {
    let sides = ["", "a < b", "see https://x.y/z", "1234", "<", "http://x.y> 5678 c"];
    for a in sides {
        for b in sides {
            assert_eq!(
                body_to_html(&format!("{a}\n{b}")),
                format!("{}<br>{}", body_to_html(a), body_to_html(b))
            );
        }
    }
}

#[test]
fn entities_by_name_and_number() {
    assert_eq!(decode_entities("&amp;&lt;&gt;&quot;&apos;"), "&<>\"'");
    assert_eq!(decode_entities("a&nbsp;b&mdash;&ndash;&hellip;"), "a b—–…");
    assert_eq!(decode_entities("&lsquo;x&rsquo; &ldquo;y&rdquo;"), "'x' \"y\"");
    assert_eq!(decode_entities("&trade;&reg;&copy;"), "™®©");
    assert_eq!(decode_entities("a&zwnj;&zwj;&shy;b"), "ab");
    assert_eq!(decode_entities("&#65;&#x41;&#X4e2d;"), "AA中");
}

#[test]
fn unknown_entities_stay() {
    for s in ["&nope;", "&amp", "& amp;", "&#;", "&#x;", "&#xZZ;", "&;", "&#1114112;", "&#xd800;",
        "&#99999999999;", "&1a;"]
    {
        assert_eq!(decode_entities(s), s);
    }
    assert_eq!(decode_entities("&amp&amp;"), "&amp&");
    assert_eq!(decode_entities("&amp;lt;"), "&lt;");
}

#[test]
fn decoding_undoes_escaping() {
    for s in ["", "a & b", "<p>&amp;</p>", "&&;;#65;", "中<&>"] {
        assert_eq!(decode_entities(&html_escape(s)), s);
    }
}

#[test]
fn a_page_shows_rendered_prose() {
    assert_eq!(page_text(&render_text("a <b>\n  c & d\n\n")), "a <b>\nc & d");
}

#[test]
fn page_text_breaks_lines_and_folds() {
    assert_eq!(
        page_text("<div>one  two</div>\n\n<p> three</p>four<br>five<br/>six<br />seven"),
        "one two\nthree\nfour\nfive\nsix\nseven"
    );
    assert_eq!(page_text("<li>a</li><tr>b</tr><h1>c</h1><h4>d</h4><h5>e</h5>f"), "a\nb\nc\nd\nef");
    assert_eq!(page_text("a\u{200b}b\u{feff}c\u{ad}d"), "abcd");
    assert_eq!(page_text("x < y > z"), "x z");
    assert_eq!(page_text(""), "");
    assert_eq!(page_text(&page_text("  a \t b \n\n c ")), "a b\nc");
}

#[test]
fn hidden_blocks_leave_a_space() {
    assert_eq!(html_to_text("a<script>let x = 1;</script>b"), "a b");
    assert_eq!(html_to_text("a<!-- note\nmore -->b"), "a b");
    assert_eq!(html_to_text("<STYLE type=\"x\">p{}</ style >c"), "c");
    assert_eq!(
        html_to_text("<head><style>a</style><title>T</title></head><p>x</p>"),
        "x"
    );
    assert_eq!(html_to_text("<script>'</style>'</script>x<header>y</header>"), "xy");
}

#[test]
fn placeholders_are_told_by_their_words() {
    assert!(is_placeholder_text("   "));
    assert!(is_placeholder_text("PLAIN TEXT VERSION NOT AVAILABLE"));
    assert!(is_placeholder_text("Sorry, the plain text version is not available."));
    assert!(is_placeholder_text("Please view this mail in HTML"));
    assert!(is_placeholder_text("This mail requires an HTML client"));
    assert!(is_placeholder_text("Enable html"));
    assert!(is_placeholder_text("an HTML capable reader"));
    assert!(!is_placeholder_text("html"));
    assert!(!is_placeholder_text("view"));
    assert!(!is_placeholder_text("Hello"));
}

#[test]
fn a_long_text_is_no_placeholder() {
    let pad = |n: usize| "x".repeat(n - 9);
    let short = format!("view html{}", pad(119));
    let long = format!("view html{}", pad(120));
    assert!(is_placeholder_text(&short));
    assert!(!is_placeholder_text(&long));
    assert!(reads_as_placeholder("", ""));
    assert!(reads_as_placeholder("X", "plain text version not available"));
    assert!(!reads_as_placeholder("X", "x"));
}

fn mail(text: Option<&str>, html: Option<&str>) -> MailMessage {
    MailMessage {
        parts: MailParts {
            text: text.map(|t| t.to_string()),
            html: html.map(|t| t.to_string()),
            subject: None,
            timestamp: None,
        },
        from: None,
    }
}

#[test]
fn the_better_body_is_taken() {
    assert_eq!(extract_body(&mail(Some("  hi  "), Some("<p>html</p>"))), "hi");
    assert_eq!(extract_body(&mail(None, Some("<p>html</p>"))), "html");
    assert_eq!(extract_body(&mail(Some(" "), Some("<p>html</p>"))), "html");
    assert_eq!(extract_body(&mail(Some(" view html "), Some("<p>x</p>"))), "x");
    assert_eq!(extract_body(&mail(Some(" view html "), Some("<p> </p>"))), "view html");
    assert_eq!(extract_body(&mail(Some(" view html "), None)), "view html");
    assert_eq!(extract_body(&mail(None, None)), "");
    assert_eq!(choose_body("a".to_string(), Some(" ".to_string())), "a");
    assert_eq!(choose_body("a".to_string(), Some("b".to_string())), "b");
}
