//! From a mail to readable text, and from text to the HTML that the reader shows.

use crate::message::MailMessage;
use crate::message;
use crate::segment::Segment;
use crate::segment;
use crate::text;
use vstd::prelude::*;

verus! {

// ---------------------------------------------------------------------------
// Text to HTML
// ---------------------------------------------------------------------------

/// A character as HTML writes it in text.
pub open spec fn escaped_char(c: char) -> Seq<char> {
    if c == '&' {
        "&amp;"@
    } else if c == '<' {
        "&lt;"@
    } else if c == '>' {
        "&gt;"@
    } else {
        seq![c]
    }
}

/// `s` as HTML writes it in text.
pub open spec fn escaped(s: Seq<char>) -> Seq<char>
    decreases s.len(),
{
    if s.len() == 0 {
        Seq::<char>::empty()
    } else {
        escaped(s.drop_last()) + escaped_char(s.last())
    }
}

fn push_escaped(out: &mut Vec<char>, c: char)
    ensures
        final(out)@ == old(out)@ + escaped_char(c),
{
    if c == '&' {
        text::push_text(out, "&amp;");
    } else if c == '<' {
        text::push_text(out, "&lt;");
    } else if c == '>' {
        text::push_text(out, "&gt;");
    } else {
        out.push(c);
    }
}

fn escape_chars(v: &[char]) -> (out: Vec<char>)
    ensures
        out@ == escaped(v@),
{
    let mut out: Vec<char> = Vec::new();
    let mut i: usize = 0;
    while i < v.len()
        invariant
            i <= v.len(),
            out@ == escaped(v@.take(i as int)),
        decreases v.len() - i,
    {
        assert(v@.take(i + 1).drop_last() =~= v@.take(i as int));
        push_escaped(&mut out, v[i]);
        i += 1;
    }
    assert(v@.take(i as int) =~= v@);
    out
}

/// Escapes the characters that have a meaning in HTML.
pub fn html_escape(s: &str) -> (out: String)
    ensures
        out@ == escaped(s@),
{
    let v = text::to_chars(s);
    let out = escape_chars(&v);
    text::from_chars(&out)
}

/// Prose as HTML: escaped, with a break for each line end.
pub open spec fn prose_html(s: Seq<char>) -> Seq<char>
    decreases s.len(),
{
    if s.len() == 0 {
        Seq::<char>::empty()
    } else {
        prose_html(s.drop_last()) + (if s.last() == '\n' {
            "<br>"@
        } else {
            escaped_char(s.last())
        })
    }
}

/// Renders prose: escapes it and turns line ends into breaks.
pub fn render_text(seg: &str) -> (out: String)
    ensures
        out@ == prose_html(seg@),
{
    let v = text::to_chars(seg);
    let mut out: Vec<char> = Vec::new();
    let mut i: usize = 0;
    while i < v.len()
        invariant
            i <= v.len(),
            out@ == prose_html(v@.take(i as int)),
        decreases v.len() - i,
    {
        assert(v@.take(i + 1).drop_last() =~= v@.take(i as int));
        if v[i] == '\n' {
            text::push_text(&mut out, "<br>");
        } else {
            push_escaped(&mut out, v[i]);
        }
        i += 1;
    }
    assert(v@.take(i as int) =~= v@);
    text::from_chars(&out)
}

/// A code as HTML: a link that copies it.
pub open spec fn code_html(code: Seq<char>) -> Seq<char> {
    "<a href=\"copy:"@ + code + "\">"@ + code + " ⧉</a>"@
}

/// Renders a code: a link that copies it.
pub fn render_code(code: &str) -> (out: String)
    ensures
        out@ == code_html(code@),
{
    let mut out = text::to_chars("<a href=\"copy:");
    text::push_text(&mut out, code);
    text::push_text(&mut out, "\">");
    text::push_text(&mut out, code);
    text::push_text(&mut out, " ⧉</a>");
    text::from_chars(&out)
}

/// `u` as an HTML attribute in double quotes holds it.
pub open spec fn attribute(u: Seq<char>) -> Seq<char>
    decreases u.len(),
{
    if u.len() == 0 {
        Seq::<char>::empty()
    } else {
        attribute(u.drop_last()) + (if u.last() == '&' {
            "&amp;"@
        } else if u.last() == '"' {
            "&quot;"@
        } else {
            seq![u.last()]
        })
    }
}

/// `u` without its scheme.
pub open spec fn without_scheme(u: Seq<char>) -> Seq<char> {
    u.skip(segment::scheme_len(u, 0))
}

/// The domain of a link: what stands between its scheme and the first slash behind it.
pub open spec fn domain(u: Seq<char>) -> Seq<char> {
    text::split_on(without_scheme(u), '/')[0]
}

/// A link as HTML: its domain, which opens it, and a sign that copies it.
pub open spec fn url_html(u: Seq<char>) -> Seq<char> {
    "<a href=\""@ + attribute(u) + "\">🔗 "@ + escaped(domain(u)) + "</a><a href=\"copy:"@
        + attribute(u) + "\"> ⧉</a>"@
}

fn attribute_chars(v: &[char]) -> (out: Vec<char>)
    ensures
        out@ == attribute(v@),
{
    let mut out: Vec<char> = Vec::new();
    let mut i: usize = 0;
    while i < v.len()
        invariant
            i <= v.len(),
            out@ == attribute(v@.take(i as int)),
        decreases v.len() - i,
    {
        assert(v@.take(i + 1).drop_last() =~= v@.take(i as int));
        if v[i] == '&' {
            text::push_text(&mut out, "&amp;");
        } else if v[i] == '"' {
            text::push_text(&mut out, "&quot;");
        } else {
            out.push(v[i]);
        }
        i += 1;
    }
    assert(v@.take(i as int) =~= v@);
    out
}

/// Renders a link: its domain, which opens it, and a sign that copies it.
pub fn render_url(u: &str) -> (out: String)
    ensures
        out@ == url_html(u@),
{
    let v = text::to_chars(u);
    let https = text::to_chars("https://");
    let http = text::to_chars("http://");
    let head: usize = if text::is_at(&v, 0, &https) {
        https.len()
    } else if text::is_at(&v, 0, &http) {
        http.len()
    } else {
        0
    };
    let rest = text::slice_of(&v, head, v.len());
    assert(rest@ =~= without_scheme(u@));
    let parts = text::split(&rest, '/');
    assert(parts@[0]@ == text::views(parts@)[0]);
    let shown = escape_chars(&parts[0]);
    let attr = attribute_chars(&v);
    let mut out = text::to_chars("<a href=\"");
    text::push_all(&mut out, &attr);
    text::push_text(&mut out, "\">🔗 ");
    text::push_all(&mut out, &shown);
    text::push_text(&mut out, "</a><a href=\"copy:");
    text::push_all(&mut out, &attr);
    text::push_text(&mut out, "\"> ⧉</a>");
    text::from_chars(&out)
}

/// A piece of a body as HTML.
pub open spec fn piece_html(p: segment::Piece) -> Seq<char> {
    match p {
        segment::Piece::Text(t) => prose_html(t),
        segment::Piece::Url(u) => url_html(u),
        segment::Piece::Code(c) => code_html(c),
    }
}

/// The pieces of a body as HTML, one behind the other.
pub open spec fn html_of(ps: Seq<segment::Piece>) -> Seq<char>
    decreases ps.len(),
{
    if ps.len() == 0 {
        Seq::<char>::empty()
    } else {
        html_of(ps.drop_last()) + piece_html(ps.last())
    }
}

fn render_segments(segs: &[Segment<'_>]) -> (out: String)
    ensures
        out@ == html_of(segment::pieces(segs@)),
{
    let mut out: Vec<char> = Vec::new();
    let mut i: usize = 0;
    let ghost all = segment::pieces(segs@);
    while i < segs.len()
        invariant
            i <= segs.len(),
            all == segment::pieces(segs@),
            out@ == html_of(all.take(i as int)),
        decreases segs.len() - i,
    {
        assert(all.take(i + 1).drop_last() =~= all.take(i as int));
        let one = match &segs[i] {
            Segment::Text(t) => render_text(t),
            Segment::Url(u) => render_url(u),
            Segment::Code(c) => render_code(c),
        };
        assert(one@ == piece_html(all[i as int]));
        text::push_text(&mut out, one.as_str());
        i += 1;
    }
    assert(all.take(i as int) =~= all);
    text::from_chars(&out)
}

/// Renders a text without links: its codes as links that copy them, the rest as prose.
pub fn process_text_segment(seg: &str) -> (out: String)
    ensures
        out@ == html_of(segment::prose(seg@)),
{
    let mut segs: Vec<Segment<'_>> = Vec::new();
    segment::push_prose(seg, &mut segs);
    assert(segment::pieces(segs@) =~= segment::prose(seg@));
    render_segments(&segs)
}

/// Renders a plain text body: links as their domain, which opens them, with a sign that
/// copies them; codes as links that copy them; the rest as escaped prose.
pub fn body_to_html(plain: &str) -> (html: String)
    ensures
        html@ == html_of(segment::segments_of(plain@)),
{
    let segs = segment::segment(plain);
    render_segments(&segs)
}

// ---------------------------------------------------------------------------
// Entities
// ---------------------------------------------------------------------------

/// `char::from_u32` gives the character of a Unicode scalar value, and nothing for a number
/// that is none.
pub assume_specification[ char::from_u32 ](v: u32) -> (c: Option<char>)
    ensures
        c is Some <==> scalar_value(v),
        c is Some ==> c->0 == v as char,
;

/// The numbers that are characters.
pub open spec fn scalar_value(v: u32) -> bool {
    v < 0xd800 || 0xe000 <= v <= 0x10ffff
}

/// The ASCII letters.
pub open spec fn ascii_letter(c: char) -> bool {
    'A' <= c <= 'Z' || 'a' <= c <= 'z'
}

/// The hexadecimal digits.
pub open spec fn hex_char(c: char) -> bool {
    '0' <= c <= '9' || 'A' <= c <= 'F' || 'a' <= c <= 'f'
}

/// The first position from `p` on that holds no hexadecimal digit.
pub open spec fn hex_run_end(s: Seq<char>, p: int) -> int
    decreases s.len() - p,
{
    if 0 <= p < s.len() && hex_char(s[p]) {
        hex_run_end(s, p + 1)
    } else {
        p
    }
}

/// The first position from `p` on that holds neither an ASCII letter nor a digit.
pub open spec fn name_run_end(s: Seq<char>, p: int) -> int
    decreases s.len() - p,
{
    if 0 <= p < s.len() && (ascii_letter(s[p]) || segment::digit_char(s[p])) {
        name_run_end(s, p + 1)
    } else {
        p
    }
}

/// The end of the entity that begins at `i`: an ampersand, then a name, a decimal or a
/// hexadecimal number, then a semicolon.
pub open spec fn entity_end(s: Seq<char>, i: int) -> Option<int> {
    let stop = if !(0 <= i < s.len() - 1) || s[i] != '&' {
        -1
    } else if s[i + 1] == '#' && i + 2 < s.len() && (s[i + 2] == 'x' || s[i + 2] == 'X') {
        let e = hex_run_end(s, i + 3);
        if e > i + 3 {
            e
        } else {
            -1
        }
    } else if s[i + 1] == '#' {
        let e = segment::digit_run_end(s, i + 2);
        if e > i + 2 {
            e
        } else {
            -1
        }
    } else if ascii_letter(s[i + 1]) {
        name_run_end(s, i + 2)
    } else {
        -1
    };
    if 0 <= stop < s.len() && s[stop] == ';' {
        Some(stop + 1)
    } else {
        None
    }
}

/// What a named entity stands for; nothing for a name that is not known.
pub open spec fn named_entity(name: Seq<char>) -> Option<Seq<char>> {
    if name == "amp"@ {
        Some("&"@)
    } else if name == "lt"@ {
        Some("<"@)
    } else if name == "gt"@ {
        Some(">"@)
    } else if name == "quot"@ {
        Some("\""@)
    } else if name == "apos"@ {
        Some("'"@)
    } else if name == "nbsp"@ {
        Some(" "@)
    } else if name == "mdash"@ {
        Some("—"@)
    } else if name == "ndash"@ {
        Some("–"@)
    } else if name == "hellip"@ {
        Some("…"@)
    } else if name == "lsquo"@ || name == "rsquo"@ {
        Some("'"@)
    } else if name == "ldquo"@ || name == "rdquo"@ {
        Some("\""@)
    } else if name == "trade"@ {
        Some("™"@)
    } else if name == "reg"@ {
        Some("®"@)
    } else if name == "copy"@ {
        Some("©"@)
    } else if name == "zwnj"@ || name == "zwj"@ || name == "shy"@ {
        Some(""@)
    } else {
        None
    }
}

/// The character of a number, or `otherwise` where there is none.
pub open spec fn number_entity(n: Option<u32>, otherwise: Seq<char>) -> Seq<char> {
    match n {
        Some(v) => if scalar_value(v) {
            seq![v as char]
        } else {
            otherwise
        },
        None => otherwise,
    }
}

/// What the whole entity `e`, with its ampersand and its semicolon, stands for; an entity that
/// is not known stands for itself.
pub open spec fn entity_text(e: Seq<char>) -> Seq<char> {
    let name = e.subrange(1, e.len() - 1);
    if name.len() >= 2 && name[0] == '#' && (name[1] == 'x' || name[1] == 'X') {
        number_entity(text::small_number(name.skip(2), 16), e)
    } else if name.len() >= 1 && name[0] == '#' {
        number_entity(text::small_number(name.skip(1), 10), e)
    } else {
        text::opt_or(named_entity(name), e)
    }
}

/// `s` from `i` on with its entities decoded.
pub open spec fn decoded_from(s: Seq<char>, i: int) -> Seq<char>
    decreases s.len() - i,
{
    if i < 0 || i >= s.len() {
        Seq::<char>::empty()
    } else {
        match entity_end(s, i) {
            Some(e) => if i < e <= s.len() {
                entity_text(s.subrange(i, e)) + decoded_from(s, e)
            } else {
                Seq::<char>::empty()
            },
            None => seq![s[i]] + decoded_from(s, i + 1),
        }
    }
}

/// `s` with its entities decoded, each once.
pub open spec fn decoded(s: Seq<char>) -> Seq<char> {
    decoded_from(s, 0)
}

proof fn lemma_hex_run_end(s: Seq<char>, p: int)
    requires
        0 <= p <= s.len(),
    ensures
        p <= hex_run_end(s, p) <= s.len(),
    decreases s.len() - p,
{
    if p < s.len() && hex_char(s[p]) {
        lemma_hex_run_end(s, p + 1);
    }
}

proof fn lemma_name_run_end(s: Seq<char>, p: int)
    requires
        0 <= p <= s.len(),
    ensures
        p <= name_run_end(s, p) <= s.len(),
    decreases s.len() - p,
{
    if p < s.len() && (ascii_letter(s[p]) || segment::digit_char(s[p])) {
        lemma_name_run_end(s, p + 1);
    }
}

proof fn lemma_entity_end(s: Seq<char>, i: int)
    ensures
        entity_end(s, i) is Some ==> 0 <= i && i + 2 < entity_end(s, i)->0 <= s.len(),
{
    if 0 <= i < s.len() - 1 {
        if i + 3 <= s.len() {
            lemma_hex_run_end(s, i + 3);
        }
        segment::lemma_digit_run_end(s, i + 2);
        lemma_name_run_end(s, i + 2);
    }
}

fn is_ascii_letter(c: char) -> (yes: bool)
    ensures
        yes == ascii_letter(c),
{
    ('A' <= c && c <= 'Z') || ('a' <= c && c <= 'z')
}

fn is_hex_char(c: char) -> (yes: bool)
    ensures
        yes == hex_char(c),
{
    ('0' <= c && c <= '9') || ('A' <= c && c <= 'F') || ('a' <= c && c <= 'f')
}

fn find_entity_end(v: &[char], i: usize) -> (end: Option<usize>)
    requires
        i < v@.len(),
    ensures
        match end {
            Some(e) => entity_end(v@, i as int) == Some(e as int),
            None => entity_end(v@, i as int) is None,
        },
{
    if v[i] != '&' || v.len() - i < 2 {
        return None;
    }
    let mut stop: usize = i + 2;
    if v[i + 1] == '#' && v.len() - i > 2 && (v[i + 2] == 'x' || v[i + 2] == 'X') {
        stop = i + 3;
        while stop < v.len() && is_hex_char(v[stop])
            invariant
                i + 3 <= stop <= v.len(),
                hex_run_end(v@, stop as int) == hex_run_end(v@, i + 3),
            decreases v.len() - stop,
        {
            stop += 1;
        }
        if stop == i + 3 {
            return None;
        }
    } else if v[i + 1] == '#' {
        while stop < v.len() && '0' <= v[stop] && v[stop] <= '9'
            invariant
                i + 2 <= stop <= v.len(),
                segment::digit_run_end(v@, stop as int) == segment::digit_run_end(v@, i + 2),
            decreases v.len() - stop,
        {
            stop += 1;
        }
        if stop == i + 2 {
            return None;
        }
    } else if is_ascii_letter(v[i + 1]) {
        while stop < v.len() && (is_ascii_letter(v[stop]) || ('0' <= v[stop] && v[stop] <= '9'))
            invariant
                i + 2 <= stop <= v.len(),
                name_run_end(v@, stop as int) == name_run_end(v@, i + 2),
            decreases v.len() - stop,
        {
            stop += 1;
        }
    } else {
        return None;
    }
    if stop < v.len() && v[stop] == ';' {
        Some(stop + 1)
    } else {
        None
    }
}

fn entity_of_name(name: &str) -> (t: Option<&'static str>)
    ensures
        match t {
            Some(t) => named_entity(name@) == Some(t@),
            None => named_entity(name@) is None,
        },
{
    if text::same_text(name, "amp") {
        Some("&")
    } else if text::same_text(name, "lt") {
        Some("<")
    } else if text::same_text(name, "gt") {
        Some(">")
    } else if text::same_text(name, "quot") {
        Some("\"")
    } else if text::same_text(name, "apos") {
        Some("'")
    } else if text::same_text(name, "nbsp") {
        Some(" ")
    } else if text::same_text(name, "mdash") {
        Some("—")
    } else if text::same_text(name, "ndash") {
        Some("–")
    } else if text::same_text(name, "hellip") {
        Some("…")
    } else if text::same_text(name, "lsquo") || text::same_text(name, "rsquo") {
        Some("'")
    } else if text::same_text(name, "ldquo") || text::same_text(name, "rdquo") {
        Some("\"")
    } else if text::same_text(name, "trade") {
        Some("™")
    } else if text::same_text(name, "reg") {
        Some("®")
    } else if text::same_text(name, "copy") {
        Some("©")
    } else if text::same_text(name, "zwnj") || text::same_text(name, "zwj") || text::same_text(
        name,
        "shy",
    ) {
        Some("")
    } else {
        None
    }
}

fn push_number(out: &mut Vec<char>, n: Option<u32>, otherwise: &[char])
    ensures
        final(out)@ == old(out)@ + number_entity(n, otherwise@),
{
    if let Some(v) = n {
        if let Some(c) = char::from_u32(v) {
            out.push(c);
            return;
        }
    }
    text::push_all(out, otherwise);
}

fn push_entity(out: &mut Vec<char>, e: &[char])
    requires
        e@.len() >= 3,
    ensures
        final(out)@ == old(out)@ + entity_text(e@),
{
    let name = text::slice_of(e, 1, e.len() - 1);
    if name.len() >= 2 && name[0] == '#' && (name[1] == 'x' || name[1] == 'X') {
        let digits = text::slice_of(&name, 2, name.len());
        assert(digits@ =~= name@.skip(2));
        push_number(out, text::parse_small_number(&digits, 16), e);
    } else if name[0] == '#' {
        let digits = text::slice_of(&name, 1, name.len());
        assert(digits@ =~= name@.skip(1));
        push_number(out, text::parse_small_number(&digits, 10), e);
    } else {
        let known = text::from_chars(&name);
        match entity_of_name(known.as_str()) {
            Some(t) => text::push_text(out, t),
            None => text::push_all(out, e),
        }
    }
}

fn decode_chars(v: &[char]) -> (out: Vec<char>)
    ensures
        out@ == decoded(v@),
{
    let mut out: Vec<char> = Vec::new();
    let mut i: usize = 0;
    while i < v.len()
        invariant
            i <= v.len(),
            out@ + decoded_from(v@, i as int) =~= decoded(v@),
        decreases v.len() - i,
    {
        proof {
            lemma_entity_end(v@, i as int);
        }
        match find_entity_end(v, i) {
            Some(e) => {
                let whole = text::slice_of(v, i, e);
                push_entity(&mut out, &whole);
                i = e;
            },
            None => {
                out.push(v[i]);
                i += 1;
            },
        }
    }
    out
}

/// Decodes the entities of `s`: the common names, and decimal and hexadecimal numbers. An
/// entity that is not known stays as it is.
pub fn decode_entities(s: &str) -> (out: String)
    ensures
        out@ == decoded(s@),
{
    let v = text::to_chars(s);
    let out = decode_chars(&v);
    text::from_chars(&out)
}

// ---------------------------------------------------------------------------
// HTML to text
// ---------------------------------------------------------------------------

/// What is not shown of an HTML page: style sheets, scripts, the head, and comments. Each block
/// goes up to its own end tag, with all that it holds.
pub open spec fn hidden_block_pattern() -> Seq<char> {
    r"(?is)<style\b[^>]*>.*?</\s*style\s*>|<script\b[^>]*>.*?</\s*script\s*>|<head\b[^>]*>.*?</\s*head\s*>|<!--.*?-->"@
}

/// `haystack` with every match of the regular expression `pattern` replaced by `with`, as
/// `regex::Regex::replace_all` does it.
pub uninterp spec fn regex_replaced(
    pattern: Seq<char>,
    haystack: Seq<char>,
    with: Seq<char>,
) -> Seq<char>;

/// Calls `regex::Regex::replace_all` with a pattern that is known to compile. The result is a
/// function of the three texts.
#[verifier::external_body]
fn regex_replace(pattern: &str, haystack: &str, with: &str) -> (out: String)
    requires
        pattern@ == hidden_block_pattern(),
    ensures
        out@ == regex_replaced(pattern@, haystack@, with@),
{
    regex::Regex::new(pattern).unwrap().replace_all(haystack, with).into_owned()
}

/// The tags behind which a line ends.
pub open spec fn line_tags() -> Seq<Seq<char>> {
    seq![
        "<br>"@,
        "<br/>"@,
        "<br />"@,
        "</p>"@,
        "</div>"@,
        "</tr>"@,
        "</li>"@,
        "</h1>"@,
        "</h2>"@,
        "</h3>"@,
        "</h4>"@,
    ]
}

/// `s` with each of `tags`, one after the other, replaced by a line end.
pub open spec fn with_line_ends(s: Seq<char>, tags: Seq<Seq<char>>) -> Seq<char>
    decreases tags.len(),
{
    if tags.len() == 0 {
        s
    } else {
        text::replaced(with_line_ends(s, tags.drop_last()), tags.last(), "\n"@)
    }
}

/// Behind `s` a tag is open: the last angle bracket of `s` is an opening one.
pub open spec fn in_tag(s: Seq<char>) -> bool
    decreases s.len(),
{
    if s.len() == 0 {
        false
    } else if s.last() == '<' {
        true
    } else if s.last() == '>' {
        false
    } else {
        in_tag(s.drop_last())
    }
}

/// `s` without its tags and angle brackets.
pub open spec fn untagged(s: Seq<char>) -> Seq<char>
    decreases s.len(),
{
    if s.len() == 0 {
        s
    } else {
        let head = untagged(s.drop_last());
        if s.last() == '<' || s.last() == '>' || in_tag(s.drop_last()) {
            head
        } else {
            head.push(s.last())
        }
    }
}

/// Characters that take no room: zero-width spaces and joiners, the byte order mark, the soft
/// hyphen.
pub open spec fn invisible(c: char) -> bool {
    c == '\u{200b}' || c == '\u{200c}' || c == '\u{200d}' || c == '\u{feff}' || c == '\u{ad}'
}

/// `s` without its invisible characters.
pub open spec fn seen(s: Seq<char>) -> Seq<char>
    decreases s.len(),
{
    if s.len() == 0 {
        s
    } else if invisible(s.last()) {
        seen(s.drop_last())
    } else {
        seen(s.drop_last()).push(s.last())
    }
}

/// A line with one space between its words and none around them.
pub open spec fn squeezed(line: Seq<char>) -> Seq<char> {
    text::joined(text::words(line), " "@)
}

/// The lines that hold a word, each squeezed.
pub open spec fn full_lines(lines: Seq<Seq<char>>) -> Seq<Seq<char>>
    decreases lines.len(),
{
    if lines.len() == 0 {
        lines
    } else {
        let head = full_lines(lines.drop_last());
        if squeezed(lines.last()).len() == 0 {
            head
        } else {
            head.push(squeezed(lines.last()))
        }
    }
}

/// `s` with its white space folded: one space between words, no empty lines.
pub open spec fn folded(s: Seq<char>) -> Seq<char> {
    text::joined(full_lines(text::split_on(s, '\n')), "\n"@)
}

/// The text that a page shows whose hidden blocks are gone already.
pub open spec fn shown_text(page: Seq<char>) -> Seq<char> {
    folded(seen(decoded(untagged(with_line_ends(page, line_tags())))))
}

/// The text that an HTML page shows.
pub open spec fn text_of_html(html: Seq<char>) -> Seq<char> {
    shown_text(regex_replaced(hidden_block_pattern(), html, " "@))
}

fn list_line_tags() -> (tags: Vec<Vec<char>>)
    ensures
        text::views(tags@) == line_tags(),
        forall|i: int| 0 <= i < tags@.len() ==> (#[trigger] tags@[i])@.len() > 0,
{
    let mut tags: Vec<Vec<char>> = Vec::new();
    tags.push(text::to_chars("<br>"));
    tags.push(text::to_chars("<br/>"));
    tags.push(text::to_chars("<br />"));
    tags.push(text::to_chars("</p>"));
    tags.push(text::to_chars("</div>"));
    tags.push(text::to_chars("</tr>"));
    tags.push(text::to_chars("</li>"));
    tags.push(text::to_chars("</h1>"));
    tags.push(text::to_chars("</h2>"));
    tags.push(text::to_chars("</h3>"));
    tags.push(text::to_chars("</h4>"));
    proof {
        reveal_strlit("<br>");
        reveal_strlit("<br/>");
        reveal_strlit("<br />");
        reveal_strlit("</p>");
        reveal_strlit("</div>");
        reveal_strlit("</tr>");
        reveal_strlit("</li>");
        reveal_strlit("</h1>");
        reveal_strlit("</h2>");
        reveal_strlit("</h3>");
        reveal_strlit("</h4>");
    }
    assert(text::views(tags@) =~= line_tags());
    tags
}

fn break_lines(page: Vec<char>) -> (out: Vec<char>)
    ensures
        out@ == with_line_ends(page@, line_tags()),
{
    let tags = list_line_tags();
    let line_end = text::to_chars("\n");
    let mut out = page;
    let mut i: usize = 0;
    while i < tags.len()
        invariant
            i <= tags.len(),
            line_end@ == "\n"@,
            text::views(tags@) == line_tags(),
            forall|i: int| 0 <= i < tags@.len() ==> (#[trigger] tags@[i])@.len() > 0,
            out@ == with_line_ends(page@, line_tags().take(i as int)),
        decreases tags.len() - i,
    {
        let ghost upto = line_tags().take(i + 1);
        assert(upto.drop_last() =~= line_tags().take(i as int));
        assert(upto.last() == text::views(tags@)[i as int]);
        assert(tags@[i as int]@.len() > 0);
        out = text::replace(&out, &tags[i], &line_end);
        i += 1;
    }
    assert(line_tags().take(i as int) =~= line_tags());
    out
}

fn strip_tags(v: &[char]) -> (out: Vec<char>)
    ensures
        out@ == untagged(v@),
{
    let mut out: Vec<char> = Vec::new();
    let mut open: bool = false;
    let mut i: usize = 0;
    while i < v.len()
        invariant
            i <= v.len(),
            open == in_tag(v@.take(i as int)),
            out@ == untagged(v@.take(i as int)),
        decreases v.len() - i,
    {
        assert(v@.take(i + 1).drop_last() =~= v@.take(i as int));
        let c = v[i];
        if c == '<' {
            open = true;
        } else if c == '>' {
            open = false;
        } else if !open {
            out.push(c);
        }
        i += 1;
    }
    assert(v@.take(i as int) =~= v@);
    out
}

fn drop_invisible(v: &[char]) -> (out: Vec<char>)
    ensures
        out@ == seen(v@),
{
    let mut out: Vec<char> = Vec::new();
    let mut i: usize = 0;
    while i < v.len()
        invariant
            i <= v.len(),
            out@ == seen(v@.take(i as int)),
        decreases v.len() - i,
    {
        assert(v@.take(i + 1).drop_last() =~= v@.take(i as int));
        let c = v[i];
        if !(c == '\u{200b}' || c == '\u{200c}' || c == '\u{200d}' || c == '\u{feff}' || c
            == '\u{ad}') {
            out.push(c);
        }
        i += 1;
    }
    assert(v@.take(i as int) =~= v@);
    out
}

fn fold_lines(v: &[char]) -> (out: Vec<char>)
    ensures
        out@ == folded(v@),
{
    let lines = text::split(v, '\n');
    let space = text::to_chars(" ");
    let line_end = text::to_chars("\n");
    let mut kept: Vec<Vec<char>> = Vec::new();
    let mut i: usize = 0;
    let ghost all = text::views(lines@);
    assert(text::views(kept@) =~= full_lines(all.take(0)));
    while i < lines.len()
        invariant
            i <= lines.len(),
            space@ == " "@,
            all == text::views(lines@),
            text::views(kept@) == full_lines(all.take(i as int)),
        decreases lines.len() - i,
    {
        assert(all.take(i + 1).drop_last() =~= all.take(i as int));
        let found = text::split_words(&lines[i]);
        let line = text::join(&found, &space);
        assert(line@ == squeezed(all.take(i + 1).last()));
        if line.len() > 0 {
            proof {
                text::lemma_views_push(kept@, line);
            }
            kept.push(line);
        }
        i += 1;
    }
    assert(all.take(i as int) =~= all);
    text::join(&kept, &line_end)
}

/// The text that a page shows whose hidden blocks are gone already: line ends for the tags
/// that end a line, no other tags, entities decoded, white space folded.
pub fn page_text(page: &str) -> (out: String)
    ensures
        out@ == shown_text(page@),
{
    let v = text::to_chars(page);
    let broken = break_lines(v);
    let bare = strip_tags(&broken);
    let plain = decode_chars(&bare);
    let visible = drop_invisible(&plain);
    let out = fold_lines(&visible);
    text::from_chars(&out)
}

/// The text that an HTML page shows.
pub fn html_to_text(html: &str) -> (out: String)
    ensures
        out@ == text_of_html(html@),
{
    let page = regex_replace(
        r"(?is)<style\b[^>]*>.*?</\s*style\s*>|<script\b[^>]*>.*?</\s*script\s*>|<head\b[^>]*>.*?</\s*head\s*>|<!--.*?-->",
        html,
        " ",
    );
    page_text(page.as_str())
}

// ---------------------------------------------------------------------------
// The body of a mail
// ---------------------------------------------------------------------------

/// `s` in lower case, as `str::to_lowercase` writes it.
pub uninterp spec fn lowercased(s: Seq<char>) -> Seq<char>;

/// Calls `str::to_lowercase`, which maps characters by the Unicode tables. The result is a
/// function of the text.
#[verifier::external_body]
fn to_lowercase(s: &str) -> (l: String)
    ensures
        l@ == lowercased(s@),
{
    s.to_lowercase()
}

/// A trimmed text `t`, whose lower case is `lower`, only says that the mail is to be read as
/// HTML: it is empty, or says outright that there is no plain text, or is short and asks for
/// an HTML viewer.
pub open spec fn placeholder(t: Seq<char>, lower: Seq<char>) -> bool {
    ||| t.len() == 0
    ||| text::holds(lower, "plain text version not available"@)
    ||| text::holds(lower, "plain text version is not available"@)
    ||| {
        &&& t.len() < 120
        &&& text::holds(lower, "html"@)
        &&& {
            ||| text::holds(lower, "view"@)
            ||| text::holds(lower, "requires"@)
            ||| text::holds(lower, "enable"@)
            ||| text::holds(lower, "capable"@)
        }
    }
}

/// Whether the trimmed text `t`, whose lower case is `lower`, only says that the mail is to be
/// read as HTML.
pub fn reads_as_placeholder(t: &str, lower: &str) -> (yes: bool)
    ensures
        yes == placeholder(t@, lower@),
{
    let len: usize = t.unicode_len();
    if len == 0 {
        return true;
    }
    if text::contains(lower, "plain text version not available") || text::contains(
        lower,
        "plain text version is not available",
    ) {
        return true;
    }
    len < 120 && text::contains(lower, "html") && (text::contains(lower, "view") || text::contains(
        lower,
        "requires",
    ) || text::contains(lower, "enable") || text::contains(lower, "capable"))
}

/// Whether a plain text body only says that the mail is to be read as HTML.
pub fn is_placeholder_text(s: &str) -> (yes: bool)
    ensures
        yes == placeholder(text::trimmed(s@), lowercased(text::trimmed(s@))),
{
    let t = text::trim(s);
    let lower = to_lowercase(t.as_str());
    reads_as_placeholder(t.as_str(), lower.as_str())
}

/// The plain text body of a mail, trimmed.
pub open spec fn plain_body(parts: message::MailPartsView) -> Seq<char> {
    text::trimmed(text::opt_or(parts.text, Seq::<char>::empty()))
}

/// The body that is shown of a mail with the plain text `plain`: the text of its HTML, where
/// that was asked for and is not blank, and else `plain`.
pub open spec fn better_body(plain: Seq<char>, shown: Option<Seq<char>>) -> Seq<char> {
    match shown {
        Some(h) => if text::blank(h) {
            plain
        } else {
            h
        },
        None => plain,
    }
}

/// The text of the HTML body, where there is one and the plain text does not do.
pub open spec fn wanted_html(parts: message::MailPartsView) -> Option<Seq<char>> {
    let plain = plain_body(parts);
    match parts.html {
        Some(html) => if placeholder(plain, lowercased(plain)) {
            Some(text_of_html(html))
        } else {
            None
        },
        None => None,
    }
}

/// The readable body of a mail.
pub open spec fn readable_body(parts: message::MailPartsView) -> Seq<char> {
    better_body(plain_body(parts), wanted_html(parts))
}

/// The text of the HTML, where it is given and not blank, and else the plain text.
pub fn choose_body(plain: String, shown: Option<String>) -> (body: String)
    ensures
        body@ == better_body(plain@, text::opt(shown)),
{
    match shown {
        Some(h) => {
            let v = text::to_chars(h.as_str());
            if text::is_blank(&v) {
                plain
            } else {
                h
            }
        },
        None => plain,
    }
}

/// The readable body of a mail: its plain text, unless that is missing or a mere placeholder
/// and the HTML has something to show.
pub fn extract_body(msg: &MailMessage) -> (body: String)
    ensures
        body@ == readable_body(msg@.parts),
{
    let plain = match &msg.parts.text {
        Some(t) => text::trim(t.as_str()),
        None => String::new(),
    };
    proof {
        text::lemma_blank_trims_to_nothing(Seq::<char>::empty());
        assert(plain@ =~= plain_body(msg@.parts));
        text::lemma_trim_twice(text::opt_or(msg@.parts.text, Seq::<char>::empty()));
    }
    let shown = match &msg.parts.html {
        Some(html) => if is_placeholder_text(plain.as_str()) {
            Some(html_to_text(html.as_str()))
        } else {
            None
        },
        None => None,
    };
    choose_body(plain, shown)
}

// ---------------------------------------------------------------------------
// Laws
// ---------------------------------------------------------------------------

proof fn lemma_escaped_concat(a: Seq<char>, b: Seq<char>)
    ensures
        escaped(a + b) == escaped(a) + escaped(b),
    decreases b.len(),
{
    if b.len() == 0 {
        assert(a + b =~= a);
        assert(escaped(a) + escaped(b) =~= escaped(a));
    } else {
        lemma_escaped_concat(a, b.drop_last());
        assert((a + b).drop_last() =~= a + b.drop_last());
        assert(escaped(a + b) =~= escaped(a) + escaped(b));
    }
}

proof fn lemma_escaped_one(c: char)
    ensures
        escaped(seq![c]) == escaped_char(c),
{
    assert(seq![c].drop_last() =~= Seq::<char>::empty());
    assert(escaped(Seq::<char>::empty()) =~= Seq::<char>::empty());
    assert(escaped(seq![c]) =~= escaped_char(c));
}

proof fn lemma_name_run(s: Seq<char>, p: int, n: int)
    requires
        0 <= p,
        0 <= n,
        p + n < s.len(),
        forall|i: int| p <= i < p + n ==> ascii_letter(#[trigger] s[i]),
        s[p + n] == ';',
    ensures
        name_run_end(s, p) == p + n,
    decreases n,
{
    if n > 0 {
        assert(ascii_letter(s[p]));
        lemma_name_run(s, p + 1, n - 1);
    }
}

/// The escape of a character decodes to the character, wherever it stands.
proof fn lemma_decode_one(s: Seq<char>, p: int, c: char)
    requires
        text::starts_at(s, p, escaped_char(c)),
    ensures
        decoded_from(s, p) == seq![c] + decoded_from(s, p + escaped_char(c).len()),
        escaped_char(c).len() > 0,
{
    reveal_strlit("&amp;");
    reveal_strlit("&lt;");
    reveal_strlit("&gt;");
    reveal_strlit("amp");
    reveal_strlit("lt");
    reveal_strlit("gt");
    reveal_strlit("&");
    reveal_strlit("<");
    reveal_strlit(">");
    let e = escaped_char(c);
    let part = s.subrange(p, p + e.len());
    assert forall|i: int| 0 <= i < e.len() implies s[p + i] == #[trigger] e[i] by {
        assert(part[i] == s[p + i]);
    }
    assert(s[p] == e[0]);
    if c == '&' || c == '<' || c == '>' {
        let n = e.len() - 3;
        assert(s[p + 1] == e[1]);
        assert(s[p + 2] == e[2]);
        assert(s[p + 3] == e[3]);
        assert(e[e.len() - 1] == ';');
        assert(s[p + 2 + n] == e[e.len() - 1]);
        lemma_name_run(s, p + 2, n);
        assert(entity_end(s, p) == Some(p + e.len()));
        let name = part.subrange(1, part.len() - 1);
        if c == '&' {
            assert(name =~= "amp"@);
            assert("&"@ =~= seq![c]);
        } else if c == '<' {
            assert(name =~= "lt"@);
            assert(name[0] != "amp"@[0]);
            assert("<"@ =~= seq![c]);
        } else {
            assert(name =~= "gt"@);
            assert(name[0] != "amp"@[0] && name[0] != "lt"@[0]);
            assert(">"@ =~= seq![c]);
        }
        assert(name[0] != '#');
        assert(entity_text(part) == seq![c]);
    }
}

proof fn lemma_decode_escaped_from(s: Seq<char>, k: int)
    requires
        0 <= k <= s.len(),
    ensures
        decoded_from(escaped(s), escaped(s.take(k)).len() as int) == s.skip(k),
    decreases s.len() - k,
{
    let all = escaped(s);
    let p = escaped(s.take(k)).len() as int;
    if k == s.len() {
        assert(s.take(k) =~= s);
        assert(s.skip(k) =~= Seq::<char>::empty());
    } else {
        let c = s[k];
        lemma_decode_escaped_from(s, k + 1);
        lemma_escaped_concat(s.take(k + 1), s.skip(k + 1));
        assert(s.take(k + 1) + s.skip(k + 1) =~= s);
        assert(s.take(k + 1).drop_last() =~= s.take(k));
        assert(escaped(s.take(k + 1)) == escaped(s.take(k)) + escaped_char(c));
        assert(all.subrange(p, p + escaped_char(c).len()) =~= escaped_char(c));
        lemma_decode_one(all, p, c);
        assert(seq![c] + s.skip(k + 1) =~= s.skip(k));
    }
}

/// Decoding undoes escaping.
pub proof fn lemma_decode_undoes_escape(s: Seq<char>)
    ensures
        decoded(escaped(s)) == s,
{
    lemma_decode_escaped_from(s, 0);
    assert(s.take(0) =~= Seq::<char>::empty());
    assert(s.skip(0) =~= s);
}

/// An escaped text holds no angle bracket, so it opens no tag.
pub proof fn lemma_escaped_opens_no_tag(s: Seq<char>)
    ensures
        !escaped(s).contains('<'),
        !escaped(s).contains('>'),
    decreases s.len(),
{
    reveal_strlit("&amp;");
    reveal_strlit("&lt;");
    reveal_strlit("&gt;");
    if s.len() > 0 {
        let head = escaped(s.drop_last());
        let e = escaped_char(s.last());
        lemma_escaped_opens_no_tag(s.drop_last());
        assert forall|i: int| 0 <= i < (head + e).len() implies (#[trigger] (head + e)[i]) != '<'
            && (head + e)[i] != '>' by {
            if i < head.len() {
                assert(head.contains(head[i]));
            }
        }
    }
}

/// What is left of a page without its tags holds no angle bracket.
pub proof fn lemma_untagged_holds_no_tag(s: Seq<char>)
    ensures
        !untagged(s).contains('<'),
        !untagged(s).contains('>'),
    decreases s.len(),
{
    if s.len() > 0 {
        let head = untagged(s.drop_last());
        lemma_untagged_holds_no_tag(s.drop_last());
        assert forall|i: int| 0 <= i < untagged(s).len() implies (#[trigger] untagged(s)[i]) != '<'
            && untagged(s)[i] != '>' by {
            if i < head.len() {
                assert(head.contains(head[i]));
            }
        }
    }
}

proof fn lemma_untagged_same(s: Seq<char>)
    requires
        !s.contains('<'),
        !s.contains('>'),
    ensures
        untagged(s) == s,
        !in_tag(s),
    decreases s.len(),
{
    if s.len() > 0 {
        let head = s.drop_last();
        assert(s.contains(s[s.len() - 1]));
        assert forall|x: char| head.contains(x) implies s.contains(x) by {
            let i = choose|i: int| 0 <= i < head.len() && head[i] == x;
            assert(s[i] == x);
        }
        lemma_untagged_same(head);
        assert(head.push(s.last()) =~= s);
    }
}

proof fn lemma_nothing_to_replace(s: Seq<char>, p: Seq<char>, with: Seq<char>)
    requires
        p.len() > 0,
        !s.contains(p[0]),
    ensures
        text::replaced(s, p, with) == s,
    decreases s.len(),
{
    if s.len() > 0 {
        assert(s.contains(s[0]));
        if text::starts_at(s, 0, p) {
            assert(s.subrange(0, p.len() as int)[0] == s[0]);
        }
        let rest = s.skip(1);
        assert forall|x: char| rest.contains(x) implies s.contains(x) by {
            let i = choose|i: int| 0 <= i < rest.len() && rest[i] == x;
            assert(s[i + 1] == x);
        }
        lemma_nothing_to_replace(rest, p, with);
        assert(seq![s[0]] + rest =~= s);
    }
}

proof fn lemma_replace_skips(a: Seq<char>, b: Seq<char>, p: Seq<char>, with: Seq<char>)
    requires
        p.len() > 0,
        !a.contains(p[0]),
    ensures
        text::replaced(a + b, p, with) == a + text::replaced(b, p, with),
    decreases a.len(),
{
    if a.len() == 0 {
        assert(a + b =~= b);
        assert(a + text::replaced(b, p, with) =~= text::replaced(b, p, with));
    } else {
        let s = a + b;
        let rest = a.skip(1);
        assert(a.contains(a[0]));
        if text::starts_at(s, 0, p) {
            assert(s.subrange(0, p.len() as int)[0] == a[0]);
        }
        assert forall|x: char| rest.contains(x) implies a.contains(x) by {
            let i = choose|i: int| 0 <= i < rest.len() && rest[i] == x;
            assert(a[i + 1] == x);
        }
        lemma_replace_skips(rest, b, p, with);
        assert(s.skip(1) =~= rest + b);
        assert(seq![a[0]] + (rest + text::replaced(b, p, with)) =~= a + text::replaced(b, p, with));
    }
}

/// The breaks of rendered prose are its line ends.
proof fn lemma_breaks_are_line_ends(s: Seq<char>, k: int)
    requires
        0 <= k <= s.len(),
    ensures
        prose_html(s).len() >= prose_html(s.take(k)).len(),
        text::replaced(
            prose_html(s).skip(prose_html(s.take(k)).len() as int),
            "<br>"@,
            "\n"@,
        ) == escaped(s.skip(k)),
    decreases s.len() - k,
{
    reveal_strlit("<br>");
    reveal_strlit("\n");
    let all = prose_html(s);
    let at = prose_html(s.take(k)).len() as int;
    if k == s.len() {
        assert(s.take(k) =~= s);
        assert(all.skip(at) =~= Seq::<char>::empty());
        assert(s.skip(k) =~= Seq::<char>::empty());
    } else {
        let c = s[k];
        let one = if c == '\n' {
            "<br>"@
        } else {
            escaped_char(c)
        };
        lemma_breaks_are_line_ends(s, k + 1);
        assert(s.take(k + 1).drop_last() =~= s.take(k));
        assert(prose_html(s.take(k + 1)) == prose_html(s.take(k)) + one);
        lemma_prose_html_grows(s, k + 1);
        let rest = all.skip(at + one.len());
        assert forall|i: int| 0 <= i < one.len() implies all[at + i] == #[trigger] one[i] by {
            assert(all.take(at + one.len())[at + i] == one[i]);
        }
        assert(all.skip(at) =~= one + rest);
        lemma_escaped_concat(seq![c], s.skip(k + 1));
        lemma_escaped_one(c);
        assert(seq![c] + s.skip(k + 1) =~= s.skip(k));
        if c == '\n' {
            assert((one + rest).subrange(0, 4) =~= "<br>"@);
            assert((one + rest).skip(4) =~= rest);
            assert("\n"@ =~= escaped_char(c));
        } else {
            lemma_escaped_opens_no_tag(seq![c]);
            lemma_replace_skips(one, rest, "<br>"@, "\n"@);
        }
    }
}

proof fn lemma_prose_html_grows(s: Seq<char>, k: int)
    requires
        0 <= k <= s.len(),
    ensures
        prose_html(s).len() >= prose_html(s.take(k)).len(),
        prose_html(s).take(prose_html(s.take(k)).len() as int) == prose_html(s.take(k)),
    decreases s.len(),
{
    if k == s.len() {
        assert(s.take(k) =~= s);
        assert(prose_html(s).take(prose_html(s).len() as int) =~= prose_html(s));
    } else {
        let head = s.drop_last();
        lemma_prose_html_grows(head, k);
        assert(head.take(k) =~= s.take(k));
        let n = prose_html(s.take(k)).len() as int;
        assert(prose_html(s).take(n) =~= prose_html(head).take(n));
    }
}

proof fn lemma_line_ends_of_prose(s: Seq<char>, n: int)
    requires
        1 <= n <= line_tags().len(),
    ensures
        with_line_ends(prose_html(s), line_tags().take(n)) == escaped(s),
    decreases n,
{
    let upto = line_tags().take(n);
    assert(upto.drop_last() =~= line_tags().take(n - 1));
    if n == 1 {
        lemma_breaks_are_line_ends(s, 0);
        assert(s.take(0) =~= Seq::<char>::empty());
        assert(s.skip(0) =~= s);
        assert(prose_html(s).skip(0) =~= prose_html(s));
        assert(upto.drop_last() =~= Seq::<Seq<char>>::empty());
        assert(with_line_ends(prose_html(s), upto.drop_last()) == prose_html(s));
    } else {
        lemma_line_ends_of_prose(s, n - 1);
        lemma_escaped_opens_no_tag(s);
        reveal_strlit("<br/>");
        reveal_strlit("<br />");
        reveal_strlit("</p>");
        reveal_strlit("</div>");
        reveal_strlit("</tr>");
        reveal_strlit("</li>");
        reveal_strlit("</h1>");
        reveal_strlit("</h2>");
        reveal_strlit("</h3>");
        reveal_strlit("</h4>");
        assert(upto.last()[0] == '<');
        lemma_nothing_to_replace(escaped(s), upto.last(), "\n"@);
    }
}

/// A page of rendered prose shows the prose: all but invisible characters and the folding of
/// white space comes back.
pub proof fn lemma_page_shows_prose(s: Seq<char>)
    ensures
        shown_text(prose_html(s)) == folded(seen(s)),
{
    lemma_line_ends_of_prose(s, line_tags().len() as int);
    assert(line_tags().take(line_tags().len() as int) =~= line_tags());
    lemma_escaped_opens_no_tag(s);
    lemma_untagged_same(escaped(s));
    lemma_decode_undoes_escape(s);
}

/// A line that folding leaves as it is.
pub open spec fn settled_line(l: Seq<char>) -> bool {
    squeezed(l) == l && l.len() > 0 && !l.contains('\n')
}

proof fn lemma_squeezed(l: Seq<char>)
    ensures
        squeezed(l).len() > 0 ==> settled_line(squeezed(l)),
{
    reveal_strlit(" ");
    assert(" "@ =~= seq![' ']);
    text::lemma_words(l);
    let ws = text::words(l);
    text::lemma_words_undo_join(ws);
    assert forall|i: int| 0 <= i < ws.len() implies !(#[trigger] ws[i]).contains('\n') by {
        assert(text::word(ws[i]));
        if ws[i].contains('\n') {
            let j = choose|j: int| 0 <= j < ws[i].len() && ws[i][j] == '\n';
            assert(!text::white_space(ws[i][j]));
        }
    }
    text::lemma_joined_chars(ws, " "@, '\n');
}

proof fn lemma_full_lines_settled(lines: Seq<Seq<char>>)
    ensures
        forall|i: int|
            0 <= i < full_lines(lines).len() ==> settled_line(#[trigger] full_lines(lines)[i]),
    decreases lines.len(),
{
    if lines.len() > 0 {
        let head = full_lines(lines.drop_last());
        lemma_full_lines_settled(lines.drop_last());
        lemma_squeezed(lines.last());
        assert forall|i: int| 0 <= i < full_lines(lines).len() implies settled_line(
            #[trigger] full_lines(lines)[i],
        ) by {
            if i < head.len() {
                assert(settled_line(head[i]));
            }
        }
    }
}

proof fn lemma_settled_lines_stay(lines: Seq<Seq<char>>)
    requires
        forall|i: int| 0 <= i < lines.len() ==> settled_line(#[trigger] lines[i]),
    ensures
        full_lines(lines) == lines,
    decreases lines.len(),
{
    if lines.len() > 0 {
        let head = lines.drop_last();
        assert forall|i: int| 0 <= i < head.len() implies settled_line(#[trigger] head[i]) by {
            assert(settled_line(lines[i]));
        }
        lemma_settled_lines_stay(head);
        assert(settled_line(lines[lines.len() - 1]));
        assert(head.push(lines.last()) =~= lines);
    }
}

/// Folding white space twice is folding it once.
pub proof fn lemma_fold_twice(s: Seq<char>)
    ensures
        folded(folded(s)) == folded(s),
{
    reveal_strlit("\n");
    assert("\n"@ =~= seq!['\n']);
    let lines = full_lines(text::split_on(s, '\n'));
    lemma_full_lines_settled(text::split_on(s, '\n'));
    if lines.len() == 0 {
        let empty = Seq::<char>::empty();
        assert(folded(s) =~= empty);
        let one = seq![empty];
        assert(text::split_on(empty, '\n') =~= one);
        assert(squeezed(empty) =~= empty);
        assert(one.drop_last() =~= Seq::<Seq<char>>::empty());
        assert(full_lines(one.drop_last()) =~= Seq::<Seq<char>>::empty());
        assert(full_lines(one) =~= Seq::<Seq<char>>::empty());
    } else {
        assert forall|i: int| 0 <= i < lines.len() implies !(#[trigger] lines[i]).contains('\n') by {
            assert(settled_line(lines[i]));
        }
        text::lemma_split_undoes_join(lines, '\n');
        lemma_settled_lines_stay(lines);
    }
}

/// Rendering goes piece by piece.
pub proof fn lemma_html_concat(a: Seq<segment::Piece>, b: Seq<segment::Piece>)
    ensures
        html_of(a + b) == html_of(a) + html_of(b),
    decreases b.len(),
{
    if b.len() == 0 {
        assert(a + b =~= a);
        assert(html_of(a) + html_of(b) =~= html_of(a));
    } else {
        lemma_html_concat(a, b.drop_last());
        assert((a + b).drop_last() =~= a + b.drop_last());
        assert(html_of(a + b) =~= html_of(a) + html_of(b));
    }
}

/// A mail reads as blank only where neither its plain text nor the HTML that takes its place
/// has anything to show.
pub proof fn lemma_body_blank_only_if_nothing_to_show(parts: message::MailPartsView)
    ensures
        text::blank(readable_body(parts)) <==> {
            &&& text::blank(text::opt_or(parts.text, Seq::<char>::empty()))
            &&& parts.html is Some ==> text::blank(text_of_html(parts.html->0))
        },
{
    let plain = text::opt_or(parts.text, Seq::<char>::empty());
    text::lemma_blank_trims_to_nothing(plain);
    text::lemma_trim_twice(plain);
    text::lemma_blank_trims_to_nothing(text::trimmed(plain));
}

// Rendering over a line end ----------------------------------------------------

proof fn lemma_run_ends_shift(s: Seq<char>, m: int, p: int)
    requires
        0 <= m <= s.len(),
        0 <= p,
    ensures
        segment::url_run_end(s, m + p) == m + segment::url_run_end(s.skip(m), p),
        segment::digit_run_end(s, m + p) == m + segment::digit_run_end(s.skip(m), p),
    decreases s.len() - m - p,
{
    if m + p < s.len() {
        assert(s.skip(m)[p] == s[m + p]);
        lemma_run_ends_shift(s, m, p + 1);
    }
}

proof fn lemma_scheme_len_shift(s: Seq<char>, m: int, p: int)
    requires
        0 <= m <= s.len(),
        0 <= p,
    ensures
        segment::scheme_len(s, m + p) == segment::scheme_len(s.skip(m), p),
{
    reveal_strlit("https://");
    reveal_strlit("http://");
    if m + p + 8 <= s.len() {
        assert(s.subrange(m + p, m + p + 8) =~= s.skip(m).subrange(p, p + 8));
    }
    if m + p + 7 <= s.len() {
        assert(s.subrange(m + p, m + p + 7) =~= s.skip(m).subrange(p, p + 7));
    }
}

/// The link that begins at `m + i` in `s` is the one that begins at `i` behind `m`.
spec fn shifted(u: Option<segment::UrlSpan>, m: int) -> Option<segment::UrlSpan> {
    match u {
        Some(u) => Some(
            segment::UrlSpan {
                start: (u.start + m) as usize,
                url_start: (u.url_start + m) as usize,
                url_end: (u.url_end + m) as usize,
                end: (u.end + m) as usize,
            },
        ),
        None => None,
    }
}

proof fn lemma_url_at_shift(s: Seq<char>, m: int, i: int)
    requires
        s.len() <= usize::MAX,
        0 <= m <= s.len(),
        0 <= i,
    ensures
        segment::url_at(s, m + i) == shifted(segment::url_at(s.skip(m), i), m),
{
    let r = s.skip(m);
    if m + i < s.len() {
        assert(r[i] == s[m + i]);
        let body = if r[i] == '<' {
            i + 1
        } else {
            i
        };
        lemma_scheme_len_shift(s, m, body);
        let head = segment::scheme_len(r, body);
        lemma_run_ends_shift(s, m, body + head);
        let stop = segment::url_run_end(r, body + head);
        if segment::url_at(r, i) is Some {
            segment::lemma_url_at(r, i);
            if stop < r.len() {
                assert(r[stop] == s[m + stop]);
            }
        } else if segment::url_at(s, m + i) is Some {
            segment::lemma_url_at(s, m + i);
        }
    }
}

proof fn lemma_first_url_shift(s: Seq<char>, m: int, i: int)
    requires
        s.len() <= usize::MAX,
        0 <= m <= s.len(),
        0 <= i,
    ensures
        segment::first_url(s, m + i) == shifted(segment::first_url(s.skip(m), i), m),
    decreases s.len() - m - i,
{
    if m + i < s.len() {
        lemma_url_at_shift(s, m, i);
        lemma_first_url_shift(s, m, i + 1);
    }
}

proof fn lemma_segments_shift(s: Seq<char>, m: int, i: int)
    requires
        s.len() <= usize::MAX,
        0 <= m <= s.len(),
        0 <= i <= s.len() - m,
    ensures
        segment::segments_from(s, m + i) == segment::segments_from(s.skip(m), i),
    decreases s.len() - m - i,
{
    let r = s.skip(m);
    lemma_first_url_shift(s, m, i);
    segment::lemma_first_url(r, i);
    match segment::first_url(r, i) {
        None => {
            assert(s.subrange(m + i, s.len() as int) =~= r.subrange(i, r.len() as int));
        },
        Some(u) => {
            segment::lemma_url_at(r, u.start as int);
            lemma_segments_shift(s, m, u.end as int);
            assert(s.subrange(m + i, m + u.start) =~= r.subrange(i, u.start as int));
            assert(s.subrange(m + u.url_start, m + u.url_end) =~= r.subrange(
                u.url_start as int,
                u.url_end as int,
            ));
        },
    }
}

proof fn lemma_prose_from_shift(t: Seq<char>, m: int, last: int, at: int)
    requires
        0 <= m <= t.len(),
        0 <= last <= at <= t.len() - m,
    ensures
        segment::prose_from(t, m + last, m + at) == segment::prose_from(t.skip(m), last, at),
    decreases t.len() - m - at,
{
    let r = t.skip(m);
    if at == r.len() {
        assert(t.subrange(m + last, t.len() as int) =~= r.subrange(last, r.len() as int));
    } else {
        assert(r[at] == t[m + at]);
        if !segment::digit_char(r[at]) {
            lemma_prose_from_shift(t, m, last, at + 1);
        } else {
            segment::lemma_digit_run_end(r, at);
            lemma_run_ends_shift(t, m, at);
            let end = segment::digit_run_end(r, at);
            assert(t.subrange(m + last, m + at) =~= r.subrange(last, at));
            assert(t.subrange(m + at, m + end) =~= r.subrange(at, end));
            if segment::code_length(end - at) {
                lemma_prose_from_shift(t, m, end, end);
            } else {
                lemma_prose_from_shift(t, m, last, end);
            }
        }
    }
}

proof fn lemma_prose_html_concat(a: Seq<char>, b: Seq<char>)
    ensures
        prose_html(a + b) == prose_html(a) + prose_html(b),
    decreases b.len(),
{
    if b.len() == 0 {
        assert(a + b =~= a);
        assert(prose_html(a) + prose_html(b) =~= prose_html(a));
    } else {
        lemma_prose_html_concat(a, b.drop_last());
        assert((a + b).drop_last() =~= a + b.drop_last());
        assert(prose_html(a + b) =~= prose_html(a) + prose_html(b));
    }
}

proof fn lemma_html_one(p: segment::Piece)
    ensures
        html_of(seq![p]) == piece_html(p),
{
    assert(seq![p].drop_last() =~= Seq::<segment::Piece>::empty());
    assert(html_of(Seq::<segment::Piece>::empty()) =~= Seq::<char>::empty());
    assert(html_of(seq![p]) =~= piece_html(p));
}

proof fn lemma_html_text_piece(t: Seq<char>)
    ensures
        html_of(segment::text_piece(t)) == prose_html(t),
{
    if t.len() > 0 {
        lemma_html_one(segment::Piece::Text(t));
    }
}

/// The HTML of prose, a piece behind it, and what follows.
proof fn lemma_html_three(a: Seq<segment::Piece>, p: segment::Piece, b: Seq<segment::Piece>)
    ensures
        html_of(a.push(p) + b) == html_of(a) + piece_html(p) + html_of(b),
{
    lemma_html_concat(a.push(p), b);
    assert(a.push(p).drop_last() =~= a);
}

proof fn lemma_prose_behind_line_end(t: Seq<char>, m: int, last: int, j: int)
    requires
        0 <= last <= m <= t.len(),
        0 <= j <= t.len() - m,
    ensures
        html_of(segment::prose_from(t, last, m + j)) == prose_html(t.subrange(last, m)) + html_of(
            segment::prose_from(t.skip(m), 0, j),
        ),
    decreases t.len() - m - j,
{
    let y = t.skip(m);
    if j == y.len() {
        lemma_html_text_piece(t.subrange(last, t.len() as int));
        lemma_html_text_piece(y.subrange(0, y.len() as int));
        lemma_prose_html_concat(t.subrange(last, m), y.subrange(0, y.len() as int));
        assert(t.subrange(last, t.len() as int) =~= t.subrange(last, m) + y.subrange(
            0,
            y.len() as int,
        ));
    } else {
        assert(y[j] == t[m + j]);
        if !segment::digit_char(y[j]) {
            lemma_prose_behind_line_end(t, m, last, j + 1);
        } else {
            segment::lemma_digit_run_end(y, j);
            lemma_run_ends_shift(t, m, j);
            let end = segment::digit_run_end(y, j);
            if segment::code_length(end - j) {
                lemma_prose_from_shift(t, m, end, end);
                let code = segment::Piece::Code(y.subrange(j, end));
                let rest = segment::prose_from(y, end, end);
                assert(t.subrange(m + j, m + end) =~= y.subrange(j, end));
                lemma_html_three(segment::text_piece(t.subrange(last, m + j)), code, rest);
                lemma_html_three(segment::text_piece(y.subrange(0, j)), code, rest);
                lemma_html_text_piece(t.subrange(last, m + j));
                lemma_html_text_piece(y.subrange(0, j));
                lemma_prose_html_concat(t.subrange(last, m), y.subrange(0, j));
                assert(t.subrange(last, m + j) =~= t.subrange(last, m) + y.subrange(0, j));
                assert(prose_html(t.subrange(last, m)) + prose_html(y.subrange(0, j)) + piece_html(
                    code,
                ) + html_of(rest) =~= prose_html(t.subrange(last, m)) + (prose_html(
                    y.subrange(0, j),
                ) + piece_html(code) + html_of(rest)));
            } else {
                lemma_prose_behind_line_end(t, m, last, end);
            }
        }
    }
}

proof fn lemma_digit_run_before_line_end(x: Seq<char>, y: Seq<char>, p: int)
    requires
        0 <= p <= x.len(),
    ensures
        segment::digit_run_end(x.push('\n') + y, p) == segment::digit_run_end(x, p),
        segment::url_run_end(x.push('\n') + y, p) == segment::url_run_end(x, p),
    decreases x.len() - p,
{
    let t = x.push('\n') + y;
    if p < x.len() {
        assert(t[p] == x[p]);
        lemma_digit_run_before_line_end(x, y, p + 1);
    } else {
        assert(t[p] == '\n');
    }
}

proof fn lemma_prose_over_line_end(x: Seq<char>, y: Seq<char>, last: int, at: int)
    requires
        0 <= last <= at <= x.len(),
    ensures
        html_of(segment::prose_from(x.push('\n') + y, last, at)) == html_of(
            segment::prose_from(x, last, at),
        ) + "<br>"@ + html_of(segment::prose(y)),
    decreases x.len() - at,
{
    let t = x.push('\n') + y;
    let m = x.len() + 1;
    let tail = "<br>"@ + html_of(segment::prose(y));
    if at == x.len() {
        assert(t[at] == '\n');
        lemma_prose_behind_line_end(t, m as int, last, 0);
        assert(t.skip(m as int) =~= y);
        let line = x.subrange(last, x.len() as int);
        assert(t.subrange(last, m as int) =~= line.push('\n'));
        assert(line.push('\n').drop_last() =~= line);
        lemma_html_text_piece(line);
        assert(prose_html(line) + "<br>"@ + html_of(segment::prose(y)) =~= prose_html(line)
            + tail);
    } else {
        assert(t[at] == x[at]);
        if !segment::digit_char(x[at]) {
            lemma_prose_over_line_end(x, y, last, at + 1);
        } else {
            segment::lemma_digit_run_end(x, at);
            lemma_digit_run_before_line_end(x, y, at);
            let end = segment::digit_run_end(x, at);
            assert(t.subrange(last, at) =~= x.subrange(last, at));
            assert(t.subrange(at, end) =~= x.subrange(at, end));
            if segment::code_length(end - at) {
                lemma_prose_over_line_end(x, y, end, end);
                let head = segment::text_piece(x.subrange(last, at));
                let code = segment::Piece::Code(x.subrange(at, end));
                lemma_html_three(head, code, segment::prose_from(t, end, end));
                lemma_html_three(head, code, segment::prose_from(x, end, end));
                assert(html_of(segment::prose_from(t, last, at)) =~= html_of(
                    segment::prose_from(x, last, at),
                ) + "<br>"@ + html_of(segment::prose(y)));
            } else {
                lemma_prose_over_line_end(x, y, last, end);
            }
        }
    }
}

proof fn lemma_scheme_before_line_end(a: Seq<char>, b: Seq<char>, p: int)
    requires
        0 <= p <= a.len(),
    ensures
        segment::scheme_len(a.push('\n') + b, p) == segment::scheme_len(a, p),
{
    reveal_strlit("https://");
    reveal_strlit("http://");
    let s = a.push('\n') + b;
    let n = a.len() as int;
    assert(s[n] == '\n');
    if p + 8 <= s.len() {
        if p + 8 <= n {
            assert(s.subrange(p, p + 8) =~= a.subrange(p, p + 8));
        } else {
            assert(s.subrange(p, p + 8)[n - p] == '\n');
        }
    }
    if p + 7 <= s.len() {
        if p + 7 <= n {
            assert(s.subrange(p, p + 7) =~= a.subrange(p, p + 7));
        } else {
            assert(s.subrange(p, p + 7)[n - p] == '\n');
        }
    }
}

proof fn lemma_url_before_line_end(a: Seq<char>, b: Seq<char>, k: int)
    requires
        a.len() + 1 + b.len() <= usize::MAX,
        0 <= k <= a.len(),
    ensures
        segment::url_at(a.push('\n') + b, k) == segment::url_at(a, k),
{
    let s = a.push('\n') + b;
    let n = a.len() as int;
    assert(s[n] == '\n');
    if k < n {
        assert(s[k] == a[k]);
        let body = if a[k] == '<' {
            k + 1
        } else {
            k
        };
        lemma_scheme_before_line_end(a, b, body);
        let head = segment::scheme_len(a, body);
        if head > 0 {
            reveal_strlit("https://");
            reveal_strlit("http://");
            lemma_digit_run_before_line_end(a, b, body + head);
            let stop = segment::url_run_end(a, body + head);
            if segment::url_at(a, k) is Some {
                segment::lemma_url_at(a, k);
                if stop < n {
                    assert(s[stop] == a[stop]);
                }
            }
        }
    } else {
        lemma_scheme_before_line_end(a, b, n);
    }
}

proof fn lemma_first_url_over_line_end(a: Seq<char>, b: Seq<char>, from: int)
    requires
        a.len() + 1 + b.len() <= usize::MAX,
        0 <= from <= a.len(),
    ensures
        segment::first_url(a.push('\n') + b, from) == (if segment::first_url(a, from) is Some {
            segment::first_url(a, from)
        } else {
            shifted(segment::first_url(b, 0), a.len() as int + 1)
        }),
    decreases a.len() - from,
{
    let s = a.push('\n') + b;
    lemma_url_before_line_end(a, b, from);
    if from < a.len() {
        lemma_first_url_over_line_end(a, b, from + 1);
    } else {
        let m = a.len() + 1;
        lemma_first_url_shift(s, m as int, 0);
        assert(s.skip(m as int) =~= b);
    }
}

proof fn lemma_html_cut_at_link(s: Seq<char>, from: int, u: segment::UrlSpan)
    requires
        s.len() <= usize::MAX,
        0 <= from <= s.len(),
        segment::first_url(s, from) == Some(u),
    ensures
        from <= u.start < u.end <= s.len(),
        html_of(segment::segments_from(s, from)) == html_of(
            segment::prose(s.subrange(from, u.start as int)),
        ) + url_html(s.subrange(u.url_start as int, u.url_end as int)) + html_of(
            segment::segments_from(s, u.end as int),
        ),
{
    segment::lemma_first_url(s, from);
    segment::lemma_url_at(s, u.start as int);
    lemma_html_three(
        segment::prose(s.subrange(from, u.start as int)),
        segment::Piece::Url(s.subrange(u.url_start as int, u.url_end as int)),
        segment::segments_from(s, u.end as int),
    );
}

proof fn lemma_regroup(p: Seq<char>, q: Seq<char>, r: Seq<char>, x: Seq<char>, y: Seq<char>)
    ensures
        p + q + (r + x + y) == p + q + r + x + y,
        p + x + q + y + r == p + x + (q + y + r),
{
    assert(p + q + (r + x + y) =~= p + q + r + x + y);
    assert(p + x + q + y + r =~= p + x + (q + y + r));
}

/// Where no link is left before the line end, and `v` is the first one behind it.
proof fn lemma_link_behind_line_end(
    a: Seq<char>,
    b: Seq<char>,
    from: int,
    v: segment::UrlSpan,
)
    requires
        a.len() + 1 + b.len() <= usize::MAX,
        0 <= from <= a.len(),
        segment::first_url(a, from) is None,
        segment::first_url(b, 0) == Some(v),
    ensures
        html_of(segment::segments_from(a.push('\n') + b, from)) == html_of(
            segment::prose(a.subrange(from, a.len() as int)),
        ) + "<br>"@ + html_of(segment::segments_of(b)),
{
    let s = a.push('\n') + b;
    let m = a.len() as int + 1;
    let x = a.subrange(from, a.len() as int);
    let y = b.subrange(0, v.start as int);
    let link = b.subrange(v.url_start as int, v.url_end as int);
    lemma_html_cut_at_link(b, 0, v);
    assert(v.end <= b.len() && v.url_start <= v.url_end <= v.end) by {
        segment::lemma_first_url(b, 0);
        segment::lemma_url_at(b, v.start as int);
    }
    let u = shifted(Some(v), m)->0;
    assert(segment::first_url(s, from) == Some(u)) by {
        lemma_first_url_over_line_end(a, b, from);
    }
    lemma_html_cut_at_link(s, from, u);
    assert(s.subrange(from, u.start as int) =~= x.push('\n') + y);
    assert(s.subrange(u.url_start as int, u.url_end as int) =~= link);
    lemma_prose_over_line_end(x, y, 0, 0);
    assert(segment::segments_from(s, u.end as int) == segment::segments_from(b, v.end as int)) by {
        assert(s.skip(m) =~= b);
        lemma_segments_shift(s, m, v.end as int);
    }
    lemma_regroup(
        html_of(segment::prose(x)),
        html_of(segment::prose(y)),
        html_of(segment::segments_from(b, v.end as int)),
        "<br>"@,
        url_html(link),
    );
}

/// Where no link is left before the line end.
proof fn lemma_linkless_line_end(a: Seq<char>, b: Seq<char>, from: int)
    requires
        a.len() + 1 + b.len() <= usize::MAX,
        0 <= from <= a.len(),
        segment::first_url(a, from) is None,
    ensures
        html_of(segment::segments_from(a.push('\n') + b, from)) == html_of(
            segment::prose(a.subrange(from, a.len() as int)),
        ) + "<br>"@ + html_of(segment::segments_of(b)),
{
    match segment::first_url(b, 0) {
        None => {
            let s = a.push('\n') + b;
            let x = a.subrange(from, a.len() as int);
            lemma_first_url_over_line_end(a, b, from);
            assert(s.subrange(from, s.len() as int) =~= x.push('\n') + b);
            assert(b.subrange(0, b.len() as int) =~= b);
            lemma_prose_over_line_end(x, b, 0, 0);
        },
        Some(v) => {
            lemma_link_behind_line_end(a, b, from, v);
        },
    }
}

proof fn lemma_segments_over_line_end(a: Seq<char>, b: Seq<char>, from: int)
    requires
        a.len() + 1 + b.len() <= usize::MAX,
        0 <= from <= a.len(),
    ensures
        html_of(segment::segments_from(a.push('\n') + b, from)) == html_of(
            segment::segments_from(a, from),
        ) + "<br>"@ + html_of(segment::segments_of(b)),
    decreases a.len() - from,
{
    let s = a.push('\n') + b;
    match segment::first_url(a, from) {
        Some(u) => {
            lemma_first_url_over_line_end(a, b, from);
            lemma_html_cut_at_link(a, from, u);
            lemma_html_cut_at_link(s, from, u);
            segment::lemma_first_url(a, from);
            segment::lemma_url_at(a, u.start as int);
            lemma_segments_over_line_end(a, b, u.end as int);
            let head = a.subrange(from, u.start as int);
            let link = a.subrange(u.url_start as int, u.url_end as int);
            assert(s.subrange(from, u.start as int) =~= head);
            assert(s.subrange(u.url_start as int, u.url_end as int) =~= link);
            lemma_regroup(
                html_of(segment::prose(head)),
                url_html(link),
                html_of(segment::segments_from(a, u.end as int)),
                "<br>"@,
                html_of(segment::segments_of(b)),
            );
        },
        None => {
            lemma_linkless_line_end(a, b, from);
        },
    }
}

/// A body is rendered line by line: over a line end, the HTML is that of the two sides with a
/// break between them. No link and no code goes on over a line end.
pub proof fn lemma_body_is_rendered_by_lines(a: Seq<char>, b: Seq<char>)
    requires
        a.len() + 1 + b.len() <= usize::MAX,
    ensures
        html_of(segment::segments_of(a.push('\n') + b)) == html_of(segment::segments_of(a))
            + "<br>"@ + html_of(segment::segments_of(b)),
{
    lemma_segments_over_line_end(a, b, 0);
}

// ---------------------------------------------------------------------------
// What becomes of the characters of a page
// ---------------------------------------------------------------------------

proof fn lemma_in_tag_behind_end(x: Seq<char>, y: Seq<char>)
    ensures
        in_tag(x.push('>') + y) == in_tag(y),
    decreases y.len(),
{
    let s = x.push('>') + y;
    if y.len() == 0 {
        assert(s =~= x.push('>'));
        assert(s.last() == '>');
    } else {
        lemma_in_tag_behind_end(x, y.drop_last());
        assert(s.drop_last() =~= x.push('>') + y.drop_last());
        assert(s.last() == y.last());
    }
}

/// A `>` always ends a tag, so that a page is cut there in two that have nothing to do with each
/// other. What stands behind a `<` is taken away up to it. Text without angle brackets stays.
pub proof fn lemma_tags_end_at_their_bracket(x: Seq<char>, y: Seq<char>)
    ensures
        untagged(x.push('>') + y) == untagged(x) + untagged(y),
        !y.contains('>') ==> untagged(x.push('<') + y) == untagged(x),
        !y.contains('<') && !y.contains('>') ==> untagged(y) == y,
    decreases y.len(),
{
    let s = x.push('>') + y;
    let t = x.push('<') + y;
    if y.len() == 0 {
        assert(s =~= x.push('>') && t =~= x.push('<'));
        assert(s.drop_last() =~= x && t.drop_last() =~= x);
        assert(untagged(x) + untagged(y) =~= untagged(x));
    } else {
        let head = y.drop_last();
        lemma_tags_end_at_their_bracket(x, head);
        assert(s.drop_last() =~= x.push('>') + head);
        assert(t.drop_last() =~= x.push('<') + head);
        assert(s.last() == y.last() && t.last() == y.last());
        lemma_in_tag_behind_end(x, head);
        assert(untagged(s) =~= untagged(x) + untagged(y));
        if !y.contains('>') {
            assert(y[y.len() - 1] != '>');
            assert(!head.contains('>')) by {
                if head.contains('>') {
                    let i = choose|i: int| 0 <= i < head.len() && head[i] == '>';
                    assert(y[i] == '>');
                }
            }
            lemma_in_open_tag(x, head);
        }
        if !y.contains('<') && !y.contains('>') {
            lemma_untagged_same(y);
        }
    }
}

proof fn lemma_in_open_tag(x: Seq<char>, y: Seq<char>)
    requires
        !y.contains('>'),
    ensures
        in_tag(x.push('<') + y),
    decreases y.len(),
{
    let s = x.push('<') + y;
    if y.len() == 0 {
        assert(s =~= x.push('<'));
        assert(s.last() == '<');
    } else {
        let head = y.drop_last();
        assert(y[y.len() - 1] != '>');
        if head.contains('>') {
            let i = choose|i: int| 0 <= i < head.len() && head[i] == '>';
            assert(y[i] == '>');
        }
        lemma_in_open_tag(x, head);
        assert(s.drop_last() =~= x.push('<') + head);
        assert(s.last() == y.last());
    }
}

/// Text between tags survives, whatever the tags hold: a tag goes, and what is before it and
/// behind it stays.
pub proof fn lemma_text_between_tags_survives(a: Seq<char>, t: Seq<char>, b: Seq<char>)
    requires
        !a.contains('<'),
        !a.contains('>'),
        !t.contains('>'),
        !b.contains('<'),
        !b.contains('>'),
    ensures
        untagged(a + seq!['<'] + t + seq!['>'] + b) == a + b,
{
    let x = a.push('<') + t;
    lemma_tags_end_at_their_bracket(x, b);
    lemma_tags_end_at_their_bracket(a, t);
    lemma_untagged_same(a);
    lemma_untagged_same(b);
    assert(a + seq!['<'] + t + seq!['>'] + b =~= x.push('>') + b);
}

/// Escaping goes character by character: the ampersand and the angle brackets become entities,
/// all else stays. In prose a line end becomes a break besides.
pub proof fn lemma_escaping_goes_by_characters(a: Seq<char>, b: Seq<char>, c: char)
    ensures
        escaped(a + b) == escaped(a) + escaped(b),
        escaped(seq!['&']) == "&amp;"@,
        escaped(seq!['<']) == "&lt;"@,
        escaped(seq!['>']) == "&gt;"@,
        c != '&' && c != '<' && c != '>' ==> escaped(seq![c]) == seq![c],
        prose_html(a + b) == prose_html(a) + prose_html(b),
        prose_html(seq!['\n']) == "<br>"@,
        c != '\n' ==> prose_html(seq![c]) == escaped(seq![c]),
{
    lemma_escaped_concat(a, b);
    lemma_prose_html_concat(a, b);
    lemma_escaped_one('&');
    lemma_escaped_one('<');
    lemma_escaped_one('>');
    lemma_escaped_one(c);
    lemma_prose_one(c);
    lemma_prose_one('\n');
}

proof fn lemma_prose_one(c: char)
    ensures
        prose_html(seq![c]) == (if c == '\n' {
            "<br>"@
        } else {
            escaped_char(c)
        }),
{
    let none = Seq::<char>::empty();
    assert(seq![c].drop_last() =~= none);
    assert(seq![c].last() == c);
    assert(prose_html(none) =~= none);
    let one = if c == '\n' {
        "<br>"@
    } else {
        escaped_char(c)
    };
    assert(none + one =~= one);
}

/// The characters that are not shown are the zero-width space, the two zero-width joiners, the
/// byte order mark and the soft hyphen; all others stay, in order.
pub proof fn lemma_what_is_seen(a: Seq<char>, b: Seq<char>, c: char)
    ensures
        seen(a + b) == seen(a) + seen(b),
        seen(seq![c]) == (if seq![0x200bu32, 0x200c, 0x200d, 0xfeff, 0xad].contains(c as u32) {
            Seq::<char>::empty()
        } else {
            seq![c]
        }),
    decreases b.len(),
{
    if b.len() == 0 {
        assert(a + b =~= a);
        assert(seen(a) + seen(b) =~= seen(a));
    } else {
        lemma_what_is_seen(a, b.drop_last(), c);
        assert((a + b).drop_last() =~= a + b.drop_last());
        assert((a + b).last() == b.last());
        assert(seen(a + b) =~= seen(a) + seen(b));
    }
    let none = Seq::<char>::empty();
    let codes = seq![0x200bu32, 0x200c, 0x200d, 0xfeff, 0xad];
    assert(codes[0] == 0x200b && codes[1] == 0x200c && codes[2] == 0x200d && codes[3] == 0xfeff
        && codes[4] == 0xad);
    assert(seq![c].drop_last() =~= none);
    assert(seen(none) =~= none);
    assert(seq![c].last() == c);
    assert(none.push(c) =~= seq![c]);
}

proof fn lemma_full_lines_concat(a: Seq<Seq<char>>, b: Seq<Seq<char>>)
    ensures
        full_lines(a + b) == full_lines(a) + full_lines(b),
    decreases b.len(),
{
    if b.len() == 0 {
        assert(a + b =~= a);
        assert(full_lines(a) + full_lines(b) =~= full_lines(a));
    } else {
        lemma_full_lines_concat(a, b.drop_last());
        assert((a + b).drop_last() =~= a + b.drop_last());
        assert((a + b).last() == b.last());
        assert(full_lines(a + b) =~= full_lines(a) + full_lines(b));
    }
}

proof fn lemma_split_over(a: Seq<char>, c: char, b: Seq<char>)
    ensures
        text::split_on(a.push(c) + b, c) == text::split_on(a, c) + text::split_on(b, c),
    decreases b.len(),
{
    let s = a.push(c) + b;
    let x = text::split_on(a, c);
    if b.len() == 0 {
        assert(s =~= a.push(c));
        assert(s.drop_last() =~= a);
        assert(x.push(Seq::<char>::empty()) =~= x + text::split_on(b, c));
    } else {
        let head = b.drop_last();
        let y = text::split_on(head, c);
        lemma_split_over(a, c, head);
        text::lemma_split_pieces(head, c);
        assert(s.drop_last() =~= a.push(c) + head);
        assert(s.last() == b.last());
        if b.last() == c {
            assert((x + y).push(Seq::<char>::empty()) =~= x + y.push(Seq::<char>::empty()));
        } else {
            let more = y.last().push(b.last());
            assert((x + y).drop_last().push(more) =~= x + y.drop_last().push(more));
            assert((x + y).last() == y.last());
        }
    }
}

proof fn lemma_split_without(a: Seq<char>, c: char)
    requires
        !a.contains(c),
    ensures
        text::split_on(a, c) == seq![a],
    decreases a.len(),
{
    if a.len() == 0 {
        assert(a =~= Seq::<char>::empty());
    } else {
        let head = a.drop_last();
        assert(a[a.len() - 1] != c);
        if head.contains(c) {
            let i = choose|i: int| 0 <= i < head.len() && head[i] == c;
            assert(a[i] == c);
        }
        lemma_split_without(head, c);
        assert(head.push(a.last()) =~= a);
        assert(seq![head].drop_last().push(a) =~= seq![a]);
    }
}

/// Folding goes line by line: within a line the words stay, with one space between them; a line
/// without words goes, and with it the line end.
pub proof fn lemma_folding_goes_by_lines(a: Seq<char>, b: Seq<char>)
    ensures
        !a.contains('\n') ==> folded(a) == text::joined(text::words(a), seq![' ']),
        folded(a.push('\n') + b) == (if folded(a).len() == 0 {
            folded(b)
        } else if folded(b).len() == 0 {
            folded(a)
        } else {
            folded(a) + seq!['\n'] + folded(b)
        }),
{
    reveal_strlit("\n");
    reveal_strlit(" ");
    assert("\n"@ =~= seq!['\n']);
    assert(" "@ =~= seq![' ']);
    let none = Seq::<Seq<char>>::empty();
    let x = full_lines(text::split_on(a, '\n'));
    let y = full_lines(text::split_on(b, '\n'));
    lemma_split_over(a, '\n', b);
    lemma_full_lines_concat(text::split_on(a, '\n'), text::split_on(b, '\n'));
    text::lemma_joined_halves(x, y, a, "\n"@);
    lemma_folded_length(text::split_on(a, '\n'));
    lemma_folded_length(text::split_on(b, '\n'));
    if x.len() == 0 {
        assert(x + y =~= y);
    } else if y.len() == 0 {
        assert(x + y =~= x);
    }
    if !a.contains('\n') {
        lemma_split_without(a, '\n');
        let one = seq![a];
        assert(one.drop_last() =~= none);
        assert(full_lines(none) =~= none);
        assert(one.last() == a);
        let line = squeezed(a);
        if line.len() == 0 {
            assert(x =~= none);
            assert(folded(a) =~= line);
        } else {
            assert(x =~= seq![line]);
        }
    }
}

proof fn lemma_folded_length(lines: Seq<Seq<char>>)
    ensures
        text::joined(full_lines(lines), "\n"@).len() == 0 <==> full_lines(lines).len() == 0,
{
    let x = full_lines(lines);
    lemma_full_lines_settled(lines);
    if x.len() == 1 {
        assert(settled_line(x[0]));
    } else if x.len() > 1 {
        reveal_strlit("\n");
    }
}

/// A tag as it is written: it begins with `<`, ends with `>`, and holds no other angle bracket and
/// no line end.
spec fn tag_shaped(p: Seq<char>) -> bool {
    &&& p.len() >= 2
    &&& p[0] == '<'
    &&& p[p.len() - 1] == '>'
    &&& forall|i: int| 0 < i < p.len() - 1 ==> #[trigger] p[i] != '<' && p[i] != '>' && p[i] != '\n'
}

proof fn lemma_line_tags_shaped()
    ensures
        line_tags().len() == 11,
        forall|i: int| 0 <= i < line_tags().len() ==> tag_shaped(#[trigger] line_tags()[i]),
{
    reveal_strlit("<br>");
    reveal_strlit("<br/>");
    reveal_strlit("<br />");
    reveal_strlit("</p>");
    reveal_strlit("</div>");
    reveal_strlit("</tr>");
    reveal_strlit("</li>");
    reveal_strlit("</h1>");
    reveal_strlit("</h2>");
    reveal_strlit("</h3>");
    reveal_strlit("</h4>");
    let tags = line_tags();
    assert(tag_shaped(tags[0]) && tag_shaped(tags[1]) && tag_shaped(tags[2]) && tag_shaped(tags[3])
        && tag_shaped(tags[4]) && tag_shaped(tags[5]) && tag_shaped(tags[6]) && tag_shaped(tags[7])
        && tag_shaped(tags[8]) && tag_shaped(tags[9]) && tag_shaped(tags[10]));
}

/// No tag goes on over the start of `y`.
spec fn cut_before(y: Seq<char>) -> bool {
    y.len() > 0 ==> y[0] == '<' || y[0] == '\n'
}

proof fn lemma_replaced_in_two(x: Seq<char>, y: Seq<char>, p: Seq<char>)
    requires
        tag_shaped(p),
        cut_before(y),
    ensures
        text::replaced(x + y, p, "\n"@) == text::replaced(x, p, "\n"@) + text::replaced(
            y,
            p,
            "\n"@,
        ),
        cut_before(text::replaced(y, p, "\n"@)),
    decreases x.len(),
{
    reveal_strlit("\n");
    let with = "\n"@;
    let s = x + y;
    if x.len() == 0 {
        assert(s =~= y);
        assert(text::replaced(x, p, with) + text::replaced(y, p, with) =~= text::replaced(
            y,
            p,
            with,
        ));
        if y.len() > 0 {
            if text::starts_at(y, 0, p) {
                assert(text::replaced(y, p, with)[0] == '\n');
            } else {
                assert(text::replaced(y, p, with)[0] == y[0]);
            }
        }
    } else if text::starts_at(s, 0, p) {
        let n = p.len() as int;
        assert forall|i: int| 0 <= i < n implies #[trigger] s[i] == p[i] by {
            assert(s.subrange(0, n)[i] == s[i]);
        }
        if x.len() < n {
            let i = x.len() as int;
            assert(s[i] == y[0]);
            assert(p[i] == y[0]);
        }
        assert(x.subrange(0, n) =~= s.subrange(0, n));
        assert(s.skip(n) =~= x.skip(n) + y);
        lemma_replaced_in_two(x.skip(n), y, p);
        assert(with + (text::replaced(x.skip(n), p, with) + text::replaced(y, p, with)) =~= with
            + text::replaced(x.skip(n), p, with) + text::replaced(y, p, with));
    } else {
        if text::starts_at(x, 0, p) {
            assert(s.subrange(0, p.len() as int) =~= x.subrange(0, p.len() as int));
        }
        assert(s[0] == x[0]);
        assert(s.skip(1) =~= x.skip(1) + y);
        lemma_replaced_in_two(x.skip(1), y, p);
        assert(seq![x[0]] + (text::replaced(x.skip(1), p, with) + text::replaced(y, p, with))
            =~= seq![x[0]] + text::replaced(x.skip(1), p, with) + text::replaced(y, p, with));
    }
}

proof fn lemma_line_ends_in_two(x: Seq<char>, y: Seq<char>, tags: Seq<Seq<char>>)
    requires
        cut_before(y),
        forall|i: int| 0 <= i < tags.len() ==> tag_shaped(#[trigger] tags[i]),
    ensures
        with_line_ends(x + y, tags) == with_line_ends(x, tags) + with_line_ends(y, tags),
        cut_before(with_line_ends(y, tags)),
    decreases tags.len(),
{
    if tags.len() > 0 {
        let head = tags.drop_last();
        assert forall|i: int| 0 <= i < head.len() implies tag_shaped(#[trigger] head[i]) by {
            assert(tags[i] == head[i]);
        }
        lemma_line_ends_in_two(x, y, head);
        assert(tag_shaped(tags[tags.len() - 1]));
        lemma_replaced_in_two(with_line_ends(x, head), with_line_ends(y, head), tags.last());
    }
}

proof fn lemma_no_tag_no_line_end(b: Seq<char>, tags: Seq<Seq<char>>)
    requires
        !b.contains('<'),
        forall|i: int| 0 <= i < tags.len() ==> tag_shaped(#[trigger] tags[i]),
    ensures
        with_line_ends(b, tags) == b,
    decreases tags.len(),
{
    if tags.len() > 0 {
        let head = tags.drop_last();
        assert forall|i: int| 0 <= i < head.len() implies tag_shaped(#[trigger] head[i]) by {
            assert(tags[i] == head[i]);
        }
        lemma_no_tag_no_line_end(b, head);
        assert(tag_shaped(tags[tags.len() - 1]));
        lemma_nothing_to_replace(b, tags.last(), "\n"@);
    }
}

proof fn lemma_one_tag(tag: Seq<char>, b: Seq<char>, p: Seq<char>)
    requires
        tag_shaped(tag),
        tag_shaped(p),
        !b.contains('<'),
    ensures
        text::replaced(tag + b, p, "\n"@) == (if p == tag {
            "\n"@ + b
        } else {
            tag + b
        }),
{
    let s = tag + b;
    let n = p.len() as int;
    if text::starts_at(s, 0, p) {
        assert forall|i: int| 0 <= i < n implies #[trigger] s[i] == p[i] by {
            assert(s.subrange(0, n)[i] == s[i]);
        }
        if n > tag.len() {
            let i = tag.len() - 1;
            assert(s[i] == tag[i]);
            assert(p[i] == '>');
        } else if n < tag.len() {
            assert(s[n - 1] == tag[n - 1]);
            assert(p[n - 1] == '>');
        }
        assert(s.subrange(0, n) =~= tag);
        assert(p == tag);
        assert(s.skip(n) =~= b);
        lemma_nothing_to_replace(b, p, "\n"@);
    } else {
        if p == tag {
            assert(s.subrange(0, n) =~= tag);
        }
        let rest = s.skip(1);
        assert(rest =~= tag.skip(1) + b);
        assert(!rest.contains('<')) by {
            if rest.contains('<') {
                let i = choose|i: int| 0 <= i < rest.len() && rest[i] == '<';
                if i < tag.len() - 1 {
                    assert(tag[i + 1] == '<');
                } else {
                    assert(b[i - tag.len() + 1] == '<');
                }
            }
        }
        lemma_nothing_to_replace(rest, p, "\n"@);
        assert(seq![s[0]] + rest =~= s);
    }
}

proof fn lemma_line_ends_of_one_tag(tag: Seq<char>, b: Seq<char>, tags: Seq<Seq<char>>)
    requires
        tag_shaped(tag),
        !b.contains('<'),
        forall|i: int| 0 <= i < tags.len() ==> tag_shaped(#[trigger] tags[i]),
    ensures
        with_line_ends(tag + b, tags) == (if tags.contains(tag) {
            "\n"@ + b
        } else {
            tag + b
        }),
    decreases tags.len(),
{
    if tags.len() > 0 {
        let head = tags.drop_last();
        let p = tags.last();
        assert forall|i: int| 0 <= i < head.len() implies tag_shaped(#[trigger] head[i]) by {
            assert(tags[i] == head[i]);
        }
        lemma_line_ends_of_one_tag(tag, b, head);
        assert(tag_shaped(tags[tags.len() - 1]));
        if head.contains(tag) {
            let i = choose|i: int| 0 <= i < head.len() && head[i] == tag;
            assert(tags[i] == tag);
            reveal_strlit("\n");
            let c = "\n"@ + b;
            assert(!c.contains('<')) by {
                if c.contains('<') {
                    let k = choose|k: int| 0 <= k < c.len() && c[k] == '<';
                    assert(b[k - 1] == '<');
                }
            }
            lemma_nothing_to_replace(c, p, "\n"@);
        } else {
            lemma_one_tag(tag, b, p);
            if tags.contains(tag) {
                let i = choose|i: int| 0 <= i < tags.len() && tags[i] == tag;
                if i < head.len() {
                    assert(head[i] == tag);
                }
            }
            if p == tag {
                assert(tags[tags.len() - 1] == tag);
            }
        }
    }
}

/// A line ends at a break, in its three spellings, and at the end of a paragraph, a block, a row
/// of a table, an entry of a list, or a heading of the first four kinds. All other tags stay for
/// now, and so does all text. A page can be cut before any tag.
pub proof fn lemma_lines_end_at_these_tags(
    x: Seq<char>,
    y: Seq<char>,
    t: Seq<char>,
    b: Seq<char>,
)
    requires
        y.len() > 0 ==> y[0] == '<',
        !t.contains('<'),
        !t.contains('>'),
        !t.contains('\n'),
        !b.contains('<'),
    ensures
        with_line_ends(x + y, line_tags()) == with_line_ends(x, line_tags()) + with_line_ends(
            y,
            line_tags(),
        ),
        with_line_ends(b, line_tags()) == b,
        ({
            let ends = seq![
                "br"@,
                "br/"@,
                "br /"@,
                "/p"@,
                "/div"@,
                "/tr"@,
                "/li"@,
                "/h1"@,
                "/h2"@,
                "/h3"@,
                "/h4"@,
            ];
            with_line_ends(seq!['<'] + t + seq!['>'] + b, line_tags()) == (if ends.contains(t) {
                seq!['\n'] + b
            } else {
                seq!['<'] + t + seq!['>'] + b
            })
        }),
{
    lemma_line_tags_shaped();
    lemma_line_ends_in_two(x, y, line_tags());
    lemma_no_tag_no_line_end(b, line_tags());
    let tag = seq!['<'] + t + seq!['>'];
    assert(tag_shaped(tag)) by {
        assert forall|i: int| 0 < i < tag.len() - 1 implies #[trigger] tag[i] != '<' && tag[i]
            != '>' && tag[i] != '\n' by {
            assert(tag[i] == t[i - 1]);
            assert(t.contains(t[i - 1]));
        }
    }
    lemma_line_ends_of_one_tag(tag, b, line_tags());
    reveal_strlit("\n");
    assert("\n"@ =~= seq!['\n']);
    lemma_line_tag_names(t);
}

proof fn lemma_line_tag_names(t: Seq<char>)
    ensures
        line_tags().contains(seq!['<'] + t + seq!['>']) <==> seq![
            "br"@,
            "br/"@,
            "br /"@,
            "/p"@,
            "/div"@,
            "/tr"@,
            "/li"@,
            "/h1"@,
            "/h2"@,
            "/h3"@,
            "/h4"@,
        ].contains(t),
{
    let ends = seq![
        "br"@,
        "br/"@,
        "br /"@,
        "/p"@,
        "/div"@,
        "/tr"@,
        "/li"@,
        "/h1"@,
        "/h2"@,
        "/h3"@,
        "/h4"@,
    ];
    let tags = line_tags();
    let tag = seq!['<'] + t + seq!['>'];
    reveal_strlit("<br>");
    reveal_strlit("<br/>");
    reveal_strlit("<br />");
    reveal_strlit("</p>");
    reveal_strlit("</div>");
    reveal_strlit("</tr>");
    reveal_strlit("</li>");
    reveal_strlit("</h1>");
    reveal_strlit("</h2>");
    reveal_strlit("</h3>");
    reveal_strlit("</h4>");
    reveal_strlit("br");
    reveal_strlit("br/");
    reveal_strlit("br /");
    reveal_strlit("/p");
    reveal_strlit("/div");
    reveal_strlit("/tr");
    reveal_strlit("/li");
    reveal_strlit("/h1");
    reveal_strlit("/h2");
    reveal_strlit("/h3");
    reveal_strlit("/h4");
    assert(tags[0] =~= seq!['<'] + ends[0] + seq!['>']);
    assert(tags[1] =~= seq!['<'] + ends[1] + seq!['>']);
    assert(tags[2] =~= seq!['<'] + ends[2] + seq!['>']);
    assert(tags[3] =~= seq!['<'] + ends[3] + seq!['>']);
    assert(tags[4] =~= seq!['<'] + ends[4] + seq!['>']);
    assert(tags[5] =~= seq!['<'] + ends[5] + seq!['>']);
    assert(tags[6] =~= seq!['<'] + ends[6] + seq!['>']);
    assert(tags[7] =~= seq!['<'] + ends[7] + seq!['>']);
    assert(tags[8] =~= seq!['<'] + ends[8] + seq!['>']);
    assert(tags[9] =~= seq!['<'] + ends[9] + seq!['>']);
    assert(tags[10] =~= seq!['<'] + ends[10] + seq!['>']);
    assert forall|i: int| 0 <= i < 11 implies #[trigger] tags[i] == seq!['<'] + ends[i]
        + seq!['>'] by {}
    if tags.contains(tag) {
        let i = choose|i: int| 0 <= i < tags.len() && tags[i] == tag;
        assert(tag.subrange(1, tag.len() - 1) =~= t);
        assert(tags[i].subrange(1, tags[i].len() - 1) =~= ends[i]);
        assert(ends[i] == t);
    }
    if ends.contains(t) {
        let i = choose|i: int| 0 <= i < ends.len() && ends[i] == t;
        assert(tags[i] == tag);
    }
}

// Entities ---------------------------------------------------------------------

proof fn lemma_hex_run_shift(s: Seq<char>, m: int, p: int)
    requires
        0 <= m <= s.len(),
        0 <= p,
    ensures
        hex_run_end(s, m + p) == m + hex_run_end(s.skip(m), p),
        name_run_end(s, m + p) == m + name_run_end(s.skip(m), p),
    decreases s.len() - m - p,
{
    if m + p < s.len() {
        assert(s.skip(m)[p] == s[m + p]);
        lemma_hex_run_shift(s, m, p + 1);
    }
}

proof fn lemma_entity_end_shift(s: Seq<char>, m: int, i: int)
    requires
        0 <= m <= s.len(),
        0 <= i,
    ensures
        match entity_end(s.skip(m), i) {
            Some(e) => entity_end(s, m + i) == Some(m + e),
            None => entity_end(s, m + i) is None,
        },
{
    let t = s.skip(m);
    if i < t.len() - 1 {
        assert(t[i] == s[m + i]);
        assert(t[i + 1] == s[m + i + 1]);
        if i + 2 < t.len() {
            assert(t[i + 2] == s[m + i + 2]);
        }
        lemma_hex_run_shift(s, m, i + 3);
        lemma_hex_run_shift(s, m, i + 2);
        lemma_run_ends_shift(s, m, i + 2);
        assert forall|e: int| 0 <= e < t.len() implies #[trigger] t[e] == s[m + e] by {}
        lemma_entity_end(t, i);
        lemma_name_run_end(t, i + 2);
        segment::lemma_digit_run_end(t, i + 2);
        if i + 3 <= t.len() {
            lemma_hex_run_end(t, i + 3);
        }
    }
}

proof fn lemma_decoded_shift(s: Seq<char>, m: int, i: int)
    requires
        0 <= m <= s.len(),
        0 <= i,
    ensures
        decoded_from(s.skip(m), i) == decoded_from(s, m + i),
    decreases s.len() - m - i,
{
    let t = s.skip(m);
    if m + i < s.len() {
        lemma_entity_end_shift(s, m, i);
        lemma_entity_end(t, i);
        match entity_end(t, i) {
            Some(e) => {
                lemma_decoded_shift(s, m, e);
                assert(t.subrange(i, e) =~= s.subrange(m + i, m + e));
            },
            None => {
                assert(t[i] == s[m + i]);
                lemma_decoded_shift(s, m, i + 1);
            },
        }
    }
}

/// An entity at the start of a text is decoded, and what is behind it is decoded by itself.
proof fn lemma_decoded_at_start(e: Seq<char>, b: Seq<char>)
    requires
        e.len() > 0,
        entity_end(e + b, 0) == Some(e.len() as int),
    ensures
        decoded(e + b) == entity_text(e) + decoded(b),
{
    let s = e + b;
    let n = e.len() as int;
    assert(s.subrange(0, n) =~= e);
    lemma_decoded_shift(s, n, 0);
    assert(s.skip(n) =~= b);
}

/// A letter or a digit of ASCII.
pub open spec fn name_char(c: char) -> bool {
    'a' <= c <= 'z' || 'A' <= c <= 'Z' || '0' <= c <= '9'
}

/// The name of an entity: a letter, then letters and digits.
pub open spec fn entity_name(n: Seq<char>) -> bool {
    &&& n.len() > 0
    &&& !('0' <= n[0] <= '9')
    &&& forall|i: int| 0 <= i < n.len() ==> name_char(#[trigger] n[i])
}

proof fn lemma_name_runs(s: Seq<char>, p: int, e: int)
    requires
        0 <= p <= e <= s.len(),
        forall|i: int| p <= i < e ==> name_char(#[trigger] s[i]),
        e == s.len() || !name_char(s[e]),
    ensures
        name_run_end(s, p) == e,
    decreases e - p,
{
    if p < e {
        assert(name_char(s[p]));
        lemma_name_runs(s, p + 1, e);
    }
}

proof fn lemma_digit_runs(s: Seq<char>, p: int, e: int)
    requires
        0 <= p <= e <= s.len(),
        forall|i: int| p <= i < e ==> '0' <= #[trigger] s[i] <= '9',
        e == s.len() || !('0' <= s[e] <= '9'),
    ensures
        segment::digit_run_end(s, p) == e,
    decreases e - p,
{
    if p < e {
        assert('0' <= s[p] <= '9');
        lemma_digit_runs(s, p + 1, e);
    }
}

/// The entities that have a name, and what they stand for.
pub open spec fn known_entities() -> Seq<(Seq<char>, Seq<char>)> {
    seq![
        ("amp"@, seq!['&']),
        ("lt"@, seq!['<']),
        ("gt"@, seq!['>']),
        ("quot"@, seq!['"']),
        ("apos"@, seq!['\'']),
        ("nbsp"@, seq![' ']),
        ("mdash"@, seq!['\u{2014}']),
        ("ndash"@, seq!['\u{2013}']),
        ("hellip"@, seq!['\u{2026}']),
        ("lsquo"@, seq!['\'']),
        ("rsquo"@, seq!['\'']),
        ("ldquo"@, seq!['"']),
        ("rdquo"@, seq!['"']),
        ("trade"@, seq!['\u{2122}']),
        ("reg"@, seq!['\u{ae}']),
        ("copy"@, seq!['\u{a9}']),
        ("zwnj"@, Seq::<char>::empty()),
        ("zwj"@, Seq::<char>::empty()),
        ("shy"@, Seq::<char>::empty()),
    ]
}

proof fn lemma_named(i: int)
    requires
        0 <= i < known_entities().len(),
    ensures
        named_entity(known_entities()[i].0) == Some(known_entities()[i].1),
{
    reveal_strlit("amp");
    reveal_strlit("lt");
    reveal_strlit("gt");
    reveal_strlit("quot");
    reveal_strlit("apos");
    reveal_strlit("nbsp");
    reveal_strlit("mdash");
    reveal_strlit("ndash");
    reveal_strlit("hellip");
    reveal_strlit("lsquo");
    reveal_strlit("rsquo");
    reveal_strlit("ldquo");
    reveal_strlit("rdquo");
    reveal_strlit("trade");
    reveal_strlit("reg");
    reveal_strlit("copy");
    reveal_strlit("zwnj");
    reveal_strlit("zwj");
    reveal_strlit("shy");
    reveal_strlit("&");
    reveal_strlit("<");
    reveal_strlit(">");
    reveal_strlit("\"");
    reveal_strlit("'");
    reveal_strlit(" ");
    reveal_strlit("—");
    reveal_strlit("–");
    reveal_strlit("…");
    reveal_strlit("™");
    reveal_strlit("®");
    reveal_strlit("©");
    reveal_strlit("");
    assert("&"@ =~= seq!['&'] && "<"@ =~= seq!['<'] && ">"@ =~= seq!['>'] && "\""@ =~= seq!['"']
        && "'"@ =~= seq!['\''] && " "@ =~= seq![' '] && "—"@ =~= seq!['\u{2014}'] && "–"@
        =~= seq!['\u{2013}'] && "…"@ =~= seq!['\u{2026}'] && "™"@ =~= seq!['\u{2122}'] && "®"@
        =~= seq!['\u{ae}'] && "©"@ =~= seq!['\u{a9}'] && ""@ =~= Seq::<char>::empty());
    let k = known_entities();
    assert("lsquo"@[1] == 's' && "ldquo"@[1] == 'd' && "rsquo"@[1] == 's' && "rdquo"@[1] == 'd');
    assert("amp"@.len() == 3 && "amp"@[0] == 'a');
    assert("lt"@.len() == 2 && "lt"@[0] == 'l');
    assert("gt"@.len() == 2 && "gt"@[0] == 'g');
    assert("quot"@.len() == 4 && "quot"@[0] == 'q');
    assert("apos"@.len() == 4 && "apos"@[0] == 'a');
    assert("nbsp"@.len() == 4 && "nbsp"@[0] == 'n');
    assert("mdash"@.len() == 5 && "mdash"@[0] == 'm');
    assert("ndash"@.len() == 5 && "ndash"@[0] == 'n');
    assert("hellip"@.len() == 6 && "hellip"@[0] == 'h');
    assert("lsquo"@.len() == 5 && "lsquo"@[0] == 'l');
    assert("rsquo"@.len() == 5 && "rsquo"@[0] == 'r');
    assert("ldquo"@.len() == 5 && "ldquo"@[0] == 'l');
    assert("rdquo"@.len() == 5 && "rdquo"@[0] == 'r');
    assert("trade"@.len() == 5 && "trade"@[0] == 't');
    assert("reg"@.len() == 3 && "reg"@[0] == 'r');
    assert("copy"@.len() == 4 && "copy"@[0] == 'c');
    assert("zwnj"@.len() == 4 && "zwnj"@[0] == 'z');
    assert("zwj"@.len() == 3 && "zwj"@[0] == 'z');
    assert("shy"@.len() == 3 && "shy"@[0] == 's');
    assert(named_entity("amp"@) == Some("&"@));
    assert(named_entity("lt"@) == Some("<"@));
    assert(named_entity("gt"@) == Some(">"@));
    assert(named_entity("quot"@) == Some("\""@));
    assert(named_entity("apos"@) == Some("'"@));
    assert(named_entity("nbsp"@) == Some(" "@));
    assert(named_entity("mdash"@) == Some("—"@));
    assert(named_entity("ndash"@) == Some("–"@));
    assert(named_entity("hellip"@) == Some("…"@));
    assert(named_entity("lsquo"@) == Some("'"@));
    assert(named_entity("rsquo"@) == Some("'"@));
    assert(named_entity("ldquo"@) == Some("\""@));
    assert(named_entity("rdquo"@) == Some("\""@));
    assert(named_entity("trade"@) == Some("™"@));
    assert(named_entity("reg"@) == Some("®"@));
    assert(named_entity("copy"@) == Some("©"@));
    assert(named_entity("zwnj"@) == Some(""@));
    assert(named_entity("zwj"@) == Some(""@));
    assert(named_entity("shy"@) == Some(""@));
    assert(k[0].0 == "amp"@ && k[0].1 == "&"@);
    assert(k[1].0 == "lt"@ && k[1].1 == "<"@);
    assert(k[2].0 == "gt"@ && k[2].1 == ">"@);
    assert(k[3].0 == "quot"@ && k[3].1 == "\""@);
    assert(k[4].0 == "apos"@ && k[4].1 == "'"@);
    assert(k[5].0 == "nbsp"@ && k[5].1 == " "@);
    assert(k[6].0 == "mdash"@ && k[6].1 == "—"@);
    assert(k[7].0 == "ndash"@ && k[7].1 == "–"@);
    assert(k[8].0 == "hellip"@ && k[8].1 == "…"@);
    assert(k[9].0 == "lsquo"@ && k[9].1 == "'"@);
    assert(k[10].0 == "rsquo"@ && k[10].1 == "'"@);
    assert(k[11].0 == "ldquo"@ && k[11].1 == "\""@);
    assert(k[12].0 == "rdquo"@ && k[12].1 == "\""@);
    assert(k[13].0 == "trade"@ && k[13].1 == "™"@);
    assert(k[14].0 == "reg"@ && k[14].1 == "®"@);
    assert(k[15].0 == "copy"@ && k[15].1 == "©"@);
    assert(k[16].0 == "zwnj"@ && k[16].1 == ""@);
    assert(k[17].0 == "zwj"@ && k[17].1 == ""@);
    assert(k[18].0 == "shy"@ && k[18].1 == ""@);
}

proof fn lemma_not_named(n: Seq<char>)
    requires
        forall|i: int| 0 <= i < known_entities().len() ==> (#[trigger] known_entities()[i]).0 != n,
    ensures
        named_entity(n) is None,
{
    let k = known_entities();
    assert(k.len() == 19);
    assert(k[0].0 != n && k[1].0 != n && k[2].0 != n && k[3].0 != n && k[4].0 != n && k[5].0 != n
        && k[6].0 != n && k[7].0 != n && k[8].0 != n && k[9].0 != n && k[10].0 != n && k[11].0 != n
        && k[12].0 != n && k[13].0 != n && k[14].0 != n && k[15].0 != n && k[16].0 != n && k[17].0
        != n && k[18].0 != n);
}

/// Entities are decoded one by one, each by itself. A named one that is known becomes what it
/// stands for; one that is not known stays. An ampersand that begins none stays, and so does all
/// other text.
pub proof fn lemma_named_entities_are_decoded(n: Seq<char>, b: Seq<char>, c: char, i: int)
    requires
        entity_name(n),
    ensures
        decoded(Seq::<char>::empty()) == Seq::<char>::empty(),
        c != '&' ==> decoded(seq![c] + b) == seq![c] + decoded(b),
        0 <= i < known_entities().len() && known_entities()[i].0 == n ==> decoded(
            seq!['&'] + n + seq![';'] + b,
        ) == known_entities()[i].1 + decoded(b),
        (forall|k: int| 0 <= k < known_entities().len() ==> (#[trigger] known_entities()[k]).0 != n)
            ==> decoded(seq!['&'] + n + seq![';'] + b) == seq!['&'] + n + seq![';'] + decoded(b),
        c != ';' && !name_char(c) ==> decoded(seq!['&'] + n + seq![c] + b) == seq!['&'] + decoded(
            n + seq![c] + b,
        ),
        c != '#' && !name_char(c) ==> decoded(seq!['&'] + seq![c] + b) == seq!['&'] + decoded(
            seq![c] + b,
        ),
        '0' <= c <= '9' ==> decoded(seq!['&'] + seq![c] + b) == seq!['&'] + decoded(seq![c] + b),
{
    let len = n.len() as int;
    if c != '&' {
        let s = seq![c] + b;
        lemma_decoded_shift(s, 1, 0);
        assert(s.skip(1) =~= b);
        assert(s[0] == c);
    }
    {
        let e = seq!['&'] + n + seq![';'];
        let s = e + b;
        assert forall|k: int| 2 <= k < len + 1 implies name_char(#[trigger] s[k]) by {
            assert(s[k] == n[k - 1]);
        }
        assert(s[1] == n[0] && name_char(n[0]));
        assert(s[len + 1] == ';');
        lemma_name_runs(s, 2, len + 1);
        assert(entity_end(s, 0) == Some(len + 2));
        lemma_decoded_at_start(e, b);
        assert(e.subrange(1, e.len() - 1) =~= n);
        assert(n[0] != '#');
        if 0 <= i < known_entities().len() && known_entities()[i].0 == n {
            lemma_named(i);
        }
        if forall|k: int|
            0 <= k < known_entities().len() ==> (#[trigger] known_entities()[k]).0 != n {
            lemma_not_named(n);
        }
    }
    if c != ';' && !name_char(c) {
        let s = seq!['&'] + n + seq![c] + b;
        assert forall|k: int| 2 <= k < len + 1 implies name_char(#[trigger] s[k]) by {
            assert(s[k] == n[k - 1]);
        }
        assert(s[1] == n[0] && name_char(n[0]));
        assert(s[len + 1] == c);
        lemma_name_runs(s, 2, len + 1);
        lemma_decoded_shift(s, 1, 0);
        assert(s.skip(1) =~= n + seq![c] + b);
        assert(entity_end(s, 0) is None);
    }
    if (c != '#' && !name_char(c)) || '0' <= c <= '9' {
        let s = seq!['&'] + seq![c] + b;
        assert(s[1] == c);
        lemma_decoded_shift(s, 1, 0);
        assert(s.skip(1) =~= seq![c] + b);
        assert(entity_end(s, 0) is None);
    }
}

proof fn lemma_hex_runs(s: Seq<char>, p: int, e: int)
    requires
        0 <= p <= e <= s.len(),
        forall|i: int| p <= i < e ==> text::digit_value(#[trigger] s[i], 16) is Some,
        e == s.len() || s[e] == ';',
    ensures
        hex_run_end(s, p) == e,
    decreases e - p,
{
    if p < e {
        assert(text::digit_value(s[p], 16) is Some);
        lemma_hex_runs(s, p + 1, e);
    }
}

proof fn lemma_hex_digits(x: Seq<char>)
    requires
        text::digits_value(x, 16) is Some,
    ensures
        forall|i: int| 0 <= i < x.len() ==> text::digit_value(#[trigger] x[i], 16) is Some,
    decreases x.len(),
{
    if x.len() > 0 {
        let head = x.drop_last();
        lemma_hex_digits(head);
        assert forall|i: int| 0 <= i < x.len() implies text::digit_value(#[trigger] x[i], 16)
            is Some by {
            if i < head.len() {
                assert(head[i] == x[i]);
            }
        }
    }
}

/// An entity with a number, in decimal or behind an `x` in base sixteen, becomes the character of
/// that number.
pub proof fn lemma_numbered_entities_are_decoded(c: char, x: Seq<char>, b: Seq<char>)
    ensures
        decoded("&#"@ + text::decimal(c as nat) + seq![';'] + b) == seq![c] + decoded(b),
        x.len() > 0 && text::digits_value(x, 16) == Some(c as nat) ==> decoded(
            "&#x"@ + x + seq![';'] + b,
        ) == seq![c] + decoded(b) && decoded("&#X"@ + x + seq![';'] + b) == seq![c] + decoded(b),
{
    reveal_strlit("&#");
    reveal_strlit("&#x");
    reveal_strlit("&#X");
    lemma_decimal_entity("&#"@, b, c);
    if x.len() > 0 && text::digits_value(x, 16) == Some(c as nat) {
        lemma_hex_digits(x);
        lemma_hex_entity("&#x"@, x, b, c);
        lemma_hex_entity("&#X"@, x, b, c);
    }
}

proof fn lemma_decimal_entity(lead: Seq<char>, b: Seq<char>, c: char)
    requires
        lead.len() == 2,
        lead[0] == '&',
        lead[1] == '#',
    ensures
        decoded(lead + text::decimal(c as nat) + seq![';'] + b) == seq![c] + decoded(b),
{
    let d = text::decimal(c as nat);
    let none = Seq::<char>::empty();
    text::lemma_decimal_chars(c as nat);
    text::lemma_numbers_are_read_from_decimal(c as u32, none, none);
    assert(none + d =~= d);
    assert(text::zeros(none));
    assert(d[0] != '+');
    let e = lead + d + seq![';'];
    let s = e + b;
    assert forall|k: int| 2 <= k < d.len() + 2 implies '0' <= #[trigger] s[k] <= '9' by {
        assert(s[k] == d[k - 2]);
    }
    assert(s[2] == d[0]);
    assert(s[(d.len() + 2) as int] == ';');
    lemma_digit_runs(s, 2, (d.len() + 2) as int);
    assert(entity_end(s, 0) == Some((d.len() + 3) as int));
    lemma_decoded_at_start(e, b);
    let name = e.subrange(1, e.len() - 1);
    assert(name.skip(1) =~= d);
    assert(name[1] == d[0]);
    assert(text::small_number(d, 10) == Some(c as u32));
}

proof fn lemma_hex_entity(lead: Seq<char>, x: Seq<char>, b: Seq<char>, c: char)
    requires
        lead.len() == 3,
        lead[0] == '&',
        lead[1] == '#',
        lead[2] == 'x' || lead[2] == 'X',
        x.len() > 0,
        text::digits_value(x, 16) == Some(c as nat),
        forall|i: int| 0 <= i < x.len() ==> text::digit_value(#[trigger] x[i], 16) is Some,
    ensures
        decoded(lead + x + seq![';'] + b) == seq![c] + decoded(b),
{
    let e = lead + x + seq![';'];
    let s = e + b;
    assert forall|k: int| 3 <= k < x.len() + 3 implies text::digit_value(#[trigger] s[k], 16)
        is Some by {
        assert(s[k] == x[k - 3]);
    }
    assert(s[(x.len() + 3) as int] == ';');
    lemma_hex_runs(s, 3, (x.len() + 3) as int);
    assert(entity_end(s, 0) == Some((x.len() + 4) as int));
    lemma_decoded_at_start(e, b);
    let name = e.subrange(1, e.len() - 1);
    assert(name.skip(2) =~= x);
    assert(text::small_number(x, 16) == Some(c as u32));
}

// Links and codes ----------------------------------------------------------------

proof fn lemma_attribute_concat(a: Seq<char>, b: Seq<char>)
    ensures
        attribute(a + b) == attribute(a) + attribute(b),
    decreases b.len(),
{
    if b.len() == 0 {
        assert(a + b =~= a);
        assert(attribute(a) + attribute(b) =~= attribute(a));
    } else {
        lemma_attribute_concat(a, b.drop_last());
        assert((a + b).drop_last() =~= a + b.drop_last());
        assert((a + b).last() == b.last());
        assert(attribute(a + b) =~= attribute(a) + attribute(b));
    }
}

/// What a link leads to is written in an attribute so that it ends there and nowhere before, and
/// is read back as it was.
pub proof fn lemma_attributes_are_read_back(u: Seq<char>)
    ensures
        !attribute(u).contains('"'),
        decoded(attribute(u)) == u,
    decreases u.len(),
{
    let none = Seq::<char>::empty();
    reveal_strlit("&amp;");
    reveal_strlit("&quot;");
    reveal_strlit("amp");
    reveal_strlit("quot");
    if u.len() > 0 {
        let c = u[0];
        let one = seq![c];
        let rest = u.skip(1);
        lemma_attributes_are_read_back(rest);
        assert(one + rest =~= u);
        lemma_attribute_concat(one, rest);
        assert(one.drop_last() =~= none);
        assert(one.last() == c);
        assert(attribute(none) =~= none);
        let written = attribute(one);
        if c == '&' {
            assert(written =~= "&amp;"@);
            assert(written =~= seq!['&'] + "amp"@ + seq![';']);
            assert(known_entities()[0].0 == "amp"@);
            lemma_named_entities_are_decoded("amp"@, attribute(rest), 'x', 0);
            assert(written + attribute(rest) == seq!['&'] + "amp"@ + seq![';'] + attribute(rest));
        } else if c == '"' {
            assert(written =~= "&quot;"@);
            assert(written =~= seq!['&'] + "quot"@ + seq![';']);
            assert(known_entities()[3].0 == "quot"@);
            lemma_named_entities_are_decoded("quot"@, attribute(rest), 'x', 3);
        } else {
            assert(written =~= one);
            lemma_named_entities_are_decoded("amp"@, attribute(rest), c, 0);
        }
        assert(decoded(attribute(u)) =~= one + rest);
        if attribute(u).contains('"') {
            let i = choose|i: int| 0 <= i < attribute(u).len() && attribute(u)[i] == '"';
            if i < written.len() {
                assert(written[i] == '"');
            } else {
                assert(attribute(rest)[i - written.len()] == '"');
            }
        }
    } else {
        assert(attribute(u) =~= none);
        assert(u =~= none);
    }
}

/// The domain of a link is what stands between its scheme and the first slash behind it, or its
/// end.
pub proof fn lemma_domain_ends_at_the_first_slash(d: Seq<char>, r: Seq<char>)
    requires
        !d.contains('/'),
        r.len() > 0 ==> r[0] == '/',
    ensures
        domain("http://"@ + d + r) == d,
        domain("https://"@ + d + r) == d,
{
    lemma_domain_of("http://"@, d, r);
    lemma_domain_of("https://"@, d, r);
}

proof fn lemma_domain_of(scheme: Seq<char>, d: Seq<char>, r: Seq<char>)
    requires
        scheme == "http://"@ || scheme == "https://"@,
        !d.contains('/'),
        r.len() > 0 ==> r[0] == '/',
    ensures
        domain(scheme + d + r) == d,
{
    reveal_strlit("http://");
    reveal_strlit("https://");
    let u = scheme + d + r;
    let n = scheme.len() as int;
    assert(u.subrange(0, n) =~= scheme);
    if scheme == "http://"@ && text::starts_at(u, 0, "https://"@) {
        assert(u.subrange(0, 8)[4] == u[4]);
        assert(u[4] == scheme[4]);
    }
    assert(segment::scheme_len(u, 0) == n);
    let rest = u.skip(n);
    assert(rest =~= d + r);
    lemma_split_without(d, '/');
    if r.len() == 0 {
        assert(rest =~= d);
    } else {
        assert(d.push('/') + r.skip(1) =~= rest);
        lemma_split_over(d, '/', r.skip(1));
        assert((seq![d] + text::split_on(r.skip(1), '/'))[0] == d);
    }
}

/// A rendered body is its pieces, one behind the other: prose is escaped, a code copies itself,
/// and a link shows its domain, opens itself, and copies itself.
pub proof fn lemma_pieces_are_rendered(
    a: Seq<segment::Piece>,
    b: Seq<segment::Piece>,
    t: Seq<char>,
)
    ensures
        html_of(Seq::<segment::Piece>::empty()) == Seq::<char>::empty(),
        html_of(a + b) == html_of(a) + html_of(b),
        html_of(seq![segment::Piece::Text(t)]) == prose_html(t),
        html_of(seq![segment::Piece::Code(t)]) == "<a href=\"copy:"@ + t + "\">"@ + t + " ⧉</a>"@,
        html_of(seq![segment::Piece::Url(t)]) == "<a href=\""@ + attribute(t) + "\">🔗 "@ + escaped(
            domain(t),
        ) + "</a><a href=\"copy:"@ + attribute(t) + "\"> ⧉</a>"@,
{
    lemma_html_concat(a, b);
    lemma_html_one(segment::Piece::Text(t));
    lemma_html_one(segment::Piece::Code(t));
    lemma_html_one(segment::Piece::Url(t));
}

// Pages and bodies ---------------------------------------------------------------

proof fn lemma_decoded_same(s: Seq<char>)
    requires
        !s.contains('&'),
    ensures
        decoded(s) == s,
    decreases s.len(),
{
    if s.len() > 0 {
        let rest = s.skip(1);
        assert(s.contains(s[0]));
        assert(!rest.contains('&')) by {
            if rest.contains('&') {
                let i = choose|i: int| 0 <= i < rest.len() && rest[i] == '&';
                assert(s[i + 1] == '&');
            }
        }
        lemma_decoded_same(rest);
        reveal_strlit("amp");
        lemma_named_entities_are_decoded("amp"@, rest, s[0], 0);
        assert(seq![s[0]] + rest =~= s);
    } else {
        assert(s =~= Seq::<char>::empty());
    }
}

/// Plain text between tags is shown: around a tag that ends a line, what is before it and what is
/// behind it as two lines, and around any other tag as one.
pub proof fn lemma_page_shows_text_around_a_tag(a: Seq<char>, t: Seq<char>, b: Seq<char>)
    requires
        !a.contains('<') && !a.contains('>') && !a.contains('&'),
        !b.contains('<') && !b.contains('>') && !b.contains('&'),
        !t.contains('<') && !t.contains('>') && !t.contains('\n'),
    ensures
        ({
            let ends = seq![
                "br"@,
                "br/"@,
                "br /"@,
                "/p"@,
                "/div"@,
                "/tr"@,
                "/li"@,
                "/h1"@,
                "/h2"@,
                "/h3"@,
                "/h4"@,
            ];
            shown_text(a + (seq!['<'] + t + seq!['>'] + b)) == folded(
                seen(
                    if ends.contains(t) {
                        a + (seq!['\n'] + b)
                    } else {
                        a + b
                    },
                ),
            )
        }),
        shown_text(a) == folded(seen(a)),
{
    let none = Seq::<char>::empty();
    let tag = seq!['<'] + t + seq!['>'] + b;
    lemma_lines_end_at_these_tags(a, tag, t, b);
    lemma_lines_end_at_these_tags(none, none, none, a);
    lemma_text_between_tags_survives(a, t, b);
    assert(a + seq!['<'] + t + seq!['>'] + b =~= a + tag);
    let broken = a + (seq!['\n'] + b);
    assert forall|x: char| x == '<' || x == '>' || x == '&' implies !broken.contains(x) && !(a
        + b).contains(x) by {
        if broken.contains(x) {
            let i = choose|i: int| 0 <= i < broken.len() && broken[i] == x;
            if i < a.len() {
                assert(a[i] == x);
            } else {
                assert(b[i - a.len() - 1] == x);
            }
        }
        if (a + b).contains(x) {
            let i = choose|i: int| 0 <= i < (a + b).len() && (a + b)[i] == x;
            if i < a.len() {
                assert(a[i] == x);
            } else {
                assert(b[i - a.len()] == x);
            }
        }
    }
    lemma_untagged_same(broken);
    lemma_untagged_same(a);
    lemma_decoded_same(broken);
    lemma_decoded_same(a + b);
    lemma_decoded_same(a);
}

/// A plain text is a mere placeholder if it is empty, if it says that there is no plain text
/// version, or if it is shorter than 120 characters, names HTML, and asks to view or enable it or
/// for a reader that is capable of it; else it is not.
pub proof fn lemma_placeholders_are_these(t: Seq<char>, lower: Seq<char>)
    ensures
        t.len() == 0 ==> placeholder(t, lower),
        text::holds(lower, "plain text version not available"@) || text::holds(
            lower,
            "plain text version is not available"@,
        ) ==> placeholder(t, lower),
        t.len() < 120 && text::holds(lower, "html"@) && (text::holds(lower, "view"@) || text::holds(
            lower,
            "requires"@,
        ) || text::holds(lower, "enable"@) || text::holds(lower, "capable"@)) ==> placeholder(
            t,
            lower,
        ),
        placeholder(t, lower) && t.len() >= 120 ==> text::holds(
            lower,
            "plain text version not available"@,
        ) || text::holds(lower, "plain text version is not available"@),
        placeholder(t, lower) && t.len() > 0 && !text::holds(lower, "html"@) ==> text::holds(
            lower,
            "plain text version not available"@,
        ) || text::holds(lower, "plain text version is not available"@),
        placeholder(t, lower) && t.len() > 0 && !text::holds(lower, "view"@) && !text::holds(
            lower,
            "requires"@,
        ) && !text::holds(lower, "enable"@) && !text::holds(lower, "capable"@) ==> text::holds(
            lower,
            "plain text version not available"@,
        ) || text::holds(lower, "plain text version is not available"@),
{
}

/// The body of a mail is its plain text, trimmed, wherever that says something or there is no
/// HTML; and else the text of the HTML, unless that is blank.
pub proof fn lemma_body_is_text_or_html(parts: message::MailPartsView)
    ensures
        ({
            let plain = match parts.text {
                Some(t) => text::trimmed(t),
                None => Seq::<char>::empty(),
            };
            let body = readable_body(parts);
            &&& parts.html is None ==> body == plain
            &&& !placeholder(plain, lowercased(plain)) ==> body == plain
            &&& parts.html is Some && placeholder(plain, lowercased(plain)) ==> {
                let shown = shown_text(
                    regex_replaced(
                        r"(?is)<style\b[^>]*>.*?</\s*style\s*>|<script\b[^>]*>.*?</\s*script\s*>|<head\b[^>]*>.*?</\s*head\s*>|<!--.*?-->"@,
                        parts.html->0,
                        seq![' '],
                    ),
                );
                body == (if text::blank(shown) {
                    plain
                } else {
                    shown
                })
            }
        }),
{
    reveal_strlit(" ");
    assert(" "@ =~= seq![' ']);
    assert(text::trimmed(Seq::<char>::empty()) =~= Seq::<char>::empty());
}

} // verus!
