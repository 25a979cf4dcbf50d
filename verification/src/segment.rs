//! Cutting a plain text body into prose, links and verification codes.
//!
//! Rendering and translating a body share the rules of this module: a link is
//! `http://` or `https://` followed by characters that can stand in a link, and
//! may be wrapped in angle brackets; a code is a run of four to eight digits.

use crate::text;
use vstd::prelude::*;

verus! {

/// A piece of a body, as a slice of the text that was cut.
#[derive(Debug, PartialEq, Eq)]
pub enum Segment<'a> {
    /// Prose; it may hold digits that are no code.
    Text(&'a str),
    /// A whole link, without angle brackets around it.
    Url(&'a str),
    /// A run of four to eight digits.
    Code(&'a str),
}

/// What a [`Segment`] holds.
pub enum Piece {
    Text(Seq<char>),
    Url(Seq<char>),
    Code(Seq<char>),
}

impl Piece {
    /// The characters of the piece.
    pub open spec fn chars(self) -> Seq<char> {
        match self {
            Piece::Text(t) => t,
            Piece::Url(t) => t,
            Piece::Code(t) => t,
        }
    }
}

impl<'a> View for Segment<'a> {
    type V = Piece;

    open spec fn view(&self) -> Piece {
        match *self {
            Segment::Text(t) => Piece::Text(t@),
            Segment::Url(t) => Piece::Url(t@),
            Segment::Code(t) => Piece::Code(t@),
        }
    }
}

/// The pieces of a list of segments.
pub open spec fn pieces(segs: Seq<Segment<'_>>) -> Seq<Piece> {
    segs.map_values(|g: Segment<'_>| g@)
}

// ---------------------------------------------------------------------------
// Links
// ---------------------------------------------------------------------------

/// A character that can stand in a link: no white space, angle bracket or quote.
pub open spec fn url_char(c: char) -> bool {
    !text::white_space(c) && c != '<' && c != '>' && c != '"' && c != '\''
}

/// The first position from `p` on that holds no link character.
pub open spec fn url_run_end(s: Seq<char>, p: int) -> int
    decreases s.len() - p,
{
    if 0 <= p < s.len() && url_char(s[p]) {
        url_run_end(s, p + 1)
    } else {
        p
    }
}

/// The length of the scheme that stands at `p`; zero if none does.
pub open spec fn scheme_len(s: Seq<char>, p: int) -> int {
    if text::starts_at(s, p, "https://"@) {
        "https://"@.len() as int
    } else if text::starts_at(s, p, "http://"@) {
        "http://"@.len() as int
    } else {
        0
    }
}

/// Where a link stands: with its angle brackets from `start` to `end`, without them from
/// `url_start` to `url_end`.
#[derive(Clone, Copy)]
pub struct UrlSpan {
    pub start: usize,
    pub url_start: usize,
    pub url_end: usize,
    pub end: usize,
}

/// The link, with the angle brackets around it, that begins exactly at `i`.
pub open spec fn url_at(s: Seq<char>, i: int) -> Option<UrlSpan> {
    let body = if 0 <= i < s.len() && s[i] == '<' {
        i + 1
    } else {
        i
    };
    let head = scheme_len(s, body);
    let stop = url_run_end(s, body + head);
    if 0 <= i < s.len() && head > 0 && stop > body + head {
        Some(
            UrlSpan {
                start: i as usize,
                url_start: body as usize,
                url_end: stop as usize,
                end: if stop < s.len() && s[stop] == '>' {
                    (stop + 1) as usize
                } else {
                    stop as usize
                },
            },
        )
    } else {
        None
    }
}

/// The first link that begins at `from` or later.
pub open spec fn first_url(s: Seq<char>, from: int) -> Option<UrlSpan>
    decreases s.len() - from,
{
    if from >= s.len() {
        None
    } else if url_at(s, from) is Some {
        url_at(s, from)
    } else {
        first_url(s, from + 1)
    }
}

proof fn lemma_url_run_end(s: Seq<char>, p: int)
    requires
        0 <= p <= s.len(),
    ensures
        p <= url_run_end(s, p) <= s.len(),
        forall|k: int| p <= k < url_run_end(s, p) ==> url_char(#[trigger] s[k]),
        url_run_end(s, p) < s.len() ==> !url_char(s[url_run_end(s, p)]),
    decreases s.len() - p,
{
    if p < s.len() && url_char(s[p]) {
        lemma_url_run_end(s, p + 1);
    }
}

proof fn lemma_scheme_len(s: Seq<char>, p: int)
    ensures
        scheme_len(s, p) > 0 ==> 0 <= p && p + scheme_len(s, p) <= s.len(),
        scheme_len(s, p) == 0 || scheme_len(s, p) == 7 || scheme_len(s, p) == 8,
        forall|k: int|
            p <= k < p + scheme_len(s, p) ==> url_char(#[trigger] s[k]) && !digit_char(s[k]),
{
    reveal_strlit("https://");
    reveal_strlit("http://");
    if text::starts_at(s, p, "https://"@) {
        assert forall|k: int| p <= k < p + 8 implies url_char(#[trigger] s[k]) && !digit_char(
            s[k],
        ) by {
            assert(s.subrange(p, p + 8)[k - p] == s[k]);
        }
    } else if text::starts_at(s, p, "http://"@) {
        assert forall|k: int| p <= k < p + 7 implies url_char(#[trigger] s[k]) && !digit_char(
            s[k],
        ) by {
            assert(s.subrange(p, p + 7)[k - p] == s[k]);
        }
    }
}

/// Where a link stands in a text that fits in memory.
pub proof fn lemma_url_at(s: Seq<char>, i: int)
    requires
        s.len() <= usize::MAX,
        url_at(s, i) is Some,
    ensures
        ({
            let u = url_at(s, i)->0;
            &&& u.start == i
            &&& 0 <= i
            &&& u.url_start == (if s[i] == '<' { i + 1 } else { i })
            &&& u.start <= u.url_start < u.url_end <= u.end <= s.len()
            &&& u.url_end == url_run_end(s, u.url_start + scheme_len(s, u.url_start as int))
            &&& scheme_len(s, u.url_start as int) > 0
            &&& u.url_end > u.url_start + scheme_len(s, u.url_start as int)
            &&& u.end == u.url_end || (u.end == u.url_end + 1 && s[u.url_end as int] == '>')
            &&& forall|k: int| u.url_start <= k < u.url_end ==> url_char(#[trigger] s[k])
        }),
{
    let body = if s[i] == '<' {
        i + 1
    } else {
        i
    };
    lemma_scheme_len(s, body);
    let head = scheme_len(s, body);
    lemma_url_run_end(s, body + head);
}

/// The first link from `from` on stands behind positions where no link begins.
pub proof fn lemma_first_url(s: Seq<char>, from: int)
    requires
        0 <= from,
        s.len() <= usize::MAX,
    ensures
        match first_url(s, from) {
            Some(u) => {
                &&& from <= u.start < s.len()
                &&& url_at(s, u.start as int) == Some(u)
                &&& forall|k: int| from <= k < u.start ==> url_at(s, k) is None
            },
            None => forall|k: int| from <= k < s.len() ==> url_at(s, k) is None,
        },
    decreases s.len() - from,
{
    if from < s.len() {
        if url_at(s, from) is Some {
            lemma_url_at(s, from);
        } else {
            lemma_first_url(s, from + 1);
        }
    }
}

fn is_url_char(c: char) -> (yes: bool)
    ensures
        yes == url_char(c),
{
    !text::is_white_space(c) && c != '<' && c != '>' && c != '"' && c != '\''
}

/// Finds the first link that begins at `from` or later.
pub fn find_url(v: &[char], from: usize) -> (found: Option<UrlSpan>)
    ensures
        found == first_url(v@, from as int),
{
    let https = text::to_chars("https://");
    let http = text::to_chars("http://");
    let mut i: usize = from;
    while i < v.len()
        invariant
            from <= i,
            https@ == "https://"@,
            http@ == "http://"@,
            first_url(v@, i as int) == first_url(v@, from as int),
        decreases v.len() - i,
    {
        let body: usize = if v[i] == '<' {
            i + 1
        } else {
            i
        };
        let head: usize = if text::is_at(v, body, &https) {
            https.len()
        } else if text::is_at(v, body, &http) {
            http.len()
        } else {
            0
        };
        proof {
            lemma_scheme_len(v@, body as int);
        }
        if head > 0 {
            let mut stop: usize = body + head;
            while stop < v.len() && is_url_char(v[stop])
                invariant
                    body + head <= stop <= v.len(),
                    url_run_end(v@, stop as int) == url_run_end(v@, body + head),
                decreases v.len() - stop,
            {
                stop += 1;
            }
            if stop > body + head {
                let end: usize = if stop < v.len() && v[stop] == '>' {
                    stop + 1
                } else {
                    stop
                };
                return Some(UrlSpan { start: i, url_start: body, url_end: stop, end });
            }
        }
        i += 1;
    }
    None
}

// ---------------------------------------------------------------------------
// Codes
// ---------------------------------------------------------------------------

/// An ASCII digit.
pub open spec fn digit_char(c: char) -> bool {
    '0' <= c <= '9'
}

/// The first position from `p` on that holds no digit.
pub open spec fn digit_run_end(s: Seq<char>, p: int) -> int
    decreases s.len() - p,
{
    if 0 <= p < s.len() && digit_char(s[p]) {
        digit_run_end(s, p + 1)
    } else {
        p
    }
}

/// The length of a run of digits that is a code.
pub open spec fn code_length(n: int) -> bool {
    4 <= n <= 8
}

/// The digits from `i` to `j` are a run that no digit before or behind extends.
pub open spec fn digit_run(s: Seq<char>, i: int, j: int) -> bool {
    &&& 0 <= i < j <= s.len()
    &&& forall|k: int| i <= k < j ==> digit_char(#[trigger] s[k])
    &&& i == 0 || !digit_char(s[i - 1])
    &&& j == s.len() || !digit_char(s[j])
}

/// No run of digits in `s` has the length of a code.
pub open spec fn codeless(s: Seq<char>) -> bool {
    forall|i: int, j: int| #[trigger] digit_run(s, i, j) ==> !code_length(j - i)
}

/// A run of digits begins where it is looked for, and ends before the first other character.
pub proof fn lemma_digit_run_end(s: Seq<char>, p: int)
    requires
        0 <= p <= s.len(),
    ensures
        p <= digit_run_end(s, p) <= s.len(),
        p < s.len() && digit_char(s[p]) ==> p < digit_run_end(s, p),
        forall|k: int| p <= k < digit_run_end(s, p) ==> digit_char(#[trigger] s[k]),
        digit_run_end(s, p) < s.len() ==> !digit_char(s[digit_run_end(s, p)]),
    decreases s.len() - p,
{
    if p < s.len() && digit_char(s[p]) {
        lemma_digit_run_end(s, p + 1);
    }
}

/// `t` as a piece of prose; nothing if it is empty.
pub open spec fn text_piece(t: Seq<char>) -> Seq<Piece> {
    if t.len() == 0 {
        Seq::<Piece>::empty()
    } else {
        seq![Piece::Text(t)]
    }
}

/// The pieces of the link-free text `t` from `last` on, where no code stands between `last`
/// and `at`.
pub open spec fn prose_from(t: Seq<char>, last: int, at: int) -> Seq<Piece>
    decreases t.len() - at,
{
    if at < 0 || at >= t.len() {
        text_piece(t.subrange(last, t.len() as int))
    } else if !digit_char(t[at]) {
        prose_from(t, last, at + 1)
    } else {
        proof {
            lemma_digit_run_end(t, at);
        }
        let end = digit_run_end(t, at);
        if code_length(end - at) {
            text_piece(t.subrange(last, at)).push(Piece::Code(t.subrange(at, end))) + prose_from(
                t,
                end,
                end,
            )
        } else {
            prose_from(t, last, end)
        }
    }
}

/// The codes of the link-free text `t`, and the prose around them.
pub open spec fn prose(t: Seq<char>) -> Seq<Piece> {
    prose_from(t, 0, 0)
}

/// The pieces of `s` from `from` on.
pub open spec fn segments_from(s: Seq<char>, from: int) -> Seq<Piece>
    decreases s.len() - from,
{
    match first_url(s, from) {
        None => prose(s.subrange(from, s.len() as int)),
        Some(u) => if from <= u.start < u.end <= s.len() {
            prose(s.subrange(from, u.start as int)).push(
                Piece::Url(s.subrange(u.url_start as int, u.url_end as int)),
            ) + segments_from(s, u.end as int)
        } else {
            Seq::<Piece>::empty()
        },
    }
}

/// The pieces of the body `s`: its links, and the codes and the prose between them.
pub open spec fn segments_of(s: Seq<char>) -> Seq<Piece> {
    segments_from(s, 0)
}

/// Appends `text` as a piece of prose unless it is empty.
pub fn push_text<'a>(text: &'a str, segs: &mut Vec<Segment<'a>>)
    ensures
        pieces(final(segs)@) == pieces(old(segs)@) + text_piece(text@),
{
    if !text.is_empty() {
        segs.push(Segment::Text(text));
        assert(pieces(segs@) =~= pieces(old(segs)@) + seq![Piece::Text(text@)]);
    } else {
        assert(pieces(segs@) =~= pieces(old(segs)@) + Seq::<Piece>::empty());
    }
}

/// Appends the codes of a link-free text and the prose around them.
pub fn push_prose<'a>(text: &'a str, segs: &mut Vec<Segment<'a>>)
    ensures
        pieces(final(segs)@) == pieces(old(segs)@) + prose(text@),
{
    let v = text::to_chars(text);
    let mut last: usize = 0;
    let mut at: usize = 0;
    let ghost t = text@;
    let ghost before = pieces(segs@);
    while at < v.len()
        invariant
            v@ == t,
            t == text@,
            last <= at <= v.len(),
            pieces(segs@) + prose_from(t, last as int, at as int) =~= before + prose(t),
        decreases v.len() - at,
    {
        if !('0' <= v[at] && v[at] <= '9') {
            at += 1;
        } else {
            let mut end: usize = at + 1;
            proof {
                lemma_digit_run_end(t, at as int);
            }
            while end < v.len() && '0' <= v[end] && v[end] <= '9'
                invariant
                    v@ == t,
                    at < end <= v.len(),
                    digit_run_end(t, end as int) == digit_run_end(t, at as int),
                decreases v.len() - end,
            {
                end += 1;
            }
            if 4 <= end - at && end - at <= 8 {
                push_text(text.substring_char(last, at), segs);
                let code = text.substring_char(at, end);
                let ghost mid = pieces(segs@);
                segs.push(Segment::Code(code));
                assert(pieces(segs@) =~= mid.push(Piece::Code(code@)));
                last = end;
            }
            at = end;
        }
    }
    push_text(text.substring_char(last, v.len()), segs);
}

/// Cuts `input` into its links, codes and prose, in the order in which they stand there.
pub fn segment(input: &str) -> (segs: Vec<Segment<'_>>)
    ensures
        pieces(segs@) == segments_of(input@),
{
    let v = text::to_chars(input);
    let mut segs: Vec<Segment<'_>> = Vec::new();
    let mut last: usize = 0;
    let ghost s = input@;
    assert(pieces(segs@) + segments_from(s, 0) =~= segments_of(s));
    loop
        invariant
            v@ == s,
            s == input@,
            last <= v.len(),
            pieces(segs@) + segments_from(s, last as int) =~= segments_of(s),
        decreases v.len() - last,
    {
        proof {
            lemma_first_url(s, last as int);
        }
        match find_url(&v, last) {
            Some(u) => {
                proof {
                    lemma_url_at(s, u.start as int);
                }
                push_prose(input.substring_char(last, u.start), &mut segs);
                let url = input.substring_char(u.url_start, u.url_end);
                let ghost mid = pieces(segs@);
                segs.push(Segment::Url(url));
                assert(pieces(segs@) =~= mid.push(Piece::Url(url@)));
                last = u.end;
            },
            None => {
                push_prose(input.substring_char(last, v.len()), &mut segs);
                return segs;
            },
        }
    }
}

// ---------------------------------------------------------------------------
// What holds of every body
// ---------------------------------------------------------------------------

/// The characters of all pieces, one piece behind the other.
pub open spec fn flat(ps: Seq<Piece>) -> Seq<char>
    decreases ps.len(),
{
    if ps.len() == 0 {
        Seq::<char>::empty()
    } else {
        flat(ps.drop_last()) + ps.last().chars()
    }
}

/// The characters of two lists of pieces are those of the one, then those of the other.
pub proof fn lemma_flat_concat(a: Seq<Piece>, b: Seq<Piece>)
    ensures
        flat(a + b) == flat(a) + flat(b),
    decreases b.len(),
{
    if b.len() == 0 {
        assert(a + b =~= a);
        assert(flat(a) + flat(b) =~= flat(a));
    } else {
        assert((a + b).drop_last() =~= a + b.drop_last());
        lemma_flat_concat(a, b.drop_last());
        assert((flat(a) + flat(b.drop_last())) + b.last().chars() =~= flat(a) + (flat(b.drop_last())
            + b.last().chars()));
    }
}

proof fn lemma_flat_text_piece(t: Seq<char>)
    ensures
        flat(text_piece(t)) == t,
{
    if t.len() > 0 {
        assert(text_piece(t).drop_last() =~= Seq::<Piece>::empty());
        assert(flat(Seq::<Piece>::empty()) =~= Seq::<char>::empty());
        assert(flat(text_piece(t)) == flat(text_piece(t).drop_last()) + text_piece(t).last().chars());
        assert(Seq::<char>::empty() + t =~= t);
    } else {
        assert(t =~= Seq::<char>::empty());
    }
}

proof fn lemma_flat_push(ps: Seq<Piece>, p: Piece)
    ensures
        flat(ps.push(p)) == flat(ps) + p.chars(),
{
    assert(ps.push(p).drop_last() =~= ps);
}

proof fn lemma_prose_from_lossless(t: Seq<char>, last: int, at: int)
    requires
        0 <= last <= at <= t.len(),
    ensures
        flat(prose_from(t, last, at)) == t.subrange(last, t.len() as int),
    decreases t.len() - at,
{
    if at >= t.len() {
        lemma_flat_text_piece(t.subrange(last, t.len() as int));
    } else if !digit_char(t[at]) {
        lemma_prose_from_lossless(t, last, at + 1);
    } else {
        lemma_digit_run_end(t, at);
        let end = digit_run_end(t, at);
        if code_length(end - at) {
            lemma_prose_from_lossless(t, end, end);
            let head = text_piece(t.subrange(last, at));
            let code = Piece::Code(t.subrange(at, end));
            lemma_flat_text_piece(t.subrange(last, at));
            lemma_flat_push(head, code);
            lemma_flat_concat(head.push(code), prose_from(t, end, end));
            assert(t.subrange(last, at) + t.subrange(at, end) + t.subrange(end, t.len() as int)
                =~= t.subrange(last, t.len() as int));
        } else {
            lemma_prose_from_lossless(t, last, end);
        }
    }
}

/// Cutting the codes out of a link-free text loses nothing: the pieces, put one behind the
/// other, are the text.
pub proof fn lemma_prose_lossless(t: Seq<char>)
    ensures
        flat(prose(t)) == t,
{
    lemma_prose_from_lossless(t, 0, 0);
    assert(t.subrange(0, t.len() as int) =~= t);
}

/// No link in `s` has an angle bracket before or behind it.
pub open spec fn no_wrapped_link(s: Seq<char>) -> bool {
    forall|k: int|
        (#[trigger] url_at(s, k)) is Some ==> url_at(s, k)->0.start == url_at(s, k)->0.url_start
            && url_at(s, k)->0.end == url_at(s, k)->0.url_end
}

proof fn lemma_segments_from_lossless(s: Seq<char>, from: int)
    requires
        s.len() <= usize::MAX,
        0 <= from <= s.len(),
        no_wrapped_link(s),
    ensures
        flat(segments_from(s, from)) == s.subrange(from, s.len() as int),
    decreases s.len() - from,
{
    lemma_first_url(s, from);
    match first_url(s, from) {
        None => {
            lemma_prose_lossless(s.subrange(from, s.len() as int));
        },
        Some(u) => {
            lemma_url_at(s, u.start as int);
            lemma_segments_from_lossless(s, u.end as int);
            let head = prose(s.subrange(from, u.start as int));
            let url = Piece::Url(s.subrange(u.url_start as int, u.url_end as int));
            lemma_prose_lossless(s.subrange(from, u.start as int));
            lemma_flat_push(head, url);
            lemma_flat_concat(head.push(url), segments_from(s, u.end as int));
            assert(s.subrange(from, u.start as int) + s.subrange(u.start as int, u.end as int)
                + s.subrange(u.end as int, s.len() as int) =~= s.subrange(from, s.len() as int));
        },
    }
}

/// Where no link is wrapped in angle brackets, nothing of a body is lost: the pieces, put one
/// behind the other, are the body.
pub proof fn lemma_segments_lossless(s: Seq<char>)
    requires
        s.len() <= usize::MAX,
        no_wrapped_link(s),
    ensures
        flat(segments_of(s)) == s,
{
    lemma_segments_from_lossless(s, 0);
    assert(s.subrange(0, s.len() as int) =~= s);
}

/// A piece as it stands in a body, where a link can have an angle bracket before it, and one
/// behind it.
pub open spec fn in_brackets(p: Piece, brackets: (bool, bool)) -> Seq<char> {
    let before = if brackets.0 {
        seq!['<']
    } else {
        Seq::<char>::empty()
    };
    let behind = if brackets.1 {
        seq!['>']
    } else {
        Seq::<char>::empty()
    };
    before + p.chars() + behind
}

/// The pieces with their angle brackets, one behind the other.
pub open spec fn flat_in_brackets(ps: Seq<Piece>, brackets: Seq<(bool, bool)>) -> Seq<char>
    decreases ps.len(),
{
    if ps.len() == 0 {
        Seq::<char>::empty()
    } else {
        flat_in_brackets(ps.drop_last(), brackets.drop_last()) + in_brackets(
            ps.last(),
            brackets.last(),
        )
    }
}

/// Only links have angle brackets.
pub open spec fn brackets_of_links(ps: Seq<Piece>, brackets: Seq<(bool, bool)>) -> bool {
    &&& brackets.len() == ps.len()
    &&& forall|k: int|
        0 <= k < ps.len() && !((#[trigger] ps[k]) is Url) ==> brackets[k] == (false, false)
}

proof fn lemma_flat_in_brackets_concat(
    a: Seq<Piece>,
    x: Seq<(bool, bool)>,
    b: Seq<Piece>,
    y: Seq<(bool, bool)>,
)
    requires
        a.len() == x.len(),
        b.len() == y.len(),
    ensures
        flat_in_brackets(a + b, x + y) == flat_in_brackets(a, x) + flat_in_brackets(b, y),
    decreases b.len(),
{
    if b.len() == 0 {
        assert(a + b =~= a);
        assert(x + y =~= x);
        assert(flat_in_brackets(a, x) + flat_in_brackets(b, y) =~= flat_in_brackets(a, x));
    } else {
        lemma_flat_in_brackets_concat(a, x, b.drop_last(), y.drop_last());
        assert((a + b).drop_last() =~= a + b.drop_last());
        assert((x + y).drop_last() =~= x + y.drop_last());
        let last = in_brackets(b.last(), y.last());
        assert(flat_in_brackets(a, x) + flat_in_brackets(b.drop_last(), y.drop_last()) + last
            =~= flat_in_brackets(a, x) + (flat_in_brackets(b.drop_last(), y.drop_last()) + last));
    }
}

proof fn lemma_flat_without_brackets(ps: Seq<Piece>) -> (brackets: Seq<(bool, bool)>)
    ensures
        brackets.len() == ps.len(),
        forall|k: int| 0 <= k < ps.len() ==> #[trigger] brackets[k] == (false, false),
        flat_in_brackets(ps, brackets) == flat(ps),
    decreases ps.len(),
{
    if ps.len() == 0 {
        Seq::<(bool, bool)>::empty()
    } else {
        let head = lemma_flat_without_brackets(ps.drop_last());
        let brackets = head.push((false, false));
        assert(brackets.drop_last() =~= head);
        assert(in_brackets(ps.last(), (false, false)) =~= ps.last().chars());
        brackets
    }
}

proof fn lemma_segments_from_in_brackets(s: Seq<char>, from: int) -> (brackets: Seq<(bool, bool)>)
    requires
        s.len() <= usize::MAX,
        0 <= from <= s.len(),
    ensures
        brackets_of_links(segments_from(s, from), brackets),
        flat_in_brackets(segments_from(s, from), brackets) == s.subrange(from, s.len() as int),
    decreases s.len() - from,
{
    lemma_first_url(s, from);
    match first_url(s, from) {
        None => {
            let t = s.subrange(from, s.len() as int);
            lemma_prose_lossless(t);
            lemma_flat_without_brackets(prose(t))
        },
        Some(u) => {
            lemma_url_at(s, u.start as int);
            let t = s.subrange(from, u.start as int);
            let link = s.subrange(u.url_start as int, u.url_end as int);
            let around = (u.url_start > u.start, u.end > u.url_end);
            let rest = segments_from(s, u.end as int);
            lemma_prose_lossless(t);
            let x = lemma_flat_without_brackets(prose(t));
            let y = lemma_segments_from_in_brackets(s, u.end as int);
            let head = prose(t).push(Piece::Url(link));
            let heads = x.push(around);
            assert(head.drop_last() =~= prose(t));
            assert(heads.drop_last() =~= x);
            assert(in_brackets(Piece::Url(link), around) =~= s.subrange(
                u.start as int,
                u.end as int,
            ));
            lemma_flat_in_brackets_concat(head, heads, rest, y);
            assert(t + s.subrange(u.start as int, u.end as int) + s.subrange(
                u.end as int,
                s.len() as int,
            ) =~= s.subrange(from, s.len() as int));
            let all = head + rest;
            let brackets = heads + y;
            assert forall|k: int| 0 <= k < all.len() && !((#[trigger] all[k]) is Url) implies
                brackets[k] == (false, false) by {
                if k < head.len() {
                    assert(all[k] == head[k]);
                    assert(k < x.len());
                    assert(x[k] == (false, false));
                } else {
                    assert(all[k] == rest[k - head.len()]);
                    assert(y[k - head.len()] == (false, false));
                }
            }
            brackets
        },
    }
}

/// Nothing of a body is lost but angle brackets around links: the body is its pieces in order,
/// each link with or without a bracket before it and one behind it.
pub proof fn lemma_segments_in_brackets_lossless(s: Seq<char>) -> (brackets: Seq<(bool, bool)>)
    requires
        s.len() <= usize::MAX,
    ensures
        brackets_of_links(segments_of(s), brackets),
        flat_in_brackets(segments_of(s), brackets) == s,
{
    let brackets = lemma_segments_from_in_brackets(s, 0);
    assert(s.subrange(0, s.len() as int) =~= s);
    brackets
}

/// A piece as this module makes it: prose is not empty and holds no code, a code is four to
/// eight digits, a link is a scheme and what can stand in a link.
pub open spec fn well_shaped(p: Piece) -> bool {
    match p {
        Piece::Text(t) => t.len() > 0 && codeless(t),
        Piece::Code(c) => code_length(c.len() as int) && forall|k: int|
            0 <= k < c.len() ==> digit_char(#[trigger] c[k]),
        Piece::Url(u) => {
            &&& scheme_len(u, 0) > 0
            &&& u.len() > scheme_len(u, 0)
            &&& forall|k: int| 0 <= k < u.len() ==> url_char(#[trigger] u[k])
        },
    }
}

/// Prose that stands somewhere in `t`.
spec fn inside(p: Piece, t: Seq<char>) -> bool {
    p is Text ==> exists|a: int, b: int|
        0 <= a <= b <= t.len() && p.chars() == #[trigger] t.subrange(a, b)
}

spec fn prose_pieces(ps: Seq<Piece>, t: Seq<char>) -> bool {
    forall|k: int|
        0 <= k < ps.len() ==> well_shaped(#[trigger] ps[k]) && inside(ps[k], t) && !(ps[k] is Url)
}

/// Every run of digits between `last` and `at` is no code, and neither position stands inside
/// a run.
spec fn between_runs(t: Seq<char>, last: int, at: int) -> bool {
    &&& 0 <= last <= at <= t.len()
    &&& last == 0 || last == t.len() || !digit_char(t[last])
    &&& at == 0 || at == t.len() || !digit_char(t[at - 1]) || !digit_char(t[at])
    &&& forall|i: int, j: int|
        last <= i && j <= at && #[trigger] digit_run(t, i, j) ==> !code_length(j - i)
}

proof fn lemma_piece_between_runs(t: Seq<char>, last: int, at: int)
    requires
        between_runs(t, last, at),
        at == t.len() || digit_char(t[at]),
    ensures
        codeless(t.subrange(last, at)),
{
    let p = t.subrange(last, at);
    assert forall|i: int, j: int| #[trigger] digit_run(p, i, j) implies !code_length(j - i) by {
        assert(p[i] == t[last + i]);
        assert(p[j - 1] == t[last + j - 1]);
        assert forall|k: int| last + i <= k < last + j implies digit_char(#[trigger] t[k]) by {
            assert(p[k - last] == t[k]);
        }
        if i > 0 {
            assert(p[i - 1] == t[last + i - 1]);
        }
        if j < p.len() {
            assert(p[j] == t[last + j]);
        }
        assert(digit_run(t, last + i, last + j));
    }
}

proof fn lemma_prose_from_pieces(t: Seq<char>, last: int, at: int)
    requires
        between_runs(t, last, at),
    ensures
        prose_pieces(prose_from(t, last, at), t),
    decreases t.len() - at,
{
    if at >= t.len() {
        lemma_piece_between_runs(t, last, at);
        let p = t.subrange(last, t.len() as int);
        assert(inside(Piece::Text(p), t));
    } else if !digit_char(t[at]) {
        assert forall|i: int, j: int|
            last <= i && j <= at + 1 && #[trigger] digit_run(t, i, j) implies !code_length(
            j - i,
        ) by {
            if j == at + 1 {
                assert(digit_char(t[at]));
            }
        }
        lemma_prose_from_pieces(t, last, at + 1);
    } else {
        lemma_digit_run_end(t, at);
        let end = digit_run_end(t, at);
        if code_length(end - at) {
            lemma_piece_between_runs(t, last, at);
            let p = t.subrange(last, at);
            assert(inside(Piece::Text(p), t));
            let c = t.subrange(at, end);
            assert forall|k: int| 0 <= k < c.len() implies digit_char(#[trigger] c[k]) by {
                assert(c[k] == t[at + k]);
            }
            assert(well_shaped(Piece::Code(c)));
            lemma_prose_from_pieces(t, end, end);
            let rest = prose_from(t, end, end);
            let head = text_piece(p).push(Piece::Code(c));
            let all = head + rest;
            assert forall|k: int| 0 <= k < all.len() implies well_shaped(#[trigger] all[k])
                && inside(all[k], t) && !(all[k] is Url) by {
                if k < head.len() {
                    assert(all[k] == head[k]);
                } else {
                    assert(all[k] == rest[k - head.len()]);
                }
            }
        } else {
            assert forall|i: int, j: int|
                last <= i && j <= end && #[trigger] digit_run(t, i, j) implies !code_length(
                j - i,
            ) by {
                if j > at {
                    if i > at {
                        assert(digit_char(t[i - 1]));
                    }
                    if i < at {
                        assert(digit_char(t[at - 1]));
                    }
                    if j < end {
                        assert(digit_char(t[j]));
                    }
                }
            }
            lemma_prose_from_pieces(t, last, end);
        }
    }
}

proof fn lemma_prose_pieces(t: Seq<char>)
    ensures
        prose_pieces(prose(t), t),
{
    lemma_prose_from_pieces(t, 0, 0);
}

/// A text that is cut at its codes gives no link.
pub proof fn lemma_prose_has_no_links(t: Seq<char>)
    ensures
        forall|k: int| 0 <= k < prose(t).len() ==> !((#[trigger] prose(t)[k]) is Url),
{
    lemma_prose_pieces(t);
}

/// A link in a part of a text begins at the same place in the whole text.
pub proof fn lemma_url_in_part(s: Seq<char>, a: int, b: int, i: int)
    requires
        s.len() <= usize::MAX,
        0 <= a <= b <= s.len(),
        url_at(s.subrange(a, b), i) is Some,
    ensures
        0 <= i < b - a,
        url_at(s, a + i) is Some,
{
    let p = s.subrange(a, b);
    lemma_url_at(p, i);
    let u = url_at(p, i)->0;
    let body = u.url_start as int;
    let head = scheme_len(p, body);
    lemma_scheme_len(p, body);
    assert(p[i] == s[a + i]);
    reveal_strlit("https://");
    reveal_strlit("http://");
    if text::starts_at(p, body, "https://"@) {
        assert(s.subrange(a + body, a + body + 8) =~= p.subrange(body, body + 8));
    } else {
        assert(s.subrange(a + body, a + body + 7) =~= p.subrange(body, body + 7));
        if text::starts_at(s, a + body, "https://"@) {
            assert(s.subrange(a + body, a + body + 8)[4] == s[a + body + 4]);
            assert(s.subrange(a + body, a + body + 7)[4] == s[a + body + 4]);
        }
    }
    assert(scheme_len(s, a + body) == head);
    assert(p[body + head] == s[a + body + head]);
    lemma_url_run_end(p, body + head);
    lemma_url_run_end(s, a + body + head);
    assert(url_char(s[a + body + head]));
    lemma_url_run_end(s, a + body + head + 1);
}

/// No link begins anywhere in `t`.
pub open spec fn linkless(t: Seq<char>) -> bool {
    forall|k: int| 0 <= k < t.len() ==> url_at(t, k) is None
}

proof fn lemma_part_linkless(s: Seq<char>, from: int, to: int, a: int, b: int)
    requires
        s.len() <= usize::MAX,
        0 <= from <= to <= s.len(),
        forall|k: int| from <= k < to ==> url_at(s, k) is None,
        0 <= a <= b <= to - from,
    ensures
        linkless(s.subrange(from, to).subrange(a, b)),
{
    let p = s.subrange(from, to).subrange(a, b);
    assert(p =~= s.subrange(from + a, from + b));
    assert forall|k: int| 0 <= k < p.len() implies url_at(p, k) is None by {
        if url_at(p, k) is Some {
            lemma_url_in_part(s, from + a, from + b, k);
        }
    }
}

/// A piece of a body: it has the shape of its kind, and its prose holds no link.
pub open spec fn settled(p: Piece) -> bool {
    well_shaped(p) && (p is Text ==> linkless(p.chars())) && p.chars().len() <= usize::MAX
}

/// The pieces of a part of `s` in which no link begins are settled.
pub proof fn lemma_prose_settled(s: Seq<char>, from: int, to: int)
    requires
        s.len() <= usize::MAX,
        0 <= from <= to <= s.len(),
        forall|k: int| from <= k < to ==> url_at(s, k) is None,
    ensures
        forall|k: int|
            0 <= k < prose(s.subrange(from, to)).len() ==> settled(
                #[trigger] prose(s.subrange(from, to))[k],
            ),
{
    let t = s.subrange(from, to);
    lemma_prose_pieces(t);
    assert forall|k: int| 0 <= k < prose(t).len() implies settled(#[trigger] prose(t)[k]) by {
        let p = prose(t)[k];
        if p is Text {
            let (a, b) = choose|a: int, b: int|
                0 <= a <= b <= t.len() && p.chars() == #[trigger] t.subrange(a, b);
            lemma_part_linkless(s, from, to, a, b);
        }
    }
}

proof fn lemma_url_piece(s: Seq<char>, i: int)
    requires
        s.len() <= usize::MAX,
        url_at(s, i) is Some,
    ensures
        well_shaped(
            Piece::Url(
                s.subrange(url_at(s, i)->0.url_start as int, url_at(s, i)->0.url_end as int),
            ),
        ),
{
    lemma_url_at(s, i);
    let u = url_at(s, i)->0;
    let a = u.url_start as int;
    let p = s.subrange(a, u.url_end as int);
    lemma_scheme_len(s, a);
    reveal_strlit("https://");
    reveal_strlit("http://");
    if text::starts_at(s, a, "https://"@) {
        assert(p.subrange(0, 8) =~= s.subrange(a, a + 8));
    } else {
        assert(p.subrange(0, 7) =~= s.subrange(a, a + 7));
        if text::starts_at(p, 0, "https://"@) {
            assert(p.subrange(0, 8)[4] == p[4]);
            assert(p.subrange(0, 7)[4] == p[4]);
        }
    }
    assert forall|k: int| 0 <= k < p.len() implies url_char(#[trigger] p[k]) by {
        assert(p[k] == s[a + k]);
    }
}

proof fn lemma_segments_from_settled(s: Seq<char>, from: int)
    requires
        s.len() <= usize::MAX,
        0 <= from <= s.len(),
    ensures
        forall|k: int|
            0 <= k < segments_from(s, from).len() ==> settled(
                #[trigger] segments_from(s, from)[k],
            ),
    decreases s.len() - from,
{
    lemma_first_url(s, from);
    match first_url(s, from) {
        None => {
            lemma_prose_settled(s, from, s.len() as int);
        },
        Some(u) => {
            lemma_url_at(s, u.start as int);
            lemma_url_piece(s, u.start as int);
            lemma_prose_settled(s, from, u.start as int);
            lemma_segments_from_settled(s, u.end as int);
            let head = prose(s.subrange(from, u.start as int));
            let url = Piece::Url(s.subrange(u.url_start as int, u.url_end as int));
            let rest = segments_from(s, u.end as int);
            let all = segments_from(s, from);
            assert(all =~= head.push(url) + rest);
            assert forall|k: int| 0 <= k < all.len() implies settled(#[trigger] all[k]) by {
                if k < head.len() {
                    assert(all[k] == head[k]);
                } else if k > head.len() {
                    assert(all[k] == rest[k - head.len() - 1]);
                }
            }
        },
    }
}

/// Every piece of a body has the shape of its kind: prose is not empty and holds neither a
/// link nor a code, a code is four to eight digits, a link is a scheme and link characters.
pub proof fn lemma_segments_well_shaped(s: Seq<char>, k: int)
    requires
        s.len() <= usize::MAX,
        0 <= k < segments_of(s).len(),
    ensures
        well_shaped(segments_of(s)[k]),
        segments_of(s)[k] is Text ==> linkless(segments_of(s)[k].chars()),
{
    lemma_segments_from_settled(s, 0);
    assert(settled(segments_of(s)[k]));
}

proof fn lemma_codeless_prose_from(t: Seq<char>, at: int)
    requires
        codeless(t),
        between_runs(t, 0, at),
    ensures
        prose_from(t, 0, at) == text_piece(t),
    decreases t.len() - at,
{
    if at >= t.len() {
        assert(t.subrange(0, t.len() as int) =~= t);
    } else if !digit_char(t[at]) {
        lemma_codeless_prose_from(t, at + 1);
    } else {
        lemma_digit_run_end(t, at);
        let end = digit_run_end(t, at);
        assert(digit_run(t, at, end));
        lemma_codeless_prose_from(t, end);
    }
}

proof fn lemma_linkless_first_url(t: Seq<char>, from: int)
    requires
        linkless(t),
        0 <= from,
    ensures
        first_url(t, from) is None,
    decreases t.len() - from,
{
    if from < t.len() {
        lemma_linkless_first_url(t, from + 1);
    }
}

proof fn lemma_run_covers(s: Seq<char>, p: int)
    requires
        0 <= p <= s.len(),
        forall|k: int| p <= k < s.len() ==> url_char(#[trigger] s[k]),
    ensures
        url_run_end(s, p) == s.len(),
    decreases s.len() - p,
{
    if p < s.len() {
        lemma_run_covers(s, p + 1);
    }
}

proof fn lemma_no_scheme_in_digits(c: Seq<char>, i: int)
    requires
        0 <= i < c.len(),
        forall|k: int| 0 <= k < c.len() ==> digit_char(#[trigger] c[k]),
    ensures
        url_at(c, i) is None,
{
    assert(digit_char(c[i]));
    lemma_scheme_len(c, i);
    if scheme_len(c, i) > 0 {
        assert(!digit_char(c[i]));
    }
}

proof fn lemma_code_run(c: Seq<char>, p: int)
    requires
        0 <= p <= c.len(),
        forall|k: int| 0 <= k < c.len() ==> digit_char(#[trigger] c[k]),
    ensures
        digit_run_end(c, p) == c.len(),
    decreases c.len() - p,
{
    if p < c.len() {
        lemma_code_run(c, p + 1);
    }
}

/// Links and codes are kept apart from prose for good: each piece of a body, cut once more on
/// its own, is that one piece again.
pub proof fn lemma_segments_settled(s: Seq<char>, k: int)
    requires
        s.len() <= usize::MAX,
        0 <= k < segments_of(s).len(),
    ensures
        segments_of(segments_of(s)[k].chars()) == seq![segments_of(s)[k]],
{
    lemma_segments_from_settled(s, 0);
    assert(settled(segments_of(s)[k]));
    lemma_piece_is_settled(segments_of(s)[k]);
}

/// A well shaped piece without a link in its prose is cut into itself.
proof fn lemma_piece_is_settled(p: Piece)
    requires
        settled(p),
    ensures
        segments_of(p.chars()) == seq![p],
{
    let t = p.chars();
    match p {
        Piece::Text(_) => {
            lemma_linkless_first_url(t, 0);
            assert(t.subrange(0, t.len() as int) =~= t);
            lemma_codeless_prose_from(t, 0);
        },
        Piece::Code(_) => {
            assert(linkless(t)) by {
                assert forall|i: int| 0 <= i < t.len() implies url_at(t, i) is None by {
                    lemma_no_scheme_in_digits(t, i);
                }
            }
            lemma_linkless_first_url(t, 0);
            assert(t.subrange(0, t.len() as int) =~= t);
            lemma_code_run(t, 0);
            assert(t.subrange(0, 0) =~= Seq::<char>::empty());
            assert(t.subrange(t.len() as int, t.len() as int) =~= Seq::<char>::empty());
            let n = t.len() as int;
            assert(prose_from(t, n, n) =~= Seq::<Piece>::empty());
            assert(digit_char(t[0]));
            assert(prose_from(t, 0, 0) == text_piece(t.subrange(0, 0)).push(
                Piece::Code(t.subrange(0, n)),
            ) + prose_from(t, n, n));
            assert(segments_of(t) =~= seq![p]);
        },
        Piece::Url(_) => {
            lemma_scheme_len(t, 0);
            assert(t[0] != '<') by {
                assert(url_char(t[0]));
            }
            lemma_run_covers(t, scheme_len(t, 0));
            let u = url_at(t, 0)->0;
            assert(url_at(t, 0) is Some);
            assert(first_url(t, 0) == url_at(t, 0));
            lemma_url_at(t, 0);
            assert(t.subrange(0, t.len() as int) =~= t);
            assert(t.subrange(0, 0) =~= Seq::<char>::empty());
            assert(t.subrange(t.len() as int, t.len() as int) =~= Seq::<char>::empty());
            assert(first_url(t, t.len() as int) is None);
            assert(prose(Seq::<char>::empty()) =~= Seq::<Piece>::empty());
            assert(segments_from(t, t.len() as int) =~= Seq::<Piece>::empty());
            assert(segments_of(t) =~= seq![p]);
        },
    }
}

/// No two neighbours are both prose or both codes.
pub open spec fn alternates(ps: Seq<Piece>) -> bool {
    forall|k: int|
        0 <= k < ps.len() - 1 ==> !((#[trigger] ps[k]) is Text && ps[k + 1] is Text) && !(
        ps[k] is Code && ps[k + 1] is Code)
}

proof fn lemma_prose_from_alternates(t: Seq<char>, last: int, at: int)
    requires
        0 <= last <= at <= t.len(),
    ensures
        alternates(prose_from(t, last, at)),
        // behind a code, which ends where no digit follows, comes prose
        prose_from(t, last, at).len() > 0 && last < t.len() && (at > last || !digit_char(t[at]))
            ==> prose_from(t, last, at)[0] is Text,
        last == t.len() ==> prose_from(t, last, at).len() == 0,
    decreases t.len() - at,
{
    if at < t.len() {
        if !digit_char(t[at]) {
            lemma_prose_from_alternates(t, last, at + 1);
        } else {
            lemma_digit_run_end(t, at);
            let end = digit_run_end(t, at);
            if code_length(end - at) {
                lemma_prose_from_alternates(t, end, end);
                let head = text_piece(t.subrange(last, at));
                let code = Piece::Code(t.subrange(at, end));
                let rest = prose_from(t, end, end);
                let all = prose_from(t, last, at);
                assert(all =~= head.push(code) + rest);
                assert forall|k: int| 0 <= k < all.len() - 1 implies !((#[trigger] all[k]) is Text
                    && all[k + 1] is Text) && !(all[k] is Code && all[k + 1] is Code) by {
                    if k > head.len() {
                        assert(all[k] == rest[k - head.len() - 1]);
                        assert(all[k + 1] == rest[k - head.len()]);
                    } else if k == head.len() {
                        assert(all[k + 1] == rest[0]);
                    }
                }
            } else {
                lemma_prose_from_alternates(t, last, end);
            }
        }
    }
}

proof fn lemma_segments_from_alternates(s: Seq<char>, from: int)
    requires
        s.len() <= usize::MAX,
        0 <= from <= s.len(),
    ensures
        alternates(segments_from(s, from)),
    decreases s.len() - from,
{
    lemma_first_url(s, from);
    match first_url(s, from) {
        None => {
            lemma_prose_from_alternates(s.subrange(from, s.len() as int), 0, 0);
        },
        Some(u) => {
            lemma_url_at(s, u.start as int);
            let t = s.subrange(from, u.start as int);
            lemma_prose_from_alternates(t, 0, 0);
            lemma_segments_from_alternates(s, u.end as int);
            let head = prose(t);
            let url = Piece::Url(s.subrange(u.url_start as int, u.url_end as int));
            let rest = segments_from(s, u.end as int);
            let all = segments_from(s, from);
            assert(all =~= head.push(url) + rest);
            assert forall|k: int| 0 <= k < all.len() - 1 implies !((#[trigger] all[k]) is Text
                && all[k + 1] is Text) && !(all[k] is Code && all[k + 1] is Code) by {
                if k < head.len() - 1 {
                    assert(all[k] == head[k]);
                    assert(all[k + 1] == head[k + 1]);
                } else if k > head.len() {
                    assert(all[k] == rest[k - head.len() - 1]);
                    assert(all[k + 1] == rest[k - head.len()]);
                }
            }
        },
    }
}

/// Prose is cut only where a link or a code stands, and two codes never touch: no two
/// neighbouring pieces of a body are both prose or both codes.
pub proof fn lemma_segments_alternate(s: Seq<char>)
    requires
        s.len() <= usize::MAX,
    ensures
        alternates(segments_of(s)),
{
    lemma_segments_from_alternates(s, 0);
}

// ---------------------------------------------------------------------------
// Where links and codes stand in a body
// ---------------------------------------------------------------------------

/// A link cannot go on over `c`: white space, an angle bracket, or a quote.
pub open spec fn link_stop(c: char) -> bool {
    text::white_space(c) || c == '<' || c == '>' || c == '"' || c == '\''
}

/// A link is written from `i` on: `http://` or `https://`, and behind it a character that a link
/// can go on over.
pub open spec fn link_written_at(s: Seq<char>, i: int) -> bool {
    ||| text::starts_at(s, i, "http://"@) && i + 7 < s.len() && !link_stop(s[i + 7])
    ||| text::starts_at(s, i, "https://"@) && i + 8 < s.len() && !link_stop(s[i + 8])
}

/// Four to eight digits are written from `i` to `j`, and no digit is before or behind them.
pub open spec fn code_written_at(s: Seq<char>, i: int, j: int) -> bool {
    &&& 0 <= i
    &&& j <= s.len()
    &&& 4 <= j - i <= 8
    &&& forall|k: int| i <= k < j ==> '0' <= #[trigger] s[k] <= '9'
    &&& i == 0 || !('0' <= s[i - 1] <= '9')
    &&& j == s.len() || !('0' <= s[j] <= '9')
}

/// Where the piece `k` begins in the body, without its bracket.
pub open spec fn place_of(ps: Seq<Piece>, brackets: Seq<(bool, bool)>, k: int) -> int {
    flat_in_brackets(ps.take(k), brackets.take(k)).len() + (if brackets[k].0 {
        1int
    } else {
        0int
    })
}

/// The piece `k`, with its place counted from `from`, stands in `s` as its kind asks.
pub open spec fn stands(
    s: Seq<char>,
    from: int,
    ps: Seq<Piece>,
    brackets: Seq<(bool, bool)>,
    k: int,
) -> bool {
    let x = ps[k].chars();
    let a = from + place_of(ps, brackets, k);
    let e = a + x.len();
    &&& text::starts_at(s, a, x)
    &&& ps[k] is Url ==> {
        &&& link_written_at(s, a)
        &&& forall|i: int| a <= i < e ==> !link_stop(#[trigger] s[i])
        &&& e == s.len() || link_stop(s[e])
        &&& brackets[k].0 <==> a > 0 && s[a - 1] == '<'
        &&& brackets[k].1 <==> e < s.len() && s[e] == '>'
    }
    &&& ps[k] is Code ==> code_written_at(s, a, e)
}

/// The place `i` of `s`, counted from `from`, is in a link.
pub open spec fn in_link(
    from: int,
    ps: Seq<Piece>,
    brackets: Seq<(bool, bool)>,
    i: int,
) -> bool {
    exists|k: int|
        {
            &&& 0 <= k < ps.len()
            &&& (#[trigger] ps[k]) is Url
            &&& from + place_of(ps, brackets, k) <= i < from + place_of(ps, brackets, k)
                + ps[k].chars().len()
        }
}

/// The characters from `i` to `j` of `s`, counted from `from`, are a code.
pub open spec fn is_code(
    s: Seq<char>,
    from: int,
    ps: Seq<Piece>,
    brackets: Seq<(bool, bool)>,
    i: int,
    j: int,
) -> bool {
    exists|k: int|
        {
            &&& 0 <= k < ps.len()
            &&& #[trigger] ps[k] == Piece::Code(s.subrange(i, j))
            &&& from + place_of(ps, brackets, k) == i
        }
}

proof fn lemma_place_in_head(
    a: Seq<Piece>,
    x: Seq<(bool, bool)>,
    b: Seq<Piece>,
    y: Seq<(bool, bool)>,
    k: int,
)
    requires
        a.len() == x.len(),
        b.len() == y.len(),
        0 <= k < a.len(),
    ensures
        place_of(a + b, x + y, k) == place_of(a, x, k),
        (a + b)[k] == a[k],
        (x + y)[k] == x[k],
{
    assert((a + b).take(k) =~= a.take(k));
    assert((x + y).take(k) =~= x.take(k));
}

proof fn lemma_place_in_tail(
    a: Seq<Piece>,
    x: Seq<(bool, bool)>,
    b: Seq<Piece>,
    y: Seq<(bool, bool)>,
    k: int,
)
    requires
        a.len() == x.len(),
        b.len() == y.len(),
        0 <= k < b.len(),
    ensures
        place_of(a + b, x + y, a.len() + k) == flat_in_brackets(a, x).len() + place_of(b, y, k),
        (a + b)[a.len() + k] == b[k],
        (x + y)[x.len() + k] == y[k],
{
    assert((a + b).take(a.len() + k) =~= a + b.take(k));
    assert((x + y).take(x.len() + k) =~= x + y.take(k));
    lemma_flat_in_brackets_concat(a, x, b.take(k), y.take(k));
}

/// No brackets around `n` pieces.
spec fn bare(n: nat) -> Seq<(bool, bool)> {
    Seq::new(n, |k: int| (false, false))
}

proof fn lemma_flat_bare(ps: Seq<Piece>)
    ensures
        flat_in_brackets(ps, bare(ps.len())) == flat(ps),
    decreases ps.len(),
{
    if ps.len() > 0 {
        lemma_flat_bare(ps.drop_last());
        assert(bare(ps.len()).drop_last() =~= bare(ps.drop_last().len()));
        assert(in_brackets(ps.last(), (false, false)) =~= ps.last().chars());
    }
}

/// All pieces of a text without links stand where they should, and each code is one of them.
spec fn prose_stands(t: Seq<char>, last: int, at: int) -> bool {
    let ps = prose_from(t, last, at);
    let b = bare(ps.len());
    &&& forall|k: int|
        0 <= k < ps.len() ==> stands(t, last, ps, b, k) && !((#[trigger] ps[k]) is Url)
    &&& forall|i: int, j: int|
        at <= i && #[trigger] code_written_at(t, i, j) ==> is_code(t, last, ps, b, i, j)
}

proof fn lemma_prose_stands(t: Seq<char>, last: int, at: int)
    requires
        0 <= last <= at <= t.len(),
        at == 0 || at == t.len() || !('0' <= t[at - 1] <= '9') || !('0' <= t[at] <= '9'),
    ensures
        prose_stands(t, last, at),
    decreases t.len() - at,
{
    let ps = prose_from(t, last, at);
    let b = bare(ps.len());
    if at >= t.len() {
        let p = t.subrange(last, t.len() as int);
        if p.len() > 0 {
            assert(ps.take(0) =~= Seq::<Piece>::empty());
            assert(ps[0] == Piece::Text(p));
            assert(place_of(ps, b, 0) == 0);
            assert(text::starts_at(t, last, p));
        }
    } else if !digit_char(t[at]) {
        lemma_prose_stands(t, last, at + 1);
        assert forall|i: int, j: int|
            at <= i && #[trigger] code_written_at(t, i, j) implies is_code(t, last, ps, b, i, j) by {
            if i == at {
                assert('0' <= t[i] <= '9');
            }
        }
    } else {
        lemma_digit_run_end(t, at);
        let end = digit_run_end(t, at);
        if !code_length(end - at) {
            lemma_prose_stands(t, last, end);
            assert forall|i: int, j: int|
                at <= i && #[trigger] code_written_at(t, i, j) implies is_code(
                t,
                last,
                ps,
                b,
                i,
                j,
            ) by {
                lemma_run_is_whole(t, at, end, i, j);
            }
        } else {
            lemma_prose_stands(t, end, end);
            let p = t.subrange(last, at);
            let code = Piece::Code(t.subrange(at, end));
            let head = text_piece(p).push(code);
            let heads = bare(head.len());
            let rest = prose_from(t, end, end);
            let rests = bare(rest.len());
            assert(ps =~= head + rest);
            assert(b =~= heads + rests);
            lemma_flat_bare(head);
            lemma_flat_bare(text_piece(p));
            lemma_flat_text_piece(p);
            lemma_flat_push(text_piece(p), code);
            assert(flat(head) =~= p + t.subrange(at, end));
            let c = head.len() - 1;
            assert(head.take(c) =~= text_piece(p));
            assert(heads.take(c) =~= bare(text_piece(p).len()));
            assert(place_of(head, heads, c) == p.len());
            assert(text::starts_at(t, at, t.subrange(at, end)));
            assert(code_written_at(t, at, end)) by {
                assert forall|k: int| at <= k < end implies '0' <= #[trigger] t[k] <= '9' by {
                    assert(digit_char(t[k]));
                }
            }
            assert forall|k: int| 0 <= k < ps.len() implies stands(t, last, ps, b, k) && !((
            #[trigger] ps[k]) is Url) by {
                if k < head.len() {
                    lemma_place_in_head(head, heads, rest, rests, k);
                    if k < c {
                        assert(head.take(0) =~= Seq::<Piece>::empty());
                        assert(head[k] == Piece::Text(p));
                        assert(text::starts_at(t, last, p));
                    }
                } else {
                    let i = k - head.len();
                    lemma_place_in_tail(head, heads, rest, rests, i);
                    assert(stands(t, end, rest, rests, i) && !(rest[i] is Url));
                }
            }
            assert forall|i: int, j: int|
                at <= i && #[trigger] code_written_at(t, i, j) implies is_code(
                t,
                last,
                ps,
                b,
                i,
                j,
            ) by {
                if i < end {
                    lemma_run_is_whole(t, at, end, i, j);
                    lemma_place_in_head(head, heads, rest, rests, c);
                    assert(ps[c] == Piece::Code(t.subrange(i, j)));
                } else {
                    assert(is_code(t, end, rest, rests, i, j));
                    let k = choose|k: int|
                        {
                            &&& 0 <= k < rest.len()
                            &&& #[trigger] rest[k] == Piece::Code(t.subrange(i, j))
                            &&& end + place_of(rest, rests, k) == i
                        };
                    lemma_place_in_tail(head, heads, rest, rests, k);
                    assert(ps[head.len() + k] == Piece::Code(t.subrange(i, j)));
                }
            }
        }
    }
}

/// A code that begins in a run of digits is the run.
proof fn lemma_run_is_whole(t: Seq<char>, at: int, end: int, i: int, j: int)
    requires
        0 <= at < end <= t.len(),
        forall|k: int| at <= k < end ==> digit_char(#[trigger] t[k]),
        end == t.len() || !digit_char(t[end]),
        at <= i,
        code_written_at(t, i, j),
    ensures
        i < end ==> i == at && j == end,
        i >= end || code_length(end - at),
{
    if i < end {
        if i > at {
            assert(digit_char(t[i - 1]));
        }
        if j < end {
            assert(digit_char(t[j]));
        }
        if j > end {
            assert('0' <= t[end] <= '9');
        }
    }
}

/// Pieces without links stand in `s` from `from` to `to`, and each code there is one of them.
spec fn prose_covers(s: Seq<char>, from: int, to: int, ps: Seq<Piece>) -> bool {
    let b = bare(ps.len());
    &&& flat_in_brackets(ps, b) == s.subrange(from, to)
    &&& forall|k: int|
        0 <= k < ps.len() ==> stands(s, from, ps, b, k) && !((#[trigger] ps[k]) is Url)
    &&& forall|i: int, j: int|
        from <= i && j <= to && #[trigger] code_written_at(s, i, j) ==> is_code(
            s,
            from,
            ps,
            b,
            i,
            j,
        )
}

/// Every link and every code of `s` from `from` on is one of the pieces.
spec fn finds(s: Seq<char>, from: int, ps: Seq<Piece>, brackets: Seq<(bool, bool)>) -> bool {
    &&& forall|i: int|
        from <= i && #[trigger] link_written_at(s, i) ==> in_link(from, ps, brackets, i)
    &&& forall|i: int, j: int|
        from <= i && #[trigger] code_written_at(s, i, j) ==> in_link(from, ps, brackets, i)
            || is_code(s, from, ps, brackets, i, j)
}

/// The pieces are `s` from `from` on, and all stand as their kind asks.
spec fn covers(s: Seq<char>, from: int, ps: Seq<Piece>, brackets: Seq<(bool, bool)>) -> bool {
    &&& brackets_of_links(ps, brackets)
    &&& flat_in_brackets(ps, brackets) == s.subrange(from, s.len() as int)
    &&& forall|k: int| 0 <= k < ps.len() ==> #[trigger] stands(s, from, ps, brackets, k)
}

/// A link and its brackets are what stands from `u.start` to `u.end`.
spec fn span_fits(s: Seq<char>, u: UrlSpan) -> bool {
    &&& u.start <= u.url_start < u.url_end <= u.end <= s.len()
    &&& u.url_start == u.start || (u.url_start == u.start + 1 && s[u.start as int] == '<')
    &&& u.end == u.url_end || (u.end == u.url_end + 1 && s[u.url_end as int] == '>')
}

/// A link stands from `u.start` to `u.end`, and is found there with its brackets.
spec fn link_stands(s: Seq<char>, u: UrlSpan) -> bool {
    &&& span_fits(s, u)
    &&& link_written_at(s, u.url_start as int)
    &&& forall|i: int| u.url_start <= i < u.url_end ==> !link_stop(#[trigger] s[i])
    &&& u.url_end == s.len() || link_stop(s[u.url_end as int])
    &&& u.url_start > u.start <==> u.url_start > 0 && s[u.url_start - 1] == '<'
    &&& u.end > u.url_end <==> u.url_end < s.len() && s[u.url_end as int] == '>'
}

/// The pieces up to the link, and the link.
spec fn with_link(pre: Seq<Piece>, s: Seq<char>, u: UrlSpan) -> Seq<Piece> {
    pre.push(Piece::Url(s.subrange(u.url_start as int, u.url_end as int)))
}

/// The brackets up to the link, and its own.
spec fn with_its_brackets(pre: Seq<Piece>, u: UrlSpan) -> Seq<(bool, bool)> {
    bare(pre.len()).push((u.url_start > u.start, u.end > u.url_end))
}

proof fn lemma_with_link(s: Seq<char>, from: int, pre: Seq<Piece>, u: UrlSpan)
    requires
        0 <= from <= u.start,
        span_fits(s, u),
        flat_in_brackets(pre, bare(pre.len())) == s.subrange(from, u.start as int),
    ensures
        with_its_brackets(pre, u).len() == with_link(pre, s, u).len(),
        flat_in_brackets(with_link(pre, s, u), with_its_brackets(pre, u)) == s.subrange(
            from,
            u.end as int,
        ),
        place_of(with_link(pre, s, u), with_its_brackets(pre, u), pre.len() as int) == u.url_start
            - from,
{
    let head = with_link(pre, s, u);
    let heads = with_its_brackets(pre, u);
    let b = bare(pre.len());
    let link = s.subrange(u.url_start as int, u.url_end as int);
    let around = (u.url_start > u.start, u.end > u.url_end);
    assert(head.drop_last() =~= pre);
    assert(heads.drop_last() =~= b);
    assert(head.take(pre.len() as int) =~= pre);
    assert(heads.take(pre.len() as int) =~= b);
    assert(head.last() == Piece::Url(link) && heads.last() == around);
    assert(in_brackets(Piece::Url(link), around) =~= s.subrange(u.start as int, u.end as int));
    assert(s.subrange(from, u.start as int) + s.subrange(u.start as int, u.end as int)
        =~= s.subrange(from, u.end as int));
}

proof fn lemma_place_before_link(s: Seq<char>, pre: Seq<Piece>, u: UrlSpan, k: int)
    requires
        0 <= k < pre.len(),
    ensures
        place_of(with_link(pre, s, u), with_its_brackets(pre, u), k) == place_of(
            pre,
            bare(pre.len()),
            k,
        ),
        with_link(pre, s, u)[k] == pre[k],
        with_its_brackets(pre, u)[k] == bare(pre.len())[k],
{
    assert(with_link(pre, s, u).take(k) =~= pre.take(k));
    assert(with_its_brackets(pre, u).take(k) =~= bare(pre.len()).take(k));
}

proof fn lemma_combined_stands(
    s: Seq<char>,
    from: int,
    pre: Seq<Piece>,
    u: UrlSpan,
    rest: Seq<Piece>,
    y: Seq<(bool, bool)>,
    k: int,
)
    requires
        0 <= from <= u.start,
        link_stands(s, u),
        flat_in_brackets(pre, bare(pre.len())) == s.subrange(from, u.start as int),
        rest.len() == y.len(),
        0 <= k <= pre.len() + rest.len(),
        k < pre.len() ==> stands(s, from, pre, bare(pre.len()), k) && !(pre[k] is Url),
        k > pre.len() ==> stands(s, u.end as int, rest, y, k - pre.len() - 1),
    ensures
        stands(s, from, with_link(pre, s, u) + rest, with_its_brackets(pre, u) + y, k),
{
    let head = with_link(pre, s, u);
    let heads = with_its_brackets(pre, u);
    lemma_with_link(s, from, pre, u);
    if k < pre.len() {
        lemma_place_before_link(s, pre, u, k);
        lemma_place_in_head(head, heads, rest, y, k);
    } else if k == pre.len() {
        lemma_place_in_head(head, heads, rest, y, k);
        assert(text::starts_at(s, u.url_start as int, head[k].chars()));
    } else {
        lemma_place_in_tail(head, heads, rest, y, k - head.len());
    }
}

proof fn lemma_combined_flat(
    s: Seq<char>,
    from: int,
    pre: Seq<Piece>,
    u: UrlSpan,
    rest: Seq<Piece>,
    y: Seq<(bool, bool)>,
)
    requires
        0 <= from <= u.start,
        span_fits(s, u),
        flat_in_brackets(pre, bare(pre.len())) == s.subrange(from, u.start as int),
        brackets_of_links(rest, y),
        flat_in_brackets(rest, y) == s.subrange(u.end as int, s.len() as int),
    ensures
        brackets_of_links(with_link(pre, s, u) + rest, with_its_brackets(pre, u) + y),
        flat_in_brackets(with_link(pre, s, u) + rest, with_its_brackets(pre, u) + y) == s.subrange(
            from,
            s.len() as int,
        ),
{
    let head = with_link(pre, s, u);
    let heads = with_its_brackets(pre, u);
    let ps = head + rest;
    let brackets = heads + y;
    let end = u.end as int;
    lemma_with_link(s, from, pre, u);
    lemma_flat_in_brackets_concat(head, heads, rest, y);
    assert(s.subrange(from, end) + s.subrange(end, s.len() as int) =~= s.subrange(
        from,
        s.len() as int,
    ));
    assert forall|k: int| 0 <= k < ps.len() && !((#[trigger] ps[k]) is Url) implies brackets[k] == (
        false,
        false,
    ) by {
        if k < pre.len() {
            assert(brackets[k] == bare(pre.len())[k]);
        } else if k > pre.len() {
            assert(ps[k] == rest[k - head.len()] && brackets[k] == y[k - head.len()]);
        }
    }
}

proof fn lemma_combined_covers(
    s: Seq<char>,
    from: int,
    pre: Seq<Piece>,
    u: UrlSpan,
    rest: Seq<Piece>,
    y: Seq<(bool, bool)>,
)
    requires
        0 <= from <= u.start,
        link_stands(s, u),
        prose_covers(s, from, u.start as int, pre),
        covers(s, u.end as int, rest, y),
    ensures
        covers(s, from, with_link(pre, s, u) + rest, with_its_brackets(pre, u) + y),
{
    let ps = with_link(pre, s, u) + rest;
    let brackets = with_its_brackets(pre, u) + y;
    lemma_combined_flat(s, from, pre, u, rest, y);
    assert forall|k: int| 0 <= k < ps.len() implies #[trigger] stands(s, from, ps, brackets, k) by {
        if k < pre.len() {
            assert(!(pre[k] is Url));
        } else if k > pre.len() {
            assert(stands(s, u.end as int, rest, y, k - pre.len() - 1));
        }
        lemma_combined_stands(s, from, pre, u, rest, y, k);
    }
}

proof fn lemma_combined_finds(
    s: Seq<char>,
    from: int,
    pre: Seq<Piece>,
    u: UrlSpan,
    rest: Seq<Piece>,
    y: Seq<(bool, bool)>,
)
    requires
        0 <= from <= u.start,
        link_stands(s, u),
        prose_covers(s, from, u.start as int, pre),
        rest.len() == y.len(),
        finds(s, u.end as int, rest, y),
        forall|i: int| from <= i < u.start ==> !#[trigger] link_written_at(s, i),
    ensures
        finds(s, from, with_link(pre, s, u) + rest, with_its_brackets(pre, u) + y),
{
    let head = with_link(pre, s, u);
    let heads = with_its_brackets(pre, u);
    let ps = head + rest;
    let brackets = heads + y;
    let end = u.end as int;
    let c = pre.len() as int;
    lemma_with_link(s, from, pre, u);
    lemma_scheme_begins(s, u.url_start as int);
    lemma_place_in_head(head, heads, rest, y, c);
    assert(ps[c] is Url);
    assert forall|i: int| from <= i && #[trigger] link_written_at(s, i) implies in_link(
        from,
        ps,
        brackets,
        i,
    ) by {
        if i < end {
            lemma_scheme_begins(s, i);
            assert(u.url_start <= i < u.url_end);
        } else {
            lemma_in_link_of_tail(head, heads, rest, y, from, end, i);
        }
    }
    assert forall|i: int, j: int| from <= i && #[trigger] code_written_at(s, i, j) implies in_link(
        from,
        ps,
        brackets,
        i,
    ) || is_code(s, from, ps, brackets, i, j) by {
        assert('0' <= s[i] <= '9');
        if i < u.start {
            if j > u.start {
                assert('0' <= s[u.start as int] <= '9');
            }
            let b = bare(pre.len());
            assert(is_code(s, from, pre, b, i, j));
            let k = choose|k: int|
                {
                    &&& 0 <= k < pre.len()
                    &&& #[trigger] pre[k] == Piece::Code(s.subrange(i, j))
                    &&& from + place_of(pre, b, k) == i
                };
            lemma_place_before_link(s, pre, u, k);
            lemma_place_in_head(head, heads, rest, y, k);
            assert(ps[k] == Piece::Code(s.subrange(i, j)));
        } else if i < end {
            assert(u.url_start <= i < u.url_end);
        } else if in_link(end, rest, y, i) {
            lemma_in_link_of_tail(head, heads, rest, y, from, end, i);
        } else {
            let k = choose|k: int|
                {
                    &&& 0 <= k < rest.len()
                    &&& #[trigger] rest[k] == Piece::Code(s.subrange(i, j))
                    &&& end + place_of(rest, y, k) == i
                };
            lemma_place_in_tail(head, heads, rest, y, k);
            assert(ps[head.len() + k] == Piece::Code(s.subrange(i, j)));
        }
    }
}

/// The pieces of a body can begin at `from`: at its start, behind a bracket, or where a link
/// ended.
spec fn piece_edge(s: Seq<char>, from: int) -> bool {
    from == 0 || from == s.len() || s[from - 1] == '>' || (link_stop(s[from]) && s[from - 1]
        != '<')
}

proof fn lemma_link_stands(s: Seq<char>, from: int, u: UrlSpan)
    requires
        s.len() <= usize::MAX,
        0 <= from <= u.start,
        piece_edge(s, from),
        url_at(s, u.start as int) == Some(u),
        forall|k: int| from <= k < u.start ==> url_at(s, k) is None,
    ensures
        link_stands(s, u),
        piece_edge(s, u.end as int),
        s[u.start as int] == '<' || s[u.start as int] == 'h',
        forall|i: int| from <= i < u.start ==> !#[trigger] link_written_at(s, i),
{
    let a = u.url_start as int;
    lemma_url_at(s, u.start as int);
    lemma_url_is_written(s, u.start as int);
    lemma_scheme_begins(s, a);
    if a == u.start && a > 0 && s[a - 1] == '<' {
        if a > from {
            lemma_link_behind_bracket(s, a);
        } else {
            text::lemma_white_space_is('h');
        }
    }
    if u.end == u.url_end && u.end < s.len() {
        assert(!link_stop(s[u.url_end - 1]));
    }
    assert forall|i: int| from <= i < u.start implies !#[trigger] link_written_at(s, i) by {
        if link_written_at(s, i) {
            lemma_link_is_found(s, i);
        }
    }
}

proof fn lemma_segments_stand(s: Seq<char>, from: int) -> (brackets: Seq<(bool, bool)>)
    requires
        s.len() <= usize::MAX,
        0 <= from <= s.len(),
        piece_edge(s, from),
    ensures
        covers(s, from, segments_from(s, from), brackets),
        finds(s, from, segments_from(s, from), brackets),
    decreases s.len() - from,
{
    lemma_first_url(s, from);
    match first_url(s, from) {
        None => {
            lemma_prose_stands_in(s, from, s.len() as int);
            let ps = prose(s.subrange(from, s.len() as int));
            lemma_prose_alone(s, from, ps);
            bare(ps.len())
        },
        Some(u) => {
            lemma_url_at(s, u.start as int);
            lemma_link_stands(s, from, u);
            lemma_prose_stands_in(s, from, u.start as int);
            let pre = prose(s.subrange(from, u.start as int));
            let rest = segments_from(s, u.end as int);
            let y = lemma_segments_stand(s, u.end as int);
            lemma_combined_covers(s, from, pre, u, rest, y);
            lemma_combined_finds(s, from, pre, u, rest, y);
            assert(segments_from(s, from) == with_link(pre, s, u) + rest);
            with_its_brackets(pre, u) + y
        },
    }
}

proof fn lemma_prose_alone(s: Seq<char>, from: int, ps: Seq<Piece>)
    requires
        s.len() <= usize::MAX,
        0 <= from <= s.len(),
        prose_covers(s, from, s.len() as int, ps),
        forall|k: int| from <= k < s.len() ==> url_at(s, k) is None,
    ensures
        covers(s, from, ps, bare(ps.len())),
        finds(s, from, ps, bare(ps.len())),
{
    assert forall|i: int| from <= i && #[trigger] link_written_at(s, i) implies false by {
        lemma_link_is_found(s, i);
    }
    assert forall|k: int| 0 <= k < ps.len() implies #[trigger] stands(
        s,
        from,
        ps,
        bare(ps.len()),
        k,
    ) by {
        assert(!(ps[k] is Url));
    }
}

proof fn lemma_in_link_of_tail(
    head: Seq<Piece>,
    heads: Seq<(bool, bool)>,
    rest: Seq<Piece>,
    y: Seq<(bool, bool)>,
    from: int,
    end: int,
    i: int,
)
    requires
        head.len() == heads.len(),
        rest.len() == y.len(),
        flat_in_brackets(head, heads).len() == end - from,
        in_link(end, rest, y, i),
    ensures
        in_link(from, head + rest, heads + y, i),
{
    let k = choose|k: int|
        {
            &&& 0 <= k < rest.len()
            &&& (#[trigger] rest[k]) is Url
            &&& end + place_of(rest, y, k) <= i < end + place_of(rest, y, k) + rest[k].chars().len()
        };
    lemma_place_in_tail(head, heads, rest, y, k);
    assert((head + rest)[head.len() + k] is Url);
}

/// A scheme begins with its first letter.
proof fn lemma_scheme_begins(s: Seq<char>, i: int)
    requires
        link_written_at(s, i),
    ensures
        s[i] == 'h',
{
    reveal_strlit("http://");
    reveal_strlit("https://");
    if text::starts_at(s, i, "http://"@) {
        assert(s.subrange(i, i + 7)[0] == s[i]);
    } else {
        assert(s.subrange(i, i + 8)[0] == s[i]);
    }
}

/// A link that is written is found where it begins.
pub proof fn lemma_link_is_found(s: Seq<char>, i: int)
    requires
        s.len() <= usize::MAX,
        link_written_at(s, i),
    ensures
        url_at(s, i) is Some,
{
    reveal_strlit("http://");
    reveal_strlit("https://");
    lemma_scheme_begins(s, i);
    if text::starts_at(s, i, "https://"@) {
        if text::starts_at(s, i, "http://"@) {
            assert(s.subrange(i, i + 8)[4] == s[i + 4]);
            assert(s.subrange(i, i + 7)[4] == s[i + 4]);
        }
        lemma_url_run_end(s, i + 8);
        assert(url_run_end(s, i + 8) > i + 8);
    } else {
        lemma_url_run_end(s, i + 7);
        assert(url_run_end(s, i + 7) > i + 7);
    }
}

/// A link is found together with the bracket before it.
proof fn lemma_link_behind_bracket(s: Seq<char>, a: int)
    requires
        s.len() <= usize::MAX,
        0 < a < s.len(),
        s[a - 1] == '<',
        link_written_at(s, a),
    ensures
        url_at(s, a - 1) is Some,
{
    lemma_link_is_found(s, a);
    lemma_scheme_begins(s, a);
    lemma_url_at(s, a);
}

/// A link that is found is written there, and goes on as far as it can.
pub proof fn lemma_url_is_written(s: Seq<char>, i: int)
    requires
        s.len() <= usize::MAX,
        url_at(s, i) is Some,
    ensures
        ({
            let u = url_at(s, i)->0;
            &&& link_written_at(s, u.url_start as int)
            &&& forall|k: int| u.url_start <= k < u.url_end ==> !link_stop(#[trigger] s[k])
            &&& u.url_end == s.len() || link_stop(s[u.url_end as int])
            &&& u.end > u.url_end <==> u.url_end < s.len() && s[u.url_end as int] == '>'
        }),
{
    lemma_url_at(s, i);
    let u = url_at(s, i)->0;
    let a = u.url_start as int;
    let head = scheme_len(s, a);
    reveal_strlit("http://");
    reveal_strlit("https://");
    lemma_scheme_len(s, a);
    lemma_url_run_end(s, a + head);
    assert(url_char(s[a + head]));
    assert forall|k: int| u.url_start <= k < u.url_end implies !link_stop(#[trigger] s[k]) by {
        assert(url_char(s[k]));
    }
}

/// A piece that is no link stands in the whole as it stands in a part.
proof fn lemma_stands_in_whole(
    s: Seq<char>,
    from: int,
    to: int,
    ps: Seq<Piece>,
    b: Seq<(bool, bool)>,
    k: int,
)
    requires
        0 <= from <= to <= s.len(),
        from == 0 || from == s.len() || !('0' <= s[from - 1] <= '9') || !('0' <= s[from] <= '9'),
        to == s.len() || !('0' <= s[to] <= '9'),
        0 <= k < ps.len(),
        !(ps[k] is Url),
        stands(s.subrange(from, to), 0, ps, b, k),
    ensures
        stands(s, from, ps, b, k),
{
    let t = s.subrange(from, to);
    let x = ps[k].chars();
    let a = place_of(ps, b, k);
    let e = a + x.len();
    assert(s.subrange(from + a, from + e) =~= t.subrange(a, e));
    if ps[k] is Code {
        assert forall|i: int| from + a <= i < from + e implies '0' <= #[trigger] s[i] <= '9' by {
            assert(t[i - from] == s[i]);
        }
        assert(t[0] == s[from]);
        assert('0' <= s[from + a] <= '9');
        if a > 0 {
            assert(t[a - 1] == s[from + a - 1]);
        }
        if e < t.len() {
            assert(t[e] == s[from + e]);
        }
        assert(code_written_at(s, from + a, from + e));
    }
}

/// A code of the whole that is in a part is a code of the part.
proof fn lemma_code_in_part(s: Seq<char>, from: int, to: int, i: int, j: int)
    requires
        0 <= from <= i,
        j <= to <= s.len(),
        code_written_at(s, i, j),
    ensures
        code_written_at(s.subrange(from, to), i - from, j - from),
        s.subrange(from, to).subrange(i - from, j - from) == s.subrange(i, j),
{
    let t = s.subrange(from, to);
    let x = i - from;
    let y = j - from;
    assert forall|k: int| x <= k < y implies '0' <= #[trigger] t[k] <= '9' by {
        assert(s[from + k] == t[k]);
    }
    if x > 0 {
        assert(t[x - 1] == s[i - 1]);
    }
    if y < t.len() {
        assert(t[y] == s[j]);
    }
    assert(t.subrange(x, y) =~= s.subrange(i, j));
}

/// Pieces that stand in a part of a body stand in the whole, and each code of the part is one of
/// them.
proof fn lemma_part_covers(s: Seq<char>, from: int, to: int, ps: Seq<Piece>)
    requires
        0 <= from <= to <= s.len(),
        from == 0 || from == s.len() || !('0' <= s[from - 1] <= '9') || !('0' <= s[from] <= '9'),
        to == s.len() || !('0' <= s[to] <= '9'),
        prose_covers(s.subrange(from, to), 0, to - from, ps),
    ensures
        prose_covers(s, from, to, ps),
{
    let t = s.subrange(from, to);
    let b = bare(ps.len());
    assert(t.subrange(0, to - from) =~= t);
    assert forall|k: int| 0 <= k < ps.len() implies stands(s, from, ps, b, k) && !((
    #[trigger] ps[k]) is Url) by {
        lemma_stands_in_whole(s, from, to, ps, b, k);
    }
    assert forall|i: int, j: int|
        from <= i && j <= to && #[trigger] code_written_at(s, i, j) implies is_code(
        s,
        from,
        ps,
        b,
        i,
        j,
    ) by {
        lemma_code_is_in_whole(s, from, to, ps, i, j);
    }
}

proof fn lemma_code_is_in_whole(s: Seq<char>, from: int, to: int, ps: Seq<Piece>, i: int, j: int)
    requires
        0 <= from <= i,
        j <= to <= s.len(),
        code_written_at(s, i, j),
        code_written_at(s.subrange(from, to), i - from, j - from) ==> is_code(
            s.subrange(from, to),
            0,
            ps,
            bare(ps.len()),
            i - from,
            j - from,
        ),
    ensures
        is_code(s, from, ps, bare(ps.len()), i, j),
{
    let t = s.subrange(from, to);
    let b = bare(ps.len());
    lemma_code_in_part(s, from, to, i, j);
    let k = choose|k: int|
        {
            &&& 0 <= k < ps.len()
            &&& #[trigger] ps[k] == Piece::Code(t.subrange(i - from, j - from))
            &&& 0 + place_of(ps, b, k) == i - from
        };
    assert(ps[k] == Piece::Code(s.subrange(i, j)));
}

proof fn lemma_prose_covers(t: Seq<char>)
    ensures
        prose_covers(t, 0, t.len() as int, prose(t)),
{
    let ps = prose(t);
    lemma_prose_lossless(t);
    lemma_flat_bare(ps);
    lemma_prose_stands(t, 0, 0);
    assert(prose_from(t, 0, 0) == ps);
    assert(t.subrange(0, t.len() as int) =~= t);
}

/// The pieces of a part of a body in which no link begins stand there, and each code of it is
/// one of them.
proof fn lemma_prose_stands_in(s: Seq<char>, from: int, to: int)
    requires
        0 <= from <= to <= s.len(),
        piece_edge(s, from),
        to == s.len() || s[to] == '<' || s[to] == 'h',
    ensures
        prose_covers(s, from, to, prose(s.subrange(from, to))),
{
    if from > 0 && from < s.len() {
        text::lemma_white_space_is(s[from]);
    }
    lemma_prose_covers(s.subrange(from, to));
    lemma_part_covers(s, from, to, prose(s.subrange(from, to)));
}

/// A body is its pieces in order, each link with or without its angle brackets, and every link
/// and every code in it is one of them. A link begins with `http://` or `https://` and goes on
/// until white space, an angle bracket or a quote. A code is four to eight digits with no digit
/// next to them. The brackets that are left out are those right before and right behind a link.
/// Wherever a link is written, it is found, and wherever a code is written that is not in a link.
pub proof fn lemma_links_and_codes_are_found(s: Seq<char>) -> (brackets: Seq<(bool, bool)>)
    requires
        s.len() <= usize::MAX,
    ensures
        ({
            let ps = segments_of(s);
            &&& brackets_of_links(ps, brackets)
            &&& flat_in_brackets(ps, brackets) == s
            &&& forall|k: int| 0 <= k < ps.len() ==> #[trigger] stands(s, 0, ps, brackets, k)
            &&& forall|i: int| #[trigger] link_written_at(s, i) ==> in_link(0, ps, brackets, i)
            &&& forall|i: int, j: int| #[trigger]
                code_written_at(s, i, j) ==> in_link(0, ps, brackets, i) || is_code(
                    s,
                    0,
                    ps,
                    brackets,
                    i,
                    j,
                )
        }),
{
    let brackets = lemma_segments_stand(s, 0);
    assert(s.subrange(0, s.len() as int) =~= s);
    brackets
}

} // verus!
