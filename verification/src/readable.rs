//! Which mails can be handed to the mail parser.
//!
//! The parser has faults of its own. It subtracts too much, and panics where that is checked,
//! when a quoted-printable part of next to nothing ends in a soft line break right before a
//! boundary. It loses its place when a mail that is a part of another is a mere envelope of a
//! third. And it drops mails in mails by recursion, so that a great depth of them overflows the
//! stack. Such mails are told by their bytes here and are not parsed. Where a part is a whole
//! mail in an encoding of its own, which the MIME standard does not allow, its bytes cannot be
//! seen, so such mails are not parsed either.
//!
//! The parser finds header fields where they should not be, such as behind a boundary on the same
//! line, and with blanks in their names. What counts as a field here covers all of these. It can
//! also lose the end of a header, in an encoded word that is not closed or behind the zone of a
//! date. Mails with both such a header and mails in them are left out.

use crate::text;
use vstd::prelude::*;

verus! {

/// The bytes of a mail as characters, one for each byte, with the ASCII letters in lower case.
pub open spec fn lowered(raw: Seq<u8>) -> Seq<char> {
    raw.map_values(|b: u8| text::ascii_lower(b as char))
}

fn lower_all(raw: &[u8]) -> (v: Vec<char>)
    ensures
        v@ == lowered(raw@),
{
    let mut v: Vec<char> = Vec::new();
    let mut i: usize = 0;
    while i < raw.len()
        invariant
            i <= raw.len(),
            v@ == lowered(raw@).take(i as int),
        decreases raw.len() - i,
    {
        let ghost before = v@;
        let c = raw[i] as char;
        v.push(text::to_ascii_lower(c));
        assert(lowered(raw@).take(i + 1) =~= before.push(lowered(raw@)[i as int]));
        i += 1;
    }
    assert(lowered(raw@).take(i as int) =~= lowered(raw@));
    v
}

// ---------------------------------------------------------------------------
// Header fields
// ---------------------------------------------------------------------------

/// White space within a line.
pub open spec fn gap(c: char) -> bool {
    c == ' ' || c == '\t' || c == '\r' || c == '\u{c}'
}

fn is_gap(c: char) -> (yes: bool)
    ensures
        yes == gap(c),
{
    c == ' ' || c == '\t' || c == '\r' || c == '\u{c}'
}

/// What stands before `p` on its line ends in `name`, where gaps do not count.
pub open spec fn spelled_before(s: Seq<char>, p: int, name: Seq<char>) -> bool
    decreases p,
{
    if name.len() == 0 {
        true
    } else if p <= 0 || p > s.len() {
        false
    } else if gap(s[p - 1]) {
        spelled_before(s, p - 1, name)
    } else {
        s[p - 1] == name.last() && spelled_before(s, p - 1, name.drop_last())
    }
}

/// The colon of a field stands at `c` whose name is `name`, or ends in it.
pub open spec fn field_at(s: Seq<char>, c: int, name: Seq<char>) -> bool {
    0 <= c < s.len() && s[c] == ':' && spelled_before(s, c, name)
}

fn is_field_at(v: &[char], c: usize, name: &[char]) -> (yes: bool)
    requires
        c < v@.len(),
    ensures
        yes == field_at(v@, c as int, name@),
{
    if v[c] != ':' {
        return false;
    }
    let mut p: usize = c;
    let mut n: usize = name.len();
    assert(name@.take(n as int) =~= name@);
    while n > 0
        invariant
            p <= c < v.len(),
            n <= name.len(),
            spelled_before(v@, p as int, name@.take(n as int)) == spelled_before(
                v@,
                c as int,
                name@,
            ),
        decreases p,
    {
        if p == 0 {
            return false;
        }
        if !is_gap(v[p - 1]) {
            assert(name@.take(n as int).last() == name@[n - 1]);
            assert(name@.take(n as int).drop_last() =~= name@.take(n - 1));
            if v[p - 1] != name[n - 1] {
                return false;
            }
            n -= 1;
        }
        p -= 1;
    }
    true
}

/// What can stand before the value of a field.
pub open spec fn filler(c: char) -> bool {
    gap(c) || c == '\n'
}

/// The first position from `p` on that holds no filler.
pub open spec fn behind_filler(s: Seq<char>, p: int) -> int
    decreases s.len() - p,
{
    if 0 <= p < s.len() && filler(s[p]) {
        behind_filler(s, p + 1)
    } else {
        p
    }
}

fn skip_filler(v: &[char], p: usize) -> (q: usize)
    requires
        p <= v@.len(),
    ensures
        q == behind_filler(v@, p as int),
        p <= q <= v@.len(),
{
    let mut q: usize = p;
    while q < v.len() && (is_gap(v[q]) || v[q] == '\n')
        invariant
            p <= q <= v.len(),
            behind_filler(v@, q as int) == behind_filler(v@, p as int),
        decreases v.len() - q,
    {
        q += 1;
    }
    q
}

/// The value of a field ends at `p`: the line does, and the next one does not go on with it.
pub open spec fn value_ends(s: Seq<char>, p: int) -> bool {
    p >= s.len() || (s[p] == '\n' && !(p + 1 < s.len() && (s[p + 1] == ' ' || s[p + 1] == '\t')))
}

/// Where the value of a field ends that holds `p`.
pub open spec fn value_end(s: Seq<char>, p: int) -> int
    decreases s.len() - p,
{
    if p < 0 || value_ends(s, p) {
        p
    } else {
        value_end(s, p + 1)
    }
}

/// Where the type in a content type ends, or a comment in it begins.
pub open spec fn type_end(s: Seq<char>, p: int) -> int
    decreases s.len() - p,
{
    if p < 0 || value_ends(s, p) || s[p] == ';' || s[p] == '(' {
        p
    } else {
        type_end(s, p + 1)
    }
}

fn does_value_end(v: &[char], p: usize) -> (yes: bool)
    ensures
        yes == value_ends(v@, p as int),
{
    p >= v.len() || (v[p] == '\n' && !(v.len() - p > 1 && (v[p + 1] == ' ' || v[p + 1] == '\t')))
}

fn find_value_end(v: &[char], p: usize) -> (e: usize)
    requires
        p <= v@.len(),
    ensures
        e == value_end(v@, p as int),
        p <= e <= v@.len(),
{
    let mut e: usize = p;
    while !does_value_end(v, e)
        invariant
            p <= e <= v.len(),
            value_end(v@, e as int) == value_end(v@, p as int),
        decreases v.len() - e,
    {
        e += 1;
    }
    e
}

fn find_type_end(v: &[char], p: usize) -> (e: usize)
    requires
        p <= v@.len(),
    ensures
        e == type_end(v@, p as int),
        p <= e <= v@.len(),
{
    let mut e: usize = p;
    while !does_value_end(v, e) && v[e] != ';' && v[e] != '('
        invariant
            p <= e <= v.len(),
            type_end(v@, e as int) == type_end(v@, p as int),
        decreases v.len() - e,
    {
        e += 1;
    }
    e
}

/// `word` stands between `p` and `e`.
pub open spec fn holds(s: Seq<char>, p: int, e: int, word: Seq<char>) -> bool {
    exists|q: int| p <= q && q + word.len() <= e && #[trigger] text::starts_at(s, q, word)
}

fn does_hold(v: &[char], p: usize, e: usize, word: &str) -> (yes: bool)
    requires
        p <= e <= v@.len(),
    ensures
        yes == holds(v@, p as int, e as int, word@),
{
    let w = text::to_chars(word);
    let mut q: usize = p;
    while q <= e && w.len() <= e - q
        invariant
            p <= q,
            e <= v.len(),
            w@ == word@,
            forall|k: int|
                p <= k < q && k + word@.len() <= e ==> !#[trigger] text::starts_at(v@, k, word@),
        decreases e + 1 - q,
    {
        if text::is_at(v, q, &w) {
            assert(text::starts_at(v@, q as int, word@));
            return true;
        }
        if q == e {
            return false;
        }
        q += 1;
    }
    false
}

/// What can stand next to a word of a content type.
pub open spec fn word_edge(c: char) -> bool {
    filler(c) || c == '/' || c == '"' || c == '\\'
}

/// `word` stands at `q`, between `p` and `e`, and is not a part of a longer word.
pub open spec fn word_at(s: Seq<char>, p: int, e: int, word: Seq<char>, q: int) -> bool {
    let r = q + word.len();
    &&& text::starts_at(s, q, word)
    &&& p <= q
    &&& r <= e
    &&& q == p || word_edge(s[q - 1])
    &&& r == e || word_edge(s[r])
}

/// `word` stands between `p` and `e` as a word of its own.
pub open spec fn holds_word(s: Seq<char>, p: int, e: int, word: Seq<char>) -> bool {
    exists|q: int| #[trigger] word_at(s, p, e, word, q)
}

fn is_word_edge(c: char) -> (yes: bool)
    ensures
        yes == word_edge(c),
{
    is_gap(c) || c == '\n' || c == '/' || c == '"' || c == '\\'
}

fn does_hold_word(v: &[char], p: usize, e: usize, word: &str) -> (yes: bool)
    requires
        p <= e <= v@.len(),
    ensures
        yes == holds_word(v@, p as int, e as int, word@),
{
    let w = text::to_chars(word);
    let mut q: usize = p;
    while q <= e && w.len() <= e - q
        invariant
            p <= q,
            p <= e <= v.len(),
            w@ == word@,
            forall|k: int| k < q ==> !#[trigger] word_at(v@, p as int, e as int, word@, k),
        decreases e + 1 - q,
    {
        if text::is_at(v, q, &w) && (q == p || is_word_edge(v[q - 1])) && (w.len() == e - q
            || is_word_edge(v[q + w.len()])) {
            assert(word_at(v@, p as int, e as int, word@, q as int));
            return true;
        }
        if q == e {
            assert forall|k: int| k > q implies !#[trigger] word_at(
                v@,
                p as int,
                e as int,
                word@,
                k,
            ) by {}
            return false;
        }
        q += 1;
    }
    false
}

/// The content type that begins at `p` is `main` with the subtype `sub`, or may be: of several
/// words the parser takes the last, and a comment may hide one.
pub open spec fn type_at(s: Seq<char>, p: int, main: Seq<char>, sub: Seq<char>) -> bool {
    let e = type_end(s, p);
    let hidden = e < s.len() && s[e] == '(';
    &&& holds_word(s, p, e, main) || (hidden && !holds(s, p, e, "/"@))
    &&& holds_word(s, p, e, sub) || hidden
}

fn has_type(v: &[char], p: usize, main: &str, sub: &str) -> (yes: bool)
    requires
        p <= v@.len(),
    ensures
        yes == type_at(v@, p as int, main@, sub@),
{
    let e: usize = find_type_end(v, p);
    let hidden = e < v.len() && v[e] == '(';
    (does_hold_word(v, p, e, main) || (hidden && !does_hold(v, p, e, "/"))) && (does_hold_word(
        v,
        p,
        e,
        sub,
    ) || hidden)
}

/// The fields that matter.
#[derive(Clone, Copy)]
pub enum Kind {
    /// The content type of a part.
    Type,
    /// The content type of a part that is a whole mail.
    Mail,
    /// The content type of a part whose parts are whole mails.
    Digest,
    /// An encoding of a part that changes its bytes.
    Encoding,
    /// The encoding `quoted-printable`.
    Quoted,
}

/// A field of this kind has its colon at `c`. An encoding may be written as an encoded word.
pub open spec fn kind_at(s: Seq<char>, c: int, kind: Kind) -> bool {
    let p = behind_filler(s, c + 1);
    match kind {
        Kind::Type => field_at(s, c, "content-type"@),
        Kind::Mail => field_at(s, c, "content-type"@) && (type_at(
            s,
            c + 1,
            "message"@,
            "rfc822"@,
        ) || type_at(s, c + 1, "message"@, "global"@)),
        Kind::Digest => field_at(s, c, "content-type"@) && type_at(
            s,
            c + 1,
            "multipart"@,
            "digest"@,
        ),
        Kind::Encoding => field_at(s, c, "content-transfer-encoding"@) && (text::starts_at(
            s,
            p,
            "base64"@,
        ) || text::starts_at(s, p, "quoted-printable"@) || text::starts_at(s, p, "=?"@)),
        Kind::Quoted => field_at(s, c, "content-transfer-encoding"@) && (text::starts_at(
            s,
            p,
            "quoted-printable"@,
        ) || text::starts_at(s, p, "=?"@)),
    }
}

fn stands_at(v: &[char], p: usize, t: &str) -> (yes: bool)
    ensures
        yes == text::starts_at(v@, p as int, t@),
{
    let w = text::to_chars(t);
    text::is_at(v, p, &w)
}

fn is_kind_at(v: &[char], c: usize, kind: Kind) -> (yes: bool)
    requires
        c < v@.len(),
    ensures
        yes == kind_at(v@, c as int, kind),
{
    if v[c] != ':' {
        return false;
    }
    let name = match kind {
        Kind::Type | Kind::Mail | Kind::Digest => text::to_chars("content-type"),
        Kind::Encoding | Kind::Quoted => text::to_chars("content-transfer-encoding"),
    };
    if !is_field_at(v, c, &name) {
        return false;
    }
    let p: usize = skip_filler(v, c + 1);
    match kind {
        Kind::Type => true,
        Kind::Mail => has_type(v, c + 1, "message", "rfc822") || has_type(
            v,
            c + 1,
            "message",
            "global",
        ),
        Kind::Digest => has_type(v, c + 1, "multipart", "digest"),
        Kind::Encoding => stands_at(v, p, "base64") || stands_at(v, p, "quoted-printable")
            || stands_at(v, p, "=?"),
        Kind::Quoted => stands_at(v, p, "quoted-printable") || stands_at(v, p, "=?"),
    }
}

/// How many fields of this kind have their colon before `n`.
pub open spec fn count_before(s: Seq<char>, kind: Kind, n: int) -> nat
    decreases n,
{
    if n <= 0 {
        0
    } else {
        count_before(s, kind, n - 1) + (if kind_at(s, n - 1, kind) {
            1nat
        } else {
            0nat
        })
    }
}

/// How many fields of this kind there are.
pub open spec fn count_of(s: Seq<char>, kind: Kind) -> nat {
    count_before(s, kind, s.len() as int)
}

/// `list` holds the colons of the fields of this kind.
spec fn all_of(list: Seq<usize>, s: Seq<char>, kind: Kind) -> bool {
    &&& forall|k: int| 0 <= k < list.len() ==> kind_at(s, #[trigger] list[k] as int, kind)
    &&& forall|c: int| #[trigger]
        kind_at(s, c, kind) ==> exists|k: int| 0 <= k < list.len() && #[trigger] list[k] == c
}

fn find_all(v: &[char], kind: Kind) -> (list: Vec<usize>)
    ensures
        all_of(list@, v@, kind),
        list@.len() == count_of(v@, kind),
        forall|k: int| 0 <= k < list@.len() ==> #[trigger] list@[k] < v@.len(),
{
    let mut list: Vec<usize> = Vec::new();
    let mut c: usize = 0;
    while c < v.len()
        invariant
            c <= v.len(),
            list@.len() == count_before(v@, kind, c as int),
            forall|k: int|
                0 <= k < list@.len() ==> #[trigger] list@[k] < c && kind_at(
                    v@,
                    list@[k] as int,
                    kind,
                ),
            forall|d: int|
                0 <= d < c && #[trigger] kind_at(v@, d, kind) ==> exists|k: int|
                    0 <= k < list@.len() && #[trigger] list@[k] == d,
        decreases v.len() - c,
    {
        if is_kind_at(v, c, kind) {
            let ghost before = list@;
            list.push(c);
            proof {
                assert forall|d: int| 0 <= d <= c && #[trigger] kind_at(v@, d, kind) implies exists|
                    k: int,
                |
                    0 <= k < list@.len() && #[trigger] list@[k] == d by {
                    if d == c {
                        assert(list@[before.len() as int] == d);
                    } else {
                        let k = choose|k: int| 0 <= k < before.len() && #[trigger] before[k] == d;
                        assert(list@[k] == d);
                    }
                }
            }
        }
        c += 1;
    }
    list
}

// ---------------------------------------------------------------------------
// Header blocks
// ---------------------------------------------------------------------------

/// From `p` on the line is empty.
pub open spec fn empty_line(s: Seq<char>, p: int) -> bool
    decreases s.len() - p,
{
    &&& 0 <= p < s.len()
    &&& s[p] == '\n' || ((s[p] == '\r' || s[p] == '\u{c}') && empty_line(s, p + 1))
}

/// An empty line begins at `p`. Every header block ends there at the latest.
pub open spec fn paragraph_ends(s: Seq<char>, p: int) -> bool {
    0 < p < s.len() && s[p - 1] == '\n' && empty_line(s, p)
}

/// From `p` on the line holds nothing but gaps.
pub open spec fn gap_line(s: Seq<char>, p: int) -> bool
    decreases s.len() - p,
{
    &&& 0 <= p < s.len()
    &&& s[p] == '\n' || (gap(s[p]) && gap_line(s, p + 1))
}

/// A line of nothing but gaps begins at `p`, or the line holds nothing but gaps behind a form
/// feed there. A header block may end there.
pub open spec fn block_may_end(s: Seq<char>, p: int) -> bool {
    0 < p < s.len() && (s[p - 1] == '\n' || s[p] == '\u{c}') && gap_line(s, p)
}

fn is_paragraph_end(v: &[char], p: usize) -> (yes: bool)
    ensures
        yes == paragraph_ends(v@, p as int),
{
    if p == 0 || p >= v.len() || v[p - 1] != '\n' {
        return false;
    }
    let mut q: usize = p;
    while q < v.len() && (v[q] == '\r' || v[q] == '\u{c}')
        invariant
            p <= q <= v.len(),
            empty_line(v@, q as int) == empty_line(v@, p as int),
        decreases v.len() - q,
    {
        q += 1;
    }
    q < v.len() && v[q] == '\n'
}

fn may_block_end(v: &[char], p: usize) -> (yes: bool)
    ensures
        yes == block_may_end(v@, p as int),
{
    if p == 0 || p >= v.len() || (v[p - 1] != '\n' && v[p] != '\u{c}') {
        return false;
    }
    let mut q: usize = p;
    while q < v.len() && is_gap(v[q])
        invariant
            p <= q <= v.len(),
            gap_line(v@, q as int) == gap_line(v@, p as int),
        decreases v.len() - q,
    {
        q += 1;
    }
    q < v.len() && v[q] == '\n'
}

/// `p` and `q` are in one paragraph. All that is in one header block is.
pub open spec fn in_one_paragraph(s: Seq<char>, p: int, q: int) -> bool {
    forall|k: int| p < k <= q || q < k <= p ==> !#[trigger] paragraph_ends(s, k)
}

/// No header block ends between `p` and `q`.
pub open spec fn in_one_block(s: Seq<char>, p: int, q: int) -> bool {
    forall|k: int| p < k <= q || q < k <= p ==> !#[trigger] block_may_end(s, k)
}

/// A header block that holds `q` may begin where one that holds `p` ends.
pub open spec fn directly_behind(s: Seq<char>, p: int, q: int) -> bool {
    &&& p < q
    &&& !in_one_block(s, p, q)
    &&& forall|j: int, k: int|
        p < j < k <= q ==> !(#[trigger] paragraph_ends(s, j) && #[trigger] paragraph_ends(s, k))
}

fn is_in_one_paragraph(v: &[char], p: usize, q: usize) -> (yes: bool)
    requires
        p < v@.len(),
        q < v@.len(),
    ensures
        yes == in_one_paragraph(v@, p as int, q as int),
{
    let from: usize = if p < q {
        p
    } else {
        q
    };
    let to: usize = if p < q {
        q
    } else {
        p
    };
    let mut k: usize = from;
    while k < to
        invariant
            from <= k <= to < v.len(),
            (from == p && to == q) || (from == q && to == p),
            forall|j: int| from < j <= k ==> !#[trigger] paragraph_ends(v@, j),
        decreases to - k,
    {
        k += 1;
        if is_paragraph_end(v, k) {
            assert(paragraph_ends(v@, k as int));
            return false;
        }
    }
    true
}

fn is_in_one_block(v: &[char], p: usize, q: usize) -> (yes: bool)
    requires
        p < v@.len(),
        q < v@.len(),
    ensures
        yes == in_one_block(v@, p as int, q as int),
{
    let from: usize = if p < q {
        p
    } else {
        q
    };
    let to: usize = if p < q {
        q
    } else {
        p
    };
    let mut k: usize = from;
    while k < to
        invariant
            from <= k <= to < v.len(),
            (from == p && to == q) || (from == q && to == p),
            forall|j: int| from < j <= k ==> !#[trigger] block_may_end(v@, j),
        decreases to - k,
    {
        k += 1;
        if may_block_end(v, k) {
            assert(block_may_end(v@, k as int));
            return false;
        }
    }
    true
}

fn is_directly_behind(v: &[char], p: usize, q: usize) -> (yes: bool)
    requires
        p < v@.len(),
        q < v@.len(),
    ensures
        yes == directly_behind(v@, p as int, q as int),
{
    if p >= q {
        return false;
    }
    let mut k: usize = p;
    let mut ended: bool = false;
    let ghost mut end: int = 0;
    while k < q
        invariant
            p <= k <= q < v.len(),
            ended ==> p < end <= k && paragraph_ends(v@, end),
            forall|j: int| p < j <= k && #[trigger] paragraph_ends(v@, j) ==> ended && j == end,
        decreases q - k,
    {
        k += 1;
        if is_paragraph_end(v, k) {
            if ended {
                assert(paragraph_ends(v@, end) && paragraph_ends(v@, k as int));
                return false;
            }
            ended = true;
            proof {
                end = k as int;
            }
        }
    }
    !is_in_one_block(v, p, q)
}

// ---------------------------------------------------------------------------
// Mails in a mail
// ---------------------------------------------------------------------------

/// A part may be a whole mail in an encoding of its own: its type and an encoding stand in one
/// paragraph.
pub open spec fn encoded_mail(s: Seq<char>) -> bool {
    exists|c: int, d: int| #[trigger]
        kind_at(s, c, Kind::Mail) && #[trigger] kind_at(s, d, Kind::Encoding)
            && in_one_paragraph(s, c, d)
}

/// A mail in a mail may be a mere envelope of another: the header of a part that is a whole mail
/// is followed directly by a header that says so again.
pub open spec fn envelope_in_mail(s: Seq<char>) -> bool {
    exists|c: int, d: int| #[trigger]
        kind_at(s, c, Kind::Mail) && #[trigger] kind_at(s, d, Kind::Mail) && directly_behind(
            s,
            c,
            d,
        )
}

/// A boundary of a digest may stand at `p`.
pub open spec fn boundary_at(s: Seq<char>, p: int) -> bool {
    &&& text::starts_at(s, p, "--"@)
    &&& exists|c: int| #[trigger] kind_at(s, c, Kind::Digest) && c < p && !in_one_block(s, c, p)
}

/// The header that holds `d` may follow directly the header of a part of a digest.
pub open spec fn behind_part_header(s: Seq<char>, d: int) -> bool {
    exists|p: int| #[trigger] boundary_at(s, p) && directly_behind(s, p, d)
}

/// A mail in a digest may be a mere envelope of another.
pub open spec fn envelope_in_digest(s: Seq<char>) -> bool {
    exists|d: int| #[trigger] kind_at(s, d, Kind::Mail) && behind_part_header(s, d)
}

/// The colon of a plain content type stands at `t`: its name begins the line, and a letter
/// follows it.
pub open spec fn plain_type_at(s: Seq<char>, t: int) -> bool {
    let q = if t + 1 < s.len() && s[t + 1] == ' ' {
        t + 2
    } else {
        t + 1
    };
    &&& kind_at(s, t, Kind::Type)
    &&& t >= 12
    &&& text::starts_at(s, t - 12, "content-type"@)
    &&& t == 12 || s[t - 13] == '\n'
    &&& q < s.len()
    &&& letter(s[q])
}

/// No other content type is in the paragraph of the one at `t`.
pub open spec fn sole_type(s: Seq<char>, t: int) -> bool {
    forall|u: int| #[trigger]
        kind_at(s, u, Kind::Type) && u != t ==> !in_one_paragraph(s, t, u)
}

/// The content type at `t` is that of the header block which holds `d`.
pub open spec fn typed_by(s: Seq<char>, d: int, t: int) -> bool {
    plain_type_at(s, t) && sole_type(s, t) && in_one_block(s, t, d)
}

/// The header block of a part of a digest may hold `d` and no content type.
pub open spec fn untyped_part(s: Seq<char>, d: int) -> bool {
    exists|p: int|
        {
            &&& #[trigger] boundary_at(s, p)
            &&& p < d
            &&& in_one_paragraph(s, p, d)
            &&& forall|t: int| p < t ==> !#[trigger] typed_by(s, d, t)
        }
}

/// A mail in a digest may be in an encoding of its own: a part there is a whole mail unless it
/// says otherwise.
pub open spec fn encoded_in_digest(s: Seq<char>) -> bool {
    exists|d: int| #[trigger] kind_at(s, d, Kind::Encoding) && untyped_part(s, d)
}

fn has_encoded_mail(v: &[char], mails: &[usize], encodings: &[usize]) -> (yes: bool)
    requires
        all_of(mails@, v@, Kind::Mail),
        all_of(encodings@, v@, Kind::Encoding),
        forall|k: int| 0 <= k < mails@.len() ==> #[trigger] mails@[k] < v@.len(),
        forall|k: int| 0 <= k < encodings@.len() ==> #[trigger] encodings@[k] < v@.len(),
    ensures
        yes == encoded_mail(v@),
{
    let mut i: usize = 0;
    while i < mails.len()
        invariant
            i <= mails.len(),
            all_of(mails@, v@, Kind::Mail),
            all_of(encodings@, v@, Kind::Encoding),
            forall|k: int| 0 <= k < mails@.len() ==> #[trigger] mails@[k] < v@.len(),
            forall|k: int| 0 <= k < encodings@.len() ==> #[trigger] encodings@[k] < v@.len(),
            forall|k: int, j: int|
                0 <= k < i && 0 <= j < encodings@.len() ==> !in_one_paragraph(
                    v@,
                    (#[trigger] mails@[k]) as int,
                    (#[trigger] encodings@[j]) as int,
                ),
        decreases mails.len() - i,
    {
        let mut j: usize = 0;
        while j < encodings.len()
            invariant
                i < mails.len(),
                j <= encodings.len(),
                all_of(mails@, v@, Kind::Mail),
                all_of(encodings@, v@, Kind::Encoding),
                forall|k: int| 0 <= k < mails@.len() ==> #[trigger] mails@[k] < v@.len(),
                forall|k: int| 0 <= k < encodings@.len() ==> #[trigger] encodings@[k] < v@.len(),
                forall|k: int|
                    0 <= k < j ==> !in_one_paragraph(
                        v@,
                        mails@[i as int] as int,
                        (#[trigger] encodings@[k]) as int,
                    ),
            decreases encodings.len() - j,
        {
            if is_in_one_paragraph(v, mails[i], encodings[j]) {
                assert(kind_at(v@, mails@[i as int] as int, Kind::Mail));
                assert(kind_at(v@, encodings@[j as int] as int, Kind::Encoding));
                return true;
            }
            j += 1;
        }
        i += 1;
    }
    proof {
        if encoded_mail(v@) {
            let (c, d) = choose|c: int, d: int| #[trigger]
                kind_at(v@, c, Kind::Mail) && #[trigger] kind_at(v@, d, Kind::Encoding)
                    && in_one_paragraph(v@, c, d);
            let k = choose|k: int| 0 <= k < mails@.len() && #[trigger] mails@[k] == c;
            let j = choose|j: int| 0 <= j < encodings@.len() && #[trigger] encodings@[j] == d;
            assert(!in_one_paragraph(v@, mails@[k] as int, encodings@[j] as int));
        }
    }
    false
}

fn has_envelope_in_mail(v: &[char], mails: &[usize]) -> (yes: bool)
    requires
        all_of(mails@, v@, Kind::Mail),
        forall|k: int| 0 <= k < mails@.len() ==> #[trigger] mails@[k] < v@.len(),
    ensures
        yes == envelope_in_mail(v@),
{
    let mut i: usize = 0;
    while i < mails.len()
        invariant
            i <= mails.len(),
            all_of(mails@, v@, Kind::Mail),
            forall|k: int| 0 <= k < mails@.len() ==> #[trigger] mails@[k] < v@.len(),
            forall|k: int, j: int|
                0 <= k < i && 0 <= j < mails@.len() ==> !directly_behind(
                    v@,
                    (#[trigger] mails@[k]) as int,
                    (#[trigger] mails@[j]) as int,
                ),
        decreases mails.len() - i,
    {
        let mut j: usize = 0;
        while j < mails.len()
            invariant
                i < mails.len(),
                j <= mails.len(),
                all_of(mails@, v@, Kind::Mail),
                forall|k: int| 0 <= k < mails@.len() ==> #[trigger] mails@[k] < v@.len(),
                forall|k: int|
                    0 <= k < j ==> !directly_behind(
                        v@,
                        mails@[i as int] as int,
                        (#[trigger] mails@[k]) as int,
                    ),
            decreases mails.len() - j,
        {
            if is_directly_behind(v, mails[i], mails[j]) {
                assert(kind_at(v@, mails@[i as int] as int, Kind::Mail));
                assert(kind_at(v@, mails@[j as int] as int, Kind::Mail));
                return true;
            }
            j += 1;
        }
        i += 1;
    }
    proof {
        if envelope_in_mail(v@) {
            let (c, d) = choose|c: int, d: int| #[trigger]
                kind_at(v@, c, Kind::Mail) && #[trigger] kind_at(v@, d, Kind::Mail)
                    && directly_behind(v@, c, d);
            let k = choose|k: int| 0 <= k < mails@.len() && #[trigger] mails@[k] == c;
            let j = choose|j: int| 0 <= j < mails@.len() && #[trigger] mails@[j] == d;
            assert(!directly_behind(v@, mails@[k] as int, mails@[j] as int));
        }
    }
    false
}

fn is_boundary_at(v: &[char], p: usize, digests: &[usize]) -> (yes: bool)
    requires
        p < v@.len(),
        all_of(digests@, v@, Kind::Digest),
        forall|k: int| 0 <= k < digests@.len() ==> #[trigger] digests@[k] < v@.len(),
    ensures
        yes == boundary_at(v@, p as int),
{
    if !stands_at(v, p, "--") {
        return false;
    }
    let mut i: usize = 0;
    while i < digests.len()
        invariant
            p < v.len(),
            i <= digests.len(),
            text::starts_at(v@, p as int, "--"@),
            all_of(digests@, v@, Kind::Digest),
            forall|k: int| 0 <= k < digests@.len() ==> #[trigger] digests@[k] < v@.len(),
            forall|k: int|
                0 <= k < i && (#[trigger] digests@[k]) < p ==> in_one_block(
                    v@,
                    digests@[k] as int,
                    p as int,
                ),
        decreases digests.len() - i,
    {
        if digests[i] < p && !is_in_one_block(v, digests[i], p) {
            assert(kind_at(v@, digests@[i as int] as int, Kind::Digest));
            return true;
        }
        i += 1;
    }
    proof {
        assert forall|c: int| #[trigger] kind_at(v@, c, Kind::Digest) && c < p implies in_one_block(
            v@,
            c,
            p as int,
        ) by {
            let k = choose|k: int| 0 <= k < digests@.len() && #[trigger] digests@[k] == c;
            assert(digests@[k] < p);
        }
    }
    false
}

fn is_behind_part_header(v: &[char], d: usize, digests: &[usize]) -> (yes: bool)
    requires
        d < v@.len(),
        all_of(digests@, v@, Kind::Digest),
        forall|k: int| 0 <= k < digests@.len() ==> #[trigger] digests@[k] < v@.len(),
    ensures
        yes == behind_part_header(v@, d as int),
{
    let mut p: usize = d;
    let mut ended: bool = false;
    let ghost mut end: int = 0;
    while p > 0
        invariant
            p <= d < v.len(),
            all_of(digests@, v@, Kind::Digest),
            forall|k: int| 0 <= k < digests@.len() ==> #[trigger] digests@[k] < v@.len(),
            ended ==> p < end <= d && paragraph_ends(v@, end),
            forall|j: int| p < j <= d && #[trigger] paragraph_ends(v@, j) ==> ended && j == end,
            forall|q: int|
                p <= q < d ==> !(#[trigger] boundary_at(v@, q) && directly_behind(v@, q, d as int)),
        decreases p,
    {
        if is_paragraph_end(v, p) {
            if ended {
                proof {
                    assert(paragraph_ends(v@, p as int) && paragraph_ends(v@, end));
                    assert forall|q: int| #[trigger] boundary_at(v@, q) implies !directly_behind(
                        v@,
                        q,
                        d as int,
                    ) by {
                        if q < p {
                            assert(q < p < end <= d);
                        }
                    }
                }
                return false;
            }
            ended = true;
            proof {
                end = p as int;
            }
        }
        p -= 1;
        if stands_at(v, p, "--") && is_directly_behind(v, p, d) && is_boundary_at(v, p, digests) {
            assert(boundary_at(v@, p as int));
            return true;
        }
    }
    proof {
        assert forall|q: int| #[trigger] boundary_at(v@, q) implies !directly_behind(
            v@,
            q,
            d as int,
        ) by {
            assert(0 <= q);
        }
    }
    false
}

fn has_envelope_in_digest(v: &[char], mails: &[usize], digests: &[usize]) -> (yes: bool)
    requires
        all_of(digests@, v@, Kind::Digest),
        forall|k: int| 0 <= k < digests@.len() ==> #[trigger] digests@[k] < v@.len(),
        all_of(mails@, v@, Kind::Mail),
        forall|k: int| 0 <= k < mails@.len() ==> #[trigger] mails@[k] < v@.len(),
    ensures
        yes == envelope_in_digest(v@),
{
    let mut i: usize = 0;
    while i < mails.len()
        invariant
            i <= mails.len(),
            all_of(digests@, v@, Kind::Digest),
            forall|k: int| 0 <= k < digests@.len() ==> #[trigger] digests@[k] < v@.len(),
            all_of(mails@, v@, Kind::Mail),
            forall|k: int| 0 <= k < mails@.len() ==> #[trigger] mails@[k] < v@.len(),
            forall|k: int|
                0 <= k < i ==> !behind_part_header(v@, (#[trigger] mails@[k]) as int),
        decreases mails.len() - i,
    {
        if is_behind_part_header(v, mails[i], digests) {
            assert(kind_at(v@, mails@[i as int] as int, Kind::Mail));
            return true;
        }
        i += 1;
    }
    proof {
        assert forall|d: int| #[trigger] kind_at(v@, d, Kind::Mail) implies !behind_part_header(
            v@,
            d,
        ) by {
            let k = choose|k: int| 0 <= k < mails@.len() && #[trigger] mails@[k] == d;
            assert(!behind_part_header(v@, mails@[k] as int));
        }
    }
    false
}

fn is_plain_type_at(v: &[char], t: usize) -> (yes: bool)
    requires
        t < v@.len(),
    ensures
        yes == plain_type_at(v@, t as int),
{
    if !is_kind_at(v, t, Kind::Type) || t < 12 || !stands_at(v, t - 12, "content-type") {
        return false;
    }
    if t > 12 && v[t - 13] != '\n' {
        return false;
    }
    let q: usize = if v.len() - t > 1 && v[t + 1] == ' ' {
        t + 2
    } else {
        t + 1
    };
    q < v.len() && 'a' <= v[q] && v[q] <= 'z'
}

fn is_sole_type(v: &[char], t: usize, types: &[usize]) -> (yes: bool)
    requires
        t < v@.len(),
        all_of(types@, v@, Kind::Type),
        forall|k: int| 0 <= k < types@.len() ==> #[trigger] types@[k] < v@.len(),
    ensures
        yes == sole_type(v@, t as int),
{
    let mut i: usize = 0;
    while i < types.len()
        invariant
            t < v.len(),
            i <= types.len(),
            all_of(types@, v@, Kind::Type),
            forall|k: int| 0 <= k < types@.len() ==> #[trigger] types@[k] < v@.len(),
            forall|k: int|
                0 <= k < i && (#[trigger] types@[k]) != t ==> !in_one_paragraph(
                    v@,
                    t as int,
                    types@[k] as int,
                ),
        decreases types.len() - i,
    {
        if types[i] != t && is_in_one_paragraph(v, t, types[i]) {
            assert(kind_at(v@, types@[i as int] as int, Kind::Type));
            return false;
        }
        i += 1;
    }
    proof {
        assert forall|u: int| #[trigger]
            kind_at(v@, u, Kind::Type) && u != t implies !in_one_paragraph(v@, t as int, u) by {
            let k = choose|k: int| 0 <= k < types@.len() && #[trigger] types@[k] == u;
            assert(types@[k] != t);
        }
    }
    true
}

/// Whether a content type behind `p` is that of the header block which holds `d`.
fn is_typed_behind(v: &[char], p: usize, d: usize, types: &[usize]) -> (yes: bool)
    requires
        d < v@.len(),
        all_of(types@, v@, Kind::Type),
        forall|k: int| 0 <= k < types@.len() ==> #[trigger] types@[k] < v@.len(),
    ensures
        yes == exists|t: int| p < t && #[trigger] typed_by(v@, d as int, t),
{
    let mut i: usize = 0;
    while i < types.len()
        invariant
            d < v.len(),
            i <= types.len(),
            all_of(types@, v@, Kind::Type),
            forall|k: int| 0 <= k < types@.len() ==> #[trigger] types@[k] < v@.len(),
            forall|k: int|
                0 <= k < i && p < (#[trigger] types@[k]) ==> !typed_by(
                    v@,
                    d as int,
                    types@[k] as int,
                ),
        decreases types.len() - i,
    {
        let t: usize = types[i];
        if p < t && is_plain_type_at(v, t) && is_in_one_block(v, t, d) && is_sole_type(v, t, types) {
            assert(typed_by(v@, d as int, t as int));
            return true;
        }
        i += 1;
    }
    proof {
        assert forall|t: int| p < t implies !#[trigger] typed_by(v@, d as int, t) by {
            if typed_by(v@, d as int, t) {
                assert(kind_at(v@, t, Kind::Type));
                let k = choose|k: int| 0 <= k < types@.len() && #[trigger] types@[k] == t;
                assert(p < types@[k]);
            }
        }
    }
    false
}

fn is_untyped_part(v: &[char], d: usize, digests: &[usize], types: &[usize]) -> (yes: bool)
    requires
        d < v@.len(),
        all_of(digests@, v@, Kind::Digest),
        forall|k: int| 0 <= k < digests@.len() ==> #[trigger] digests@[k] < v@.len(),
        all_of(types@, v@, Kind::Type),
        forall|k: int| 0 <= k < types@.len() ==> #[trigger] types@[k] < v@.len(),
    ensures
        yes == untyped_part(v@, d as int),
{
    let mut p: usize = d;
    while p > 0
        invariant
            p <= d < v.len(),
            all_of(digests@, v@, Kind::Digest),
            forall|k: int| 0 <= k < digests@.len() ==> #[trigger] digests@[k] < v@.len(),
            all_of(types@, v@, Kind::Type),
            forall|k: int| 0 <= k < types@.len() ==> #[trigger] types@[k] < v@.len(),
            forall|j: int| p < j <= d ==> !#[trigger] paragraph_ends(v@, j),
            forall|q: int| p <= q < d ==> !#[trigger] boundary_at(v@, q),
        decreases p,
    {
        if is_paragraph_end(v, p) {
            proof {
                assert(paragraph_ends(v@, p as int));
                assert forall|q: int| #[trigger] boundary_at(v@, q) && q < d implies
                    !in_one_paragraph(v@, q, d as int) by {
                    assert(q < p <= d);
                }
            }
            return false;
        }
        p -= 1;
        if is_boundary_at(v, p, digests) {
            assert(boundary_at(v@, p as int));
            if is_typed_behind(v, p, d, types) {
                proof {
                    let t = choose|t: int| p < t && #[trigger] typed_by(v@, d as int, t);
                    assert forall|q: int| #[trigger] boundary_at(v@, q) && q < d implies q < t by {
                        assert(q <= p);
                    }
                }
                return false;
            }
            return true;
        }
    }
    proof {
        assert forall|q: int| #[trigger] boundary_at(v@, q) && q < d implies false by {
            assert(0 <= q);
        }
    }
    false
}

fn has_encoded_in_digest(
    v: &[char],
    encodings: &[usize],
    digests: &[usize],
    types: &[usize],
) -> (yes: bool)
    requires
        all_of(digests@, v@, Kind::Digest),
        forall|k: int| 0 <= k < digests@.len() ==> #[trigger] digests@[k] < v@.len(),
        all_of(encodings@, v@, Kind::Encoding),
        all_of(types@, v@, Kind::Type),
        forall|k: int| 0 <= k < encodings@.len() ==> #[trigger] encodings@[k] < v@.len(),
        forall|k: int| 0 <= k < types@.len() ==> #[trigger] types@[k] < v@.len(),
    ensures
        yes == encoded_in_digest(v@),
{
    let mut i: usize = 0;
    while i < encodings.len()
        invariant
            i <= encodings.len(),
            all_of(digests@, v@, Kind::Digest),
            forall|k: int| 0 <= k < digests@.len() ==> #[trigger] digests@[k] < v@.len(),
            all_of(encodings@, v@, Kind::Encoding),
            all_of(types@, v@, Kind::Type),
            forall|k: int| 0 <= k < encodings@.len() ==> #[trigger] encodings@[k] < v@.len(),
            forall|k: int| 0 <= k < types@.len() ==> #[trigger] types@[k] < v@.len(),
            forall|k: int| 0 <= k < i ==> !untyped_part(v@, (#[trigger] encodings@[k]) as int),
        decreases encodings.len() - i,
    {
        if is_untyped_part(v, encodings[i], digests, types) {
            assert(kind_at(v@, encodings@[i as int] as int, Kind::Encoding));
            return true;
        }
        i += 1;
    }
    proof {
        assert forall|d: int| #[trigger] kind_at(v@, d, Kind::Encoding) implies !untyped_part(
            v@,
            d,
        ) by {
            let k = choose|k: int| 0 <= k < encodings@.len() && #[trigger] encodings@[k] == d;
            assert(!untyped_part(v@, encodings@[k] as int));
        }
    }
    false
}

/// A boundary is set at `t` in an encoding, so that it may hold line breaks.
pub open spec fn coded_boundary_at(s: Seq<char>, t: int) -> bool {
    let q = behind_filler(s, t + 8);
    &&& text::starts_at(s, t, "boundary"@)
    &&& (q < s.len() && s[q] == '*') || holds(s, t, value_end(s, t), "=?"@)
}

fn has_coded_boundary(v: &[char]) -> (yes: bool)
    ensures
        yes == exists|t: int| #[trigger] coded_boundary_at(v@, t),
{
    let mut t: usize = 0;
    while t < v.len()
        invariant
            t <= v.len(),
            forall|k: int| k < t ==> !#[trigger] coded_boundary_at(v@, k),
        decreases v.len() - t,
    {
        if stands_at(v, t, "boundary") {
            proof {
                reveal_strlit("boundary");
            }
            let q: usize = skip_filler(v, t + 8);
            let e: usize = find_value_end(v, t);
            if (q < v.len() && v[q] == '*') || does_hold(v, t, e, "=?") {
                assert(coded_boundary_at(v@, t as int));
                return true;
            }
        }
        t += 1;
    }
    proof {
        reveal_strlit("boundary");
    }
    false
}

/// What an encoded word in base64 can hold.
pub open spec fn word_char(c: char) -> bool {
    ('a' <= c <= 'z') || ('0' <= c <= '9') || c == '+' || c == '/' || c == '=' || c == ' ' || c
        == '\t' || c == '\r' || c == '\n'
}

/// A word that `p` is in is still open at the end of the paragraph.
pub open spec fn open_from(s: Seq<char>, p: int) -> bool
    decreases s.len() - p,
{
    paragraph_ends(s, p) || (0 <= p < s.len() && word_char(s[p]) && open_from(s, p + 1))
}

/// An encoded word in base64 whose data begin at `w` goes on behind the end of its paragraph.
pub open spec fn open_word_at(s: Seq<char>, w: int) -> bool {
    text::starts_at(s, w, "?b?"@) && open_from(s, w + 3)
}

fn has_open_word(v: &[char]) -> (yes: bool)
    ensures
        yes == exists|w: int| #[trigger] open_word_at(v@, w),
{
    let mut w: usize = 0;
    while w < v.len()
        invariant
            w <= v.len(),
            forall|k: int| k < w ==> !#[trigger] open_word_at(v@, k),
        decreases v.len() - w,
    {
        if stands_at(v, w, "?b?") {
            proof {
                reveal_strlit("?b?");
            }
            let mut p: usize = w + 3;
            while p < v.len() && !is_paragraph_end(v, p) && (('a' <= v[p] && v[p] <= 'z') || ('0'
                <= v[p] && v[p] <= '9') || v[p] == '+' || v[p] == '/' || v[p] == '=' || v[p] == ' '
                || v[p] == '\t' || v[p] == '\r' || v[p] == '\n')
                invariant
                    w + 3 <= p <= v.len(),
                    open_from(v@, p as int) == open_from(v@, w + 3),
                decreases v.len() - p,
            {
                p += 1;
            }
            if is_paragraph_end(v, p) {
                assert(open_word_at(v@, w as int));
                return true;
            }
        }
        w += 1;
    }
    proof {
        reveal_strlit("?b?");
    }
    false
}

/// An ASCII letter, in lower case.
pub open spec fn letter(c: char) -> bool {
    'a' <= c <= 'z'
}

/// A word of letters begins at `q` that has the end of the line among the two characters behind
/// its first. The parser takes three characters of a date for its zone.
pub open spec fn zone_runs_on_at(s: Seq<char>, q: int) -> bool {
    &&& 0 <= q < s.len()
    &&& letter(s[q])
    &&& q == 0 || !letter(s[q - 1])
    &&& (q + 1 < s.len() && s[q + 1] == '\n') || (q + 2 < s.len() && s[q + 2] == '\n')
}

/// The date whose colon stands at `c` may go on behind its line.
pub open spec fn date_runs_on_at(s: Seq<char>, c: int) -> bool {
    &&& field_at(s, c, "date"@)
    &&& exists|q: int| c < q < value_end(s, c + 1) && #[trigger] zone_runs_on_at(s, q)
}

fn has_date_that_runs_on(v: &[char]) -> (yes: bool)
    ensures
        yes == exists|c: int| #[trigger] date_runs_on_at(v@, c),
{
    let name = text::to_chars("date");
    let mut c: usize = 0;
    while c < v.len()
        invariant
            c <= v.len(),
            name@ == "date"@,
            forall|k: int| k < c ==> !#[trigger] date_runs_on_at(v@, k),
        decreases v.len() - c,
    {
        if is_field_at(v, c, &name) {
            let e: usize = find_value_end(v, c + 1);
            let mut q: usize = c + 1;
            while q < e
                invariant
                    c < q,
                    c < v.len(),
                    e <= v.len(),
                    e == value_end(v@, c + 1),
                    field_at(v@, c as int, "date"@),
                    forall|k: int| c < k < q ==> !#[trigger] zone_runs_on_at(v@, k),
                decreases e - q,
            {
                if 'a' <= v[q] && v[q] <= 'z' && !('a' <= v[q - 1] && v[q - 1] <= 'z') && ((v.len()
                    - q > 1 && v[q + 1] == '\n') || (v.len() - q > 2 && v[q + 2] == '\n')) {
                    assert(zone_runs_on_at(v@, q as int));
                    assert(date_runs_on_at(v@, c as int));
                    return true;
                }
                q += 1;
            }
        }
        c += 1;
    }
    false
}

/// How many parts of a mail may be whole mails, or hold them.
pub const MAX_NESTED: usize = 256;

/// The parts of a mail that are whole mails can be parsed: there are not too many of them, none
/// of them is in an encoding of its own, none is a mere envelope of another, and it is plain
/// where their headers end.
pub open spec fn nesting_readable(s: Seq<char>) -> bool {
    let mails = count_of(s, Kind::Mail);
    let digests = count_of(s, Kind::Digest);
    &&& mails + digests <= MAX_NESTED
    &&& mails + digests > 0 ==> {
        &&& !exists|w: int| #[trigger] open_word_at(s, w)
        &&& !exists|c: int| #[trigger] date_runs_on_at(s, c)
        &&& !encoded_mail(s)
        &&& !envelope_in_mail(s)
    }
    &&& digests > 0 ==> {
        &&& !exists|t: int| #[trigger] coded_boundary_at(s, t)
        &&& !envelope_in_digest(s)
        &&& !encoded_in_digest(s)
    }
}

fn is_nesting_readable(v: &[char]) -> (yes: bool)
    ensures
        yes == nesting_readable(v@),
{
    let mails = find_all(v, Kind::Mail);
    let digests = find_all(v, Kind::Digest);
    if mails.len() > MAX_NESTED || digests.len() > MAX_NESTED - mails.len() {
        return false;
    }
    if mails.len() == 0 && digests.len() == 0 {
        return true;
    }
    let encodings = find_all(v, Kind::Encoding);
    if has_open_word(v) || has_date_that_runs_on(v) || has_encoded_mail(v, &mails, &encodings)
        || has_envelope_in_mail(v, &mails) {
        return false;
    }
    if digests.len() == 0 {
        return true;
    }
    let types = find_all(v, Kind::Type);
    !has_coded_boundary(v) && !has_envelope_in_digest(v, &mails, &digests)
        && !has_encoded_in_digest(v, &encodings, &digests, &types)
}

// ---------------------------------------------------------------------------
// Soft line breaks before a boundary
// ---------------------------------------------------------------------------

/// A line without the white space in it.
pub open spec fn bare(line: Seq<char>) -> Seq<char>
    decreases line.len(),
{
    if line.len() == 0 {
        line
    } else if gap(line.last()) {
        bare(line.drop_last())
    } else {
        bare(line.drop_last()).push(line.last())
    }
}

/// A line that ends in a soft line break, with at most one byte of quoted-printable text before
/// it.
pub open spec fn short_soft(line: Seq<char>) -> bool {
    let b = bare(line);
    ||| b.len() == 1 && b[0] == '='
    ||| b.len() == 2 && b[1] == '='
    ||| b.len() == 4 && b[0] == '=' && b[3] == '='
}

/// A part that ends with the line `i` may be of next to nothing and end in a soft line break:
/// the line and the one before it hold next to nothing, and a boundary may follow.
pub open spec fn soft_end(lines: Seq<Seq<char>>, i: int) -> bool {
    &&& 1 <= i < lines.len() - 1
    &&& short_soft(lines[i])
    &&& bare(lines[i - 1]).len() == 0 || short_soft(lines[i - 1])
    &&& text::starts_at(lines[i + 1], 0, "--"@)
}

fn strip_gaps(line: &[char]) -> (b: Vec<char>)
    ensures
        b@ == bare(line@),
{
    let mut b: Vec<char> = Vec::new();
    let mut i: usize = 0;
    while i < line.len()
        invariant
            i <= line.len(),
            b@ == bare(line@.take(i as int)),
        decreases line.len() - i,
    {
        assert(line@.take(i + 1).drop_last() =~= line@.take(i as int));
        if !is_gap(line[i]) {
            b.push(line[i]);
        }
        i += 1;
    }
    assert(line@.take(i as int) =~= line@);
    b
}

fn is_short_soft(line: &[char]) -> (yes: bool)
    ensures
        yes == short_soft(line@),
{
    let b = strip_gaps(line);
    (b.len() == 1 && b[0] == '=') || (b.len() == 2 && b[1] == '=') || (b.len() == 4 && b[0] == '='
        && b[3] == '=')
}

fn has_soft_end(v: &[char]) -> (yes: bool)
    ensures
        yes == exists|i: int| #[trigger] soft_end(text::split_on(v@, '\n'), i),
{
    let lines = text::split(v, '\n');
    let ghost all = text::views(lines@);
    let dashes = text::to_chars("--");
    let mut i: usize = 1;
    while i < lines.len() - 1
        invariant
            lines.len() >= 1,
            1 <= i,
            all == text::views(lines@),
            all == text::split_on(v@, '\n'),
            dashes@ == "--"@,
            forall|k: int| k < i ==> !#[trigger] soft_end(all, k),
        decreases lines.len() - i,
    {
        assert(all[i - 1] == lines@[i - 1]@);
        assert(all[i as int] == lines@[i as int]@);
        assert(all[i + 1] == lines@[i + 1]@);
        if is_short_soft(&lines[i]) && text::is_at(&lines[i + 1], 0, &dashes) {
            let before = strip_gaps(&lines[i - 1]);
            if before.len() == 0 || is_short_soft(&lines[i - 1]) {
                assert(soft_end(all, i as int));
                return true;
            }
        }
        i += 1;
    }
    false
}

// ---------------------------------------------------------------------------
// Mails that can be parsed
// ---------------------------------------------------------------------------

/// The size from which on mails are not parsed, in bytes: the parser counts in 31 bits.
pub const MAX_MAIL_BYTES: usize = 0x8000_0000;

/// The header of a mail can be parsed: it is not too large.
pub open spec fn header_readable(raw: Seq<u8>) -> bool {
    raw.len() < MAX_MAIL_BYTES
}

/// A mail can be parsed: it is not too large, its parts that are whole mails can be, and no
/// quoted-printable part of next to nothing ends in a soft line break.
pub open spec fn readable(raw: Seq<u8>) -> bool {
    let s = lowered(raw);
    &&& header_readable(raw)
    &&& nesting_readable(s)
    &&& count_of(s, Kind::Quoted) > 0 ==> !exists|i: int| #[trigger]
        soft_end(text::split_on(s, '\n'), i)
}

/// Whether a mail can be parsed.
pub fn is_readable(raw: &[u8]) -> (yes: bool)
    ensures
        yes == readable(raw@),
{
    if raw.len() >= MAX_MAIL_BYTES {
        return false;
    }
    let v = lower_all(raw);
    if !is_nesting_readable(&v) {
        return false;
    }
    let quoted = find_all(&v, Kind::Quoted);
    quoted.len() == 0 || !has_soft_end(&v)
}

// ---------------------------------------------------------------------------
// Mails without a header
// ---------------------------------------------------------------------------

/// A line holds a header field: a colon with a name before it.
pub open spec fn holds_field(line: Seq<char>) -> bool {
    exists|j: int, k: int|
        {
            &&& 0 <= j < k < line.len()
            &&& #[trigger] line[k] == ':'
            &&& !gap(#[trigger] line[j])
            &&& line[j] != ':'
        }
}

/// A mail has no header: an empty line comes before any field.
pub open spec fn headerless(raw: Seq<u8>) -> bool {
    let lines = text::split_on(lowered(raw), '\n');
    exists|n: int|
        {
            &&& 0 <= n < lines.len() - 1
            &&& bare(#[trigger] lines[n]).len() == 0
            &&& forall|m: int| 0 <= m < n ==> !holds_field(#[trigger] lines[m])
        }
}

fn has_field(line: &[char]) -> (yes: bool)
    ensures
        yes == holds_field(line@),
{
    let mut named: bool = false;
    let ghost mut at: int = 0;
    let mut k: usize = 0;
    while k < line.len()
        invariant
            k <= line.len(),
            named ==> 0 <= at < k && !gap(line@[at]) && line@[at] != ':',
            !named ==> forall|j: int|
                0 <= j < k ==> gap(#[trigger] line@[j]) || line@[j] == ':',
            forall|i: int, j: int|
                0 <= j < i < k && #[trigger] line@[i] == ':' ==> gap(#[trigger] line@[j])
                    || line@[j] == ':',
        decreases line.len() - k,
    {
        let c = line[k];
        if c == ':' {
            if named {
                assert(line@[k as int] == ':' && !gap(line@[at]));
                return true;
            }
        } else if !is_gap(c) {
            if !named {
                proof {
                    at = k as int;
                }
            }
            named = true;
        }
        k += 1;
    }
    false
}

/// Whether a mail has no header.
pub fn is_headerless(raw: &[u8]) -> (yes: bool)
    ensures
        yes == headerless(raw@),
{
    let v = lower_all(raw);
    let lines = text::split(&v, '\n');
    let ghost all = text::views(lines@);
    let mut n: usize = 0;
    while n < lines.len() - 1
        invariant
            lines.len() >= 1,
            n <= lines.len() - 1,
            all == text::views(lines@),
            all == text::split_on(lowered(raw@), '\n'),
            forall|m: int|
                0 <= m < n ==> !holds_field(#[trigger] all[m]) && bare(all[m]).len() > 0,
        decreases lines.len() - n,
    {
        assert(all[n as int] == lines@[n as int]@);
        let b = strip_gaps(&lines[n]);
        if b.len() == 0 {
            assert(bare(all[n as int]).len() == 0);
            return true;
        }
        if has_field(&lines[n]) {
            assert(holds_field(all[n as int]));
            return false;
        }
        n += 1;
    }
    false
}

/// The fields that count are all places where one has its colon.
pub proof fn lemma_fields_are_counted(s: Seq<char>, kind: Kind)
    ensures
        count_of(s, kind) == Seq::new(s.len(), |c: int| kind_at(s, c, kind)).filter(|b: bool| b).len(),
{
    lemma_counted_before(s, kind, s.len());
}

proof fn lemma_counted_before(s: Seq<char>, kind: Kind, n: nat)
    ensures
        count_before(s, kind, n as int) == Seq::new(n, |c: int| kind_at(s, c, kind)).filter(
            |b: bool| b,
        ).len(),
    decreases n,
{
    reveal(Seq::filter);
    let all = Seq::new(n, |c: int| kind_at(s, c, kind));
    if n > 0 {
        lemma_counted_before(s, kind, (n - 1) as nat);
        assert(all.drop_last() =~= Seq::new((n - 1) as nat, |c: int| kind_at(s, c, kind)));
    }
}

proof fn lemma_none_counted(s: Seq<char>, kind: Kind, n: int)
    requires
        forall|c: int| 0 <= c < n ==> !#[trigger] kind_at(s, c, kind),
    ensures
        count_before(s, kind, n) == 0,
    decreases n,
{
    if n > 0 {
        lemma_none_counted(s, kind, n - 1);
    }
}

proof fn lemma_some_counted(s: Seq<char>, kind: Kind, c: int, n: int)
    requires
        0 <= c < n,
        kind_at(s, c, kind),
    ensures
        count_before(s, kind, n) > 0,
    decreases n,
{
    if c < n - 1 {
        lemma_some_counted(s, kind, c, n - 1);
    }
}

proof fn lemma_behind_filler_from(s: Seq<char>, p: int)
    ensures
        behind_filler(s, p) >= p,
    decreases s.len() - p,
{
    if 0 <= p < s.len() && filler(s[p]) {
        lemma_behind_filler_from(s, p + 1);
    }
}

proof fn lemma_type_end_from(s: Seq<char>, p: int)
    ensures
        type_end(s, p) >= p,
    decreases s.len() - p,
{
    if !(p < 0 || value_ends(s, p) || s[p] == ';' || s[p] == '(') {
        lemma_type_end_from(s, p + 1);
    }
}

proof fn lemma_no_such_type(s: Seq<char>, p: int, main: Seq<char>, sub: Seq<char>)
    requires
        0 <= p,
        forall|q: int| 0 <= q < s.len() ==> #[trigger] s[q] != '(',
        forall|q: int| !#[trigger] text::starts_at(s, q, sub),
    ensures
        !type_at(s, p, main, sub),
{
    let e = type_end(s, p);
    lemma_type_end_from(s, p);
    if type_at(s, p, main, sub) {
        if e < s.len() {
            assert(s[e] != '(');
        }
        let q = choose|q: int| #[trigger] word_at(s, p, e, sub, q);
        assert(text::starts_at(s, q, sub));
    }
}

/// No comment is in the mail, and no word by which a part of it would be a mail of its own.
pub open spec fn no_mail_inside(raw: Seq<u8>) -> bool {
    let s = raw.map_values(|b: u8| text::ascii_lower(b as char));
    &&& forall|q: int| 0 <= q < s.len() ==> #[trigger] s[q] != '('
    &&& forall|q: int| !#[trigger] text::starts_at(s, q, "rfc822"@)
    &&& forall|q: int| !#[trigger] text::starts_at(s, q, "global"@)
    &&& forall|q: int| !#[trigger] text::starts_at(s, q, "digest"@)
}

proof fn lemma_nothing_nested(raw: Seq<u8>)
    requires
        no_mail_inside(raw),
    ensures
        count_of(lowered(raw), Kind::Mail) == 0,
        count_of(lowered(raw), Kind::Digest) == 0,
        nesting_readable(lowered(raw)),
{
    let s = lowered(raw);
    assert(s =~= raw.map_values(|b: u8| text::ascii_lower(b as char)));
    assert forall|c: int| 0 <= c < s.len() implies !#[trigger] kind_at(s, c, Kind::Mail) by {
        lemma_no_such_type(s, c + 1, "message"@, "rfc822"@);
        lemma_no_such_type(s, c + 1, "message"@, "global"@);
    }
    assert forall|c: int| 0 <= c < s.len() implies !#[trigger] kind_at(s, c, Kind::Digest) by {
        lemma_no_such_type(s, c + 1, "multipart"@, "digest"@);
    }
    lemma_none_counted(s, Kind::Mail, s.len() as int);
    lemma_none_counted(s, Kind::Digest, s.len() as int);
}

proof fn lemma_bare_is_of_the_line(line: Seq<char>, c: char)
    requires
        !line.contains(c),
    ensures
        !bare(line).contains(c),
    decreases line.len(),
{
    if line.len() > 0 {
        let head = line.drop_last();
        assert(!head.contains(c)) by {
            if head.contains(c) {
                let i = choose|i: int| 0 <= i < head.len() && head[i] == c;
                assert(line[i] == c);
            }
        }
        lemma_bare_is_of_the_line(head, c);
        assert(line[line.len() - 1] != c);
        let b = bare(line);
        if b.contains(c) {
            let i = choose|i: int| 0 <= i < b.len() && b[i] == c;
            if !gap(line.last()) && i < b.len() - 1 {
                assert(bare(head)[i] == c);
            }
        }
    }
}

proof fn lemma_line_is_of_the_text(s: Seq<char>, i: int, c: char)
    requires
        !s.contains(c),
        0 <= i < text::split_on(s, '\n').len(),
    ensures
        !text::split_on(s, '\n')[i].contains(c),
    decreases s.len(),
{
    let all = text::split_on(s, '\n');
    if s.len() > 0 {
        let head = s.drop_last();
        let before = text::split_on(head, '\n');
        text::lemma_split_pieces(head, '\n');
        assert(!head.contains(c)) by {
            if head.contains(c) {
                let k = choose|k: int| 0 <= k < head.len() && head[k] == c;
                assert(s[k] == c);
            }
        }
        assert(s[s.len() - 1] != c);
        if i < before.len() {
            lemma_line_is_of_the_text(head, i, c);
            if all[i].contains(c) {
                let k = choose|k: int| 0 <= k < all[i].len() && all[i][k] == c;
                assert(before[i][k] == c);
            }
        }
    }
}

/// An ordinary mail can be read: one that is not too large, with no mail inside, and either not
/// in quoted-printable at all or without a line break that is encoded.
pub proof fn lemma_ordinary_mails_are_readable(raw: Seq<u8>)
    requires
        raw.len() < 0x8000_0000,
        no_mail_inside(raw),
    ensures
        ({
            let s = raw.map_values(|b: u8| text::ascii_lower(b as char));
            &&& (forall|q: int|
                !(#[trigger] text::starts_at(s, q, "quoted-printable"@))) && (forall|q: int|
                !(#[trigger] text::starts_at(s, q, "=?"@))) ==> readable(raw)
            &&& !s.contains('=') ==> readable(raw)
        }),
{
    let s = lowered(raw);
    assert(s =~= raw.map_values(|b: u8| text::ascii_lower(b as char)));
    lemma_nothing_nested(raw);
    if (forall|q: int| !(#[trigger] text::starts_at(s, q, "quoted-printable"@))) && (forall|q: int|
        !(#[trigger] text::starts_at(s, q, "=?"@))) {
        assert forall|c: int| 0 <= c < s.len() implies !#[trigger] kind_at(s, c, Kind::Quoted) by {
            let p = behind_filler(s, c + 1);
            assert(!text::starts_at(s, p, "quoted-printable"@));
            assert(!text::starts_at(s, p, "=?"@));
        }
        lemma_none_counted(s, Kind::Quoted, s.len() as int);
    }
    if !s.contains('=') {
        let lines = text::split_on(s, '\n');
        assert forall|i: int| !#[trigger] soft_end(lines, i) by {
            if soft_end(lines, i) {
                let line = lines[i];
                lemma_line_is_of_the_text(s, i, '=');
                lemma_bare_is_of_the_line(line, '=');
                let b = bare(line);
                assert(b.contains(b[b.len() - 1]));
            }
        }
    }
}

/// A mail that is too large cannot be read, nor one with too many mails inside.
pub proof fn lemma_too_much_is_not_readable(raw: Seq<u8>)
    ensures
        raw.len() >= 0x8000_0000 ==> !readable(raw) && !header_readable(raw),
        raw.len() < 0x8000_0000 ==> header_readable(raw),
        count_of(lowered(raw), Kind::Mail) + count_of(lowered(raw), Kind::Digest) > 256
            ==> !readable(raw),
{
}

proof fn lemma_spelled(s: Seq<char>, p: int, name: Seq<char>)
    requires
        text::starts_at(s, p - name.len(), name),
        forall|k: int| 0 <= k < name.len() ==> !gap(#[trigger] name[k]),
    ensures
        spelled_before(s, p, name),
    decreases name.len(),
{
    if name.len() > 0 {
        let a = p - name.len();
        let t = name.drop_last();
        assert(s.subrange(a, p)[name.len() - 1] == s[p - 1]);
        assert(s[p - 1] == name.last());
        assert(!gap(name[name.len() - 1]));
        assert(s.subrange(a, p - 1) =~= s.subrange(a, p).drop_last());
        assert(p - 1 - t.len() == a);
        lemma_spelled(s, p - 1, t);
    }
}

proof fn lemma_char_of_part(s: Seq<char>, at: int, part: Seq<char>, k: int)
    requires
        text::starts_at(s, at, part),
        0 <= k < part.len(),
    ensures
        0 <= at + k < s.len(),
        s[at + k] == part[k],
{
    assert(s.subrange(at, at + part.len())[k] == s[at + k]);
}

proof fn lemma_part_of_part(s: Seq<char>, at: int, part: Seq<char>, from: int, to: int)
    requires
        text::starts_at(s, at, part),
        0 <= from <= to <= part.len(),
    ensures
        text::starts_at(s, at + from, part.subrange(from, to)),
{
    assert(s.subrange(at + from, at + to) =~= s.subrange(at, at + part.len()).subrange(from, to));
}

/// A line that says that a part is a whole mail, as it is usually written.
pub open spec fn mail_line() -> Seq<char> {
    "content-type: message/rfc822"@ + seq!['\n']
}

proof fn lemma_mail_line(s: Seq<char>, at: int)
    requires
        text::starts_at(s, at, mail_line()),
        at + 29 < s.len(),
        s[at + 29] != ' ' && s[at + 29] != '\t',
    ensures
        kind_at(s, at + 12, Kind::Mail),
        mail_line().len() == 29,
        s[at + 28] == '\n',
        forall|k: int| at <= k < at + 28 ==> #[trigger] s[k] != '\n',
{
    reveal_strlit("content-type: message/rfc822");
    reveal_strlit("content-type");
    reveal_strlit("message");
    reveal_strlit("rfc822");
    let m = mail_line();
    assert forall|k: int| 0 <= k < 29 implies s[at + k] == #[trigger] m[k] by {
        lemma_char_of_part(s, at, m, k);
    }
    assert forall|k: int| at <= k < at + 28 implies #[trigger] s[k] != '\n' by {
        assert(s[at + (k - at)] == m[k - at]);
    }
    assert(m[28] == '\n');
    lemma_char_of_part(s, at, m, 28);
    lemma_part_of_part(s, at, m, 0, 12);
    assert(m.subrange(0, 12) =~= "content-type"@);
    assert(m[12] == ':');
    lemma_spelled(s, at + 12, "content-type"@);
    let p = at + 13;
    let e = at + 28;
    assert forall|k: int| p <= k < e implies #[trigger] s[k] != '\n' && s[k] != ';' && s[k]
        != '(' by {
        assert(s[at + (k - at)] == m[k - at]);
    }
    lemma_type_goes_to(s, p, e);
    lemma_part_of_part(s, at, m, 14, 21);
    assert(m.subrange(14, 21) =~= "message"@);
    lemma_part_of_part(s, at, m, 22, 28);
    assert(m.subrange(22, 28) =~= "rfc822"@);
    assert(m[13] == ' ' && m[21] == '/');
    assert(s[at + 13] == ' ' && s[at + 21] == '/');
    assert(word_at(s, p, e, "message"@, at + 14));
    assert(word_at(s, p, e, "rfc822"@, at + 22));
}

proof fn lemma_type_goes_to(s: Seq<char>, p: int, e: int)
    requires
        0 <= p <= e < s.len(),
        forall|k: int| p <= k < e ==> #[trigger] s[k] != '\n' && s[k] != ';' && s[k] != '(',
        value_ends(s, e),
    ensures
        type_end(s, p) == e,
    decreases e - p,
{
    if p < e {
        assert(s[p] != '\n');
        lemma_type_goes_to(s, p + 1, e);
    }
}

/// A mail cannot be read in which a part is a whole mail that is encoded in base64.
pub proof fn lemma_encoded_mail_inside_is_not_readable(raw: Seq<u8>, at: int)
    requires
        text::starts_at(
            raw.map_values(|b: u8| text::ascii_lower(b as char)),
            at,
            mail_line() + "content-transfer-encoding: base64"@ + seq!['\n'],
        ),
    ensures
        !readable(raw),
{
    let s = lowered(raw);
    assert(s =~= raw.map_values(|b: u8| text::ascii_lower(b as char)));
    let coding = "content-transfer-encoding: base64"@ + seq!['\n'];
    let all = mail_line() + "content-transfer-encoding: base64"@ + seq!['\n'];
    reveal_strlit("content-type: message/rfc822");
    reveal_strlit("content-transfer-encoding: base64");
    reveal_strlit("content-transfer-encoding");
    reveal_strlit("base64");
    assert(all =~= mail_line() + coding);
    lemma_part_of_part(s, at, all, 0, 29);
    assert(all.subrange(0, 29) =~= mail_line());
    assert(all[29] == 'c');
    lemma_char_of_part(s, at, all, 29);
    lemma_mail_line(s, at);
    let b = at + 29;
    lemma_part_of_part(s, at, all, 29, 63);
    assert(all.subrange(29, 63) =~= coding);
    assert forall|k: int| 0 <= k < 33 implies s[b + k] == #[trigger] coding[k] by {
        lemma_char_of_part(s, b, coding, k);
    }
    lemma_part_of_part(s, b, coding, 0, 25);
    assert(coding.subrange(0, 25) =~= "content-transfer-encoding"@);
    lemma_spelled(s, b + 25, "content-transfer-encoding"@);
    assert(coding[25] == ':' && coding[26] == ' ' && coding[27] == 'b');
    assert(s[b + 26] == ' ' && s[b + 27] == 'b');
    assert(behind_filler(s, b + 27) == b + 27);
    assert(behind_filler(s, b + 26) == b + 27);
    lemma_part_of_part(s, b, coding, 27, 33);
    assert(coding.subrange(27, 33) =~= "base64"@);
    assert(kind_at(s, b + 25, Kind::Encoding));
    let c = at + 12;
    let d = b + 25;
    assert forall|k: int| c < k <= d || d < k <= c implies !#[trigger] paragraph_ends(s, k) by {
        if k != b {
            if k < b {
                assert(s[k - 1] != '\n');
            } else {
                assert(coding[k - 1 - b] != '\n');
                assert(s[b + (k - 1 - b)] == coding[k - 1 - b]);
            }
        }
    }
    assert(kind_at(s, c, Kind::Mail) && kind_at(s, d, Kind::Encoding) && in_one_paragraph(s, c, d));
    assert(encoded_mail(s));
    lemma_some_counted(s, Kind::Mail, c, s.len() as int);
}

/// A mail cannot be read in which a part is a mail that is a mere envelope of another.
pub proof fn lemma_mere_envelope_is_not_readable(raw: Seq<u8>, at: int)
    requires
        text::starts_at(
            raw.map_values(|b: u8| text::ascii_lower(b as char)),
            at,
            mail_line() + seq!['\n'] + mail_line() + seq!['\n'],
        ),
    ensures
        !readable(raw),
{
    let s = lowered(raw);
    assert(s =~= raw.map_values(|b: u8| text::ascii_lower(b as char)));
    let m = mail_line();
    let all = m + seq!['\n'] + m + seq!['\n'];
    reveal_strlit("content-type: message/rfc822");
    lemma_part_of_part(s, at, all, 0, 29);
    assert(all.subrange(0, 29) =~= m);
    assert(all[29] == '\n' && all[30] == 'c' && all[59] == '\n');
    lemma_char_of_part(s, at, all, 29);
    lemma_char_of_part(s, at, all, 30);
    lemma_char_of_part(s, at, all, 59);
    lemma_mail_line(s, at);
    lemma_part_of_part(s, at, all, 30, 59);
    assert(all.subrange(30, 59) =~= m);
    lemma_mail_line(s, at + 30);
    let c = at + 12;
    let d = at + 42;
    assert(gap_line(s, at + 29));
    assert(block_may_end(s, at + 29));
    assert forall|k: int| c < k <= d && #[trigger] paragraph_ends(s, k) implies k == at + 29 by {
        if k < at + 29 {
            assert(s[k - 1] != '\n');
        } else if k == at + 30 {
            assert(s[k] == 'c');
        } else if k > at + 30 {
            assert(s[k - 1] != '\n');
        }
    }
    assert(directly_behind(s, c, d));
    assert(kind_at(s, c, Kind::Mail) && kind_at(s, d, Kind::Mail));
    assert(envelope_in_mail(s));
    lemma_some_counted(s, Kind::Mail, c, s.len() as int);
}

/// A mail can be read that has one plain mail inside: no encoding of it, no digest, no date and
/// no encoded word.
pub proof fn lemma_a_mail_inside_is_readable(raw: Seq<u8>)
    requires
        raw.len() < 0x8000_0000,
        ({
            let s = raw.map_values(|b: u8| text::ascii_lower(b as char));
            &&& count_of(s, Kind::Mail) <= 1
            &&& count_of(s, Kind::Digest) == 0
            &&& forall|q: int| !(#[trigger] text::starts_at(s, q, "?b?"@))
            &&& forall|c: int| !(#[trigger] field_at(s, c, "date"@))
            &&& forall|c: int| !(#[trigger] field_at(s, c, "content-transfer-encoding"@))
        }),
    ensures
        readable(raw),
{
    let s = lowered(raw);
    assert(s =~= raw.map_values(|b: u8| text::ascii_lower(b as char)));
    assert forall|c: int| !#[trigger] date_runs_on_at(s, c) by {
        assert(!field_at(s, c, "date"@));
    }
    assert forall|w: int| !#[trigger] open_word_at(s, w) by {
        assert(!text::starts_at(s, w, "?b?"@));
    }
    assert forall|c: int| !#[trigger] kind_at(s, c, Kind::Encoding) && !kind_at(s, c, Kind::Quoted) by {
        assert(!field_at(s, c, "content-transfer-encoding"@));
    }
    assert forall|c: int| 0 <= c < s.len() implies !#[trigger] kind_at(s, c, Kind::Quoted) by {
        assert(!kind_at(s, c, Kind::Encoding));
    }
    lemma_none_counted(s, Kind::Quoted, s.len() as int);
    if envelope_in_mail(s) {
        let (c, d) = choose|c: int, d: int| #[trigger]
            kind_at(s, c, Kind::Mail) && #[trigger] kind_at(s, d, Kind::Mail) && directly_behind(
                s,
                c,
                d,
            );
        lemma_some_counted(s, Kind::Mail, c, d);
        lemma_counts_grow(s, Kind::Mail, d + 1, s.len() as int);
        assert(count_before(s, Kind::Mail, d + 1) >= 2);
    }
}

proof fn lemma_counts_grow(s: Seq<char>, kind: Kind, m: int, n: int)
    requires
        m <= n,
    ensures
        count_before(s, kind, m) <= count_before(s, kind, n),
    decreases n - m,
{
    if m < n {
        lemma_counts_grow(s, kind, m, n - 1);
        if n <= 0 {
            assert(count_before(s, kind, m) == 0);
        }
    }
}

/// Whether a mail has a header shows in its first line: an empty one says that there is none, and
/// a name with a colon behind it that there is one.
pub proof fn lemma_first_line_shows_the_header(line: Seq<u8>, rest: Seq<u8>, j: int, k: int)
    requires
        forall|i: int| 0 <= i < line.len() ==> #[trigger] line[i] != 10,
    ensures
        (forall|i: int|
            0 <= i < line.len() ==> #[trigger] line[i] == 32 || line[i] == 9 || line[i] == 13
                || line[i] == 12) ==> headerless(line + seq![10u8] + rest),
        0 <= j < k < line.len() && line[k] == 58 && line[j] != 58 && line[j] != 32 && line[j] != 9
            && line[j] != 13 && line[j] != 12 ==> !headerless(line + seq![10u8] + rest),
{
    let raw = line + seq![10u8] + rest;
    let s = lowered(raw);
    let a = lowered(line);
    let r = lowered(rest);
    assert(s =~= a + seq!['\n'] + r);
    let lines = text::split_on(s, '\n');
    let others = text::split_on(r, '\n');
    text::lemma_split_pieces(r, '\n');
    text::lemma_join_undoes_split(r, '\n');
    assert(!a.contains('\n')) by {
        if a.contains('\n') {
            let i = choose|i: int| 0 <= i < a.len() && a[i] == '\n';
            assert(line[i] != 10);
        }
    }
    text::lemma_joined_halves(seq![a], others, a, seq!['\n']);
    let parts = seq![a] + others;
    assert forall|i: int| 0 <= i < parts.len() implies !(#[trigger] parts[i]).contains('\n') by {
        if i > 0 {
            assert(parts[i] == others[i - 1]);
        }
    }
    text::lemma_split_undoes_join(parts, '\n');
    assert(lines =~= parts);
    assert(lines[0] == a);
    if forall|i: int|
        0 <= i < line.len() ==> #[trigger] line[i] == 32 || line[i] == 9 || line[i] == 13 || line[i]
            == 12 {
        assert forall|i: int| 0 <= i < a.len() implies gap(#[trigger] a[i]) by {
            assert(line[i] == 32 || line[i] == 9 || line[i] == 13 || line[i] == 12);
        }
        lemma_bare_of_gaps(a);
        assert(bare(lines[0]).len() == 0);
    }
    if 0 <= j < k < line.len() && line[k] == 58 && line[j] != 58 && line[j] != 32 && line[j] != 9
        && line[j] != 13 && line[j] != 12 {
        assert(a[k] == ':');
        assert(!gap(a[j]) && a[j] != ':');
        assert(holds_field(a));
        lemma_bare_holds(a, j);
        assert(bare(lines[0]).len() > 0);
        if headerless(raw) {
            let n = choose|n: int|
                {
                    &&& 0 <= n < lines.len() - 1
                    &&& bare(#[trigger] lines[n]).len() == 0
                    &&& forall|m: int| 0 <= m < n ==> !holds_field(#[trigger] lines[m])
                };
            assert(!holds_field(lines[0]));
        }
    }
}

proof fn lemma_bare_of_gaps(line: Seq<char>)
    requires
        forall|i: int| 0 <= i < line.len() ==> gap(#[trigger] line[i]),
    ensures
        bare(line).len() == 0,
    decreases line.len(),
{
    if line.len() > 0 {
        assert(gap(line[line.len() - 1]));
        lemma_bare_of_gaps(line.drop_last());
    }
}

proof fn lemma_bare_holds(line: Seq<char>, j: int)
    requires
        0 <= j < line.len(),
        !gap(line[j]),
    ensures
        bare(line).len() > 0,
    decreases line.len(),
{
    if j < line.len() - 1 {
        assert(line.drop_last()[j] == line[j]);
        lemma_bare_holds(line.drop_last(), j);
    }
}

} // verus!
