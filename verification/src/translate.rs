//! Translation of mail bodies: what is sent to a translator and what is kept as it stands, how
//! the replies are put together, and which language a text is in.

use crate::segment::Segment;
use crate::segment;
use crate::text;
use vstd::prelude::*;

verus! {

/// A translator for prose. Languages are FLORES-200 codes, such as `eng_Latn`.
pub trait Translator {
    /// Translates `text` from the language `src` to the language `tgt`.
    fn translate(&self, text: &str, src: &str, tgt: &str) -> (reply: Result<String, String>);
}

/// The translator can give this reply to `text`.
pub open spec fn may_answer<T: Translator>(
    t: &T,
    text: Seq<char>,
    src: Seq<char>,
    tgt: Seq<char>,
    reply: Result<Seq<char>, Seq<char>>,
) -> bool {
    exists|x: &str, a: &str, b: &str, r: Result<String, String>|
        {
            &&& #[trigger] call_ensures(T::translate, (t, x, a, b), r)
            &&& x@ == text && a@ == src && b@ == tgt
            &&& reply_view(r) == reply
        }
}

/// The texts of a reply.
pub open spec fn reply_view(reply: Result<String, String>) -> Result<Seq<char>, Seq<char>> {
    match reply {
        Ok(t) => Ok(t@),
        Err(e) => Err(e@),
    }
}

// ---------------------------------------------------------------------------
// What is sent
// ---------------------------------------------------------------------------

/// The longest text that is sent in one request, in characters. A model cuts a longer one
/// short without saying so.
pub const MAX_TRANSLATE_CHARS: usize = 1200;

/// A part of a body: kept as it stands, or sent to the translator.
#[derive(Debug)]
pub enum Part {
    Keep(String),
    Send(String),
}

/// What a [`Part`] holds.
pub enum PartView {
    Keep(Seq<char>),
    Send(Seq<char>),
}

impl PartView {
    /// The text of the part.
    pub open spec fn chars(self) -> Seq<char> {
        match self {
            PartView::Keep(t) => t,
            PartView::Send(t) => t,
        }
    }
}

impl View for Part {
    type V = PartView;

    open spec fn view(&self) -> PartView {
        match *self {
            Part::Keep(t) => PartView::Keep(t@),
            Part::Send(t) => PartView::Send(t@),
        }
    }
}

/// The views of a list of parts.
pub open spec fn part_views(parts: Seq<Part>) -> Seq<PartView> {
    parts.map_values(|p: Part| p@)
}

// Long texts -----------------------------------------------------------------

/// Lines packed from the left: the batches that are full, and the one that is being filled, if
/// one has begun.
pub open spec fn packed(lines: Seq<Seq<char>>) -> (Seq<Seq<char>>, Option<Seq<char>>)
    decreases lines.len(),
{
    if lines.len() == 0 {
        (Seq::<Seq<char>>::empty(), None)
    } else {
        let (full, cur) = packed(lines.drop_last());
        let line = lines.last();
        match cur {
            None => (full, Some(line)),
            Some(b) => if b.len() + 1 + line.len() > MAX_TRANSLATE_CHARS {
                (full.push(b), Some(line))
            } else {
                (full, Some(b.push('\n') + line))
            },
        }
    }
}

/// The batches of a text: its lines, packed as long as they fit. A line that is too long by
/// itself stays whole.
pub open spec fn batches_of(t: Seq<char>) -> Seq<Seq<char>> {
    let (full, cur) = packed(text::split_on(t, '\n'));
    match cur {
        Some(b) => full.push(b),
        None => full,
    }
}

/// A batch as a part: it is sent unless it is empty.
pub open spec fn batch_part(b: Seq<char>) -> PartView {
    if b.len() == 0 {
        PartView::Keep(b)
    } else {
        PartView::Send(b)
    }
}

/// The parts of some batches, with a line end between each two of them.
pub open spec fn woven(batches: Seq<Seq<char>>) -> Seq<PartView>
    decreases batches.len(),
{
    if batches.len() == 0 {
        Seq::<PartView>::empty()
    } else if batches.len() == 1 {
        seq![batch_part(batches[0])]
    } else {
        woven(batches.drop_last()).push(PartView::Keep("\n"@)).push(batch_part(batches.last()))
    }
}

/// The parts of a text that is to be sent: the text itself where it is short enough, and else
/// its batches, with a line end between each two of them.
pub open spec fn chunks_of(t: Seq<char>) -> Seq<PartView> {
    if t.len() <= MAX_TRANSLATE_CHARS {
        seq![PartView::Send(t)]
    } else {
        woven(batches_of(t))
    }
}

fn batches(v: &[char]) -> (out: Vec<Vec<char>>)
    ensures
        text::views(out@) == batches_of(v@),
{
    let mut out: Vec<Vec<char>> = Vec::new();
    let lines = text::split(v, '\n');
    let ghost all = text::views(lines@);
    let mut cur: Vec<char> = text::slice_of(&lines[0], 0, lines[0].len());
    let mut i: usize = 1;
    proof {
        assert(cur@ =~= all[0]);
        assert(all.take(1).drop_last() =~= Seq::<Seq<char>>::empty());
        assert(packed(all.take(1).drop_last()) == (Seq::<Seq<char>>::empty(), None::<Seq<char>>));
        assert(text::views(out@) =~= Seq::<Seq<char>>::empty());
    }
    while i < lines.len()
        invariant
            1 <= i <= lines.len(),
            all == text::views(lines@),
            packed(all.take(i as int)) == (text::views(out@), Some(cur@)),
        decreases lines.len() - i,
    {
        let ghost upto = all.take(i + 1);
        assert(upto.drop_last() =~= all.take(i as int));
        assert(upto.last() == lines@[i as int]@);
        let line = &lines[i];
        if cur.len() >= MAX_TRANSLATE_CHARS || line.len() >= MAX_TRANSLATE_CHARS - cur.len() {
            proof {
                text::lemma_views_push(out@, cur);
            }
            out.push(cur);
            cur = text::slice_of(line, 0, line.len());
            assert(cur@ =~= line@);
        } else {
            cur.push('\n');
            text::push_all(&mut cur, line);
        }
        i += 1;
    }
    assert(all.take(i as int) =~= all);
    proof {
        text::lemma_views_push(out@, cur);
    }
    out.push(cur);
    out
}

fn push_part(parts: &mut Vec<Part>, part: Part)
    ensures
        part_views(final(parts)@) == part_views(old(parts)@).push(part@),
{
    let ghost before = part_views(parts@);
    parts.push(part);
    assert(part_views(parts@) =~= before.push(part@));
}

fn push_chunks(parts: &mut Vec<Part>, v: &[char])
    ensures
        part_views(final(parts)@) == part_views(old(parts)@) + chunks_of(v@),
{
    let ghost before = part_views(parts@);
    if v.len() <= MAX_TRANSLATE_CHARS {
        push_part(parts, Part::Send(text::from_chars(v)));
        assert(part_views(parts@) =~= before + chunks_of(v@));
        return;
    }
    let found = batches(v);
    let ghost all = text::views(found@);
    let mut i: usize = 0;
    assert(part_views(parts@) =~= before + woven(all.take(0)));
    while i < found.len()
        invariant
            i <= found.len(),
            all == text::views(found@),
            part_views(parts@) == before + woven(all.take(i as int)),
        decreases found.len() - i,
    {
        let ghost upto = all.take(i + 1);
        assert(upto.drop_last() =~= all.take(i as int));
        assert(upto.last() == found@[i as int]@);
        if i > 0 {
            push_part(parts, Part::Keep("\n".to_owned()));
        }
        let b = text::from_chars(&found[i]);
        if found[i].len() == 0 {
            push_part(parts, Part::Keep(b));
        } else {
            push_part(parts, Part::Send(b));
        }
        assert(part_views(parts@) =~= before + woven(upto));
        i += 1;
    }
    assert(all.take(i as int) =~= all);
}

// Bodies ---------------------------------------------------------------------

/// The parts of a piece of a body: prose is sent unless it is blank, links and codes are kept.
pub open spec fn piece_parts(p: segment::Piece) -> Seq<PartView> {
    match p {
        segment::Piece::Text(t) => if text::blank(t) {
            seq![PartView::Keep(t)]
        } else {
            chunks_of(t)
        },
        segment::Piece::Url(u) => seq![PartView::Keep(u)],
        segment::Piece::Code(c) => seq![PartView::Keep(c)],
    }
}

/// The parts of some pieces, one piece behind the other.
pub open spec fn pieces_parts(ps: Seq<segment::Piece>) -> Seq<PartView>
    decreases ps.len(),
{
    if ps.len() == 0 {
        Seq::<PartView>::empty()
    } else {
        pieces_parts(ps.drop_last()) + piece_parts(ps.last())
    }
}

/// The parts of a text without links.
pub open spec fn prose_parts(t: Seq<char>) -> Seq<PartView> {
    pieces_parts(segment::prose(t))
}

/// The parts of `s` from `from` on.
pub open spec fn parts_from(s: Seq<char>, from: int) -> Seq<PartView>
    decreases s.len() - from,
{
    match segment::first_url(s, from) {
        None => prose_parts(s.subrange(from, s.len() as int)),
        Some(u) => if from <= u.start < u.end <= s.len() {
            prose_parts(s.subrange(from, u.start as int)).push(
                PartView::Keep(s.subrange(u.start as int, u.end as int)),
            ) + parts_from(s, u.end as int)
        } else {
            Seq::<PartView>::empty()
        },
    }
}

/// The parts of a body: its links, with the angle brackets around them, and its codes are kept,
/// the prose between them is sent.
pub open spec fn parts_of(s: Seq<char>) -> Seq<PartView> {
    parts_from(s, 0)
}

fn push_prose_parts(prose: &str, parts: &mut Vec<Part>)
    ensures
        part_views(final(parts)@) == part_views(old(parts)@) + prose_parts(prose@),
{
    let mut segs: Vec<Segment<'_>> = Vec::new();
    segment::push_prose(prose, &mut segs);
    let ghost ps = segment::pieces(segs@);
    assert(ps =~= segment::prose(prose@));
    let mut i: usize = 0;
    let ghost before = part_views(parts@);
    assert(before + pieces_parts(ps.take(0)) =~= before);
    while i < segs.len()
        invariant
            i <= segs.len(),
            ps == segment::pieces(segs@),
            part_views(parts@) == before + pieces_parts(ps.take(i as int)),
        decreases segs.len() - i,
    {
        let ghost so_far = part_views(parts@);
        assert(ps.take(i + 1).drop_last() =~= ps.take(i as int));
        assert(ps.take(i + 1).last() == segs@[i as int]@);
        match &segs[i] {
            Segment::Text(t) => {
                let v = text::to_chars(t);
                if text::is_blank(&v) {
                    push_part(parts, Part::Keep(text::from_chars(&v)));
                } else {
                    push_chunks(parts, &v);
                }
            },
            Segment::Url(u) => push_part(parts, Part::Keep(str::to_owned(u))),
            Segment::Code(c) => push_part(parts, Part::Keep(str::to_owned(c))),
        }
        assert(part_views(parts@) =~= so_far + piece_parts(ps[i as int]));
        assert(part_views(parts@) =~= before + pieces_parts(ps.take(i + 1)));
        i += 1;
    }
    assert(ps.take(i as int) =~= ps);
}

/// Cuts a body into what is kept and what is sent: links, with the angle brackets around them,
/// codes and blank text are kept; long prose is sent in batches of whole lines.
pub fn plan(plain: &str) -> (parts: Vec<Part>)
    ensures
        part_views(parts@) == parts_of(plain@),
{
    let v = text::to_chars(plain);
    let mut parts: Vec<Part> = Vec::new();
    let mut last: usize = 0;
    let ghost s = plain@;
    assert(part_views(parts@) + parts_from(s, 0) =~= parts_of(s));
    loop
        invariant
            v@ == s,
            s == plain@,
            last <= v.len(),
            part_views(parts@) + parts_from(s, last as int) =~= parts_of(s),
        decreases v.len() - last,
    {
        proof {
            segment::lemma_first_url(s, last as int);
        }
        match segment::find_url(&v, last) {
            Some(u) => {
                proof {
                    segment::lemma_url_at(s, u.start as int);
                }
                push_prose_parts(plain.substring_char(last, u.start), &mut parts);
                let link = plain.substring_char(u.start, u.end).to_owned();
                push_part(&mut parts, Part::Keep(link));
                last = u.end;
            },
            None => {
                push_prose_parts(plain.substring_char(last, v.len()), &mut parts);
                return parts;
            },
        }
    }
}

/// The requests for some parts: what is sent of them, in order.
pub open spec fn requests_of(parts: Seq<PartView>) -> Seq<Seq<char>>
    decreases parts.len(),
{
    if parts.len() == 0 {
        Seq::<Seq<char>>::empty()
    } else {
        match parts.last() {
            PartView::Keep(_) => requests_of(parts.drop_last()),
            PartView::Send(t) => requests_of(parts.drop_last()).push(t),
        }
    }
}

/// The requests for some parts: what is sent of them, in order.
pub fn requests(parts: &[Part]) -> (out: Vec<String>)
    ensures
        text::texts(out@) == requests_of(part_views(parts@)),
{
    let mut out: Vec<String> = Vec::new();
    let ghost all = part_views(parts@);
    let mut i: usize = 0;
    assert(text::texts(out@) =~= requests_of(all.take(0)));
    while i < parts.len()
        invariant
            i <= parts.len(),
            all == part_views(parts@),
            text::texts(out@) == requests_of(all.take(i as int)),
        decreases parts.len() - i,
    {
        let ghost before = text::texts(out@);
        assert(all.take(i + 1).drop_last() =~= all.take(i as int));
        assert(all.take(i + 1).last() == parts@[i as int]@);
        if let Part::Send(t) = &parts[i] {
            let one = t.clone();
            out.push(one);
            assert(text::texts(out@) =~= before.push(one@));
        }
        i += 1;
    }
    assert(all.take(i as int) =~= all);
    out
}

// ---------------------------------------------------------------------------
// What comes back
// ---------------------------------------------------------------------------

/// The translated text, where `replies` answer the requests for `parts`: what was kept as it
/// stands, and for each part that was sent its reply.
pub open spec fn assembled(parts: Seq<PartView>, replies: Seq<Seq<char>>) -> Seq<char>
    decreases parts.len(),
{
    if parts.len() == 0 {
        Seq::<char>::empty()
    } else {
        match parts.last() {
            PartView::Keep(t) => assembled(parts.drop_last(), replies) + t,
            PartView::Send(_) => assembled(parts.drop_last(), replies.drop_last())
                + replies.last(),
        }
    }
}

proof fn lemma_requests_grow(parts: Seq<PartView>, k: int)
    requires
        0 <= k <= parts.len(),
    ensures
        requests_of(parts.take(k)).len() <= requests_of(parts).len(),
    decreases parts.len(),
{
    if k == parts.len() {
        assert(parts.take(k) =~= parts);
    } else {
        lemma_requests_grow(parts.drop_last(), k);
        assert(parts.drop_last().take(k) =~= parts.take(k));
    }
}

/// Puts the translated text together: what was kept as it stands, and for each part that was
/// sent its reply.
pub fn assemble(parts: &[Part], replies: &[String]) -> (out: String)
    requires
        replies@.len() == requests_of(part_views(parts@)).len(),
    ensures
        out@ == assembled(part_views(parts@), text::texts(replies@)),
{
    let mut out: Vec<char> = Vec::new();
    let ghost all = part_views(parts@);
    let ghost got = text::texts(replies@);
    let mut used: usize = 0;
    let mut i: usize = 0;
    while i < parts.len()
        invariant
            i <= parts.len(),
            all == part_views(parts@),
            got == text::texts(replies@),
            got.len() == requests_of(all).len(),
            used == requests_of(all.take(i as int)).len(),
            used <= replies.len(),
            out@ == assembled(all.take(i as int), got.take(used as int)),
        decreases parts.len() - i,
    {
        assert(all.take(i + 1).drop_last() =~= all.take(i as int));
        assert(all.take(i + 1).last() == parts@[i as int]@);
        proof {
            lemma_requests_grow(all, i + 1);
        }
        match &parts[i] {
            Part::Keep(t) => {
                text::push_text(&mut out, t.as_str());
            },
            Part::Send(_) => {
                assert(got.take(used + 1).drop_last() =~= got.take(used as int));
                assert(got.take(used + 1).last() == replies@[used as int]@);
                text::push_text(&mut out, replies[used].as_str());
                used = used + 1;
            },
        }
        i += 1;
    }
    assert(all.take(i as int) =~= all);
    assert(got.take(used as int) =~= got);
    text::from_chars(&out)
}

/// The translator can give these replies to these requests.
pub open spec fn answered<T: Translator>(
    t: &T,
    requests: Seq<Seq<char>>,
    src: Seq<char>,
    tgt: Seq<char>,
    replies: Seq<Seq<char>>,
) -> bool {
    &&& replies.len() == requests.len()
    &&& forall|i: int|
        0 <= i < requests.len() ==> may_answer(t, requests[i], src, tgt, Ok(#[trigger] replies[i]))
}

/// The translator can answer the first requests and fail on the next one with `error`.
pub open spec fn failed<T: Translator>(
    t: &T,
    requests: Seq<Seq<char>>,
    src: Seq<char>,
    tgt: Seq<char>,
    error: Seq<char>,
) -> bool {
    exists|replies: Seq<Seq<char>>|
        {
            &&& #[trigger] replies.len() < requests.len()
            &&& answered(t, requests.take(replies.len() as int), src, tgt, replies)
            &&& may_answer(t, requests[replies.len() as int], src, tgt, Err(error))
        }
}

/// What can come of translating some parts: the parts with replies that the translator can give
/// to what was sent of them, or the error of the first request that it failed on.
pub open spec fn translated<T: Translator>(
    t: &T,
    parts: Seq<PartView>,
    src: Seq<char>,
    tgt: Seq<char>,
    out: Result<Seq<char>, Seq<char>>,
) -> bool {
    match out {
        Ok(o) => exists|replies: Seq<Seq<char>>|
            {
                &&& #[trigger] answered(t, requests_of(parts), src, tgt, replies)
                &&& o == assembled(parts, replies)
            },
        Err(e) => failed(t, requests_of(parts), src, tgt, e),
    }
}

fn ask_all<T: Translator>(t: &T, requests: &[String], src: &str, tgt: &str) -> (replies: Result<
    Vec<String>,
    String,
>)
    ensures
        match replies {
            Ok(r) => answered(t, text::texts(requests@), src@, tgt@, text::texts(r@)),
            Err(e) => failed(t, text::texts(requests@), src@, tgt@, e@),
        },
{
    let mut replies: Vec<String> = Vec::new();
    let ghost all = text::texts(requests@);
    let mut i: usize = 0;
    while i < requests.len()
        invariant
            i <= requests.len(),
            all == text::texts(requests@),
            answered(t, all.take(i as int), src@, tgt@, text::texts(replies@)),
        decreases requests.len() - i,
    {
        let ghost before = text::texts(replies@);
        match t.translate(requests[i].as_str(), src, tgt) {
            Ok(reply) => {
                replies.push(reply);
                assert(text::texts(replies@) =~= before.push(reply@));
            },
            Err(e) => {
                assert(before.len() == i);
                assert(all.take(before.len() as int) == all.take(i as int));
                return Err(e);
            },
        }
        i += 1;
    }
    assert(all.take(i as int) =~= all);
    Ok(replies)
}

fn translate_parts<T: Translator>(t: &T, parts: &[Part], src: &str, tgt: &str) -> (out: Result<
    String,
    String,
>)
    ensures
        translated(t, part_views(parts@), src@, tgt@, reply_view(out)),
{
    let asked = requests(parts);
    match ask_all(t, &asked, src, tgt) {
        Ok(replies) => {
            let ghost got = text::texts(replies@);
            assert(answered(t, requests_of(part_views(parts@)), src@, tgt@, got));
            Ok(assemble(parts, &replies))
        },
        Err(e) => Err(e),
    }
}

/// Translates a text whole: in one request where it is short enough, and else in batches of
/// whole lines, whose replies are put together again with line ends between them. The first
/// request that fails decides the error.
pub fn translate_chunked<T: Translator>(t: &T, text: &str, src: &str, tgt: &str) -> (out: Result<
    String,
    String,
>)
    ensures
        translated(t, chunks_of(text@), src@, tgt@, reply_view(out)),
{
    let v = text::to_chars(text);
    let mut parts: Vec<Part> = Vec::new();
    push_chunks(&mut parts, &v);
    assert(part_views(parts@) =~= chunks_of(text@));
    translate_parts(t, &parts, src, tgt)
}

/// Translates a text without links, and keeps its codes as they stand.
pub fn translate_text_preserving_codes<T: Translator>(
    t: &T,
    text: &str,
    src: &str,
    tgt: &str,
) -> (out: Result<String, String>)
    ensures
        translated(t, prose_parts(text@), src@, tgt@, reply_view(out)),
{
    let mut parts: Vec<Part> = Vec::new();
    push_prose_parts(text, &mut parts);
    assert(part_views(parts@) =~= prose_parts(text@));
    translate_parts(t, &parts, src, tgt)
}

/// Translates a plain text body. Only prose is sent; links, codes and blank text stay as they
/// stand. The first request that fails decides the error.
pub fn translate_prose<T: Translator>(t: &T, plain: &str, src: &str, tgt: &str) -> (out: Result<
    String,
    String,
>)
    ensures
        translated(t, parts_of(plain@), src@, tgt@, reply_view(out)),
{
    let parts = plan(plain);
    translate_parts(t, &parts, src, tgt)
}

// ---------------------------------------------------------------------------
// What holds of every translation
// ---------------------------------------------------------------------------

/// The text of all parts, one behind the other.
pub open spec fn flat_parts(parts: Seq<PartView>) -> Seq<char>
    decreases parts.len(),
{
    if parts.len() == 0 {
        Seq::<char>::empty()
    } else {
        flat_parts(parts.drop_last()) + parts.last().chars()
    }
}

proof fn lemma_flat_parts_concat(a: Seq<PartView>, b: Seq<PartView>)
    ensures
        flat_parts(a + b) == flat_parts(a) + flat_parts(b),
    decreases b.len(),
{
    if b.len() == 0 {
        assert(a + b =~= a);
        assert(flat_parts(a) + flat_parts(b) =~= flat_parts(a));
    } else {
        lemma_flat_parts_concat(a, b.drop_last());
        assert((a + b).drop_last() =~= a + b.drop_last());
        assert(flat_parts(a + b) =~= flat_parts(a) + flat_parts(b));
    }
}

proof fn lemma_flat_one(p: PartView)
    ensures
        flat_parts(seq![p]) == p.chars(),
{
    assert(seq![p].drop_last() =~= Seq::<PartView>::empty());
    assert(flat_parts(Seq::<PartView>::empty()) =~= Seq::<char>::empty());
    assert(flat_parts(seq![p]) =~= p.chars());
}

proof fn lemma_flat_woven(batches: Seq<Seq<char>>)
    ensures
        flat_parts(woven(batches)) == text::joined(batches, "\n"@),
    decreases batches.len(),
{
    if batches.len() == 1 {
        lemma_flat_one(batch_part(batches[0]));
    } else if batches.len() > 1 {
        let head = woven(batches.drop_last());
        lemma_flat_woven(batches.drop_last());
        let sep = head.push(PartView::Keep("\n"@));
        let all = woven(batches);
        assert(all.drop_last() =~= sep);
        assert(sep.drop_last() =~= head);
        assert(flat_parts(sep) == flat_parts(head) + "\n"@);
    }
}

proof fn lemma_packed_rejoins(lines: Seq<Seq<char>>)
    requires
        lines.len() > 0,
    ensures
        packed(lines).1 is Some,
        text::joined(packed(lines).0.push(packed(lines).1->0), seq!['\n']) == text::joined(
            lines,
            seq!['\n'],
        ),
    decreases lines.len(),
{
    let sep = seq!['\n'];
    let head = lines.drop_last();
    let line = lines.last();
    let full = packed(lines).0;
    if lines.len() == 1 {
        assert(head =~= Seq::<Seq<char>>::empty());
        assert(packed(head) == (Seq::<Seq<char>>::empty(), None::<Seq<char>>));
        assert(full.push(line) =~= lines);
    } else {
        lemma_packed_rejoins(head);
        let full0 = packed(head).0;
        let cur0 = packed(head).1->0;
        let cur = packed(lines).1->0;
        assert(full.push(cur).drop_last() =~= full);
        assert(full0.push(cur0).drop_last() =~= full0);
        if cur0.len() + 1 + line.len() > MAX_TRANSLATE_CHARS {
            assert(full == full0.push(cur0));
            assert(text::joined(full.push(cur), sep) == text::joined(full, sep) + sep + cur);
        } else {
            assert(cur == cur0.push('\n') + line);
            if full0.len() == 0 {
                assert(text::joined(full.push(cur), sep) =~= cur0 + sep + line);
                assert(text::joined(full0.push(cur0), sep) =~= cur0);
            } else {
                assert(text::joined(full.push(cur), sep) =~= text::joined(full0, sep) + sep + cur);
                assert(text::joined(full.push(cur), sep) =~= text::joined(full0.push(cur0), sep)
                    + sep + line);
            }
        }
    }
}

/// The parts of a text that is to be sent, put one behind the other, are the text: cutting it
/// into batches loses nothing.
pub proof fn lemma_chunks_lossless(t: Seq<char>)
    ensures
        flat_parts(chunks_of(t)) == t,
{
    if t.len() <= MAX_TRANSLATE_CHARS {
        lemma_flat_one(PartView::Send(t));
    } else {
        reveal_strlit("\n");
        assert("\n"@ =~= seq!['\n']);
        let lines = text::split_on(t, '\n');
        text::lemma_split_pieces(t, '\n');
        text::lemma_join_undoes_split(t, '\n');
        lemma_packed_rejoins(lines);
        lemma_flat_woven(batches_of(t));
    }
}

proof fn lemma_flat_pieces(ps: Seq<segment::Piece>)
    ensures
        flat_parts(pieces_parts(ps)) == segment::flat(ps),
    decreases ps.len(),
{
    if ps.len() > 0 {
        let head = ps.drop_last();
        let p = ps.last();
        lemma_flat_pieces(head);
        lemma_flat_parts_concat(pieces_parts(head), piece_parts(p));
        match p {
            segment::Piece::Text(t) => {
                lemma_chunks_lossless(t);
                lemma_flat_one(PartView::Keep(t));
            },
            segment::Piece::Url(u) => {
                lemma_flat_one(PartView::Keep(u));
            },
            segment::Piece::Code(c) => {
                lemma_flat_one(PartView::Keep(c));
            },
        }
    }
}

proof fn lemma_parts_from_lossless(s: Seq<char>, from: int)
    requires
        s.len() <= usize::MAX,
        0 <= from <= s.len(),
    ensures
        flat_parts(parts_from(s, from)) == s.subrange(from, s.len() as int),
    decreases s.len() - from,
{
    segment::lemma_first_url(s, from);
    match segment::first_url(s, from) {
        None => {
            let t = s.subrange(from, s.len() as int);
            segment::lemma_prose_lossless(t);
            lemma_flat_pieces(segment::prose(t));
        },
        Some(u) => {
            segment::lemma_url_at(s, u.start as int);
            let t = s.subrange(from, u.start as int);
            let link = PartView::Keep(s.subrange(u.start as int, u.end as int));
            segment::lemma_prose_lossless(t);
            lemma_flat_pieces(segment::prose(t));
            lemma_parts_from_lossless(s, u.end as int);
            lemma_flat_parts_concat(prose_parts(t).push(link), parts_from(s, u.end as int));
            assert(prose_parts(t).push(link).drop_last() =~= prose_parts(t));
            assert(flat_parts(prose_parts(t).push(link)) == t + link.chars());
            assert(t + link.chars() + s.subrange(u.end as int, s.len() as int) =~= s.subrange(
                from,
                s.len() as int,
            ));
        },
    }
}

/// The parts of a body, put one behind the other, are the body.
pub proof fn lemma_parts_lossless(s: Seq<char>)
    requires
        s.len() <= usize::MAX,
    ensures
        flat_parts(parts_of(s)) == s,
{
    lemma_parts_from_lossless(s, 0);
    assert(s.subrange(0, s.len() as int) =~= s);
}

proof fn lemma_echo(parts: Seq<PartView>)
    ensures
        assembled(parts, requests_of(parts)) == flat_parts(parts),
    decreases parts.len(),
{
    if parts.len() > 0 {
        let head = parts.drop_last();
        lemma_echo(head);
        if parts.last() is Send {
            assert(requests_of(parts).drop_last() =~= requests_of(head));
        }
    }
}

/// A translator that gives back what it is sent changes nothing, neither in a text that is
/// translated whole nor in a body.
pub proof fn lemma_echo_changes_nothing(s: Seq<char>)
    requires
        s.len() <= usize::MAX,
    ensures
        assembled(chunks_of(s), requests_of(chunks_of(s))) == s,
        assembled(parts_of(s), requests_of(parts_of(s))) == s,
{
    lemma_echo(chunks_of(s));
    lemma_chunks_lossless(s);
    lemma_echo(parts_of(s));
    lemma_parts_lossless(s);
}

/// What is kept stands in the translated text, whatever the translator replies.
pub proof fn lemma_kept_parts_survive(parts: Seq<PartView>, replies: Seq<Seq<char>>, k: int)
    requires
        0 <= k < parts.len(),
        parts[k] is Keep,
    ensures
        text::holds(assembled(parts, replies), parts[k].chars()),
    decreases parts.len(),
{
    let head = parts.drop_last();
    let t = parts[k].chars();
    let all = assembled(parts, replies);
    let before = if parts.last() is Keep {
        assembled(head, replies)
    } else {
        assembled(head, replies.drop_last())
    };
    if k < head.len() {
        if parts.last() is Keep {
            lemma_kept_parts_survive(head, replies, k);
        } else {
            lemma_kept_parts_survive(head, replies.drop_last(), k);
        }
        let i = choose|i: int| text::starts_at(before, i, t);
        assert(all.subrange(i, i + t.len()) =~= before.subrange(i, i + t.len()));
        assert(text::starts_at(all, i, t));
    } else {
        let i = before.len() as int;
        assert(all.subrange(i, i + t.len()) =~= t);
        assert(text::starts_at(all, i, t));
    }
}

/// `x` stands in `t` at `a` as a run of whole lines.
spec fn lines_at(t: Seq<char>, x: Seq<char>, a: int) -> bool {
    &&& text::starts_at(t, a, x)
    &&& a == 0 || t[a - 1] == '\n'
    &&& a + x.len() == t.len() || t[a + x.len()] == '\n'
}

/// `x` stands somewhere in `t` as a run of whole lines.
spec fn run_of_lines(t: Seq<char>, x: Seq<char>) -> bool {
    exists|a: int| lines_at(t, x, a)
}

proof fn lemma_lines_at_grow(t: Seq<char>, line: Seq<char>, x: Seq<char>, a: int)
    requires
        lines_at(t, x, a),
    ensures
        lines_at(t + seq!['\n'] + line, x, a),
{
    let all = t + seq!['\n'] + line;
    assert(all.subrange(a, a + x.len()) =~= t.subrange(a, a + x.len()));
}

/// A batch of a text: short enough, or one line.
pub open spec fn fits(batch: Seq<char>) -> bool {
    batch.len() <= MAX_TRANSLATE_CHARS || !batch.contains('\n')
}

proof fn lemma_packed_lines(lines: Seq<Seq<char>>)
    requires
        lines.len() > 0,
        forall|i: int| 0 <= i < lines.len() ==> !(#[trigger] lines[i]).contains('\n'),
    ensures
        ({
            let t = text::joined(lines, seq!['\n']);
            let full = packed(lines).0;
            let cur = packed(lines).1->0;
            &&& packed(lines).1 is Some
            &&& lines_at(t, cur, t.len() - cur.len())
            &&& fits(cur)
            &&& forall|i: int|
                0 <= i < full.len() ==> run_of_lines(t, #[trigger] full[i]) && fits(full[i])
        }),
    decreases lines.len(),
{
    let t = text::joined(lines, seq!['\n']);
    let full = packed(lines).0;
    let head = lines.drop_last();
    let line = lines[lines.len() - 1];
    assert(!line.contains('\n'));
    if lines.len() == 1 {
        assert(head =~= Seq::<Seq<char>>::empty());
        assert(packed(head) == (Seq::<Seq<char>>::empty(), None::<Seq<char>>));
        assert(t.subrange(0, t.len() as int) =~= t);
    } else {
        assert forall|i: int| 0 <= i < head.len() implies !(#[trigger] head[i]).contains('\n') by {
            assert(head[i] == lines[i]);
        }
        lemma_packed_lines(head);
        let t0 = text::joined(head, seq!['\n']);
        let full0 = packed(head).0;
        let cur0 = packed(head).1->0;
        let cur = packed(lines).1->0;
        let a0 = t0.len() - cur0.len();
        assert(t == t0 + seq!['\n'] + line);
        assert forall|i: int| 0 <= i < full.len() implies run_of_lines(t, #[trigger] full[i])
            && fits(full[i]) by {
            if i < full0.len() {
                assert(run_of_lines(t0, full0[i]));
                let a = choose|a: int| lines_at(t0, full0[i], a);
                lemma_lines_at_grow(t0, line, full0[i], a);
            } else {
                lemma_lines_at_grow(t0, line, cur0, a0);
            }
        }
        let a = t.len() - cur.len();
        if cur0.len() + 1 + line.len() > MAX_TRANSLATE_CHARS {
            assert(t.subrange(a, t.len() as int) =~= line);
            assert(t[a - 1] == '\n');
        } else {
            assert(cur == cur0.push('\n') + line);
            assert(a == a0);
            assert(t0.subrange(a0, t0.len() as int) == cur0);
            assert(t.subrange(a, t.len() as int) =~= cur0.push('\n') + line) by {
                assert forall|k: int| 0 <= k < cur0.len() implies t[a0 + k] == cur0[k] by {
                    assert(t0.subrange(a0, t0.len() as int)[k] == t0[a0 + k]);
                }
            }
            if a > 0 {
                assert(t[a - 1] == t0[a - 1]);
            }
        }
    }
}

/// The first line of a text.
pub open spec fn first_line(t: Seq<char>) -> Seq<char> {
    text::split_on(t, '\n')[0]
}

proof fn lemma_first_line_stays(s: Seq<char>, line: Seq<char>)
    requires
        !line.contains('\n'),
    ensures
        first_line(s.push('\n') + line) == first_line(s),
{
    let parts = text::split_on(s, '\n').push(line);
    text::lemma_split_pieces(s, '\n');
    text::lemma_join_undoes_split(s, '\n');
    assert(parts.drop_last() =~= text::split_on(s, '\n'));
    assert(text::joined(parts, seq!['\n']) =~= s.push('\n') + line);
    assert forall|i: int| 0 <= i < parts.len() implies !(#[trigger] parts[i]).contains('\n') by {
        if i < parts.len() - 1 {
            assert(parts[i] == text::split_on(s, '\n')[i]);
        }
    }
    text::lemma_split_undoes_join(parts, '\n');
}

proof fn lemma_line_alone(line: Seq<char>)
    requires
        !line.contains('\n'),
    ensures
        first_line(line) == line,
{
    text::lemma_split_undoes_join(seq![line], '\n');
}

/// The next line would not have fitted behind `b`.
spec fn full_before(b: Seq<char>, next: Seq<char>) -> bool {
    b.len() + 1 + first_line(next).len() > MAX_TRANSLATE_CHARS
}

proof fn lemma_packed_greedy(lines: Seq<Seq<char>>)
    requires
        lines.len() > 0,
        forall|i: int| 0 <= i < lines.len() ==> !(#[trigger] lines[i]).contains('\n'),
    ensures
        ({
            let full = packed(lines).0;
            let cur = packed(lines).1->0;
            &&& packed(lines).1 is Some
            &&& forall|i: int|
                0 <= i < full.len() - 1 ==> full_before(#[trigger] full[i], full[i + 1])
            &&& full.len() > 0 ==> full_before(full.last(), cur)
        }),
    decreases lines.len(),
{
    let head = lines.drop_last();
    let line = lines[lines.len() - 1];
    assert(!line.contains('\n'));
    if lines.len() == 1 {
        assert(head =~= Seq::<Seq<char>>::empty());
        assert(packed(head) == (Seq::<Seq<char>>::empty(), None::<Seq<char>>));
    } else {
        assert forall|i: int| 0 <= i < head.len() implies !(#[trigger] head[i]).contains('\n') by {
            assert(head[i] == lines[i]);
        }
        lemma_packed_greedy(head);
        let full0 = packed(head).0;
        let cur0 = packed(head).1->0;
        let full = packed(lines).0;
        lemma_line_alone(line);
        lemma_first_line_stays(cur0, line);
        assert forall|i: int| 0 <= i < full.len() - 1 implies full_before(
            #[trigger] full[i],
            full[i + 1],
        ) by {
            if i < full0.len() - 1 {
                assert(full_before(full0[i], full0[i + 1]));
            }
        }
    }
}

/// Batches are as long as they can be: behind each one the first line of the next would not
/// have fitted.
pub proof fn lemma_batches_are_greedy(t: Seq<char>, i: int)
    requires
        0 <= i < batches_of(t).len() - 1,
    ensures
        batches_of(t)[i].len() + 1 + first_line(batches_of(t)[i + 1]).len() > MAX_TRANSLATE_CHARS,
{
    let lines = text::split_on(t, '\n');
    text::lemma_split_pieces(t, '\n');
    lemma_packed_greedy(lines);
    let full = packed(lines).0;
    if i < full.len() - 1 {
        assert(full_before(full[i], full[i + 1]));
    }
}

/// Prose that was cut at line ends holds no link and no code that the prose does not hold.
proof fn lemma_lines_hold_no_more(t: Seq<char>, x: Seq<char>, a: int)
    requires
        t.len() <= usize::MAX,
        segment::linkless(t),
        segment::codeless(t),
        lines_at(t, x, a),
    ensures
        segment::linkless(x),
        segment::codeless(x),
{
    let b = a + x.len();
    assert(x == t.subrange(a, b));
    assert forall|k: int| 0 <= k < x.len() implies segment::url_at(x, k) is None by {
        if segment::url_at(x, k) is Some {
            segment::lemma_url_in_part(t, a, b, k);
        }
    }
    assert forall|i: int, j: int| #[trigger] segment::digit_run(x, i, j) implies
        !segment::code_length(j - i) by {
        assert forall|k: int| a + i <= k < a + j implies segment::digit_char(#[trigger] t[k]) by {
            assert(x[k - a] == t[k]);
        }
        if i > 0 {
            assert(x[i - 1] == t[a + i - 1]);
        }
        if j < x.len() {
            assert(x[j] == t[a + j]);
        }
        assert(segment::digit_run(t, a + i, a + j));
    }
}

/// What can be sent: it is not empty, holds neither a link nor a code, and is not longer than a
/// translator takes, unless it is a single line.
pub open spec fn sendable(t: Seq<char>) -> bool {
    t.len() > 0 && segment::linkless(t) && segment::codeless(t) && fits(t)
}

/// All that is sent of some parts can be sent, and where nothing is cut into batches, nothing
/// blank is sent.
spec fn all_sendable(parts: Seq<PartView>, uncut: bool) -> bool {
    forall|k: int|
        0 <= k < parts.len() && (#[trigger] parts[k]) is Send ==> sendable(parts[k].chars()) && (
        uncut ==> !text::blank(parts[k].chars()))
}

proof fn lemma_woven_sendable(batches: Seq<Seq<char>>)
    requires
        forall|i: int|
            0 <= i < batches.len() ==> segment::linkless(#[trigger] batches[i])
                && segment::codeless(batches[i]) && fits(batches[i]),
    ensures
        all_sendable(woven(batches), false),
    decreases batches.len(),
{
    if batches.len() == 1 {
        assert(segment::linkless(batches[0]));
    } else if batches.len() > 1 {
        let head = batches.drop_last();
        assert forall|i: int| 0 <= i < head.len() implies segment::linkless(#[trigger] head[i])
            && segment::codeless(head[i]) && fits(head[i]) by {
            assert(segment::linkless(batches[i]));
        }
        lemma_woven_sendable(head);
        assert(segment::linkless(batches[batches.len() - 1]));
        let all = woven(batches);
        assert forall|k: int| 0 <= k < all.len() && (#[trigger] all[k]) is Send implies sendable(
            all[k].chars(),
        ) by {
            if k < woven(head).len() {
                assert(all[k] == woven(head)[k]);
            }
        }
    }
}

proof fn lemma_chunks_sendable(t: Seq<char>, uncut: bool)
    requires
        t.len() <= usize::MAX,
        uncut ==> t.len() <= MAX_TRANSLATE_CHARS,
        !text::blank(t),
        segment::linkless(t),
        segment::codeless(t),
    ensures
        all_sendable(chunks_of(t), uncut),
{
    if t.len() > MAX_TRANSLATE_CHARS {
        let lines = text::split_on(t, '\n');
        let full = packed(lines).0;
        let cur = packed(lines).1->0;
        text::lemma_split_pieces(t, '\n');
        text::lemma_join_undoes_split(t, '\n');
        lemma_packed_lines(lines);
        let all = batches_of(t);
        assert forall|i: int| 0 <= i < all.len() implies segment::linkless(#[trigger] all[i])
            && segment::codeless(all[i]) && fits(all[i]) by {
            if i < full.len() {
                assert(run_of_lines(t, full[i]));
                let a = choose|a: int| lines_at(t, full[i], a);
                lemma_lines_hold_no_more(t, full[i], a);
            } else {
                lemma_lines_hold_no_more(t, cur, t.len() - cur.len());
            }
        }
        lemma_woven_sendable(all);
    }
}

proof fn lemma_pieces_sendable(ps: Seq<segment::Piece>, uncut: bool)
    requires
        forall|k: int| 0 <= k < ps.len() ==> segment::settled(#[trigger] ps[k]),
        uncut ==> segment::flat(ps).len() <= MAX_TRANSLATE_CHARS,
    ensures
        all_sendable(pieces_parts(ps), uncut),
    decreases ps.len(),
{
    if ps.len() > 0 {
        let head = ps.drop_last();
        assert forall|k: int| 0 <= k < head.len() implies segment::settled(#[trigger] head[k]) by {
            assert(segment::settled(ps[k]));
        }
        lemma_pieces_sendable(head, uncut);
        let p = ps[ps.len() - 1];
        assert(segment::settled(p));
        if p is Text && !text::blank(p.chars()) {
            lemma_chunks_sendable(p.chars(), uncut);
        }
        let before = pieces_parts(head);
        let all = pieces_parts(ps);
        assert forall|k: int| 0 <= k < all.len() && (#[trigger] all[k]) is Send implies sendable(
            all[k].chars(),
        ) && (uncut ==> !text::blank(all[k].chars())) by {
            if k < before.len() {
                assert(all[k] == before[k]);
            } else {
                assert(all[k] == piece_parts(p)[k - before.len()]);
            }
        }
    }
}

proof fn lemma_parts_from_sendable(s: Seq<char>, from: int, uncut: bool)
    requires
        s.len() <= usize::MAX,
        uncut ==> s.len() <= MAX_TRANSLATE_CHARS,
        0 <= from <= s.len(),
    ensures
        all_sendable(parts_from(s, from), uncut),
    decreases s.len() - from,
{
    segment::lemma_first_url(s, from);
    match segment::first_url(s, from) {
        None => {
            let t = s.subrange(from, s.len() as int);
            segment::lemma_prose_settled(s, from, s.len() as int);
            segment::lemma_prose_lossless(t);
            lemma_pieces_sendable(segment::prose(t), uncut);
        },
        Some(u) => {
            segment::lemma_url_at(s, u.start as int);
            segment::lemma_prose_settled(s, from, u.start as int);
            let t = s.subrange(from, u.start as int);
            segment::lemma_prose_lossless(t);
            lemma_pieces_sendable(segment::prose(t), uncut);
            lemma_parts_from_sendable(s, u.end as int, uncut);
            let before = prose_parts(t);
            let rest = parts_from(s, u.end as int);
            let all = parts_from(s, from);
            assert forall|k: int| 0 <= k < all.len() && (#[trigger] all[k]) is Send implies sendable(
                all[k].chars(),
            ) && (uncut ==> !text::blank(all[k].chars())) by {
                if k < before.len() {
                    assert(all[k] == before[k]);
                } else if k > before.len() {
                    assert(all[k] == rest[k - before.len() - 1]);
                }
            }
        },
    }
}

/// Of a body only prose is sent, in requests that a translator takes: no request is empty or
/// holds a link or a code, and one that is too long is a single line. Where the body is short
/// enough to be sent at once, nothing blank is sent.
pub proof fn lemma_only_prose_is_sent(s: Seq<char>, k: int)
    requires
        s.len() <= usize::MAX,
        0 <= k < parts_of(s).len(),
        parts_of(s)[k] is Send,
    ensures
        sendable(parts_of(s)[k].chars()),
        s.len() <= MAX_TRANSLATE_CHARS ==> !text::blank(parts_of(s)[k].chars()),
{
    lemma_parts_from_sendable(s, 0, false);
    if s.len() <= MAX_TRANSLATE_CHARS {
        lemma_parts_from_sendable(s, 0, true);
    }
}

proof fn lemma_request_is_sent(parts: Seq<PartView>, i: int) -> (k: int)
    requires
        0 <= i < requests_of(parts).len(),
    ensures
        0 <= k < parts.len(),
        parts[k] == PartView::Send(requests_of(parts)[i]),
    decreases parts.len(),
{
    let head = parts.drop_last();
    if i < requests_of(head).len() {
        lemma_request_is_sent(head, i)
    } else {
        parts.len() - 1
    }
}

/// No request is empty or holds a link or a code: what must not be changed never reaches the
/// translator.
pub proof fn lemma_every_request_is_prose(s: Seq<char>, i: int)
    requires
        s.len() <= usize::MAX,
        0 <= i < requests_of(parts_of(s)).len(),
    ensures
        sendable(requests_of(parts_of(s))[i]),
{
    let k = lemma_request_is_sent(parts_of(s), i);
    lemma_only_prose_is_sent(s, k);
}

// ---------------------------------------------------------------------------
// Languages
// ---------------------------------------------------------------------------

/// The language that `whatlang` finds in a text, as its ISO 639-3 code, and whether it calls
/// the finding reliable; nothing where it finds none.
pub uninterp spec fn detected(text: Seq<char>) -> Option<(Seq<char>, bool)>;

/// The view of a detected language.
pub open spec fn detection_view(d: Option<(String, bool)>) -> Option<(Seq<char>, bool)> {
    match d {
        Some((code, reliable)) => Some((code@, reliable)),
        None => None,
    }
}

/// Calls `whatlang::detect` and reads the language's ISO 639-3 code and whether the finding is
/// reliable. The result is a function of the text; what it is, is `whatlang`'s own matter.
#[verifier::external_body]
fn detect_language(text: &str) -> (found: Option<(String, bool)>)
    ensures
        detection_view(found) == detected(text@),
{
    whatlang::detect(text).map(|i| (i.lang().code().to_string(), i.is_reliable()))
}

/// The FLORES-200 code of a language that is known by its ISO 639-3 code; English for all
/// others.
pub open spec fn flores_code(iso: Seq<char>) -> Seq<char> {
    if iso == "cmn"@ {
        "zho_Hans"@
    } else if iso == "rus"@ {
        "rus_Cyrl"@
    } else if iso == "jpn"@ {
        "jpn_Jpan"@
    } else if iso == "kor"@ {
        "kor_Hang"@
    } else if iso == "fra"@ {
        "fra_Latn"@
    } else if iso == "deu"@ {
        "deu_Latn"@
    } else if iso == "spa"@ {
        "spa_Latn"@
    } else if iso == "por"@ {
        "por_Latn"@
    } else if iso == "ita"@ {
        "ita_Latn"@
    } else {
        "eng_Latn"@
    }
}

/// The language of a text in which `found` was detected: English unless the finding is
/// reliable.
pub open spec fn detected_code(found: Option<(Seq<char>, bool)>) -> Seq<char> {
    match found {
        Some((iso, reliable)) => if reliable {
            flores_code(iso)
        } else {
            "eng_Latn"@
        },
        None => "eng_Latn"@,
    }
}

/// The language of a text in which `found` was detected.
pub fn source_lang_of(found: Option<(String, bool)>) -> (code: String)
    ensures
        code@ == detected_code(detection_view(found)),
{
    let known = match &found {
        Some((iso, reliable)) => if !*reliable {
            "eng_Latn"
        } else if text::same_text(iso, "cmn") {
            "zho_Hans"
        } else if text::same_text(iso, "rus") {
            "rus_Cyrl"
        } else if text::same_text(iso, "jpn") {
            "jpn_Jpan"
        } else if text::same_text(iso, "kor") {
            "kor_Hang"
        } else if text::same_text(iso, "fra") {
            "fra_Latn"
        } else if text::same_text(iso, "deu") {
            "deu_Latn"
        } else if text::same_text(iso, "spa") {
            "spa_Latn"
        } else if text::same_text(iso, "por") {
            "por_Latn"
        } else if text::same_text(iso, "ita") {
            "ita_Latn"
        } else {
            "eng_Latn"
        },
        None => "eng_Latn",
    };
    known.to_owned()
}

/// The source language for a request: the requested one, or for `auto` what is detected.
pub open spec fn source_lang(requested: Seq<char>, text: Seq<char>) -> Seq<char> {
    if requested != "auto"@ {
        requested
    } else {
        detected_code(detected(text))
    }
}

/// The source language for a request: the requested one, or for `auto` the one that is detected
/// in the text, which is English where the detection is not reliable.
pub fn resolve_source_lang(requested: &str, text: &str) -> (code: String)
    ensures
        code@ == source_lang(requested@, text@),
{
    if !text::same_text(requested, "auto") {
        return requested.to_owned();
    }
    source_lang_of(detect_language(text))
}

/// The source text that an NLLB model takes: the text, the end of the sentence, and the token of
/// the source language.
pub fn nllb_source(text: &str, src: &str) -> (out: String)
    ensures
        out@ == text@ + " </s> "@ + src@,
{
    let mut out = text::to_chars(text);
    text::push_text(&mut out, " </s> ");
    text::push_text(&mut out, src);
    text::from_chars(&out)
}

// ---------------------------------------------------------------------------
// What is kept, what is sent, and what comes of it
// ---------------------------------------------------------------------------

/// Four to eight digits and nothing else.
pub open spec fn only_a_code(x: Seq<char>) -> bool {
    4 <= x.len() <= 8 && forall|i: int| 0 <= i < x.len() ==> '0' <= #[trigger] x[i] <= '9'
}

/// A link and nothing else: `http://` or `https://`, and no white space, angle bracket or quote
/// behind it.
pub open spec fn only_a_link(x: Seq<char>) -> bool {
    segment::link_written_at(x, 0) && forall|i: int|
        0 <= i < x.len() ==> !segment::link_stop(#[trigger] x[i])
}

/// A link with or without an angle bracket before it and one behind it.
pub open spec fn only_a_link_in_brackets(x: Seq<char>) -> bool {
    exists|a: int, b: int|
        {
            &&& 0 <= a <= 1
            &&& x.len() - 1 <= b <= x.len()
            &&& a <= b
            &&& only_a_link(#[trigger] x.subrange(a, b))
            &&& a == 1 ==> x[0] == '<'
            &&& b < x.len() ==> x[b] == '>'
        }
}

/// What may be kept of a body.
pub open spec fn may_be_kept(x: Seq<char>) -> bool {
    text::blank(x) || only_a_code(x) || only_a_link_in_brackets(x)
}

spec fn keeps_only_that(parts: Seq<PartView>) -> bool {
    forall|k: int|
        0 <= k < parts.len() && (#[trigger] parts[k]) is Keep ==> may_be_kept(parts[k].chars())
}

proof fn lemma_woven_keeps(batches: Seq<Seq<char>>)
    ensures
        keeps_only_that(woven(batches)),
    decreases batches.len(),
{
    reveal_strlit("\n");
    assert(text::blank("\n"@));
    if batches.len() > 1 {
        lemma_woven_keeps(batches.drop_last());
        let head = woven(batches.drop_last());
        let all = woven(batches);
        assert forall|k: int| 0 <= k < all.len() && (#[trigger] all[k]) is Keep implies may_be_kept(
            all[k].chars(),
        ) by {
            if k < head.len() {
                assert(all[k] == head[k]);
            } else if k == head.len() {
                assert(all[k] == PartView::Keep("\n"@));
            } else {
                assert(all[k] == batch_part(batches.last()));
            }
        }
    } else if batches.len() == 1 {
        assert(woven(batches)[0] == batch_part(batches[0]));
    }
}

proof fn lemma_pieces_keep(ps: Seq<segment::Piece>)
    requires
        forall|k: int|
            0 <= k < ps.len() ==> segment::settled(#[trigger] ps[k]) && !(ps[k] is Url),
    ensures
        keeps_only_that(pieces_parts(ps)),
    decreases ps.len(),
{
    if ps.len() > 0 {
        let head = ps.drop_last();
        let p = ps[ps.len() - 1];
        assert(segment::settled(p) && !(p is Url));
        assert forall|k: int| 0 <= k < head.len() implies segment::settled(#[trigger] head[k])
            && !(head[k] is Url) by {
            assert(ps[k] == head[k]);
        }
        lemma_pieces_keep(head);
        let last = piece_parts(p);
        match p {
            segment::Piece::Text(t) => {
                lemma_woven_keeps(batches_of(t));
            },
            segment::Piece::Code(c) => {
                assert forall|i: int| 0 <= i < c.len() implies '0' <= #[trigger] c[i] <= '9' by {
                    assert(segment::digit_char(c[i]));
                }
                assert(only_a_code(c));
            },
            segment::Piece::Url(_) => {},
        }
        assert(keeps_only_that(last));
        let rest = pieces_parts(head);
        let all = pieces_parts(ps);
        assert forall|k: int| 0 <= k < all.len() && (#[trigger] all[k]) is Keep implies may_be_kept(
            all[k].chars(),
        ) by {
            if k < rest.len() {
                assert(all[k] == rest[k]);
            } else {
                assert(all[k] == last[k - rest.len()]);
            }
        }
    }
}

proof fn lemma_link_in_brackets(s: Seq<char>, u: segment::UrlSpan)
    requires
        s.len() <= usize::MAX,
        segment::url_at(s, u.start as int) == Some(u),
    ensures
        only_a_link_in_brackets(s.subrange(u.start as int, u.end as int)),
{
    segment::lemma_url_at(s, u.start as int);
    segment::lemma_url_is_written(s, u.start as int);
    reveal_strlit("http://");
    reveal_strlit("https://");
    let x = s.subrange(u.start as int, u.end as int);
    let a = u.url_start - u.start;
    let b = u.url_end - u.start;
    let y = x.subrange(a, b);
    assert forall|i: int| 0 <= i < y.len() implies !segment::link_stop(#[trigger] y[i]) by {
        assert(y[i] == s[u.url_start + i]);
    }
    let at = u.url_start as int;
    let n = segment::scheme_len(s, at);
    assert(y.subrange(0, n) =~= s.subrange(at, at + n));
    assert(y[n] == s[at + n]);
    assert(segment::link_written_at(y, 0));
    assert(only_a_link(x.subrange(a, b)));
}

proof fn lemma_prose_keeps(s: Seq<char>, from: int, to: int)
    requires
        s.len() <= usize::MAX,
        0 <= from <= to <= s.len(),
        forall|k: int| from <= k < to ==> segment::url_at(s, k) is None,
    ensures
        keeps_only_that(prose_parts(s.subrange(from, to))),
{
    let ps = segment::prose(s.subrange(from, to));
    segment::lemma_prose_settled(s, from, to);
    segment::lemma_prose_has_no_links(s.subrange(from, to));
    assert forall|k: int| 0 <= k < ps.len() implies segment::settled(#[trigger] ps[k]) && !(
    ps[k] is Url) by {}
    lemma_pieces_keep(ps);
}

proof fn lemma_parts_from_keep(s: Seq<char>, from: int)
    requires
        s.len() <= usize::MAX,
        0 <= from <= s.len(),
    ensures
        keeps_only_that(parts_from(s, from)),
    decreases s.len() - from,
{
    segment::lemma_first_url(s, from);
    match segment::first_url(s, from) {
        None => {
            lemma_prose_keeps(s, from, s.len() as int);
        },
        Some(u) => {
            segment::lemma_url_at(s, u.start as int);
            lemma_prose_keeps(s, from, u.start as int);
            lemma_link_in_brackets(s, u);
            lemma_parts_from_keep(s, u.end as int);
            let head = prose_parts(s.subrange(from, u.start as int));
            let link = PartView::Keep(s.subrange(u.start as int, u.end as int));
            let rest = parts_from(s, u.end as int);
            let all = parts_from(s, from);
            assert(all =~= head.push(link) + rest);
            assert forall|k: int|
                0 <= k < all.len() && (#[trigger] all[k]) is Keep implies may_be_kept(
                all[k].chars(),
            ) by {
                if k < head.len() {
                    assert(all[k] == head[k]);
                } else if k == head.len() {
                    assert(all[k] == link);
                } else {
                    assert(all[k] == rest[k - head.len() - 1]);
                }
            }
        },
    }
}

/// Whatever is kept of a body is blank, a code, or a link with or without its angle brackets. So
/// all other text is sent.
pub proof fn lemma_all_prose_is_sent(s: Seq<char>, k: int)
    requires
        s.len() <= usize::MAX,
        0 <= k < parts_of(s).len(),
        parts_of(s)[k] is Keep,
    ensures
        may_be_kept(parts_of(s)[k].chars()),
{
    lemma_parts_from_keep(s, 0);
}

/// What is sent of a body is not empty, no link is written in it and no code, and it is not longer
/// than 1200 characters unless it is a single line.
pub proof fn lemma_requests_hold_no_link_and_no_code(s: Seq<char>, i: int)
    requires
        s.len() <= usize::MAX,
        0 <= i < requests_of(parts_of(s)).len(),
    ensures
        ({
            let x = requests_of(parts_of(s))[i];
            &&& x.len() > 0
            &&& x.len() <= 1200 || !x.contains('\n')
            &&& forall|a: int| !#[trigger] segment::link_written_at(x, a)
            &&& forall|a: int, b: int| !#[trigger] segment::code_written_at(x, a, b)
        }),
{
    lemma_every_request_is_prose(s, i);
    let x = requests_of(parts_of(s))[i];
    let k = lemma_request_is_sent(parts_of(s), i);
    lemma_parts_lossless(s);
    lemma_part_is_not_longer(parts_of(s), k);
    assert forall|a: int| !#[trigger] segment::link_written_at(x, a) by {
        if segment::link_written_at(x, a) {
            segment::lemma_link_is_found(x, a);
            assert(0 <= a < x.len());
        }
    }
    assert forall|a: int, b: int| !#[trigger] segment::code_written_at(x, a, b) by {
        if segment::code_written_at(x, a, b) {
            assert forall|j: int| a <= j < b implies segment::digit_char(#[trigger] x[j]) by {
                assert('0' <= x[j] <= '9');
            }
            assert(segment::digit_run(x, a, b));
        }
    }
}

proof fn lemma_part_is_not_longer(parts: Seq<PartView>, k: int)
    requires
        0 <= k < parts.len(),
    ensures
        parts[k].chars().len() <= flat_parts(parts).len(),
    decreases parts.len(),
{
    if k < parts.len() - 1 {
        lemma_part_is_not_longer(parts.drop_last(), k);
    }
}

/// The requests for a text of at most 1200 characters are the text. A longer one goes in batches:
/// with line ends between them they are the text; none but a single line is longer than 1200
/// characters; behind each one the first line of the next would not have fitted; and each but an
/// empty one is a request, in order.
pub proof fn lemma_long_text_goes_in_batches(t: Seq<char>, i: int)
    ensures
        t.len() <= 1200 ==> requests_of(chunks_of(t)) == seq![t],
        t.len() > 1200 ==> requests_of(chunks_of(t)) == batches_of(t).filter(
            |b: Seq<char>| b.len() > 0,
        ),
        text::joined(batches_of(t), seq!['\n']) == t,
        0 <= i < batches_of(t).len() ==> batches_of(t)[i].len() <= 1200 || !batches_of(
            t,
        )[i].contains('\n'),
        0 <= i < batches_of(t).len() - 1 ==> batches_of(t)[i].len() + 1 + text::split_on(
            batches_of(t)[i + 1],
            '\n',
        )[0].len() > 1200,
{
    let lines = text::split_on(t, '\n');
    text::lemma_split_pieces(t, '\n');
    text::lemma_join_undoes_split(t, '\n');
    lemma_packed_rejoins(lines);
    lemma_packed_lines(lines);
    lemma_requests_woven(batches_of(t));
    if 0 <= i < batches_of(t).len() - 1 {
        lemma_batches_are_greedy(t, i);
    }
    if t.len() <= 1200 {
        let one = seq![PartView::Send(t)];
        assert(one.drop_last() =~= Seq::<PartView>::empty());
        assert(requests_of(one.drop_last()) =~= Seq::<Seq<char>>::empty());
        assert(one.last() == PartView::Send(t));
        assert(requests_of(one) =~= seq![t]);
    }
}

proof fn lemma_requests_woven(batches: Seq<Seq<char>>)
    ensures
        requests_of(woven(batches)) == batches.filter(|b: Seq<char>| b.len() > 0),
    decreases batches.len(),
{
    reveal(Seq::filter);
    let full = |b: Seq<char>| b.len() > 0;
    if batches.len() == 1 {
        let one = seq![batch_part(batches[0])];
        assert(one.drop_last() =~= Seq::<PartView>::empty());
        assert(requests_of(one.drop_last()) =~= Seq::<Seq<char>>::empty());
        assert(batches.drop_last() =~= Seq::<Seq<char>>::empty());
        assert(batches.drop_last().filter(full) =~= Seq::<Seq<char>>::empty());
        assert(one.last() == batch_part(batches.last()));
        assert(woven(batches) == one);
        assert(batches.filter(full) =~= requests_of(one));
    } else if batches.len() > 1 {
        let head = batches.drop_last();
        lemma_requests_woven(head);
        let keep = woven(head).push(PartView::Keep("\n"@));
        let all = keep.push(batch_part(batches.last()));
        assert(woven(batches) == all);
        assert(all.drop_last() =~= keep);
        assert(keep.drop_last() =~= woven(head));
        assert(keep.last() == PartView::Keep("\n"@));
        assert(all.last() == batch_part(batches.last()));
        assert(requests_of(keep) == requests_of(woven(head)));
    } else {
        assert(batches =~= Seq::<Seq<char>>::empty());
        assert(requests_of(woven(batches)) =~= batches);
    }
}

/// The replies to the batches of a text, none of which is empty, are put together with line ends
/// between them.
pub proof fn lemma_replies_are_joined_with_line_ends(t: Seq<char>, replies: Seq<Seq<char>>)
    requires
        t.len() > 1200,
        forall|i: int| 0 <= i < batches_of(t).len() ==> (#[trigger] batches_of(t)[i]).len() > 0,
        replies.len() == batches_of(t).len(),
    ensures
        requests_of(chunks_of(t)) == batches_of(t),
        assembled(chunks_of(t), replies) == text::joined(replies, seq!['\n']),
{
    lemma_requests_woven(batches_of(t));
    lemma_woven_replies(batches_of(t), replies);
    lemma_filter_keeps_all(batches_of(t));
}

proof fn lemma_filter_keeps_all(batches: Seq<Seq<char>>)
    requires
        forall|i: int| 0 <= i < batches.len() ==> (#[trigger] batches[i]).len() > 0,
    ensures
        batches.filter(|b: Seq<char>| b.len() > 0) == batches,
    decreases batches.len(),
{
    reveal(Seq::filter);
    if batches.len() > 0 {
        let head = batches.drop_last();
        assert forall|i: int| 0 <= i < head.len() implies (#[trigger] head[i]).len() > 0 by {
            assert(batches[i] == head[i]);
        }
        lemma_filter_keeps_all(head);
        assert(batches[batches.len() - 1].len() > 0);
        assert(head.push(batches.last()) =~= batches);
    }
}

proof fn lemma_woven_replies(batches: Seq<Seq<char>>, replies: Seq<Seq<char>>)
    requires
        forall|i: int| 0 <= i < batches.len() ==> (#[trigger] batches[i]).len() > 0,
        replies.len() == batches.len(),
    ensures
        assembled(woven(batches), replies) == text::joined(replies, seq!['\n']),
    decreases batches.len(),
{
    let none = Seq::<PartView>::empty();
    if batches.len() == 1 {
        assert(batches[0].len() > 0);
        let one = seq![batch_part(batches[0])];
        assert(one.drop_last() =~= none);
        assert(assembled(one.drop_last(), replies.drop_last()) =~= Seq::<char>::empty());
        assert(one.last() == PartView::Send(batches[0]));
        assert(replies.last() == replies[0]);
        assert(assembled(one, replies) =~= replies[0]);
    } else if batches.len() > 1 {
        let head = batches.drop_last();
        assert forall|i: int| 0 <= i < head.len() implies (#[trigger] head[i]).len() > 0 by {
            assert(batches[i] == head[i]);
        }
        assert(batches[batches.len() - 1].len() > 0);
        lemma_woven_replies(head, replies.drop_last());
        let keep = woven(head).push(PartView::Keep("\n"@));
        let all = keep.push(batch_part(batches.last()));
        assert(all.drop_last() =~= keep);
        assert(keep.drop_last() =~= woven(head));
        reveal_strlit("\n");
        assert("\n"@ =~= seq!['\n']);
        assert(woven(batches) == all);
        assert(keep.last() == PartView::Keep("\n"@));
        assert(all.last() == PartView::Send(batches.last()));
        assert(assembled(keep, replies.drop_last()) == assembled(woven(head), replies.drop_last())
            + "\n"@);
    } else {
        assert(woven(batches) =~= none);
        assert(assembled(none, replies) =~= Seq::<char>::empty());
    }
}

/// Parts are put together one behind the other: what is kept as it stands, what was sent as its
/// reply.
pub proof fn lemma_assembly_goes_part_by_part(
    a: Seq<PartView>,
    x: Seq<Seq<char>>,
    b: Seq<PartView>,
    y: Seq<Seq<char>>,
    t: Seq<char>,
    reply: Seq<char>,
)
    requires
        x.len() == requests_of(a).len(),
        y.len() == requests_of(b).len(),
    ensures
        assembled(seq![PartView::Keep(t)], Seq::<Seq<char>>::empty()) == t,
        requests_of(seq![PartView::Keep(t)]).len() == 0,
        assembled(seq![PartView::Send(t)], seq![reply]) == reply,
        requests_of(seq![PartView::Send(t)]) == seq![t],
        requests_of(a + b) == requests_of(a) + requests_of(b),
        assembled(a + b, x + y) == assembled(a, x) + assembled(b, y),
    decreases b.len(),
{
    let keep = seq![PartView::Keep(t)];
    let send = seq![PartView::Send(t)];
    let none = Seq::<PartView>::empty();
    assert(keep.drop_last() =~= none && send.drop_last() =~= none);
    assert(keep.last() == PartView::Keep(t) && send.last() == PartView::Send(t));
    assert(requests_of(none) =~= Seq::<Seq<char>>::empty());
    assert(assembled(none, Seq::<Seq<char>>::empty()) =~= Seq::<char>::empty());
    assert(seq![reply].drop_last() =~= Seq::<Seq<char>>::empty());
    assert(requests_of(send) =~= seq![t]);
    assert(assembled(keep, Seq::<Seq<char>>::empty()) =~= t);
    assert(assembled(send, seq![reply]) =~= reply);
    if b.len() == 0 {
        assert(a + b =~= a);
        assert(x + y =~= x);
        assert(requests_of(a) + requests_of(b) =~= requests_of(a));
        assert(assembled(a, x) + assembled(b, y) =~= assembled(a, x));
    } else {
        let head = b.drop_last();
        let all = a + b;
        assert(all.drop_last() =~= a + head);
        assert(all.last() == b.last());
        match b.last() {
            PartView::Keep(k) => {
                lemma_assembly_goes_part_by_part(a, x, head, y, t, reply);
                assert(assembled(a, x) + assembled(head, y) + k =~= assembled(a, x) + (assembled(
                    head,
                    y,
                ) + k));
            },
            PartView::Send(k) => {
                let r = y.drop_last();
                lemma_assembly_goes_part_by_part(a, x, head, r, t, reply);
                assert((x + y).drop_last() =~= x + r);
                assert((x + y).last() == y.last());
                assert(requests_of(a) + requests_of(head).push(k) =~= (requests_of(a) + requests_of(
                    head,
                )).push(k));
                assert(assembled(a, x) + assembled(head, r) + y.last() =~= assembled(a, x) + (
                assembled(head, r) + y.last()));
            },
        }
    }
}

/// With a translator that always answers, and always the same to the same text, the translation
/// is the parts with its answers in place of what was sent. What fails is the translator: there is
/// no error but one that it gives to a request.
pub proof fn lemma_translation_is_the_answers<T: Translator>(
    t: &T,
    parts: Seq<PartView>,
    src: Seq<char>,
    tgt: Seq<char>,
    out: Result<Seq<char>, Seq<char>>,
    f: spec_fn(Seq<char>) -> Seq<char>,
)
    requires
        translated(t, parts, src, tgt, out),
    ensures
        (forall|x: Seq<char>, r: Result<Seq<char>, Seq<char>>| #[trigger]
            may_answer(t, x, src, tgt, r) ==> r == Ok::<Seq<char>, Seq<char>>(f(x))) ==> out == Ok::<
            Seq<char>,
            Seq<char>,
        >(assembled(parts, requests_of(parts).map_values(f))),
        out is Err ==> exists|i: int|
            0 <= i < requests_of(parts).len() && may_answer(
                t,
                #[trigger] requests_of(parts)[i],
                src,
                tgt,
                out,
            ),
        requests_of(parts).len() == 0 ==> out is Ok,
{
    let sent = requests_of(parts);
    match out {
        Ok(o) => {
            let replies = choose|replies: Seq<Seq<char>>|
                {
                    &&& #[trigger] answered(t, sent, src, tgt, replies)
                    &&& o == assembled(parts, replies)
                };
            if forall|x: Seq<char>, r: Result<Seq<char>, Seq<char>>| #[trigger]
                may_answer(t, x, src, tgt, r) ==> r == Ok::<Seq<char>, Seq<char>>(f(x)) {
                assert forall|i: int| 0 <= i < sent.len() implies #[trigger] replies[i] == f(
                    sent[i],
                ) by {
                    assert(may_answer(t, sent[i], src, tgt, Ok(replies[i])));
                }
                assert(replies =~= sent.map_values(f));
            }
        },
        Err(e) => {
            let replies = choose|replies: Seq<Seq<char>>|
                {
                    &&& #[trigger] replies.len() < sent.len()
                    &&& answered(t, sent.take(replies.len() as int), src, tgt, replies)
                    &&& may_answer(t, sent[replies.len() as int], src, tgt, Err(e))
                };
            assert(may_answer(t, sent[replies.len() as int], src, tgt, out));
        },
    }
}

/// The language that was asked for is the source language. For `auto` it is the one that was
/// detected, if that is sure and one of those that are known, and else English.
pub proof fn lemma_source_language(
    requested: Seq<char>,
    text: Seq<char>,
    iso: Seq<char>,
    i: int,
)
    ensures
        requested != "auto"@ ==> source_lang(requested, text) == requested,
        requested == "auto"@ ==> source_lang(requested, text) == detected_code(detected(text)),
        detected_code(None) == "eng_Latn"@,
        detected_code(Some((iso, false))) == "eng_Latn"@,
        ({
            let known = seq![
                ("cmn"@, "zho_Hans"@),
                ("rus"@, "rus_Cyrl"@),
                ("jpn"@, "jpn_Jpan"@),
                ("kor"@, "kor_Hang"@),
                ("fra"@, "fra_Latn"@),
                ("deu"@, "deu_Latn"@),
                ("spa"@, "spa_Latn"@),
                ("por"@, "por_Latn"@),
                ("ita"@, "ita_Latn"@),
            ];
            &&& 0 <= i < known.len() ==> detected_code(Some((known[i].0, true))) == known[i].1
            &&& (forall|k: int| 0 <= k < known.len() ==> (#[trigger] known[k]).0 != iso)
                ==> detected_code(Some((iso, true))) == "eng_Latn"@
        }),
{
    reveal_strlit("cmn");
    reveal_strlit("rus");
    reveal_strlit("jpn");
    reveal_strlit("kor");
    reveal_strlit("fra");
    reveal_strlit("deu");
    reveal_strlit("spa");
    reveal_strlit("por");
    reveal_strlit("ita");
    assert("cmn"@[0] == 'c' && "rus"@[0] == 'r' && "jpn"@[0] == 'j' && "kor"@[0] == 'k'
        && "fra"@[0] == 'f' && "deu"@[0] == 'd' && "spa"@[0] == 's' && "por"@[0] == 'p'
        && "ita"@[0] == 'i');
    let known = seq![
        ("cmn"@, "zho_Hans"@),
        ("rus"@, "rus_Cyrl"@),
        ("jpn"@, "jpn_Jpan"@),
        ("kor"@, "kor_Hang"@),
        ("fra"@, "fra_Latn"@),
        ("deu"@, "deu_Latn"@),
        ("spa"@, "spa_Latn"@),
        ("por"@, "por_Latn"@),
        ("ita"@, "ita_Latn"@),
    ];
    if forall|k: int| 0 <= k < known.len() ==> (#[trigger] known[k]).0 != iso {
        assert(known[0].0 != iso && known[1].0 != iso && known[2].0 != iso && known[3].0 != iso
            && known[4].0 != iso && known[5].0 != iso && known[6].0 != iso && known[7].0 != iso
            && known[8].0 != iso);
    }
}

} // verus!
