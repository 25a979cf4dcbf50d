//! Strings as sequences of characters: the splitting, joining, trimming and
//! searching that the rest of the library is written in.

use vstd::prelude::*;

verus! {

/// `String::push` appends one character and leaves the rest as it was.
pub assume_specification[ String::push ](s: &mut String, c: char)
    ensures
        final(s)@ == old(s)@.push(c),
;

/// The characters of `s`, in order.
pub fn to_chars(s: &str) -> (v: Vec<char>)
    ensures
        v@ == s@,
{
    let mut v: Vec<char> = Vec::new();
    for c in it: s.chars()
        invariant
            it.seq() == s@,
            v@ == s@.take(it.index() as int),
    {
        v.push(c);
    }
    v
}

/// The string made of the characters of `v`.
pub fn from_chars(v: &[char]) -> (s: String)
    ensures
        s@ == v@,
{
    let mut s = String::new();
    let mut i: usize = 0;
    while i < v.len()
        invariant
            i <= v.len(),
            s@ == v@.take(i as int),
        decreases v.len() - i,
    {
        s.push(v[i]);
        i += 1;
    }
    s
}

/// Appends `more` to `out`.
pub fn push_all(out: &mut Vec<char>, more: &[char])
    ensures
        final(out)@ == old(out)@ + more@,
{
    let mut i: usize = 0;
    while i < more.len()
        invariant
            i <= more.len(),
            out@ == old(out)@ + more@.take(i as int),
        decreases more.len() - i,
    {
        out.push(more[i]);
        i += 1;
    }
}

/// Appends the text of `more` to `out`.
pub fn push_text(out: &mut Vec<char>, more: &str)
    ensures
        final(out)@ == old(out)@ + more@,
{
    let chars = to_chars(more);
    push_all(out, &chars);
}

/// The text of an optional string.
pub open spec fn opt(o: Option<String>) -> Option<Seq<char>> {
    match o {
        Some(s) => Some(s@),
        None => None,
    }
}

/// The text of an optional string, or `default`.
pub open spec fn opt_or(o: Option<Seq<char>>, default: Seq<char>) -> Seq<char> {
    match o {
        Some(s) => s,
        None => default,
    }
}

/// Whether two texts are the same.
pub fn same_text(a: &str, b: &str) -> (same: bool)
    ensures
        same == (a@ == b@),
{
    a.to_owned() == b.to_owned()
}

/// The part of `v` between two positions, as a new vector.
pub fn slice_of(v: &[char], from: usize, to: usize) -> (part: Vec<char>)
    requires
        from <= to <= v@.len(),
    ensures
        part@ == v@.subrange(from as int, to as int),
{
    let mut part: Vec<char> = Vec::new();
    let mut i: usize = from;
    while i < to
        invariant
            from <= i <= to <= v@.len(),
            part@ == v@.subrange(from as int, i as int),
        decreases to - i,
    {
        part.push(v[i]);
        i += 1;
    }
    part
}

// ---------------------------------------------------------------------------
// White space
// ---------------------------------------------------------------------------

/// The characters with the Unicode property `White_Space`.
pub open spec fn white_space(c: char) -> bool {
    ||| '\u{9}' <= c <= '\u{d}'
    ||| c == '\u{20}'
    ||| c == '\u{85}'
    ||| c == '\u{a0}'
    ||| c == '\u{1680}'
    ||| '\u{2000}' <= c <= '\u{200a}'
    ||| c == '\u{2028}'
    ||| c == '\u{2029}'
    ||| c == '\u{202f}'
    ||| c == '\u{205f}'
    ||| c == '\u{3000}'
}

/// Whether `c` is white space.
pub fn is_white_space(c: char) -> (yes: bool)
    ensures
        yes == white_space(c),
{
    ('\u{9}' <= c && c <= '\u{d}') || c == '\u{20}' || c == '\u{85}' || c == '\u{a0}' || c
        == '\u{1680}' || ('\u{2000}' <= c && c <= '\u{200a}') || c == '\u{2028}' || c == '\u{2029}'
        || c == '\u{202f}' || c == '\u{205f}' || c == '\u{3000}'
}

/// Nothing but white space, or nothing at all.
pub open spec fn blank(s: Seq<char>) -> bool {
    forall|i: int| 0 <= i < s.len() ==> white_space(#[trigger] s[i])
}

/// Whether `v` holds nothing but white space.
pub fn is_blank(v: &[char]) -> (yes: bool)
    ensures
        yes == blank(v@),
{
    let mut i: usize = 0;
    while i < v.len()
        invariant
            i <= v.len(),
            forall|j: int| 0 <= j < i ==> white_space(#[trigger] v@[j]),
        decreases v.len() - i,
    {
        if !is_white_space(v[i]) {
            return false;
        }
        i += 1;
    }
    true
}

/// `s` without its leading white space.
pub open spec fn trimmed_start(s: Seq<char>) -> Seq<char>
    decreases s.len(),
{
    if s.len() > 0 && white_space(s.first()) {
        trimmed_start(s.drop_first())
    } else {
        s
    }
}

/// `s` without its trailing white space.
pub open spec fn trimmed_end(s: Seq<char>) -> Seq<char>
    decreases s.len(),
{
    if s.len() > 0 && white_space(s.last()) {
        trimmed_end(s.drop_last())
    } else {
        s
    }
}

/// `s` without leading and trailing white space.
pub open spec fn trimmed(s: Seq<char>) -> Seq<char> {
    trimmed_end(trimmed_start(s))
}

/// `s` without leading and trailing white space.
pub fn trim(s: &str) -> (t: String)
    ensures
        t@ == trimmed(s@),
{
    let v = to_chars(s);
    let mut from: usize = 0;
    assert(v@.skip(0) =~= v@);
    while from < v.len() && is_white_space(v[from])
        invariant
            from <= v.len(),
            trimmed_start(v@.skip(from as int)) == trimmed_start(v@),
        decreases v.len() - from,
    {
        assert(v@.skip(from as int).drop_first() =~= v@.skip(from as int + 1));
        from += 1;
    }
    let ghost rest = v@.skip(from as int);
    assert(trimmed_start(v@) == rest);
    let mut to: usize = v.len();
    assert(v@.subrange(from as int, to as int) =~= rest);
    while to > from && is_white_space(v[to - 1])
        invariant
            from <= to <= v.len(),
            trimmed_end(v@.subrange(from as int, to as int)) == trimmed_end(rest),
        decreases to,
    {
        assert(v@.subrange(from as int, to as int).drop_last() =~= v@.subrange(
            from as int,
            to as int - 1,
        ));
        to -= 1;
    }
    let part = slice_of(&v, from, to);
    from_chars(&part)
}

/// A text is blank exactly when trimming leaves nothing of it.
pub proof fn lemma_blank_trims_to_nothing(s: Seq<char>)
    ensures
        blank(s) <==> trimmed(s).len() == 0,
{
    lemma_trimmed_start(s);
    lemma_trimmed_end(trimmed_start(s));
    let k = s.len() - trimmed_start(s).len();
    if blank(s) {
        if trimmed_start(s).len() > 0 {
            assert(trimmed_start(s)[0] == s[k]);
        }
    } else {
        let i = choose|i: int| 0 <= i < s.len() && !white_space(#[trigger] s[i]);
        assert(i >= k);
        assert(trimmed_start(s)[i - k] == s[i]);
    }
}

/// Trimming twice is trimming once.
pub proof fn lemma_trim_twice(s: Seq<char>)
    ensures
        trimmed(trimmed(s)) == trimmed(s),
{
    let t = trimmed(s);
    lemma_trimmed_start(s);
    lemma_trimmed_end(trimmed_start(s));
    if t.len() > 0 {
        assert(t.first() == trimmed_start(s)[0]);
    }
}

proof fn lemma_trimmed_start(s: Seq<char>)
    ensures
        trimmed_start(s).len() <= s.len(),
        trimmed_start(s) == s.skip(s.len() - trimmed_start(s).len()),
        forall|i: int| 0 <= i < s.len() - trimmed_start(s).len() ==> white_space(#[trigger] s[i]),
        trimmed_start(s).len() > 0 ==> !white_space(trimmed_start(s)[0]),
    decreases s.len(),
{
    if s.len() > 0 && white_space(s.first()) {
        let t = s.drop_first();
        lemma_trimmed_start(t);
        let r = trimmed_start(s);
        assert(s.skip(s.len() - r.len()) =~= t.skip(t.len() - r.len()));
        assert forall|i: int| 0 <= i < s.len() - r.len() implies white_space(#[trigger] s[i]) by {
            if i > 0 {
                assert(t[i - 1] == s[i]);
            }
        }
    } else {
        assert(s.skip(0) =~= s);
    }
}

proof fn lemma_trimmed_end(s: Seq<char>)
    ensures
        trimmed_end(s).len() <= s.len(),
        trimmed_end(s) == s.take(trimmed_end(s).len() as int),
        forall|i: int| trimmed_end(s).len() <= i < s.len() ==> white_space(#[trigger] s[i]),
        trimmed_end(s).len() > 0 ==> !white_space(trimmed_end(s).last()),
    decreases s.len(),
{
    if s.len() > 0 && white_space(s.last()) {
        let t = s.drop_last();
        lemma_trimmed_end(t);
        let r = trimmed_end(s);
        assert(s.take(r.len() as int) =~= t.take(r.len() as int));
        assert forall|i: int| r.len() <= i < s.len() implies white_space(#[trigger] s[i]) by {
            if i < t.len() {
                assert(t[i] == s[i]);
            }
        }
    } else {
        assert(s.take(s.len() as int) =~= s);
    }
}

/// `s` without the characters of `tail` at its end.
pub open spec fn without_tail(s: Seq<char>, tail: Seq<char>) -> Seq<char>
    decreases s.len(),
{
    if s.len() > 0 && tail.contains(s.last()) {
        without_tail(s.drop_last(), tail)
    } else {
        s
    }
}

/// Whether `c` is one of `set`.
pub fn is_one_of(c: char, set: &[char]) -> (yes: bool)
    ensures
        yes == set@.contains(c),
{
    let mut i: usize = 0;
    while i < set.len()
        invariant
            i <= set.len(),
            forall|j: int| 0 <= j < i ==> set@[j] != c,
        decreases set.len() - i,
    {
        if set[i] == c {
            return true;
        }
        i += 1;
    }
    false
}

/// `v` without the characters of `tail` at its end.
pub fn drop_tail(v: &[char], tail: &[char]) -> (t: Vec<char>)
    ensures
        t@ == without_tail(v@, tail@),
{
    let mut to: usize = v.len();
    assert(v@.take(to as int) =~= v@);
    while to > 0 && is_one_of(v[to - 1], tail)
        invariant
            to <= v.len(),
            without_tail(v@.take(to as int), tail@) == without_tail(v@, tail@),
        decreases to,
    {
        assert(v@.take(to as int).drop_last() =~= v@.take(to as int - 1));
        to -= 1;
    }
    assert(v@.take(to as int) =~= v@.subrange(0, to as int));
    slice_of(v, 0, to)
}

// ---------------------------------------------------------------------------
// Searching and replacing
// ---------------------------------------------------------------------------

/// `p` stands in `s` at position `i`.
pub open spec fn starts_at(s: Seq<char>, i: int, p: Seq<char>) -> bool {
    0 <= i && i + p.len() <= s.len() && s.subrange(i, i + p.len()) == p
}

/// Whether `p` stands in `v` at position `i`.
pub fn is_at(v: &[char], i: usize, p: &[char]) -> (yes: bool)
    ensures
        yes == starts_at(v@, i as int, p@),
{
    if i > v.len() || p.len() > v.len() - i {
        return false;
    }
    let mut j: usize = 0;
    while j < p.len()
        invariant
            j <= p.len(),
            i + p.len() <= v.len(),
            forall|k: int| 0 <= k < j ==> v@[i + k] == p@[k],
        decreases p.len() - j,
    {
        if v[i + j] != p[j] {
            assert(v@.subrange(i as int, i + p@.len())[j as int] == v@[i + j]);
            return false;
        }
        j += 1;
    }
    assert(v@.subrange(i as int, i + p@.len()) =~= p@);
    true
}

/// `p` stands somewhere in `s`.
pub open spec fn holds(s: Seq<char>, p: Seq<char>) -> bool {
    exists|i: int| starts_at(s, i, p)
}

/// Whether `p` stands somewhere in `s`.
pub fn contains(s: &str, p: &str) -> (yes: bool)
    ensures
        yes == holds(s@, p@),
{
    let v = to_chars(s);
    let w = to_chars(p);
    let mut i: usize = 0;
    while i <= v.len()
        invariant
            v@ == s@,
            w@ == p@,
            i <= v.len() + 1,
            forall|j: int| 0 <= j < i ==> !starts_at(v@, j, w@),
        decreases v.len() + 1 - i,
    {
        if is_at(&v, i, &w) {
            return true;
        }
        if i == v.len() {
            return false;
        }
        i += 1;
    }
    false
}

/// `s` with every occurrence of `p`, found from the left without overlap, replaced by `with`.
pub open spec fn replaced(s: Seq<char>, p: Seq<char>, with: Seq<char>) -> Seq<char>
    decreases s.len(),
{
    if s.len() == 0 || p.len() == 0 {
        s
    } else if starts_at(s, 0, p) {
        with + replaced(s.skip(p.len() as int), p, with)
    } else {
        seq![s[0]] + replaced(s.skip(1), p, with)
    }
}

/// `v` with every occurrence of the non-empty `p` replaced by `with`.
pub fn replace(v: &[char], p: &[char], with: &[char]) -> (out: Vec<char>)
    requires
        p@.len() > 0,
    ensures
        out@ == replaced(v@, p@, with@),
{
    let mut out: Vec<char> = Vec::new();
    let mut i: usize = 0;
    assert(v@.skip(0) =~= v@);
    while i < v.len()
        invariant
            p@.len() > 0,
            i <= v.len(),
            out@ + replaced(v@.skip(i as int), p@, with@) == replaced(v@, p@, with@),
        decreases v.len() - i,
    {
        let ghost rest = v@.skip(i as int);
        let ghost before = out@;
        if is_at(v, i, p) {
            assert(rest.subrange(0, p@.len() as int) =~= v@.subrange(i as int, i + p@.len()));
            assert(rest.skip(p@.len() as int) =~= v@.skip(i + p@.len()));
            push_all(&mut out, with);
            assert(out@ + replaced(v@.skip(i + p@.len()), p@, with@) =~= before + (with@ + replaced(
                v@.skip(i + p@.len()),
                p@,
                with@,
            )));
            i += p.len();
        } else {
            assert(!starts_at(rest, 0, p@)) by {
                if starts_at(rest, 0, p@) {
                    assert(rest.subrange(0, p@.len() as int) =~= v@.subrange(
                        i as int,
                        i + p@.len(),
                    ));
                }
            }
            assert(rest.skip(1) =~= v@.skip(i + 1));
            out.push(v[i]);
            assert(out@ + replaced(v@.skip(i + 1), p@, with@) =~= before + (seq![rest[0]]
                + replaced(v@.skip(i + 1), p@, with@)));
            i += 1;
        }
    }
    assert(out@ + replaced(v@.skip(i as int), p@, with@) =~= out@);
    out
}

// ---------------------------------------------------------------------------
// Splitting and joining
// ---------------------------------------------------------------------------

/// The pieces of `s` between the separators `c`; a text without separators is one piece.
pub open spec fn split_on(s: Seq<char>, c: char) -> Seq<Seq<char>>
    decreases s.len(),
{
    if s.len() == 0 {
        seq![Seq::<char>::empty()]
    } else {
        let pieces = split_on(s.drop_last(), c);
        if s.last() == c {
            pieces.push(Seq::<char>::empty())
        } else {
            pieces.drop_last().push(pieces.last().push(s.last()))
        }
    }
}

/// The views of a vector of character vectors.
pub open spec fn views(parts: Seq<Vec<char>>) -> Seq<Seq<char>> {
    parts.map_values(|p: Vec<char>| p@)
}

/// A vector that is pushed is the last of the views.
pub proof fn lemma_views_push(parts: Seq<Vec<char>>, p: Vec<char>)
    ensures
        views(parts.push(p)) == views(parts).push(p@),
{
    assert(views(parts.push(p)) =~= views(parts).push(p@));
}

/// The views of a vector of strings.
pub open spec fn texts(parts: Seq<String>) -> Seq<Seq<char>> {
    parts.map_values(|p: String| p@)
}

/// The pieces of `v` between the separators `c`.
pub fn split(v: &[char], c: char) -> (pieces: Vec<Vec<char>>)
    ensures
        views(pieces@) == split_on(v@, c),
        pieces@.len() >= 1,
{
    let mut pieces: Vec<Vec<char>> = Vec::new();
    let mut cur: Vec<char> = Vec::new();
    let mut i: usize = 0;
    assert(views(pieces@).push(cur@) =~= split_on(v@.take(0), c));
    while i < v.len()
        invariant
            i <= v.len(),
            views(pieces@).push(cur@) == split_on(v@.take(i as int), c),
        decreases v.len() - i,
    {
        let ghost before = views(pieces@).push(cur@);
        assert(v@.take(i + 1).drop_last() =~= v@.take(i as int));
        assert(before.drop_last() =~= views(pieces@));
        let x = v[i];
        if x == c {
            pieces.push(cur);
            cur = Vec::new();
            assert(views(pieces@) =~= before);
        } else {
            cur.push(x);
        }
        i += 1;
    }
    assert(v@.take(i as int) =~= v@);
    let ghost all = views(pieces@).push(cur@);
    pieces.push(cur);
    assert(views(pieces@) =~= all);
    pieces
}

/// `parts` with `sep` between each two neighbours.
pub open spec fn joined(parts: Seq<Seq<char>>, sep: Seq<char>) -> Seq<char>
    decreases parts.len(),
{
    if parts.len() == 0 {
        Seq::<char>::empty()
    } else if parts.len() == 1 {
        parts[0]
    } else {
        joined(parts.drop_last(), sep) + sep + parts.last()
    }
}

/// `parts` with `sep` between each two neighbours.
pub fn join(parts: &[Vec<char>], sep: &[char]) -> (out: Vec<char>)
    ensures
        out@ == joined(views(parts@), sep@),
{
    let mut out: Vec<char> = Vec::new();
    let mut i: usize = 0;
    let ghost all = views(parts@);
    while i < parts.len()
        invariant
            i <= parts.len(),
            all == views(parts@),
            out@ == joined(all.take(i as int), sep@),
        decreases parts.len() - i,
    {
        assert(all.take(i + 1).drop_last() =~= all.take(i as int));
        if i > 0 {
            push_all(&mut out, sep);
        }
        push_all(&mut out, &parts[i]);
        assert(all.take(i + 1).last() == parts@[i as int]@);
        if i == 0 {
            assert(out@ =~= all.take(1)[0]);
        }
        i += 1;
    }
    assert(all.take(i as int) =~= all);
    out
}

/// The maximal runs of `s` that hold no white space.
pub open spec fn words(s: Seq<char>) -> Seq<Seq<char>>
    decreases s.len(),
{
    if s.len() == 0 {
        Seq::<Seq<char>>::empty()
    } else {
        let head = s.drop_last();
        let found = words(head);
        if white_space(s.last()) {
            found
        } else if head.len() > 0 && !white_space(head.last()) {
            found.drop_last().push(found.last().push(s.last()))
        } else {
            found.push(seq![s.last()])
        }
    }
}

/// The maximal runs of `v` that hold no white space.
pub fn split_words(v: &[char]) -> (found: Vec<Vec<char>>)
    ensures
        views(found@) == words(v@),
{
    let mut found: Vec<Vec<char>> = Vec::new();
    let mut cur: Vec<char> = Vec::new();
    let mut i: usize = 0;
    assert(views(found@) =~= words(v@.take(0)));
    while i < v.len()
        invariant
            i <= v.len(),
            cur@.len() == 0 <==> (i == 0 || white_space(v@[i - 1])),
            cur@.len() == 0 ==> views(found@) == words(v@.take(i as int)),
            cur@.len() > 0 ==> views(found@).push(cur@) == words(v@.take(i as int)),
        decreases v.len() - i,
    {
        let ghost head = v@.take(i as int);
        assert(v@.take(i + 1).drop_last() =~= head);
        let x = v[i];
        if is_white_space(x) {
            if cur.len() > 0 {
                let ghost all = views(found@).push(cur@);
                found.push(cur);
                cur = Vec::new();
                assert(views(found@) =~= all);
            }
        } else {
            assert(views(found@).push(cur@).drop_last() =~= views(found@));
            let ghost before = cur@;
            cur.push(x);
            proof {
                if i > 0 {
                    assert(head.last() == v@[i - 1]);
                }
                if before.len() > 0 {
                    assert(views(found@).push(before).last() == before);
                } else {
                    assert(seq![x] =~= cur@);
                }
            }
        }
        i += 1;
    }
    assert(v@.take(i as int) =~= v@);
    if cur.len() > 0 {
        let ghost all = views(found@).push(cur@);
        found.push(cur);
        assert(views(found@) =~= all);
    }
    found
}

proof fn lemma_split_run(s: Seq<char>, t: Seq<char>, c: char)
    requires
        !t.contains(c),
    ensures
        split_on(s, c).len() >= 1,
        split_on(s + t, c) == split_on(s, c).drop_last().push(split_on(s, c).last() + t),
    decreases t.len(),
{
    lemma_split_not_empty(s, c);
    let pieces = split_on(s, c);
    if t.len() == 0 {
        assert(s + t =~= s);
        assert(pieces.last() + t =~= pieces.last());
        assert(pieces.drop_last().push(pieces.last()) =~= pieces);
    } else {
        let head = t.drop_last();
        assert forall|x: char| head.contains(x) implies t.contains(x) by {
            let i = choose|i: int| 0 <= i < head.len() && head[i] == x;
            assert(t[i] == x);
        }
        lemma_split_run(s, head, c);
        assert((s + t).drop_last() =~= s + head);
        assert(t.contains(t.last())) by {
            assert(t[t.len() - 1] == t.last());
        }
        let before = pieces.drop_last().push(pieces.last() + head);
        assert(before.drop_last() =~= pieces.drop_last());
        assert((pieces.last() + head).push(t.last()) =~= pieces.last() + t);
    }
}

proof fn lemma_split_not_empty(s: Seq<char>, c: char)
    ensures
        split_on(s, c).len() >= 1,
    decreases s.len(),
{
    if s.len() > 0 {
        lemma_split_not_empty(s.drop_last(), c);
    }
}

/// Splitting undoes joining, as long as the separator stands in none of the parts.
pub proof fn lemma_split_undoes_join(parts: Seq<Seq<char>>, c: char)
    requires
        parts.len() >= 1,
        forall|i: int| 0 <= i < parts.len() ==> !(#[trigger] parts[i]).contains(c),
    ensures
        split_on(joined(parts, seq![c]), c) == parts,
    decreases parts.len(),
{
    let empty = Seq::<char>::empty();
    assert(!parts.last().contains(c));
    if parts.len() == 1 {
        lemma_split_run(empty, parts[0], c);
        assert(empty + parts[0] =~= parts[0]);
        assert(split_on(parts[0], c) =~= parts);
    } else {
        let head = parts.drop_last();
        lemma_split_undoes_join(head, c);
        let s = joined(head, seq![c]);
        assert((s + seq![c]).drop_last() =~= s);
        assert(split_on(s + seq![c], c) == head.push(empty));
        lemma_split_run(s + seq![c], parts.last(), c);
        assert(head.push(empty).drop_last() =~= head);
        assert(empty + parts.last() =~= parts.last());
        assert(head.push(parts.last()) =~= parts);
    }
}

/// Joining undoes splitting.
pub proof fn lemma_join_undoes_split(s: Seq<char>, c: char)
    ensures
        joined(split_on(s, c), seq![c]) == s,
    decreases s.len(),
{
    if s.len() > 0 {
        let head = s.drop_last();
        lemma_join_undoes_split(head, c);
        lemma_split_not_empty(head, c);
        let pieces = split_on(head, c);
        let all = split_on(s, c);
        if s.last() == c {
            assert(all.drop_last() =~= pieces);
            assert(joined(all, seq![c]) =~= s);
        } else {
            assert(all.drop_last() =~= pieces.drop_last());
            assert(joined(all, seq![c]) =~= joined(pieces, seq![c]).push(s.last()));
            assert(joined(all, seq![c]) =~= s);
        }
    }
}

/// No piece holds the separator.
pub proof fn lemma_split_pieces(s: Seq<char>, c: char)
    ensures
        split_on(s, c).len() >= 1,
        forall|i: int| 0 <= i < split_on(s, c).len() ==> !(#[trigger] split_on(s, c)[i]).contains(c),
    decreases s.len(),
{
    if s.len() > 0 {
        let head = s.drop_last();
        lemma_split_pieces(head, c);
        let pieces = split_on(head, c);
        let all = split_on(s, c);
        assert forall|i: int| 0 <= i < all.len() implies !(#[trigger] all[i]).contains(c) by {
            if i < pieces.len() - 1 || (s.last() == c && i < pieces.len()) {
                assert(all[i] == pieces[i]);
            } else if s.last() != c {
                assert(!pieces[i].contains(c));
                assert(all[i] == pieces[i].push(s.last()));
                if all[i].contains(c) {
                    let j = choose|j: int| 0 <= j < all[i].len() && all[i][j] == c;
                    assert(pieces[i][j] == c);
                }
            }
        }
    }
}

/// A text that is not empty and holds no white space.
pub open spec fn word(s: Seq<char>) -> bool {
    s.len() > 0 && forall|i: int| 0 <= i < s.len() ==> !white_space(#[trigger] s[i])
}

/// The words of a text are words.
pub proof fn lemma_words(s: Seq<char>)
    ensures
        forall|i: int| 0 <= i < words(s).len() ==> word(#[trigger] words(s)[i]),
        s.len() > 0 && !white_space(s.last()) ==> words(s).len() > 0,
    decreases s.len(),
{
    if s.len() > 0 {
        let head = s.drop_last();
        lemma_words(head);
        assert forall|i: int| 0 <= i < words(s).len() implies word(#[trigger] words(s)[i]) by {
            if i < words(head).len() {
                assert(word(words(head)[i]));
            }
        }
    }
}

proof fn lemma_words_run(s: Seq<char>, t: Seq<char>)
    requires
        s.len() == 0 || white_space(s.last()),
        word(t),
    ensures
        words(s + t) == words(s).push(t),
    decreases t.len(),
{
    let all = s + t;
    let head = t.drop_last();
    assert(all.drop_last() =~= s + head);
    assert(all.last() == t.last());
    assert(!white_space(t[t.len() - 1]));
    if head.len() == 0 {
        assert(s + head =~= s);
        assert(t =~= seq![t.last()]);
    } else {
        lemma_words_run(s, head);
        assert((s + head).last() == t[t.len() - 2]);
        assert(!white_space(t[t.len() - 2]));
        assert(words(s).push(head).drop_last() =~= words(s));
        assert(head.push(t.last()) =~= t);
    }
}

/// Words joined by a space are found again.
pub proof fn lemma_words_undo_join(ws: Seq<Seq<char>>)
    requires
        forall|i: int| 0 <= i < ws.len() ==> word(#[trigger] ws[i]),
    ensures
        words(joined(ws, seq![' '])) == ws,
    decreases ws.len(),
{
    let sep = seq![' '];
    if ws.len() == 0 {
        assert(words(joined(ws, sep)) =~= ws);
    } else if ws.len() == 1 {
        assert(word(ws[0]));
        lemma_words_run(Seq::<char>::empty(), ws[0]);
        assert(Seq::<char>::empty() + ws[0] =~= ws[0]);
        assert(words(ws[0]) =~= ws);
    } else {
        let head = ws.drop_last();
        assert forall|i: int| 0 <= i < head.len() implies word(#[trigger] head[i]) by {
            assert(head[i] == ws[i]);
        }
        lemma_words_undo_join(head);
        assert(word(ws[ws.len() - 1]));
        let s = joined(head, sep) + sep;
        assert(s.drop_last() =~= joined(head, sep));
        lemma_words_run(s, ws.last());
        assert(head.push(ws.last()) =~= ws);
    }
}

/// The characters of joined parts are characters of a part or of the separator.
pub proof fn lemma_joined_chars(parts: Seq<Seq<char>>, sep: Seq<char>, x: char)
    requires
        !sep.contains(x),
        forall|i: int| 0 <= i < parts.len() ==> !(#[trigger] parts[i]).contains(x),
    ensures
        !joined(parts, sep).contains(x),
    decreases parts.len(),
{
    if parts.len() > 1 {
        lemma_joined_chars(parts.drop_last(), sep, x);
        let head = joined(parts.drop_last(), sep);
        let all = joined(parts, sep);
        assert(!parts.last().contains(x));
        if all.contains(x) {
            let i = choose|i: int| 0 <= i < all.len() && all[i] == x;
            if i < head.len() {
                assert(head[i] == x);
            } else if i < head.len() + sep.len() {
                assert(sep[i - head.len()] == x);
            } else {
                assert(parts.last()[i - head.len() - sep.len()] == x);
            }
        }
    } else if parts.len() == 1 {
        assert(!parts[0].contains(x));
    }
}

// ---------------------------------------------------------------------------
// Numbers
// ---------------------------------------------------------------------------

/// The decimal digit of a number below ten.
pub open spec fn digit(n: nat) -> char {
    (n + '0' as nat) as char
}

/// `n` in decimal, without leading zeros.
pub open spec fn decimal(n: nat) -> Seq<char>
    decreases n,
{
    if n < 10 {
        seq![digit(n)]
    } else {
        decimal(n / 10).push(digit(n % 10))
    }
}

fn digit_char(n: u32) -> (c: char)
    requires
        n < 10,
    ensures
        c == digit(n as nat),
{
    (48u8 + n as u8) as char
}

/// `n` in decimal.
pub fn to_decimal(n: u32) -> (text: Vec<char>)
    ensures
        text@ == decimal(n as nat),
    decreases n,
{
    if n < 10 {
        let mut text: Vec<char> = Vec::new();
        text.push(digit_char(n));
        text
    } else {
        let mut text = to_decimal(n / 10);
        text.push(digit_char(n % 10));
        text
    }
}

/// The value of `c` as a digit in base `radix`, for bases up to sixteen.
pub open spec fn digit_value(c: char, radix: nat) -> Option<nat> {
    let v: Option<nat> = if '0' <= c <= '9' {
        Some((c as nat - '0' as nat) as nat)
    } else if 'a' <= c <= 'f' {
        Some((c as nat - 'a' as nat + 10) as nat)
    } else if 'A' <= c <= 'F' {
        Some((c as nat - 'A' as nat + 10) as nat)
    } else {
        None
    };
    if v is Some && v->0 < radix {
        v
    } else {
        None
    }
}

/// The number that the digits `s` write in base `radix`; none if one of them is no such digit.
pub open spec fn digits_value(s: Seq<char>, radix: nat) -> Option<nat>
    decreases s.len(),
{
    if s.len() == 0 {
        Some(0)
    } else {
        match (digits_value(s.drop_last(), radix), digit_value(s.last(), radix)) {
            (Some(v), Some(d)) => Some(v * radix + d),
            _ => None,
        }
    }
}

/// The number below two to the 32nd that the non-empty digits `s` write in base `radix`.
pub open spec fn small_number(s: Seq<char>, radix: nat) -> Option<u32> {
    match digits_value(s, radix) {
        Some(v) => if s.len() > 0 && v <= u32::MAX {
            Some(v as u32)
        } else {
            None
        },
        None => None,
    }
}

/// A `u32` as it is written in a request: an optional plus sign, then decimal digits.
pub open spec fn parsed_u32(s: Seq<char>) -> Option<u32> {
    if s.len() > 0 && s[0] == '+' {
        small_number(s.skip(1), 10)
    } else {
        small_number(s, 10)
    }
}

fn value_of_digit(c: char, radix: u32) -> (v: Option<u32>)
    requires
        radix <= 16,
    ensures
        v is Some <==> digit_value(c, radix as nat) is Some,
        v is Some ==> v->0 == digit_value(c, radix as nat)->0,
        v is Some ==> v->0 < radix,
{
    let v: u32 = if '0' <= c && c <= '9' {
        c as u32 - '0' as u32
    } else if 'a' <= c && c <= 'f' {
        c as u32 - 'a' as u32 + 10
    } else if 'A' <= c && c <= 'F' {
        c as u32 - 'A' as u32 + 10
    } else {
        return None;
    };
    if v < radix {
        Some(v)
    } else {
        None
    }
}

proof fn lemma_digits_grow(s: Seq<char>, k: int, radix: nat)
    requires
        0 <= k <= s.len(),
        radix >= 1,
    ensures
        digits_value(s, radix) is Some ==> digits_value(s.take(k), radix) is Some
            && digits_value(s.take(k), radix)->0 <= digits_value(s, radix)->0,
    decreases s.len(),
{
    if k == s.len() {
        assert(s.take(k) =~= s);
    } else {
        lemma_digits_grow(s.drop_last(), k, radix);
        assert(s.drop_last().take(k) =~= s.take(k));
        if digits_value(s, radix) is Some {
            let v = digits_value(s.drop_last(), radix)->0;
            assert(v <= v * radix) by (nonlinear_arith)
                requires
                    radix >= 1,
            ;
        }
    }
}

/// The number that `v` writes in base ten or sixteen, if it fits.
pub fn parse_small_number(v: &[char], radix: u32) -> (n: Option<u32>)
    requires
        2 <= radix <= 16,
    ensures
        n == small_number(v@, radix as nat),
{
    if v.len() == 0 {
        return None;
    }
    let mut n: u32 = 0;
    let mut i: usize = 0;
    while i < v.len()
        invariant
            2 <= radix <= 16,
            i <= v.len(),
            digits_value(v@.take(i as int), radix as nat) == Some(n as nat),
        decreases v.len() - i,
    {
        let ghost upto = v@.take(i + 1);
        assert(upto.drop_last() =~= v@.take(i as int));
        proof {
            lemma_digits_grow(v@, i + 1, radix as nat);
        }
        let d: u32 = match value_of_digit(v[i], radix) {
            Some(d) => d,
            None => {
                return None;
            },
        };
        let wide: u64 = n as u64;
        assert(wide * radix + d <= 0x1_0000_0000 * 16 + 16) by (nonlinear_arith)
            requires
                0 <= wide < 0x1_0000_0000,
                2 <= radix <= 16,
                d < 16,
        ;
        assert(0 <= wide * radix) by (nonlinear_arith);
        assert(digits_value(upto, radix as nat) == Some((wide * radix + d) as nat));
        let next: u64 = wide * radix as u64 + d as u64;
        if next > u32::MAX as u64 {
            return None;
        }
        n = next as u32;
        i += 1;
    }
    assert(v@.take(i as int) =~= v@);
    Some(n)
}

/// Reads a `u32`: an optional plus sign, then decimal digits.
pub fn parse_u32(s: &str) -> (n: Option<u32>)
    ensures
        n == parsed_u32(s@),
{
    let v = to_chars(s);
    if v.len() > 0 && v[0] == '+' {
        let rest = slice_of(&v, 1, v.len());
        assert(rest@ =~= v@.skip(1));
        parse_small_number(&rest, 10)
    } else {
        parse_small_number(&v, 10)
    }
}

// ---------------------------------------------------------------------------
// Comparing
// ---------------------------------------------------------------------------

/// `a` stands before `b` in the order of their characters.
pub open spec fn precedes(a: Seq<char>, b: Seq<char>) -> bool
    decreases a.len(),
{
    if b.len() == 0 {
        false
    } else if a.len() == 0 {
        true
    } else if a[0] != b[0] {
        a[0] < b[0]
    } else {
        precedes(a.skip(1), b.skip(1))
    }
}

/// Whether `a` stands before `b` in the order of their characters.
pub fn is_before(a: &str, b: &str) -> (yes: bool)
    ensures
        yes == precedes(a@, b@),
{
    let v = to_chars(a);
    let w = to_chars(b);
    let mut i: usize = 0;
    assert(v@.skip(0) =~= v@);
    assert(w@.skip(0) =~= w@);
    while i < v.len() && i < w.len()
        invariant
            v@ == a@,
            w@ == b@,
            i <= v.len(),
            i <= w.len(),
            precedes(v@.skip(i as int), w@.skip(i as int)) == precedes(v@, w@),
        decreases v.len() - i,
    {
        if v[i] != w[i] {
            return v[i] < w[i];
        }
        assert(v@.skip(i as int).skip(1) =~= v@.skip(i + 1));
        assert(w@.skip(i as int).skip(1) =~= w@.skip(i + 1));
        i += 1;
    }
    i < w.len()
}

/// Of two texts, either one stands before the other or they are the same, and never both.
pub proof fn lemma_precedes_total(a: Seq<char>, b: Seq<char>)
    ensures
        precedes(a, b) || precedes(b, a) || a == b,
        !(precedes(a, b) && precedes(b, a)),
        !precedes(a, a),
    decreases a.len(),
{
    if a.len() > 0 {
        lemma_precedes_total(a.skip(1), a.skip(1));
        if b.len() > 0 && a[0] == b[0] {
            lemma_precedes_total(a.skip(1), b.skip(1));
            if a.skip(1) == b.skip(1) {
                assert(a =~= seq![a[0]] + a.skip(1));
                assert(b =~= seq![b[0]] + b.skip(1));
            }
        }
    } else if b.len() == 0 {
        assert(a =~= b);
    }
}

/// What stands before something that stands before a third stands before the third.
pub proof fn lemma_precedes_transitive(a: Seq<char>, b: Seq<char>, c: Seq<char>)
    requires
        precedes(a, b),
        precedes(b, c),
    ensures
        precedes(a, c),
    decreases a.len(),
{
    if a.len() > 0 && b.len() > 0 && c.len() > 0 && a[0] == b[0] && b[0] == c[0] {
        lemma_precedes_transitive(a.skip(1), b.skip(1), c.skip(1));
    }
}

/// `c` with an ASCII capital made small.
pub open spec fn ascii_lower(c: char) -> char {
    if 'A' <= c <= 'Z' {
        (c as nat + 32) as char
    } else {
        c
    }
}

/// The same text but for the case of ASCII letters.
pub open spec fn same_but_ascii_case(a: Seq<char>, b: Seq<char>) -> bool {
    a.len() == b.len() && forall|i: int|
        0 <= i < a.len() ==> ascii_lower(#[trigger] a[i]) == ascii_lower(b[i])
}

/// `c` with an ASCII capital in lower case.
pub fn to_ascii_lower(c: char) -> (l: char)
    ensures
        l == ascii_lower(c),
{
    if 'A' <= c && c <= 'Z' {
        (c as u8 + 32) as char
    } else {
        c
    }
}

/// Whether two texts are the same but for the case of ASCII letters.
pub fn same_ignoring_ascii_case(a: &str, b: &str) -> (same: bool)
    ensures
        same == same_but_ascii_case(a@, b@),
{
    let v = to_chars(a);
    let w = to_chars(b);
    if v.len() != w.len() {
        return false;
    }
    let mut i: usize = 0;
    while i < v.len()
        invariant
            i <= v.len(),
            v.len() == w.len(),
            v@ == a@,
            w@ == b@,
            forall|j: int| 0 <= j < i ==> ascii_lower(#[trigger] v@[j]) == ascii_lower(w@[j]),
        decreases v.len() - i,
    {
        if to_ascii_lower(v[i]) != to_ascii_lower(w[i]) {
            return false;
        }
        i += 1;
    }
    true
}

// ---------------------------------------------------------------------------
// File names
// ---------------------------------------------------------------------------

/// `part` put under the directory `base`; an absolute `part` stands for itself.
pub open spec fn path_under(base: Seq<char>, part: Seq<char>) -> Seq<char> {
    if base.len() == 0 || (part.len() > 0 && part[0] == '/') {
        part
    } else if base.last() == '/' {
        base + part
    } else {
        base.push('/') + part
    }
}

/// `part` put under the directory `base`.
pub fn path_join(base: &[char], part: &[char]) -> (path: Vec<char>)
    ensures
        path@ == path_under(base@, part@),
{
    let mut path: Vec<char> = Vec::new();
    if base.len() == 0 || (part.len() > 0 && part[0] == '/') {
        push_all(&mut path, part);
        assert(path@ =~= part@);
        return path;
    }
    push_all(&mut path, base);
    assert(path@ =~= base@);
    if base[base.len() - 1] != '/' {
        path.push('/');
    }
    push_all(&mut path, part);
    path
}

// ---------------------------------------------------------------------------
// What the words of this module say of plain characters
// ---------------------------------------------------------------------------

/// White space is the tab, the line ends and the other controls next to them, the blanks of all
/// widths, and the separators of lines and paragraphs; no letter, digit, sign or mark is.
pub proof fn lemma_white_space_is(c: char)
    ensures
        white_space(c) <==> seq![
            9u32, 10, 11, 12, 13, 32, 133, 160, 5760, 8192, 8193, 8194, 8195, 8196, 8197, 8198,
            8199, 8200, 8201, 8202, 8232, 8233, 8239, 8287, 12288,
        ].contains(c as u32),
        '!' <= c <= '~' ==> !white_space(c),
{
    let codes = seq![
        9u32, 10, 11, 12, 13, 32, 133, 160, 5760, 8192, 8193, 8194, 8195, 8196, 8197, 8198, 8199,
        8200, 8201, 8202, 8232, 8233, 8239, 8287, 12288,
    ];
    assert(codes.len() == 25);
    assert(codes[0] == 9 && codes[1] == 10 && codes[2] == 11 && codes[3] == 12 && codes[4] == 13
        && codes[5] == 32 && codes[6] == 133 && codes[7] == 160 && codes[8] == 5760 && codes[9]
        == 8192 && codes[10] == 8193 && codes[11] == 8194 && codes[12] == 8195 && codes[13] == 8196
        && codes[14] == 8197 && codes[15] == 8198 && codes[16] == 8199 && codes[17] == 8200
        && codes[18] == 8201 && codes[19] == 8202 && codes[20] == 8232 && codes[21] == 8233
        && codes[22] == 8239 && codes[23] == 8287 && codes[24] == 12288);
}

/// A text is blank if and only if each part of it is, and a single character is if and only if
/// it is white space.
pub proof fn lemma_blank_parts(a: Seq<char>, b: Seq<char>, c: char)
    ensures
        blank(Seq::<char>::empty()),
        blank(seq![c]) <==> white_space(c),
        blank(a + b) <==> blank(a) && blank(b),
{
    assert(seq![c][0] == c);
    if blank(a + b) {
        assert forall|i: int| 0 <= i < a.len() implies white_space(#[trigger] a[i]) by {
            assert((a + b)[i] == a[i]);
        }
        assert forall|i: int| 0 <= i < b.len() implies white_space(#[trigger] b[i]) by {
            assert((a + b)[a.len() + i] == b[i]);
        }
    }
}

/// Trimming takes away white space at the two ends and nothing else, and all of it.
pub proof fn lemma_trimmed_is_the_middle(s: Seq<char>) -> (cut: (int, int))
    ensures
        0 <= cut.0 <= cut.1 <= s.len(),
        trimmed(s) == s.subrange(cut.0, cut.1),
        forall|i: int| 0 <= i < cut.0 || cut.1 <= i < s.len() ==> white_space(#[trigger] s[i]),
        trimmed(s).len() > 0 ==> !white_space(trimmed(s)[0]) && !white_space(
            trimmed(s)[trimmed(s).len() - 1],
        ),
{
    let a = lemma_trimmed_start_is_a_tail(s);
    let t = trimmed_start(s);
    let b = lemma_trimmed_end_is_a_head(t);
    assert(t.subrange(0, b) =~= s.subrange(a, a + b));
    assert forall|i: int| 0 <= i < a || a + b <= i < s.len() implies white_space(
        #[trigger] s[i],
    ) by {
        if i >= a + b {
            assert(t[i - a] == s[i]);
        }
    }
    if b > 0 {
        assert(trimmed(s)[0] == t[0]);
    }
    (a, a + b)
}

proof fn lemma_trimmed_start_is_a_tail(s: Seq<char>) -> (a: int)
    ensures
        0 <= a <= s.len(),
        trimmed_start(s) == s.subrange(a, s.len() as int),
        forall|i: int| 0 <= i < a ==> white_space(#[trigger] s[i]),
        a < s.len() ==> !white_space(s[a]),
    decreases s.len(),
{
    if s.len() > 0 && white_space(s.first()) {
        let t = s.drop_first();
        let b = lemma_trimmed_start_is_a_tail(t);
        assert(t.subrange(b, t.len() as int) =~= s.subrange(b + 1, s.len() as int));
        assert forall|i: int| 0 <= i < b + 1 implies white_space(#[trigger] s[i]) by {
            if i > 0 {
                assert(t[i - 1] == s[i]);
            }
        }
        b + 1
    } else {
        assert(s.subrange(0, s.len() as int) =~= s);
        0
    }
}

proof fn lemma_trimmed_end_is_a_head(s: Seq<char>) -> (b: int)
    ensures
        0 <= b <= s.len(),
        trimmed_end(s) == s.subrange(0, b),
        forall|i: int| b <= i < s.len() ==> white_space(#[trigger] s[i]),
        b > 0 ==> !white_space(s[b - 1]),
    decreases s.len(),
{
    if s.len() > 0 && white_space(s.last()) {
        let t = s.drop_last();
        let b = lemma_trimmed_end_is_a_head(t);
        assert(t.subrange(0, b) =~= s.subrange(0, b));
        assert forall|i: int| b <= i < s.len() implies white_space(#[trigger] s[i]) by {
            if i < t.len() {
                assert(t[i] == s[i]);
            }
        }
        b
    } else {
        assert(s.subrange(0, s.len() as int) =~= s);
        s.len() as int
    }
}

/// What is taken away from the end of a text is made of the given characters alone, and what is
/// left ends in none of them.
pub proof fn lemma_without_tail_is_the_head(s: Seq<char>, tail: Seq<char>) -> (cut: int)
    ensures
        0 <= cut <= s.len(),
        without_tail(s, tail) == s.subrange(0, cut),
        forall|i: int| cut <= i < s.len() ==> tail.contains(#[trigger] s[i]),
        cut > 0 ==> !tail.contains(s[cut - 1]),
    decreases s.len(),
{
    if s.len() > 0 && tail.contains(s.last()) {
        let t = s.drop_last();
        let cut = lemma_without_tail_is_the_head(t, tail);
        assert(t.subrange(0, cut) =~= s.subrange(0, cut));
        assert forall|i: int| cut <= i < s.len() implies tail.contains(#[trigger] s[i]) by {
            if i < t.len() {
                assert(t[i] == s[i]);
            }
        }
        cut
    } else {
        assert(s.subrange(0, s.len() as int) =~= s);
        s.len() as int
    }
}

/// A text stands in another exactly where that is something, the text, and something.
pub proof fn lemma_holds_is_in_the_middle(s: Seq<char>, p: Seq<char>)
    ensures
        holds(s, p) <==> exists|a: Seq<char>, b: Seq<char>| s == #[trigger] (a + p + b),
        forall|i: int| #[trigger]
            starts_at(s, i, p) ==> s == s.subrange(0, i) + p + s.subrange(
                i + p.len(),
                s.len() as int,
            ),
{
    assert forall|i: int| #[trigger] starts_at(s, i, p) implies s == s.subrange(0, i) + p
        + s.subrange(i + p.len(), s.len() as int) by {
        assert(s =~= s.subrange(0, i) + s.subrange(i, i + p.len()) + s.subrange(
            i + p.len(),
            s.len() as int,
        ));
    }
    if exists|a: Seq<char>, b: Seq<char>| s == #[trigger] (a + p + b) {
        let (a, b) = choose|a: Seq<char>, b: Seq<char>| s == #[trigger] (a + p + b);
        assert(s.subrange(a.len() as int, (a.len() + p.len()) as int) =~= p);
        assert(starts_at(s, a.len() as int, p));
    }
}

/// Where `p` does not stand, replacing it changes nothing. Where it stands, what is before its
/// first place stays, it makes way for `with`, and it is replaced in what is behind.
pub proof fn lemma_replaced_from_the_left(s: Seq<char>, p: Seq<char>, with: Seq<char>, i: int)
    requires
        p.len() > 0,
    ensures
        !holds(s, p) ==> replaced(s, p, with) == s,
        starts_at(s, i, p) && (forall|k: int| 0 <= k < i ==> !starts_at(s, k, p)) ==> replaced(
            s,
            p,
            with,
        ) == s.subrange(0, i) + with + replaced(
            s.subrange(i + p.len(), s.len() as int),
            p,
            with,
        ),
    decreases s.len(),
{
    if s.len() > 0 {
        let t = s.skip(1);
        assert forall|k: int| #[trigger] starts_at(t, k, p) implies starts_at(s, k + 1, p) by {
            assert(t.subrange(k, k + p.len()) =~= s.subrange(k + 1, k + 1 + p.len()));
        }
        assert forall|k: int| k > 0 && #[trigger] starts_at(s, k, p) implies starts_at(
            t,
            k - 1,
            p,
        ) by {
            assert(t.subrange(k - 1, k - 1 + p.len()) =~= s.subrange(k, k + p.len()));
        }
        lemma_replaced_from_the_left(t, p, with, i - 1);
        if !holds(s, p) {
            if holds(t, p) {
                let k = choose|k: int| starts_at(t, k, p);
                assert(starts_at(s, k + 1, p));
            }
            assert(!starts_at(s, 0, p));
            assert(seq![s[0]] + t =~= s);
        }
        if starts_at(s, i, p) && (forall|k: int| 0 <= k < i ==> !starts_at(s, k, p)) {
            if i == 0 {
                assert(s.skip(p.len() as int) =~= s.subrange(p.len() as int, s.len() as int));
                assert(s.subrange(0, 0) + with =~= with);
            } else {
                assert(!starts_at(s, 0, p));
                assert forall|k: int| 0 <= k < i - 1 implies !starts_at(t, k, p) by {
                    if starts_at(t, k, p) {
                        assert(starts_at(s, k + 1, p));
                    }
                }
                let rest = replaced(s.subrange(i + p.len(), s.len() as int), p, with);
                assert(t.subrange(i - 1 + p.len(), t.len() as int) =~= s.subrange(
                    i + p.len(),
                    s.len() as int,
                ));
                assert(seq![s[0]] + t.subrange(0, i - 1) =~= s.subrange(0, i));
                assert(seq![s[0]] + (t.subrange(0, i - 1) + with + rest) =~= s.subrange(0, i) + with
                    + rest);
            }
        }
    } else if starts_at(s, i, p) {
        assert(false);
    }
}

/// Joined parts are the one half, the separator, and the other half.
pub proof fn lemma_joined_halves(a: Seq<Seq<char>>, b: Seq<Seq<char>>, p: Seq<char>, sep: Seq<char>)
    ensures
        joined(Seq::<Seq<char>>::empty(), sep) == Seq::<char>::empty(),
        joined(seq![p], sep) == p,
        a.len() > 0 && b.len() > 0 ==> joined(a + b, sep) == joined(a, sep) + sep + joined(b, sep),
    decreases b.len(),
{
    if a.len() > 0 && b.len() > 0 {
        assert((a + b).drop_last() =~= a + b.drop_last());
        assert((a + b).last() == b.last());
        if b.len() == 1 {
            assert(a + b.drop_last() =~= a);
        } else {
            lemma_joined_halves(a, b.drop_last(), p, sep);
            assert(joined(a, sep) + sep + joined(b.drop_last(), sep) + sep + b.last() =~= joined(
                a,
                sep,
            ) + sep + (joined(b.drop_last(), sep) + sep + b.last()));
        }
    }
}

/// The words of a text are cut at its white space and nowhere else: a text without white space
/// is one word, and over white space the words are those before it and those behind it.
pub proof fn lemma_words_are_cut_at_white_space(a: Seq<char>, c: char, b: Seq<char>)
    ensures
        words(Seq::<char>::empty()).len() == 0,
        word(a) ==> words(a) == seq![a],
        white_space(c) ==> words(a.push(c) + b) == words(a) + words(b),
{
    if word(a) {
        lemma_words_of_a_word(a);
    }
    if white_space(c) {
        lemma_words_behind_white_space(a.push(c), b);
        assert(a.push(c).drop_last() =~= a);
    }
}

proof fn lemma_words_of_a_word(a: Seq<char>)
    requires
        word(a),
    ensures
        words(a) == seq![a],
    decreases a.len(),
{
    let head = a.drop_last();
    assert(a.last() == a[a.len() - 1]);
    if head.len() > 0 {
        assert(head.last() == a[a.len() - 2]);
        assert forall|i: int| 0 <= i < head.len() implies !white_space(#[trigger] head[i]) by {
            assert(a[i] == head[i]);
        }
        lemma_words_of_a_word(head);
        assert(head.push(a.last()) =~= a);
        assert(seq![head].drop_last().push(a) =~= seq![a]);
    } else {
        assert(seq![a.last()] =~= a);
        assert(words(head) =~= Seq::<Seq<char>>::empty());
        assert(words(a) =~= seq![a]);
    }
}

proof fn lemma_words_behind_white_space(a: Seq<char>, b: Seq<char>)
    requires
        a.len() > 0,
        white_space(a.last()),
    ensures
        words(a + b) == words(a) + words(b),
    decreases b.len(),
{
    if b.len() == 0 {
        assert(a + b =~= a);
        assert(words(a) + words(b) =~= words(a));
    } else {
        let head = b.drop_last();
        lemma_words_behind_white_space(a, head);
        assert((a + b).drop_last() =~= a + head);
        assert((a + b).last() == b.last());
        if head.len() > 0 {
            assert((a + head).last() == head.last());
        } else {
            assert(a + head =~= a);
        }
        let found = words(head);
        if !white_space(b.last()) {
            if head.len() > 0 && !white_space(head.last()) {
                lemma_words(head);
                let more = found.last().push(b.last());
                assert((words(a) + found).drop_last().push(more) =~= words(a)
                    + found.drop_last().push(more));
                assert((words(a) + found).last() == found.last());
            } else {
                assert((words(a) + found).push(seq![b.last()]) =~= words(a) + found.push(
                    seq![b.last()],
                ));
            }
        }
    }
}

/// The digits are the ten ASCII digits, and in base sixteen the first six letters behind them,
/// small or capital.
pub proof fn lemma_digits_are(c: char, d: nat)
    ensures
        d < 10 ==> digit(d) == "0123456789"@[d as int],
        digit_value(c, 10) == Some(d) <==> d < 10 && c == "0123456789"@[d as int],
        digit_value(c, 16) == Some(d) <==> d < 16 && (c == "0123456789abcdef"@[d as int] || c
            == "0123456789ABCDEF"@[d as int]),
{
    reveal_strlit("0123456789");
    reveal_strlit("0123456789abcdef");
    reveal_strlit("0123456789ABCDEF");
}

/// A number in decimal is ten times what stands before its last digit, and that digit; it has no
/// leading zero.
pub proof fn lemma_decimal_digits(n: nat, d: nat)
    requires
        d < 10,
    ensures
        decimal(d) == seq![digit(d)],
        n > 0 ==> decimal(n * 10 + d) == decimal(n).push(digit(d)),
        n > 0 ==> decimal(n)[0] != '0',
    decreases n,
{
    if n > 0 {
        assert((n * 10 + d) / 10 == n);
        assert((n * 10 + d) % 10 == d as int);
        if n >= 10 {
            lemma_decimal_digits(n / 10, n % 10);
            lemma_decimal_length(n / 10);
        }
    }
}

proof fn lemma_decimal_length(n: nat)
    ensures
        decimal(n).len() > 0,
        n >= 10 ==> decimal(n).len() > 1,
    decreases n,
{
    if n >= 10 {
        lemma_decimal_length(n / 10);
    }
}

/// A number in decimal holds nothing but digits.
pub proof fn lemma_decimal_chars(n: nat)
    ensures
        decimal(n).len() > 0,
        forall|i: int| 0 <= i < decimal(n).len() ==> '0' <= #[trigger] decimal(n)[i] <= '9',
{
    lemma_decimal_length(n);
    lemma_digits_value_of_decimal(n);
}

/// `s` is nothing but zeros.
pub open spec fn zeros(s: Seq<char>) -> bool {
    forall|i: int| 0 <= i < s.len() ==> #[trigger] s[i] == '0'
}

proof fn lemma_digits_value_of_decimal(n: nat)
    ensures
        digits_value(decimal(n), 10) == Some(n),
        forall|i: int| 0 <= i < decimal(n).len() ==> '0' <= #[trigger] decimal(n)[i] <= '9',
    decreases n,
{
    lemma_digits_are(digit(n % 10), n % 10);
    reveal_strlit("0123456789");
    if n < 10 {
        assert(seq![digit(n)].drop_last() =~= Seq::<char>::empty());
        assert(digits_value(seq![digit(n)].drop_last(), 10) == Some(0nat));
        assert(seq![digit(n)].last() == digit(n));
    } else {
        lemma_digits_value_of_decimal(n / 10);
        assert(decimal(n).drop_last() =~= decimal(n / 10));
        assert(decimal(n).last() == digit(n % 10));
        assert((n / 10) * 10 + n % 10 == n);
        assert forall|i: int| 0 <= i < decimal(n).len() implies '0' <= #[trigger] decimal(
            n,
        )[i] <= '9' by {
            if i < decimal(n / 10).len() {
                assert(decimal(n)[i] == decimal(n / 10)[i]);
            }
        }
    }
}

proof fn lemma_digits_value_reads_decimal(s: Seq<char>) -> (lead: Seq<char>)
    requires
        s.len() > 0,
        digits_value(s, 10) is Some,
    ensures
        zeros(lead),
        s == lead + decimal(digits_value(s, 10)->0),
    decreases s.len(),
{
    let head = s.drop_last();
    let d = digit_value(s.last(), 10)->0;
    let n = digits_value(head, 10)->0;
    lemma_digits_are(s.last(), d);
    reveal_strlit("0123456789");
    assert(s =~= head.push(s.last()));
    if head.len() == 0 {
        assert(s =~= Seq::<char>::empty() + seq![digit(d)]);
        Seq::<char>::empty()
    } else {
        let lead = lemma_digits_value_reads_decimal(head);
        if n > 0 {
            lemma_decimal_digits(n, d);
            assert(s =~= lead + decimal(n).push(digit(d)));
            lead
        } else {
            assert(decimal(0) =~= seq!['0']);
            assert(s =~= lead.push('0') + seq![digit(d)]);
            lead.push('0')
        }
    }
}

proof fn lemma_leading_zeros(lead: Seq<char>, s: Seq<char>)
    requires
        zeros(lead),
    ensures
        digits_value(lead + s, 10) == digits_value(s, 10),
    decreases lead.len() + s.len(),
{
    let all = lead + s;
    if s.len() > 0 {
        lemma_leading_zeros(lead, s.drop_last());
        assert(all.drop_last() =~= lead + s.drop_last());
        assert(all.last() == s.last());
    } else if lead.len() > 0 {
        assert(all =~= lead);
        assert(lead[lead.len() - 1] == '0');
        lemma_leading_zeros(lead.drop_last(), s);
        assert(all.drop_last() =~= lead.drop_last() + s);
        assert(digit_value('0', 10) == Some(0nat));
        assert(digits_value(s, 10) == Some(0nat));
    } else {
        assert(all =~= s);
    }
}

/// A number is read from its decimal, with any zeros before it and a plus sign before those, and
/// nothing else is read as that number.
pub proof fn lemma_numbers_are_read_from_decimal(n: u32, lead: Seq<char>, s: Seq<char>)
    ensures
        zeros(lead) ==> parsed_u32(lead + decimal(n as nat)) == Some(n) && parsed_u32(
            seq!['+'] + lead + decimal(n as nat),
        ) == Some(n),
        parsed_u32(s) == Some(n) ==> exists|x: Seq<char>|
            {
                &&& #[trigger] zeros(x)
                &&& s == x + decimal(n as nat) || s == seq!['+'] + x + decimal(n as nat)
            },
{
    let d = decimal(n as nat);
    lemma_digits_value_of_decimal(n as nat);
    lemma_decimal_length(n as nat);
    if zeros(lead) {
        lemma_leading_zeros(lead, d);
        let t = lead + d;
        if lead.len() > 0 {
            assert(t[0] == lead[0]);
        } else {
            assert(t[0] == d[0]);
        }
        let plus = seq!['+'] + lead + d;
        assert(plus.skip(1) =~= t);
        assert(plus[0] == '+');
    }
    if parsed_u32(s) == Some(n) {
        if s.len() > 0 && s[0] == '+' {
            let x = lemma_digits_value_reads_decimal(s.skip(1));
            assert(s =~= seq!['+'] + s.skip(1));
            assert(seq!['+'] + (x + d) =~= seq!['+'] + x + d);
        } else {
            let x = lemma_digits_value_reads_decimal(s);
            assert(s == x + d);
        }
    }
}

/// The order of texts is that of a dictionary: a text stands before another if it is the start of
/// it, or if its first character that differs is smaller.
pub proof fn lemma_precedes_is_dictionary_order(a: Seq<char>, b: Seq<char>)
    ensures
        precedes(a, b) <==> exists|k: int|
            {
                &&& 0 <= k <= a.len()
                &&& k < b.len()
                &&& #[trigger] a.subrange(0, k) == b.subrange(0, k)
                &&& k == a.len() || a[k] < b[k]
            },
    decreases a.len(),
{
    if a.len() > 0 && b.len() > 0 && a[0] == b[0] {
        let x = a.skip(1);
        let y = b.skip(1);
        lemma_precedes_is_dictionary_order(x, y);
        if precedes(a, b) {
            let k = choose|k: int|
                {
                    &&& 0 <= k <= x.len()
                    &&& k < y.len()
                    &&& #[trigger] x.subrange(0, k) == y.subrange(0, k)
                    &&& k == x.len() || x[k] < y[k]
                };
            assert(a.subrange(0, k + 1) =~= seq![a[0]] + x.subrange(0, k));
            assert(b.subrange(0, k + 1) =~= seq![b[0]] + y.subrange(0, k));
            assert(a.subrange(0, k + 1) == b.subrange(0, k + 1));
        }
        if exists|k: int|
            {
                &&& 0 <= k <= a.len()
                &&& k < b.len()
                &&& #[trigger] a.subrange(0, k) == b.subrange(0, k)
                &&& k == a.len() || a[k] < b[k]
            } {
            let k = choose|k: int|
                {
                    &&& 0 <= k <= a.len()
                    &&& k < b.len()
                    &&& #[trigger] a.subrange(0, k) == b.subrange(0, k)
                    &&& k == a.len() || a[k] < b[k]
                };
            assert(k > 0);
            assert(x.subrange(0, k - 1) =~= a.subrange(0, k).skip(1));
            assert(y.subrange(0, k - 1) =~= b.subrange(0, k).skip(1));
            assert(x.subrange(0, k - 1) == y.subrange(0, k - 1));
        }
    } else {
        if precedes(a, b) {
            assert(a.subrange(0, 0) =~= b.subrange(0, 0));
            assert(a.len() == 0 || a[0] < b[0]);
        }
        if exists|k: int|
            {
                &&& 0 <= k <= a.len()
                &&& k < b.len()
                &&& #[trigger] a.subrange(0, k) == b.subrange(0, k)
                &&& k == a.len() || a[k] < b[k]
            } {
            let k = choose|k: int|
                {
                    &&& 0 <= k <= a.len()
                    &&& k < b.len()
                    &&& #[trigger] a.subrange(0, k) == b.subrange(0, k)
                    &&& k == a.len() || a[k] < b[k]
                };
            if k > 0 {
                assert(a.subrange(0, k)[0] == a[0]);
                assert(b.subrange(0, k)[0] == b[0]);
            }
        }
    }
}

/// A capital of the alphabet becomes its small letter, and nothing else changes. Two texts are
/// the same but for case if each two of their characters are one letter or the same.
pub proof fn lemma_case_is_that_of_the_alphabet(i: int, c: char, a: Seq<char>, b: Seq<char>)
    ensures
        0 <= i < 26 ==> ascii_lower("ABCDEFGHIJKLMNOPQRSTUVWXYZ"@[i])
            == "abcdefghijklmnopqrstuvwxyz"@[i],
        !"ABCDEFGHIJKLMNOPQRSTUVWXYZ"@.contains(c) ==> ascii_lower(c) == c,
        same_but_ascii_case(a, b) <==> a.map_values(|x: char| ascii_lower(x)) == b.map_values(
            |x: char| ascii_lower(x),
        ),
{
    reveal_strlit("ABCDEFGHIJKLMNOPQRSTUVWXYZ");
    reveal_strlit("abcdefghijklmnopqrstuvwxyz");
    let upper = "ABCDEFGHIJKLMNOPQRSTUVWXYZ"@;
    if 'A' <= c <= 'Z' {
        assert(upper[c as int - 'A' as int] == c);
    }
    let x = a.map_values(|x: char| ascii_lower(x));
    let y = b.map_values(|x: char| ascii_lower(x));
    if same_but_ascii_case(a, b) {
        assert(x =~= y);
    }
    if x == y {
        assert(x.len() == a.len() && y.len() == b.len());
        assert forall|k: int| 0 <= k < a.len() implies ascii_lower(#[trigger] a[k]) == ascii_lower(
            b[k],
        ) by {
            assert(x[k] == y[k]);
        }
    }
}

/// A relative path under a directory is the directory, one slash, and the path; an absolute one
/// is itself.
pub proof fn lemma_paths_have_one_slash_between(base: Seq<char>, part: Seq<char>)
    ensures
        part.len() > 0 && part[0] == '/' ==> path_under(base, part) == part,
        part.len() == 0 || part[0] != '/' ==> {
            &&& path_under(Seq::<char>::empty(), part) == part
            &&& path_under(base.push('/'), part) == base + seq!['/'] + part
            &&& base.len() > 0 && base[base.len() - 1] != '/' ==> path_under(base, part) == base
                + seq!['/'] + part
        },
{
    assert(base.push('/') + part =~= base + seq!['/'] + part);
}

} // verus!
