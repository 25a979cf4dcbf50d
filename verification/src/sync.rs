//! How an account is kept in step with its server: round by round, folder by folder, with no
//! header fetched twice.
//!
//! An [`AccountSync`] says what to ask of the server next, takes in what came back, and at the
//! end of a round puts the account's mails into the daemon's state.

use crate::folders;
use crate::message::{HeaderInfo, HeaderView};
use crate::message;
use crate::state::{DaemonState, DaemonStateView, MailInfo, MailView, Notifier};
use crate::state;
use crate::text;
use std::collections::{HashMap, HashSet};
use vstd::prelude::*;

verus! {

broadcast use vstd::std_specs::hash::group_hash_axioms;

// ---------------------------------------------------------------------------
// What is asked and what comes back
// ---------------------------------------------------------------------------

/// One line of the answer to a fetch.
#[derive(Debug, Clone)]
pub struct Fetched {
    pub uid: Option<u32>,
    pub seen: bool,
    pub header: Option<HeaderInfo>,
}

/// What a [`Fetched`] holds.
pub struct FetchedView {
    pub uid: Option<u32>,
    pub seen: bool,
    pub header: Option<HeaderView>,
}

/// The view of an optional header.
pub open spec fn opt_header(h: Option<HeaderInfo>) -> Option<HeaderView> {
    match h {
        Some(h) => Some(h@),
        None => None,
    }
}

impl View for Fetched {
    type V = FetchedView;

    open spec fn view(&self) -> FetchedView {
        FetchedView { uid: self.uid, seen: self.seen, header: opt_header(self.header) }
    }
}

/// The views of an answer.
pub open spec fn answer(list: Seq<Fetched>) -> Seq<FetchedView> {
    list.map_values(|f: Fetched| f@)
}

/// Reads one line of the answer to a fetch: where it brings the bytes of a header, the header
/// is parsed.
pub fn read_fetched(uid: Option<u32>, seen: bool, raw: Option<&[u8]>) -> (line: Fetched)
    ensures
        line.uid == uid,
        line.seen == seen,
        raw is None ==> line.header is None,
        raw is Some ==> (line.header is Some <==> message::parsed_header(raw->0@) is Some),
        line.header is Some ==> {
            let m = message::parsed_header(raw->0@)->0;
            exists|date: Option<Seq<char>>|
                {
                    &&& line.header->0@ == #[trigger] message::listed_header(m, date)
                    &&& message::dates(m.parts, date)
                }
        },
{
    let header = match raw {
        Some(bytes) => message::read_header(bytes),
        None => None,
    };
    Fetched { uid, seen, header }
}

/// What the server answered.
#[derive(Debug, Clone)]
pub enum Event {
    /// The folder is open; this is its UIDVALIDITY, if the server gave one.
    Opened(Option<u32>),
    /// These uids are in the folder.
    Found(Vec<u32>),
    /// The folder could not be opened or searched.
    Refused,
    /// The answer to a fetch.
    Fetched(Vec<Fetched>),
    /// The wait is over.
    Woken,
}

/// What an [`Event`] holds.
pub enum EventView {
    Opened(Option<u32>),
    Found(Seq<u32>),
    Refused,
    Fetched(Seq<FetchedView>),
    Woken,
}

impl View for Event {
    type V = EventView;

    open spec fn view(&self) -> EventView {
        match *self {
            Event::Opened(v) => EventView::Opened(v),
            Event::Found(uids) => EventView::Found(uids@),
            Event::Refused => EventView::Refused,
            Event::Fetched(list) => EventView::Fetched(answer(list@)),
            Event::Woken => EventView::Woken,
        }
    }
}

/// What to do next.
#[derive(Debug, Clone, PartialEq, Eq)]
pub enum Action {
    /// Open a folder without marking anything as read.
    Open(String),
    /// List the uids of all mails of the open folder.
    Search,
    /// Fetch `items` of the mails in `set`.
    Fetch { set: String, items: String },
    /// Put the mails of the round into the state.
    Publish,
    /// Wait on the inbox until something happens there or the time is up.
    Wait(String),
}

/// What an [`Action`] holds.
pub enum ActionView {
    Open(Seq<char>),
    Search,
    Fetch { set: Seq<char>, items: Seq<char> },
    Publish,
    Wait(Seq<char>),
}

impl View for Action {
    type V = ActionView;

    open spec fn view(&self) -> ActionView {
        match *self {
            Action::Open(f) => ActionView::Open(f@),
            Action::Search => ActionView::Search,
            Action::Fetch { set, items } => ActionView::Fetch { set: set@, items: items@ },
            Action::Publish => ActionView::Publish,
            Action::Wait(f) => ActionView::Wait(f@),
        }
    }
}

/// A notice of a new mail.
#[derive(Debug, Clone, PartialEq, Eq)]
pub struct Notice {
    pub summary: String,
    pub body: String,
}

/// What a [`Notice`] holds.
pub struct NoticeView {
    pub summary: Seq<char>,
    pub body: Seq<char>,
}

impl View for Notice {
    type V = NoticeView;

    open spec fn view(&self) -> NoticeView {
        NoticeView { summary: self.summary@, body: self.body@ }
    }
}

/// The views of a list of notices.
pub open spec fn notice_views(list: Seq<Notice>) -> Seq<NoticeView> {
    list.map_values(|n: Notice| n@)
}

/// The notice of a new mail.
pub open spec fn notice_of(account: Seq<char>, folder: Seq<char>, h: HeaderView) -> NoticeView {
    NoticeView {
        summary: "新邮件 - "@ + account + " · "@ + folders::label_of(folder),
        body: "发件人: "@ + h.from + "\n主题: "@ + h.subject,
    }
}

fn make_notice(account: &str, folder: &str, h: &HeaderInfo) -> (n: Notice)
    ensures
        n@ == notice_of(account@, folder@, h@),
{
    let mut summary = text::to_chars("新邮件 - ");
    text::push_text(&mut summary, account);
    text::push_text(&mut summary, " · ");
    text::push_text(&mut summary, folders::folder_label(folder));
    let mut body = text::to_chars("发件人: ");
    text::push_text(&mut body, h.from.as_str());
    text::push_text(&mut body, "\n主题: ");
    text::push_text(&mut body, h.subject.as_str());
    Notice { summary: text::from_chars(&summary), body: text::from_chars(&body) }
}

// ---------------------------------------------------------------------------
// Uids
// ---------------------------------------------------------------------------

/// The uids of a folder that are listed: the largest ones, at most `limit` of them, the largest
/// first. Zero means no limit.
pub open spec fn window_of(uids: Seq<u32>, limit: nat) -> Seq<u32> {
    let sorted = uids.sort_by(|a: u32, b: u32| a >= b);
    if 0 < limit < sorted.len() {
        sorted.take(limit as int)
    } else {
        sorted
    }
}

/// No uid is larger than one before it.
spec fn descending(uids: Seq<u32>) -> bool {
    forall|i: int, j: int|
        0 <= i < j < uids.len() ==> #[trigger] uids[i] >= #[trigger] uids[j]
}

fn merge(a: &[u32], b: &[u32]) -> (out: Vec<u32>)
    requires
        descending(a@),
        descending(b@),
        a@.len() + b@.len() <= usize::MAX,
    ensures
        descending(out@),
        out@.len() == a@.len() + b@.len(),
        out@.to_multiset() == a@.to_multiset().add(b@.to_multiset()),
{
    broadcast use vstd::seq_lib::group_to_multiset_ensures;

    let mut out: Vec<u32> = Vec::new();
    let mut i: usize = 0;
    let mut j: usize = 0;
    assert(out@.to_multiset() =~= a@.take(0).to_multiset().add(b@.take(0).to_multiset()));
    while i < a.len() || j < b.len()
        invariant
            i <= a.len(),
            j <= b.len(),
            descending(a@),
            descending(b@),
            descending(out@),
            out@.len() == i + j,
            out@.len() > 0 && i < a.len() ==> out@.last() >= a@[i as int],
            out@.len() > 0 && j < b.len() ==> out@.last() >= b@[j as int],
            out@.to_multiset() == a@.take(i as int).to_multiset().add(
                b@.take(j as int).to_multiset(),
            ),
        decreases a.len() - i + b.len() - j,
    {
        let ghost before = out@;
        let ghost i0 = i as int;
        let ghost j0 = j as int;
        let u: u32;
        if j == b.len() || (i < a.len() && a[i] >= b[j]) {
            u = a[i];
            i += 1;
            proof {
                assert(a@.take(i0 + 1) =~= a@.take(i0).push(u));
                vstd::seq_lib::to_multiset_build(a@.take(i0), u);
            }
        } else {
            u = b[j];
            j += 1;
            proof {
                assert(b@.take(j0 + 1) =~= b@.take(j0).push(u));
                vstd::seq_lib::to_multiset_build(b@.take(j0), u);
            }
        }
        out.push(u);
        proof {
            vstd::seq_lib::to_multiset_build(before, u);
            assert(out@.to_multiset() =~= a@.take(i as int).to_multiset().add(
                b@.take(j as int).to_multiset(),
            ));
            assert forall|x: int, y: int| 0 <= x < y < out@.len() implies #[trigger] out@[x]
                >= #[trigger] out@[y] by {
                if y == before.len() {
                    assert(before[x] >= before.last());
                }
            }
        }
    }
    assert(a@.take(i as int) =~= a@);
    assert(b@.take(j as int) =~= b@);
    out
}

fn sort_in_halves(uids: Vec<u32>) -> (sorted: Vec<u32>)
    ensures
        descending(sorted@),
        sorted@.len() == uids@.len(),
        sorted@.to_multiset() == uids@.to_multiset(),
    decreases uids@.len(),
{
    if uids.len() <= 1 {
        return uids;
    }
    let ghost all = uids@;
    let mut left = uids;
    let half: usize = left.len() / 2;
    let right = left.split_off(half);
    proof {
        assert(left@ + right@ =~= all);
        vstd::seq_lib::lemma_multiset_commutative(left@, right@);
    }
    let left = sort_in_halves(left);
    let right = sort_in_halves(right);
    merge(&left, &right)
}

fn sort_descending(uids: Vec<u32>) -> (sorted: Vec<u32>)
    ensures
        sorted@ == uids@.sort_by(|a: u32, b: u32| a >= b),
        sorted@.len() == uids@.len(),
{
    let ghost geq = |a: u32, b: u32| a >= b;
    let ghost all = uids@;
    let sorted = sort_in_halves(uids);
    proof {
        all.lemma_sort_by_ensures(geq);
        vstd::seq_lib::lemma_sorted_unique(sorted@, all.sort_by(geq), geq);
    }
    sorted
}

/// The uids that are listed, the largest first.
pub fn window(uids: Vec<u32>, limit: usize) -> (out: Vec<u32>)
    ensures
        out@ == window_of(uids@, limit as nat),
{
    let mut sorted = sort_descending(uids);
    if limit > 0 && limit < sorted.len() {
        let ghost all = sorted@;
        sorted.truncate(limit);
        assert(sorted@ =~= all.take(limit as int));
    }
    sorted
}

/// The listed uids are uids of the folder, the largest first and never more than the limit, and
/// no uid that is left out is larger than one of them.
pub proof fn lemma_window(uids: Seq<u32>, limit: nat, u: u32)
    ensures
        forall|i: int|
            0 <= i < window_of(uids, limit).len() ==> uids.contains(
                #[trigger] window_of(uids, limit)[i],
            ),
        forall|i: int, j: int|
            0 <= i < j < window_of(uids, limit).len() ==> #[trigger] window_of(uids, limit)[i]
                >= #[trigger] window_of(uids, limit)[j],
        limit > 0 ==> window_of(uids, limit).len() <= limit,
        limit == 0 || uids.len() <= limit ==> window_of(uids, limit).len() == uids.len(),
        uids.contains(u) && !window_of(uids, limit).contains(u) ==> forall|i: int|
            0 <= i < window_of(uids, limit).len() ==> #[trigger] window_of(uids, limit)[i] >= u,
{
    broadcast use vstd::seq_lib::group_to_multiset_ensures;

    let geq = |a: u32, b: u32| a >= b;
    let sorted = uids.sort_by(geq);
    let w = window_of(uids, limit);
    uids.lemma_sort_by_ensures(geq);
    assert(sorted.len() == sorted.to_multiset().len());
    assert(uids.len() == uids.to_multiset().len());
    assert forall|i: int| 0 <= i < w.len() implies uids.contains(#[trigger] w[i]) by {
        assert(sorted[i] == w[i]);
        assert(sorted.contains(w[i]));
    }
    assert forall|i: int, j: int| 0 <= i < j < w.len() implies #[trigger] w[i]
        >= #[trigger] w[j] by {
        assert(geq(sorted[i], sorted[j]));
    }
    if uids.contains(u) && !w.contains(u) {
        assert(uids.to_multiset().count(u) > 0);
        assert(sorted.contains(u));
        let k = choose|k: int| 0 <= k < sorted.len() && sorted[k] == u;
        if k < w.len() {
            assert(w[k] == u);
        }
        assert forall|i: int| 0 <= i < w.len() implies #[trigger] w[i] >= u by {
            assert(geq(sorted[i], sorted[k]));
        }
    }
}

/// The uids of `window` that are not in `have`.
pub open spec fn lacking(window: Seq<u32>, have: Set<u32>) -> Seq<u32>
    decreases window.len(),
{
    if window.len() == 0 {
        window
    } else {
        let head = lacking(window.drop_last(), have);
        if have.contains(window.last()) {
            head
        } else {
            head.push(window.last())
        }
    }
}

/// Exactly the uids that are not there yet are lacking.
pub proof fn lemma_lacking(window: Seq<u32>, have: Set<u32>, u: u32)
    ensures
        lacking(window, have).contains(u) <==> window.contains(u) && !have.contains(u),
    decreases window.len(),
{
    if window.len() > 0 {
        let head = window.drop_last();
        let rest = lacking(head, have);
        let out = lacking(window, have);
        lemma_lacking(head, have, u);
        if window.contains(u) && !have.contains(u) {
            let i = choose|i: int| 0 <= i < window.len() && window[i] == u;
            if i < head.len() {
                assert(head[i] == u);
                let j = choose|j: int| 0 <= j < rest.len() && rest[j] == u;
                assert(out[j] == u);
            } else {
                assert(out[out.len() - 1] == u);
            }
        }
        if out.contains(u) {
            let i = choose|i: int| 0 <= i < out.len() && out[i] == u;
            if i < rest.len() {
                assert(rest[i] == u);
                let j = choose|j: int| 0 <= j < head.len() && head[j] == u;
                assert(window[j] == u);
            } else {
                assert(window[window.len() - 1] == u);
            }
        }
    }
}

/// Uids as a fetch or a store names them: in decimal, separated by commas.
pub open spec fn uid_set(uids: Seq<u32>) -> Seq<char> {
    text::joined(uids.map_values(|u: u32| text::decimal(u as nat)), ","@)
}

/// Uids as a fetch or a store names them: in decimal, separated by commas.
pub fn write_uids(uids: &[u32]) -> (set: String)
    ensures
        set@ == uid_set(uids@),
{
    let mut parts: Vec<Vec<char>> = Vec::new();
    let ghost all = uids@.map_values(|u: u32| text::decimal(u as nat));
    let mut i: usize = 0;
    assert(text::views(parts@) =~= all.take(0));
    while i < uids.len()
        invariant
            i <= uids.len(),
            all == uids@.map_values(|u: u32| text::decimal(u as nat)),
            text::views(parts@) == all.take(i as int),
        decreases uids.len() - i,
    {
        let one = text::to_decimal(uids[i]);
        proof {
            text::lemma_views_push(parts@, one);
            assert(all.take(i + 1) =~= all.take(i as int).push(all[i as int]));
        }
        parts.push(one);
        i += 1;
    }
    assert(all.take(i as int) =~= all);
    let comma = text::to_chars(",");
    let set = text::join(&parts, &comma);
    text::from_chars(&set)
}

// ---------------------------------------------------------------------------
// The model of a round
// ---------------------------------------------------------------------------

/// What is known of a folder: its UIDVALIDITY, the headers that were fetched, and the uids of
/// its unread mails in the last round and in this one.
pub struct FolderView {
    pub name: Seq<char>,
    pub validity: Option<u32>,
    pub headers: Map<u32, HeaderView>,
    pub known: Set<u32>,
    pub current: Set<u32>,
}

/// How far a round is.
pub enum PhaseView {
    Open,
    Search,
    Headers { window: Seq<u32> },
    Flags { window: Seq<u32>, seen: Map<u32, bool> },
    Publish,
    Wait,
}

/// What an [`AccountSync`] holds: what is known of the folders, which of them comes next in the
/// round, whether this is the first round, and the mails that the round has listed so far.
pub struct SyncView {
    pub account: Seq<char>,
    pub limit: nat,
    pub folders: Seq<FolderView>,
    pub first: bool,
    pub at: int,
    pub phase: PhaseView,
    pub mails: Seq<MailView>,
}

/// A folder after it was opened: where its UIDVALIDITY has changed, the uids mean other mails
/// now, and the headers are dropped.
pub open spec fn opened(f: FolderView, validity: Option<u32>) -> FolderView {
    if validity is Some && f.validity != validity {
        FolderView { validity, headers: Map::<u32, HeaderView>::empty(), ..f }
    } else {
        f
    }
}

/// The flags after an answer came in.
pub open spec fn flags_after(seen: Map<u32, bool>, list: Seq<FetchedView>) -> Map<u32, bool>
    decreases list.len(),
{
    if list.len() == 0 {
        seen
    } else {
        let head = flags_after(seen, list.drop_last());
        match list.last().uid {
            Some(u) => head.insert(u, list.last().seen),
            None => head,
        }
    }
}

/// The headers after an answer came in.
pub open spec fn headers_after(headers: Map<u32, HeaderView>, list: Seq<FetchedView>) -> Map<
    u32,
    HeaderView,
>
    decreases list.len(),
{
    if list.len() == 0 {
        headers
    } else {
        let head = headers_after(headers, list.drop_last());
        match (list.last().uid, list.last().header) {
            (Some(u), Some(h)) => head.insert(u, h),
            _ => head,
        }
    }
}

/// The header and the flag of `u` are both known.
pub open spec fn listable(headers: Map<u32, HeaderView>, seen: Map<u32, bool>, u: u32) -> bool {
    headers.contains_key(u) && seen.contains_key(u)
}

/// A mail of the list.
pub open spec fn mail_of(
    account: Seq<char>,
    folder: Seq<char>,
    u: u32,
    h: HeaderView,
    seen: bool,
) -> MailView {
    MailView { account, folder, uid: u, from: h.from, subject: h.subject, date: h.date, seen }
}

/// The mails of a folder: those of the window whose header and flag are known.
pub open spec fn mails_in(
    account: Seq<char>,
    folder: Seq<char>,
    window: Seq<u32>,
    headers: Map<u32, HeaderView>,
    seen: Map<u32, bool>,
) -> Seq<MailView>
    decreases window.len(),
{
    if window.len() == 0 {
        Seq::<MailView>::empty()
    } else {
        let u = window.last();
        let head = mails_in(account, folder, window.drop_last(), headers, seen);
        if listable(headers, seen, u) {
            head.push(mail_of(account, folder, u, headers[u], seen[u]))
        } else {
            head
        }
    }
}

/// `u` is in the window, can be listed, and is unread.
pub open spec fn unread(
    window: Seq<u32>,
    headers: Map<u32, HeaderView>,
    seen: Map<u32, bool>,
    u: u32,
) -> bool {
    window.contains(u) && listable(headers, seen, u) && !seen[u]
}

/// The unread mails of a folder.
pub open spec fn unread_in(
    window: Seq<u32>,
    headers: Map<u32, HeaderView>,
    seen: Map<u32, bool>,
) -> Set<u32> {
    Set::new(|u: u32| unread(window, headers, seen, u))
}

/// The mails of a folder that are announced: the unread ones that were not known to be unread,
/// but none in the first round.
pub open spec fn announced(
    window: Seq<u32>,
    headers: Map<u32, HeaderView>,
    seen: Map<u32, bool>,
    first: bool,
    known: Set<u32>,
) -> Seq<u32>
    decreases window.len(),
{
    if window.len() == 0 {
        window
    } else {
        let u = window.last();
        let head = announced(window.drop_last(), headers, seen, first, known);
        if listable(headers, seen, u) && !seen[u] && !first && !known.contains(u) {
            head.push(u)
        } else {
            head
        }
    }
}

/// The notices for the mails that are announced.
pub open spec fn notices_for(
    account: Seq<char>,
    folder: Seq<char>,
    uids: Seq<u32>,
    headers: Map<u32, HeaderView>,
) -> Seq<NoticeView> {
    uids.map_values(|u: u32| notice_of(account, folder, headers[u]))
}

impl SyncView {
    /// The folder that the round is at.
    pub open spec fn folder(self) -> FolderView {
        self.folders[self.at]
    }

    /// The round stands at a folder that exists, unless it is over.
    pub open spec fn well_formed(self) -> bool {
        self.phase is Publish || self.phase is Wait || 0 <= self.at < self.folders.len()
    }

    /// The round with `f` in place of the folder it is at.
    pub open spec fn with_folder(self, f: FolderView) -> SyncView {
        SyncView { folders: self.folders.update(self.at, f), ..self }
    }

    /// The round in another phase.
    pub open spec fn in_phase(self, phase: PhaseView) -> SyncView {
        SyncView { phase, ..self }
    }

    /// The round at the next folder, or at its end.
    pub open spec fn next_folder(self) -> SyncView {
        SyncView {
            at: self.at + 1,
            phase: if self.at + 1 < self.folders.len() {
                PhaseView::Open
            } else {
                PhaseView::Publish
            },
            ..self
        }
    }

    /// The round after the folder was found to be empty.
    pub open spec fn emptied(self) -> SyncView {
        self.with_folder(
            FolderView { headers: Map::<u32, HeaderView>::empty(), ..self.folder() },
        ).next_folder()
    }

    /// The round after the uids of the folder were listed: headers outside the window are
    /// dropped, and those that are lacking come next.
    pub open spec fn searched(self, uids: Seq<u32>) -> (SyncView, Seq<NoticeView>) {
        let window = window_of(uids, self.limit);
        let f = self.folder();
        let headers = f.headers.restrict(window.to_set());
        let next = self.with_folder(FolderView { headers, ..f });
        if lacking(window, headers.dom()).len() > 0 {
            (next.in_phase(PhaseView::Headers { window }), Seq::<NoticeView>::empty())
        } else {
            next.with_headers(window, Map::<u32, bool>::empty())
        }
    }

    /// The round after the headers came in: the flags that are lacking come next.
    pub open spec fn with_headers(self, window: Seq<u32>, seen: Map<u32, bool>) -> (
        SyncView,
        Seq<NoticeView>,
    ) {
        if lacking(window, seen.dom()).len() > 0 {
            (self.in_phase(PhaseView::Flags { window, seen }), Seq::<NoticeView>::empty())
        } else {
            self.finished(window, seen)
        }
    }

    /// The round after the folder is done: its mails are listed, its unread mails noted, and
    /// the new ones among them announced.
    pub open spec fn finished(self, window: Seq<u32>, seen: Map<u32, bool>) -> (
        SyncView,
        Seq<NoticeView>,
    ) {
        let f = self.folder();
        let done = self.with_folder(
            FolderView { current: unread_in(window, f.headers, seen), ..f },
        );
        (
            SyncView {
                mails: self.mails + mails_in(self.account, f.name, window, f.headers, seen),
                ..done.next_folder()
            },
            notices_for(
                self.account,
                f.name,
                announced(window, f.headers, seen, self.first, f.known),
                f.headers,
            ),
        )
    }

    /// What the round does with an event. One that does not fit changes nothing.
    pub open spec fn stepped(self, e: EventView) -> (SyncView, Seq<NoticeView>) {
        let nothing = Seq::<NoticeView>::empty();
        match (self.phase, e) {
            (PhaseView::Open, EventView::Opened(validity)) => (
                self.with_folder(opened(self.folder(), validity)).in_phase(PhaseView::Search),
                nothing,
            ),
            (PhaseView::Open, EventView::Refused) => (self.next_folder(), nothing),
            (PhaseView::Search, EventView::Refused) => (self.next_folder(), nothing),
            (PhaseView::Search, EventView::Found(uids)) => if uids.len() == 0 {
                (self.emptied(), nothing)
            } else {
                self.searched(uids)
            },
            (PhaseView::Headers { window }, EventView::Fetched(list)) => {
                let f = self.folder();
                self.with_folder(
                    FolderView { headers: headers_after(f.headers, list), ..f },
                ).with_headers(window, flags_after(Map::<u32, bool>::empty(), list))
            },
            (PhaseView::Flags { window, seen }, EventView::Fetched(list)) => self.finished(
                window,
                flags_after(seen, list),
            ),
            (PhaseView::Wait, EventView::Woken) => (self.restarted(), nothing),
            _ => (self, nothing),
        }
    }

    /// The start of a round.
    pub open spec fn restarted(self) -> SyncView {
        SyncView {
            at: 0,
            phase: if self.folders.len() > 0 {
                PhaseView::Open
            } else {
                PhaseView::Publish
            },
            ..self
        }
    }

    /// The end of a round: what was unread in it is what is known in the next one.
    pub open spec fn rounded(self) -> SyncView {
        SyncView {
            folders: self.folders.map_values(
                |f: FolderView| FolderView { known: f.current, current: Set::<u32>::empty(), ..f },
            ),
            first: false,
            phase: PhaseView::Wait,
            mails: Seq::<MailView>::empty(),
            ..self
        }
    }

    /// What to do next.
    pub open spec fn action(self) -> ActionView {
        match self.phase {
            PhaseView::Open => ActionView::Open(self.folder().name),
            PhaseView::Search => ActionView::Search,
            PhaseView::Headers { window } => ActionView::Fetch {
                set: uid_set(lacking(window, self.folder().headers.dom())),
                items: "(FLAGS RFC822.HEADER)"@,
            },
            PhaseView::Flags { window, seen } => ActionView::Fetch {
                set: uid_set(lacking(window, seen.dom())),
                items: "FLAGS"@,
            },
            PhaseView::Publish => ActionView::Publish,
            PhaseView::Wait => ActionView::Wait("INBOX"@),
        }
    }
}

/// A folder of which nothing is known.
pub open spec fn unknown_folder(name: Seq<char>) -> FolderView {
    FolderView {
        name,
        validity: None,
        headers: Map::<u32, HeaderView>::empty(),
        known: Set::<u32>::empty(),
        current: Set::<u32>::empty(),
    }
}

/// The start of the first round over `folders`.
pub open spec fn first_round(account: Seq<char>, limit: nat, folders: Seq<Seq<char>>) -> SyncView {
    SyncView {
        account,
        limit,
        folders: folders.map_values(|n: Seq<char>| unknown_folder(n)),
        first: true,
        at: 0,
        phase: PhaseView::Wait,
        mails: Seq::<MailView>::empty(),
    }.restarted()
}

// ---------------------------------------------------------------------------
// A round
// ---------------------------------------------------------------------------

/// The headers of a map.
pub open spec fn header_views(m: Map<u32, HeaderInfo>) -> Map<u32, HeaderView> {
    m.map_values(|h: HeaderInfo| h@)
}

/// What is known of a folder.
struct FolderSync {
    name: String,
    validity: Option<u32>,
    headers: HashMap<u32, HeaderInfo>,
    known: HashSet<u32>,
    current: HashSet<u32>,
}

impl View for FolderSync {
    type V = FolderView;

    closed spec fn view(&self) -> FolderView {
        FolderView {
            name: self.name@,
            validity: self.validity,
            headers: header_views(self.headers@),
            known: self.known@,
            current: self.current@,
        }
    }
}

/// How far a round is.
enum Phase {
    Open,
    Search,
    Headers(Vec<u32>),
    Flags(Vec<u32>, HashMap<u32, bool>),
    Publish,
    Wait,
}

impl View for Phase {
    type V = PhaseView;

    closed spec fn view(&self) -> PhaseView {
        match *self {
            Phase::Open => PhaseView::Open,
            Phase::Search => PhaseView::Search,
            Phase::Headers(window) => PhaseView::Headers { window: window@ },
            Phase::Flags(window, seen) => PhaseView::Flags { window: window@, seen: seen@ },
            Phase::Publish => PhaseView::Publish,
            Phase::Wait => PhaseView::Wait,
        }
    }
}

/// The work of keeping one account in step with its server.
pub struct AccountSync {
    account: String,
    limit: usize,
    folders: Vec<FolderSync>,
    first: bool,
    at: usize,
    phase: Phase,
    mails: Vec<MailInfo>,
}

spec fn folder_views(folders: Seq<FolderSync>) -> Seq<FolderView> {
    folders.map_values(|f: FolderSync| f@)
}

impl View for AccountSync {
    type V = SyncView;

    closed spec fn view(&self) -> SyncView {
        SyncView {
            account: self.account@,
            limit: self.limit as nat,
            folders: folder_views(self.folders@),
            first: self.first,
            at: self.at as int,
            phase: self.phase@,
            mails: state::mail_views(self.mails@),
        }
    }
}

impl FolderSync {
    fn new(name: String) -> (f: FolderSync)
        ensures
            f@ == unknown_folder(name@),
    {
        let f = FolderSync {
            name,
            validity: None,
            headers: HashMap::new(),
            known: HashSet::new(),
            current: HashSet::new(),
        };
        assert(f@.headers =~= Map::<u32, HeaderView>::empty());
        assert(f@.known =~= Set::<u32>::empty());
        assert(f@.current =~= Set::<u32>::empty());
        f
    }

    fn open(&mut self, validity: Option<u32>)
        ensures
            final(self)@ == opened(old(self)@, validity),
    {
        if let Some(v) = validity {
            let same = match self.validity {
                Some(w) => v == w,
                None => false,
            };
            if !same {
                self.forget();
                self.validity = Some(v);
            }
        }
    }

    fn forget(&mut self)
        ensures
            final(self)@ == (FolderView {
                headers: Map::<u32, HeaderView>::empty(),
                ..old(self)@
            }),
    {
        self.headers = HashMap::new();
        assert(self@.headers =~= Map::<u32, HeaderView>::empty());
    }

    fn keep_only(&mut self, window: &[u32])
        ensures
            final(self)@ == (FolderView {
                headers: old(self)@.headers.restrict(window@.to_set()),
                ..old(self)@
            }),
    {
        let mut kept: HashMap<u32, HeaderInfo> = HashMap::new();
        let ghost all = self.headers@;
        let mut i: usize = 0;
        while i < window.len()
            invariant
                i <= window.len(),
                self.name == old(self).name,
                self.validity == old(self).validity,
                self.known == old(self).known,
                self.current == old(self).current,
                all == old(self).headers@,
                self.headers@ == all.remove_keys(window@.take(i as int).to_set()),
                kept@ == all.restrict(window@.take(i as int).to_set()),
            decreases window.len() - i,
        {
            let u: u32 = window[i];
            let ghost some = window@.take(i as int);
            let ghost more = window@.take(i + 1);
            assert forall|x: u32| more.to_set().contains(x) <==> some.to_set().contains(x) || x
                == u by {
                if some.contains(x) {
                    let k = choose|k: int| 0 <= k < some.len() && some[k] == x;
                    assert(more[k] == x);
                }
                if x == u {
                    assert(more[i as int] == u);
                }
            }
            match self.headers.remove(&u) {
                Some(h) => {
                    kept.insert(u, h);
                    assert(kept@ =~= all.restrict(more.to_set()));
                },
                None => {
                    assert(kept@ =~= all.restrict(more.to_set()));
                },
            }
            assert(self.headers@ =~= all.remove_keys(more.to_set()));
            i += 1;
        }
        assert(window@.take(i as int) =~= window@);
        self.headers = kept;
        assert(self@.headers =~= old(self)@.headers.restrict(window@.to_set()));
    }

    fn lacking_headers(&self, window: &[u32]) -> (out: Vec<u32>)
        ensures
            out@ == lacking(window@, self@.headers.dom()),
    {
        let mut out: Vec<u32> = Vec::new();
        let mut i: usize = 0;
        assert(self@.headers.dom() =~= self.headers@.dom());
        while i < window.len()
            invariant
                i <= window.len(),
                self@.headers.dom() == self.headers@.dom(),
                out@ == lacking(window@.take(i as int), self@.headers.dom()),
            decreases window.len() - i,
        {
            assert(window@.take(i + 1).drop_last() =~= window@.take(i as int));
            if !self.headers.contains_key(&window[i]) {
                out.push(window[i]);
            }
            i += 1;
        }
        assert(window@.take(i as int) =~= window@);
        out
    }

    fn take_headers(&mut self, list: Vec<Fetched>) -> (seen: HashMap<u32, bool>)
        ensures
            seen@ == flags_after(Map::<u32, bool>::empty(), answer(list@)),
            final(self)@ == (FolderView {
                headers: headers_after(old(self)@.headers, answer(list@)),
                ..old(self)@
            }),
    {
        let mut seen: HashMap<u32, bool> = HashMap::new();
        let ghost all = answer(list@);
        let ghost was = self@.headers;
        assert(seen@ =~= flags_after(Map::<u32, bool>::empty(), all.take(0)));
        for f in it: list.into_iter()
            invariant
                it.seq() == list@,
                all == answer(list@),
                was == old(self)@.headers,
                self.name == old(self).name,
                self.validity == old(self).validity,
                self.known == old(self).known,
                self.current == old(self).current,
                seen@ == flags_after(Map::<u32, bool>::empty(), all.take(it.index() as int)),
                header_views(self.headers@) == headers_after(was, all.take(it.index() as int)),
        {
            let ghost i = it.index() as int;
            assert(all.take(i + 1).drop_last() =~= all.take(i));
            assert(all.take(i + 1).last() == f@);
            if let Some(u) = f.uid {
                seen.insert(u, f.seen);
                if let Some(h) = f.header {
                    let ghost before = header_views(self.headers@);
                    self.headers.insert(u, h);
                    assert(header_views(self.headers@) =~= before.insert(u, h@));
                }
            }
        }
        assert(all.take(all.len() as int) =~= all);
        seen
    }
}

fn lacking_flags(seen: &HashMap<u32, bool>, window: &[u32]) -> (out: Vec<u32>)
    ensures
        out@ == lacking(window@, seen@.dom()),
{
    let mut out: Vec<u32> = Vec::new();
    let mut i: usize = 0;
    while i < window.len()
        invariant
            i <= window.len(),
            out@ == lacking(window@.take(i as int), seen@.dom()),
        decreases window.len() - i,
    {
        assert(window@.take(i + 1).drop_last() =~= window@.take(i as int));
        if !seen.contains_key(&window[i]) {
            out.push(window[i]);
        }
        i += 1;
    }
    assert(window@.take(i as int) =~= window@);
    out
}

fn take_flags(seen: &mut HashMap<u32, bool>, list: &[Fetched])
    ensures
        final(seen)@ == flags_after(old(seen)@, answer(list@)),
{
    let ghost all = answer(list@);
    let mut i: usize = 0;
    while i < list.len()
        invariant
            i <= list.len(),
            all == answer(list@),
            seen@ == flags_after(old(seen)@, all.take(i as int)),
        decreases list.len() - i,
    {
        assert(all.take(i + 1).drop_last() =~= all.take(i as int));
        assert(all.take(i + 1).last() == list@[i as int]@);
        if let Some(u) = list[i].uid {
            seen.insert(u, list[i].seen);
        }
        i += 1;
    }
    assert(all.take(i as int) =~= all);
}

impl AccountSync {
    /// The start of the first round over `folders`, with at most `limit` mails of each, where
    /// zero means no limit.
    pub fn new(account: &str, limit: usize, folders: Vec<String>) -> (sync: AccountSync)
        ensures
            sync@ == first_round(account@, limit as nat, text::texts(folders@)),
            sync@.well_formed(),
    {
        let ghost names = text::texts(folders@);
        let ghost fresh = names.map_values(|n: Seq<char>| unknown_folder(n));
        let mut list: Vec<FolderSync> = Vec::new();
        assert(folder_views(list@) =~= fresh.take(0));
        for name in it: folders.into_iter()
            invariant
                it.seq() == folders@,
                names == text::texts(folders@),
                fresh == names.map_values(|n: Seq<char>| unknown_folder(n)),
                folder_views(list@) == fresh.take(it.index() as int),
        {
            let ghost before = folder_views(list@);
            let ghost i = it.index() as int;
            assert(names[i] == name@);
            let f = FolderSync::new(name);
            list.push(f);
            assert(folder_views(list@) =~= before.push(f@));
            assert(fresh.take(i + 1) =~= before.push(fresh[i]));
        }
        assert(fresh.take(fresh.len() as int) =~= fresh);
        let phase = if list.len() > 0 {
            Phase::Open
        } else {
            Phase::Publish
        };
        let sync = AccountSync {
            account: account.to_owned(),
            limit,
            folders: list,
            first: true,
            at: 0,
            phase,
            mails: Vec::new(),
        };
        assert(sync@.mails =~= Seq::<MailView>::empty());
        sync
    }

    /// What to do next.
    pub fn action(&self) -> (action: Action)
        requires
            self@.well_formed(),
        ensures
            action@ == self@.action(),
    {
        match &self.phase {
            Phase::Open => {
                assert(self.folders@[self.at as int]@ == folder_views(
                    self.folders@,
                )[self.at as int]);
                Action::Open(self.folders[self.at].name.clone())
            },
            Phase::Search => Action::Search,
            Phase::Headers(window) => {
                assert(self.folders@[self.at as int]@ == folder_views(
                    self.folders@,
                )[self.at as int]);
                let missing = self.folders[self.at].lacking_headers(window);
                Action::Fetch {
                    set: write_uids(&missing),
                    items: "(FLAGS RFC822.HEADER)".to_owned(),
                }
            },
            Phase::Flags(window, seen) => {
                let missing = lacking_flags(seen, window);
                Action::Fetch { set: write_uids(&missing), items: "FLAGS".to_owned() }
            },
            Phase::Publish => Action::Publish,
            Phase::Wait => Action::Wait("INBOX".to_owned()),
        }
    }

    fn go_to_next_folder(&mut self)
        requires
            0 <= old(self)@.at < old(self)@.folders.len(),
        ensures
            final(self)@ == old(self)@.next_folder(),
    {
        assert(self.at < self.folders.len());
        self.at = self.at + 1;
        self.phase = if self.at < self.folders.len() {
            Phase::Open
        } else {
            Phase::Publish
        };
    }

    fn finish_folder(&mut self, window: Vec<u32>, seen: HashMap<u32, bool>) -> (notices: Vec<
        Notice,
    >)
        requires
            0 <= old(self)@.at < old(self)@.folders.len(),
        ensures
            (final(self)@, notice_views(notices@)) == old(self)@.finished(window@, seen@),
    {
        let ghost was = self@;
        let ghost f = was.folder();
        let mut notices: Vec<Notice> = Vec::new();
        let mut current: HashSet<u32> = HashSet::new();
        let mut i: usize = 0;
        assert(self.folders@[self.at as int]@ == f);
        proof {
            assert(notice_views(notices@) =~= notices_for(
                was.account,
                f.name,
                announced(window@.take(0), f.headers, seen@, was.first, f.known),
                f.headers,
            ));
            assert(was.mails =~= was.mails + mails_in(
                was.account,
                f.name,
                window@.take(0),
                f.headers,
                seen@,
            ));
            assert(current@ =~= unread_in(window@.take(0), f.headers, seen@));
        }
        while i < window.len()
            invariant
                i <= window.len(),
                self.at < self.folders.len(),
                self.account == old(self).account,
                self.limit == old(self).limit,
                self.folders == old(self).folders,
                self.first == old(self).first,
                self.at == old(self).at,
                was == old(self)@,
                was.first == self.first,
                was.account == self.account@,
                self.folders@[self.at as int]@ == f,
                notice_views(notices@) == notices_for(
                    was.account,
                    f.name,
                    announced(window@.take(i as int), f.headers, seen@, was.first, f.known),
                    f.headers,
                ),
                state::mail_views(self.mails@) == was.mails + mails_in(
                    was.account,
                    f.name,
                    window@.take(i as int),
                    f.headers,
                    seen@,
                ),
                current@ == unread_in(window@.take(i as int), f.headers, seen@),
            decreases window.len() - i,
        {
            let u: u32 = window[i];
            let ghost some = window@.take(i as int);
            let ghost more = window@.take(i + 1);
            let ghost mails0 = state::mail_views(self.mails@);
            let ghost notices0 = notice_views(notices@);
            proof {
                assert(more.drop_last() =~= some);
                assert(more.last() == u);
                assert forall|x: u32| more.contains(x) <==> some.contains(x) || x == u by {
                    if some.contains(x) {
                        let k = choose|k: int| 0 <= k < some.len() && some[k] == x;
                        assert(more[k] == x);
                    }
                    if x == u {
                        assert(more[i as int] == u);
                    }
                }
            }
            let folder = &self.folders[self.at];
            let header = folder.headers.get(&u);
            let flag = seen.get(&u);
            assert(f.headers.contains_key(u) == folder.headers@.contains_key(u));
            match (header, flag) {
                (Some(h), Some(s)) => {
                    assert(listable(f.headers, seen@, u));
                    assert(f.headers[u] == h@);
                    if !*s && !self.first && !folder.known.contains(&u) {
                        let n = make_notice(self.account.as_str(), folder.name.as_str(), h);
                        notices.push(n);
                        assert(notice_views(notices@) =~= notices0.push(n@));
                        assert(announced(more, f.headers, seen@, was.first, f.known) == announced(
                            some,
                            f.headers,
                            seen@,
                            was.first,
                            f.known,
                        ).push(u));
                    }
                    assert(notice_views(notices@) =~= notices_for(
                        was.account,
                        f.name,
                        announced(more, f.headers, seen@, was.first, f.known),
                        f.headers,
                    ));
                    let m = MailInfo {
                        account: self.account.clone(),
                        folder: folder.name.clone(),
                        uid: u,
                        from: h.from.clone(),
                        subject: h.subject.clone(),
                        date: h.date.clone(),
                        seen: *s,
                    };
                    if !*s {
                        current.insert(u);
                    }
                    assert(m@ == mail_of(was.account, f.name, u, f.headers[u], seen@[u]));
                    self.mails.push(m);
                    assert(state::mail_views(self.mails@) =~= mails0.push(m@));
                    assert(state::mail_views(self.mails@) =~= was.mails + mails_in(
                        was.account,
                        f.name,
                        more,
                        f.headers,
                        seen@,
                    ));
                },
                _ => {
                    assert(!listable(f.headers, seen@, u));
                },
            }
            assert(current@ =~= unread_in(more, f.headers, seen@));
            i += 1;
        }
        assert(window@.take(i as int) =~= window@);
        self.folders[self.at].current = current;
        proof {
            let done = FolderView { current: unread_in(window@, f.headers, seen@), ..f };
            assert(self.folders@[self.at as int]@ == done);
            assert(folder_views(self.folders@) =~= was.folders.update(was.at, done));
        }
        self.go_to_next_folder();
        notices
    }

    fn go_on_with_headers(&mut self, window: Vec<u32>, seen: HashMap<u32, bool>) -> (notices: Vec<
        Notice,
    >)
        requires
            0 <= old(self)@.at < old(self)@.folders.len(),
        ensures
            (final(self)@, notice_views(notices@)) == old(self)@.with_headers(window@, seen@),
    {
        let missing = lacking_flags(&seen, &window);
        if missing.len() > 0 {
            self.phase = Phase::Flags(window, seen);
            no_notices()
        } else {
            self.finish_folder(window, seen)
        }
    }

    fn take_uids(&mut self, uids: Vec<u32>) -> (notices: Vec<Notice>)
        requires
            0 <= old(self)@.at < old(self)@.folders.len(),
        ensures
            (final(self)@, notice_views(notices@)) == old(self)@.searched(uids@),
    {
        let ghost was = self@;
        let ghost f = was.folder();
        assert(self.folders@[self.at as int]@ == f);
        let window = window(uids, self.limit);
        self.folders[self.at].keep_only(&window);
        proof {
            let headers = f.headers.restrict(window@.to_set());
            let kept = FolderView { headers, ..f };
            assert(self.folders@[self.at as int]@ == kept);
            assert(folder_views(self.folders@) =~= was.folders.update(was.at, kept));
            assert(self@ == was.with_folder(kept));
        }
        let missing = self.folders[self.at].lacking_headers(&window);
        if missing.len() > 0 {
            self.phase = Phase::Headers(window);
            no_notices()
        } else {
            let seen: HashMap<u32, bool> = HashMap::new();
            assert(seen@ =~= Map::<u32, bool>::empty());
            self.go_on_with_headers(window, seen)
        }
    }

    /// Takes in what the server answered, and returns the notices of new mails. An answer that
    /// was not asked for changes nothing.
    pub fn step(&mut self, event: Event) -> (notices: Vec<Notice>)
        requires
            old(self)@.well_formed(),
        ensures
            (final(self)@, notice_views(notices@)) == old(self)@.stepped(event@),
            final(self)@.well_formed(),
    {
        let ghost was = self@;
        let ghost f = was.folder();
        proof {
            if 0 <= was.at < was.folders.len() {
                assert(self.folders@[self.at as int]@ == f);
            }
        }
        let mut phase = Phase::Wait;
        std::mem::swap(&mut phase, &mut self.phase);
        match (phase, event) {
            (Phase::Open, Event::Opened(validity)) => {
                self.folders[self.at].open(validity);
                assert(folder_views(self.folders@) =~= was.folders.update(
                    was.at,
                    opened(f, validity),
                ));
                self.phase = Phase::Search;
                no_notices()
            },
            (Phase::Open, Event::Refused) => {
                self.go_to_next_folder();
                no_notices()
            },
            (Phase::Search, Event::Refused) => {
                self.go_to_next_folder();
                no_notices()
            },
            (Phase::Search, Event::Found(uids)) => {
                self.phase = Phase::Search;
                if uids.len() == 0 {
                    self.folders[self.at].forget();
                    proof {
                        let bare = FolderView { headers: Map::<u32, HeaderView>::empty(), ..f };
                        assert(folder_views(self.folders@) =~= was.folders.update(was.at, bare));
                    }
                    self.go_to_next_folder();
                    no_notices()
                } else {
                    assert(self@ == was);
                    self.take_uids(uids)
                }
            },
            (Phase::Headers(window), Event::Fetched(list)) => {
                let seen = self.folders[self.at].take_headers(list);
                proof {
                    let full = FolderView {
                        headers: headers_after(f.headers, answer(list@)),
                        ..f
                    };
                    assert(folder_views(self.folders@) =~= was.folders.update(was.at, full));
                }
                self.go_on_with_headers(window, seen)
            },
            (Phase::Flags(window, mut seen), Event::Fetched(list)) => {
                take_flags(&mut seen, &list);
                self.finish_folder(window, seen)
            },
            (Phase::Wait, Event::Woken) => {
                self.at = 0;
                self.phase = if self.folders.len() > 0 {
                    Phase::Open
                } else {
                    Phase::Publish
                };
                no_notices()
            },
            (phase, _) => {
                self.phase = phase;
                assert(self@ == was);
                no_notices()
            },
        }
    }

    /// At the end of a round, puts its mails into the state, with the time `now`, and tells
    /// subscribers; what follows is the wait for the next round. Before the end of a round
    /// nothing changes.
    pub fn publish(&mut self, state: &mut DaemonState, notifier: &mut Notifier, now: String)
        requires
            old(self)@.well_formed(),
        ensures
            final(self)@.well_formed(),
            if old(self)@.phase is Publish {
                &&& final(self)@ == old(self)@.rounded()
                &&& final(state)@ == state::listed_anew(
                    old(state)@,
                    old(self)@.account,
                    old(self)@.mails,
                    old(self)@.limit,
                    now@,
                )
                &&& final(notifier).version == state::next_version(old(notifier).version)
            } else {
                &&& final(self)@ == old(self)@
                &&& final(state)@ == old(state)@
                &&& final(notifier).version == old(notifier).version
            },
    {
        let over = match &self.phase {
            Phase::Publish => true,
            _ => false,
        };
        if !over {
            return;
        }
        let ghost was = self@;
        let mut mails: Vec<MailInfo> = Vec::new();
        std::mem::swap(&mut mails, &mut self.mails);
        state::list_anew(state, notifier, self.account.as_str(), mails, self.limit, now);
        assert(self@.mails =~= Seq::<MailView>::empty());
        let ghost done = was.rounded().folders;
        let mut i: usize = 0;
        while i < self.folders.len()
            invariant
                i <= self.folders.len(),
                self.account == old(self).account,
                self.limit == old(self).limit,
                self.at == old(self).at,
                self@.mails == Seq::<MailView>::empty(),
                self.folders@.len() == was.folders.len(),
                done == was.rounded().folders,
                forall|k: int| 0 <= k < i ==> (#[trigger] self.folders@[k])@ == done[k],
                forall|k: int|
                    i <= k < was.folders.len() ==> (#[trigger] self.folders@[k])@
                        == was.folders[k],
            decreases self.folders.len() - i,
        {
            let mut current: HashSet<u32> = HashSet::new();
            assert(current@ =~= Set::<u32>::empty());
            std::mem::swap(&mut current, &mut self.folders[i].current);
            self.folders[i].known = current;
            i += 1;
        }
        assert(folder_views(self.folders@) =~= done);
        self.first = false;
        self.phase = Phase::Wait;
    }
}

fn no_notices() -> (none: Vec<Notice>)
    ensures
        notice_views(none@) == Seq::<NoticeView>::empty(),
{
    let none: Vec<Notice> = Vec::new();
    assert(notice_views(none@) =~= Seq::<NoticeView>::empty());
    none
}

// ---------------------------------------------------------------------------
// The end of a session
// ---------------------------------------------------------------------------

/// How long to wait before an account is connected again, in seconds.
pub const RETRY_SECS: u64 = 10;

/// How the connection to an account ended.
#[derive(Debug, Clone)]
pub enum SessionEnd {
    /// It was closed.
    Closed,
    /// It failed, with this message.
    Failed(String),
    /// The work on it was broken off by a fault of the program.
    Panicked,
}

/// What is wrong with an account whose connection ended.
pub open spec fn fault(end: SessionEnd) -> Option<Seq<char>> {
    match end {
        SessionEnd::Closed => None,
        SessionEnd::Failed(message) => Some(message@),
        SessionEnd::Panicked => Some("内部错误(panic)，已自动重启该账户"@),
    }
}

/// Records how the connection to an account ended, unless it was just closed.
pub fn end_session(
    state: &mut DaemonState,
    notifier: &mut Notifier,
    account: &str,
    end: SessionEnd,
)
    ensures
        match fault(end) {
            Some(message) => {
                &&& final(state)@ == (DaemonStateView {
                    errors: state::errors_but(old(state)@.errors, account@).push(
                        (state::AccountErrorView { account: account@, message }),
                    ),
                    ..old(state)@
                })
                &&& final(notifier).version == state::next_version(old(notifier).version)
            },
            None => final(state)@ == old(state)@ && final(notifier).version
                == old(notifier).version,
        },
{
    match end {
        SessionEnd::Closed => {},
        SessionEnd::Failed(message) => {
            state::set_account_error(state, notifier, account, message);
        },
        SessionEnd::Panicked => {
            state::set_account_error(
                state,
                notifier,
                account,
                "内部错误(panic)，已自动重启该账户".to_owned(),
            );
        },
    }
}

// ---------------------------------------------------------------------------
// What holds of every round
// ---------------------------------------------------------------------------

/// A mail is announced exactly when it is listed as unread, was not known to be unread, and the
/// round is not the first.
pub proof fn lemma_announced(
    window: Seq<u32>,
    headers: Map<u32, HeaderView>,
    seen: Map<u32, bool>,
    first: bool,
    known: Set<u32>,
    u: u32,
)
    ensures
        announced(window, headers, seen, first, known).contains(u) <==> unread(
            window,
            headers,
            seen,
            u,
        ) && !first && !known.contains(u),
    decreases window.len(),
{
    if window.len() > 0 {
        let head = window.drop_last();
        let rest = announced(head, headers, seen, first, known);
        let out = announced(window, headers, seen, first, known);
        lemma_announced(head, headers, seen, first, known, u);
        if out.contains(u) {
            let i = choose|i: int| 0 <= i < out.len() && out[i] == u;
            if i < rest.len() {
                assert(rest[i] == u);
                let j = choose|j: int| 0 <= j < head.len() && head[j] == u;
                assert(window[j] == u);
            } else {
                assert(window[window.len() - 1] == u);
            }
        }
        if unread(window, headers, seen, u) && !first && !known.contains(u) {
            let i = choose|i: int| 0 <= i < window.len() && window[i] == u;
            if i < head.len() {
                assert(head[i] == u);
                let j = choose|j: int| 0 <= j < rest.len() && rest[j] == u;
                assert(out[j] == u);
            } else {
                assert(out[out.len() - 1] == u);
            }
        }
    }
}

/// A mail that was listed as unread in one round is not announced in the next one.
pub proof fn lemma_not_announced_twice(
    s: SyncView,
    i: int,
    window: Seq<u32>,
    headers: Map<u32, HeaderView>,
    seen: Map<u32, bool>,
    u: u32,
)
    requires
        0 <= i < s.folders.len(),
        s.folders[i].current.contains(u),
    ensures
        !announced(
            window,
            headers,
            seen,
            s.rounded().first,
            s.rounded().folders[i].known,
        ).contains(u),
{
    lemma_announced(window, headers, seen, s.rounded().first, s.rounded().folders[i].known, u);
}

proof fn lemma_silent(
    window: Seq<u32>,
    headers: Map<u32, HeaderView>,
    seen: Map<u32, bool>,
    known: Set<u32>,
)
    ensures
        announced(window, headers, seen, true, known).len() == 0,
    decreases window.len(),
{
    if window.len() > 0 {
        lemma_silent(window.drop_last(), headers, seen, known);
    }
}

proof fn lemma_finished(s: SyncView, window: Seq<u32>, seen: Map<u32, bool>)
    requires
        0 <= s.at < s.folders.len(),
        own_mails(s),
    ensures
        keeps(s, s.finished(window, seen).0),
        own_mails(s.finished(window, seen).0),
        s.first ==> s.finished(window, seen).1.len() == 0,
{
    let f = s.folder();
    let fresh = mails_in(s.account, f.name, window, f.headers, seen);
    lemma_mails_in(s.account, f.name, window, f.headers, seen);
    let out = s.finished(window, seen).0;
    assert forall|k: int| 0 <= k < out.mails.len() implies (#[trigger] out.mails[k]).account
        == out.account by {
        if k < s.mails.len() {
            assert(out.mails[k] == s.mails[k]);
        } else {
            assert(out.mails[k] == fresh[k - s.mails.len()]);
        }
    }
    lemma_silent(window, f.headers, seen, f.known);
}

/// The mails of a folder are mails of the window, no more than it holds, each with the header
/// and the flag that are known of it.
pub proof fn lemma_mails_in(
    account: Seq<char>,
    folder: Seq<char>,
    window: Seq<u32>,
    headers: Map<u32, HeaderView>,
    seen: Map<u32, bool>,
)
    ensures
        mails_in(account, folder, window, headers, seen).len() <= window.len(),
        forall|k: int|
            0 <= k < mails_in(account, folder, window, headers, seen).len() ==> {
                let m = #[trigger] mails_in(account, folder, window, headers, seen)[k];
                &&& window.contains(m.uid)
                &&& m == mail_of(account, folder, m.uid, headers[m.uid], seen[m.uid])
            },
    decreases window.len(),
{
    if window.len() > 0 {
        let head = window.drop_last();
        let rest = mails_in(account, folder, head, headers, seen);
        let out = mails_in(account, folder, window, headers, seen);
        lemma_mails_in(account, folder, head, headers, seen);
        assert forall|k: int| 0 <= k < out.len() implies {
            let m = #[trigger] out[k];
            &&& window.contains(m.uid)
            &&& m == mail_of(account, folder, m.uid, headers[m.uid], seen[m.uid])
        } by {
            if k < rest.len() {
                assert(out[k] == rest[k]);
                let j = choose|j: int| 0 <= j < head.len() && head[j] == out[k].uid;
                assert(window[j] == out[k].uid);
            } else {
                assert(window[window.len() - 1] == out[k].uid);
            }
        }
    }
}

/// Between two moments of a session the account, the limit and the names of the folders stay.
pub open spec fn keeps(s: SyncView, t: SyncView) -> bool {
    &&& t.account == s.account
    &&& t.limit == s.limit
    &&& t.first == s.first
    &&& t.folders.len() == s.folders.len()
    &&& forall|i: int|
        0 <= i < s.folders.len() ==> (#[trigger] t.folders[i]).name == s.folders[i].name
            && t.folders[i].known == s.folders[i].known
}

/// All mails of the round are of the account.
pub open spec fn own_mails(s: SyncView) -> bool {
    forall|k: int| 0 <= k < s.mails.len() ==> (#[trigger] s.mails[k]).account == s.account
}

/// No event changes the account, the limit, the folders that are watched or what is known from
/// the last round; every mail that is listed is of the account; and in the first round nothing
/// is announced.
pub proof fn lemma_step_keeps(s: SyncView, e: EventView)
    requires
        s.well_formed(),
        own_mails(s),
    ensures
        keeps(s, s.stepped(e).0),
        own_mails(s.stepped(e).0),
        s.first ==> s.stepped(e).1.len() == 0,
{
    match (s.phase, e) {
        (PhaseView::Search, EventView::Found(uids)) => {
            if uids.len() > 0 {
                let window = window_of(uids, s.limit);
                let f = s.folder();
                let headers = f.headers.restrict(window.to_set());
                let next = s.with_folder(FolderView { headers, ..f });
                lemma_finished(next, window, Map::<u32, bool>::empty());
            }
        },
        (PhaseView::Headers { window }, EventView::Fetched(list)) => {
            let f = s.folder();
            let next = s.with_folder(
                FolderView { headers: headers_after(f.headers, list), ..f },
            );
            lemma_finished(next, window, flags_after(Map::<u32, bool>::empty(), list));
        },
        (PhaseView::Flags { window, seen }, EventView::Fetched(list)) => {
            lemma_finished(s, window, flags_after(seen, list));
        },
        _ => {},
    }
}

/// At the end of a round the mails of all other accounts stay in the list, which stays in order.
pub proof fn lemma_publish_keeps_other_accounts(
    s: SyncView,
    state: DaemonStateView,
    now: Seq<char>,
    m: MailView,
)
    requires
        own_mails(s),
        m.account != s.account,
    ensures
        state::listed_anew(state, s.account, s.mails, s.limit, now).unread_mails.contains(m)
            <==> state.unread_mails.contains(m),
        state::newest_first(
            state::listed_anew(state, s.account, s.mails, s.limit, now).unread_mails,
        ),
{
    state::lemma_listing_anew(state, s.account, s.mails, s.limit, now, m);
}

/// No header is fetched that is there already, and every one that is not is asked for.
pub proof fn lemma_headers_are_fetched_once(s: SyncView, uids: Seq<u32>, u: u32)
    requires
        s.well_formed(),
        s.phase is Search,
        uids.len() > 0,
        s.searched(uids).0.phase is Headers,
    ensures
        ({
            let window = window_of(uids, s.limit);
            let next = s.searched(uids).0;
            lacking(window, next.folder().headers.dom()).contains(u) <==> window.contains(u)
                && !s.folder().headers.contains_key(u)
        }),
{
    let window = window_of(uids, s.limit);
    let next = s.searched(uids).0;
    lemma_lacking(window, next.folder().headers.dom(), u);
    assert(window.to_set().contains(u) <==> window.contains(u));
}

// ---------------------------------------------------------------------------
// What holds of whole rounds
// ---------------------------------------------------------------------------

/// What a server answers while one folder is visited: its UIDVALIDITY, if the folder can be
/// opened; its uids, if it can be searched; and the answers to the two fetches, as far as they
/// are made.
pub struct FolderAnswer {
    pub validity: Option<Option<u32>>,
    pub uids: Option<Seq<u32>>,
    pub first: Seq<FetchedView>,
    pub second: Seq<FetchedView>,
}

impl FolderAnswer {
    /// The answer to the opening of the folder.
    pub open spec fn opening(self) -> EventView {
        match self.validity {
            Some(v) => EventView::Opened(v),
            None => EventView::Refused,
        }
    }

    /// The answer to the search of the folder.
    pub open spec fn finding(self) -> EventView {
        match self.uids {
            Some(uids) => EventView::Found(uids),
            None => EventView::Refused,
        }
    }

    /// The folder could be opened and searched, and it is not empty.
    pub open spec fn shows_mails(self) -> bool {
        self.validity is Some && self.uids is Some && self.uids->0.len() > 0
    }

    /// The uids that are listed of the folder.
    pub open spec fn window(self, limit: nat) -> Seq<u32> {
        window_of(self.uids->0, limit)
    }

    /// The headers of the folder that are known before anything is fetched.
    pub open spec fn kept_headers(self, f: FolderView, limit: nat) -> Map<u32, HeaderView> {
        opened(f, self.validity->0).headers.restrict(self.window(limit).to_set())
    }

    /// Headers are lacking.
    pub open spec fn lacks_headers(self, f: FolderView, limit: nat) -> bool {
        lacking(self.window(limit), self.kept_headers(f, limit).dom()).len() > 0
    }

    /// The headers of the folder that are known once they were fetched.
    pub open spec fn headers(self, f: FolderView, limit: nat) -> Map<u32, HeaderView> {
        if self.lacks_headers(f, limit) {
            headers_after(self.kept_headers(f, limit), self.first)
        } else {
            self.kept_headers(f, limit)
        }
    }

    /// The flags that came with the headers.
    pub open spec fn early_flags(self, f: FolderView, limit: nat) -> Map<u32, bool> {
        if self.lacks_headers(f, limit) {
            flags_after(Map::<u32, bool>::empty(), self.first)
        } else {
            Map::<u32, bool>::empty()
        }
    }

    /// The flags of the folder's mails.
    pub open spec fn flags(self, f: FolderView, limit: nat) -> Map<u32, bool> {
        let early = self.early_flags(f, limit);
        if lacking(self.window(limit), early.dom()).len() > 0 {
            flags_after(early, self.second)
        } else {
            early
        }
    }

    /// The mails that the folder shows.
    pub open spec fn mails(self, account: Seq<char>, f: FolderView, limit: nat) -> Seq<MailView> {
        if self.shows_mails() {
            mails_in(
                account,
                f.name,
                self.window(limit),
                self.headers(f, limit),
                self.flags(f, limit),
            )
        } else {
            Seq::<MailView>::empty()
        }
    }

    /// The uids of the mails that the folder shows as unread.
    pub open spec fn unread(self, f: FolderView, limit: nat) -> Set<u32> {
        if self.shows_mails() {
            unread_in(self.window(limit), self.headers(f, limit), self.flags(f, limit))
        } else {
            Set::<u32>::empty()
        }
    }

    /// The uids of the mails of the folder that are announced.
    pub open spec fn announced(self, f: FolderView, limit: nat, first: bool) -> Seq<u32> {
        if self.shows_mails() {
            announced(
                self.window(limit),
                self.headers(f, limit),
                self.flags(f, limit),
                first,
                f.known,
            )
        } else {
            Seq::<u32>::empty()
        }
    }

    /// The notices of the folder.
    pub open spec fn notices(
        self,
        account: Seq<char>,
        f: FolderView,
        limit: nat,
        first: bool,
    ) -> Seq<NoticeView> {
        notices_for(account, f.name, self.announced(f, limit, first), self.headers(f, limit))
    }
}

/// One more event behind what has come of a session so far.
pub open spec fn after(so_far: (SyncView, Seq<NoticeView>), e: EventView) -> (
    SyncView,
    Seq<NoticeView>,
) {
    let next = so_far.0.stepped(e);
    (next.0, so_far.1 + next.1)
}

/// What comes of the visit to the next folder: the session takes in what the server answers to
/// each of its questions.
pub open spec fn visited(s: SyncView, a: FolderAnswer) -> (SyncView, Seq<NoticeView>) {
    let tried = after((s, Seq::<NoticeView>::empty()), a.opening());
    if a.validity is None {
        tried
    } else {
        let found = after(tried, a.finding());
        let read = if found.0.phase is Headers {
            after(found, EventView::Fetched(a.first))
        } else {
            found
        };
        if read.0.phase is Flags {
            after(read, EventView::Fetched(a.second))
        } else {
            read
        }
    }
}

/// What comes of a round, in which the server gives one answer for each folder.
pub open spec fn round(s: SyncView, answers: Seq<FolderAnswer>) -> (SyncView, Seq<NoticeView>)
    decreases answers.len(),
{
    if answers.len() == 0 {
        (s, Seq::<NoticeView>::empty())
    } else {
        let head = round(s, answers.drop_last());
        let last = visited(head.0, answers.last());
        (last.0, head.1 + last.1)
    }
}

/// The mails that the server shows in a round, folder by folder.
pub open spec fn round_mails(s: SyncView, answers: Seq<FolderAnswer>) -> Seq<MailView>
    decreases answers.len(),
{
    if answers.len() == 0 {
        Seq::<MailView>::empty()
    } else {
        let i = answers.len() - 1;
        round_mails(s, answers.drop_last()) + answers.last().mails(
            s.account,
            s.folders[i],
            s.limit,
        )
    }
}

/// The notices of a round, folder by folder.
pub open spec fn round_notices(s: SyncView, answers: Seq<FolderAnswer>) -> Seq<NoticeView>
    decreases answers.len(),
{
    if answers.len() == 0 {
        Seq::<NoticeView>::empty()
    } else {
        let i = answers.len() - 1;
        round_notices(s, answers.drop_last()) + answers.last().notices(
            s.account,
            s.folders[i],
            s.limit,
            s.first,
        )
    }
}

/// A round begins.
pub open spec fn begins(s: SyncView) -> bool {
    &&& s.at == 0
    &&& s.phase == (if s.folders.len() > 0 {
        PhaseView::Open
    } else {
        PhaseView::Publish
    })
    &&& s.mails.len() == 0
    &&& forall|i: int|
        0 <= i < s.folders.len() ==> (#[trigger] s.folders[i]).current == Set::<u32>::empty()
}

/// A session begins with the first round.
pub proof fn lemma_session_begins(account: Seq<char>, limit: nat, folders: Seq<Seq<char>>)
    ensures
        begins(first_round(account, limit, folders)),
        first_round(account, limit, folders).first,
{
}

/// Two folders are the same but for what was fetched of them and what is unread in them.
pub open spec fn same_folder(f: FolderView, g: FolderView) -> bool {
    f.name == g.name && f.known == g.known
}

proof fn lemma_finished_visit(
    s: SyncView,
    headers: Map<u32, HeaderView>,
    window: Seq<u32>,
    seen: Map<u32, bool>,
)
    requires
        0 <= s.at < s.folders.len(),
        s.folder().headers == headers,
    ensures
        ({
            let f = s.folder();
            let t = s.finished(window, seen).0;
            &&& t.account == s.account && t.limit == s.limit && t.first == s.first
            &&& t.at == s.at + 1
            &&& t.phase == s.next_folder().phase
            &&& t.folders == s.folders.update(
                s.at,
                FolderView { current: unread_in(window, headers, seen), ..f },
            )
            &&& t.mails == s.mails + mails_in(s.account, f.name, window, headers, seen)
        }),
{
}

proof fn lemma_visited(s: SyncView, a: FolderAnswer)
    requires
        s.phase is Open,
        0 <= s.at < s.folders.len(),
        s.folder().current == Set::<u32>::empty(),
    ensures
        ({
            let f = s.folder();
            let (t, notices) = visited(s, a);
            &&& t.account == s.account && t.limit == s.limit && t.first == s.first
            &&& t.at == s.at + 1
            &&& t.phase == s.next_folder().phase
            &&& t.folders.len() == s.folders.len()
            &&& forall|j: int|
                0 <= j < s.folders.len() && j != s.at ==> #[trigger] t.folders[j] == s.folders[j]
            &&& same_folder(t.folders[s.at], f)
            &&& t.folders[s.at].current == a.unread(f, s.limit)
            &&& t.mails == s.mails + a.mails(s.account, f, s.limit)
            &&& notices == a.notices(s.account, f, s.limit, s.first)
        }),
{
    let none = Seq::<NoticeView>::empty();
    let f = s.folder();
    let (t, notices) = visited(s, a);
    assert(none + none =~= none);
    assert(s.mails + Seq::<MailView>::empty() =~= s.mails);
    let tried = after((s, none), a.opening());
    if a.validity is None {
        assert(notices =~= a.notices(s.account, f, s.limit, s.first));
    } else {
        let o = opened(f, a.validity->0);
        let s1 = s.with_folder(o).in_phase(PhaseView::Search);
        assert(tried.0 == s1);
        assert(tried.1 =~= none);
        assert(s1.folder() == o);
        let found = after(tried, a.finding());
        if !a.shows_mails() {
            assert(notices =~= a.notices(s.account, f, s.limit, s.first));
        } else {
            let uids = a.uids->0;
            let w = a.window(s.limit);
            let kept = a.kept_headers(f, s.limit);
            let s2 = s1.with_folder(FolderView { headers: kept, ..o });
            assert(s2.folder() == (FolderView { headers: kept, ..o }));
            assert(s1.stepped(a.finding()) == s1.searched(uids));
            let h = a.headers(f, s.limit);
            let early = a.early_flags(f, s.limit);
            let seen = a.flags(f, s.limit);
            if a.lacks_headers(f, s.limit) {
                let s3 = s2.in_phase(PhaseView::Headers { window: w });
                assert(found.0 == s3);
                assert(found.1 =~= none);
                let s4 = s3.with_folder(FolderView { headers: h, ..s3.folder() });
                assert(s4.folder() == (FolderView { headers: h, ..o }));
                let read = after(found, EventView::Fetched(a.first));
                assert(s3.stepped(EventView::Fetched(a.first)) == s4.with_headers(w, early));
                if lacking(w, early.dom()).len() > 0 {
                    let s5 = s4.in_phase(PhaseView::Flags { window: w, seen: early });
                    assert(read.0 == s5);
                    assert(read.1 =~= none);
                    assert(s5.stepped(EventView::Fetched(a.second)) == s5.finished(w, seen));
                    lemma_finished_visit(s5, h, w, seen);
                    assert(notices =~= s5.finished(w, seen).1);
                    assert(t == s5.finished(w, seen).0);
                } else {
                    lemma_finished_visit(s4, h, w, seen);
                    assert(notices =~= s4.finished(w, seen).1);
                    assert(t == s4.finished(w, seen).0);
                }
            } else {
                assert(s1.searched(uids) == s2.with_headers(w, early));
                if lacking(w, early.dom()).len() > 0 {
                    let s5 = s2.in_phase(PhaseView::Flags { window: w, seen: early });
                    assert(found.0 == s5);
                    assert(found.1 =~= none);
                    assert(s5.stepped(EventView::Fetched(a.second)) == s5.finished(w, seen));
                    lemma_finished_visit(s5, h, w, seen);
                    assert(notices =~= s5.finished(w, seen).1);
                    assert(t == s5.finished(w, seen).0);
                } else {
                    lemma_finished_visit(s2, h, w, seen);
                    assert(notices =~= s2.finished(w, seen).1);
                    assert(t == s2.finished(w, seen).0);
                }
            }
        }
    }
}

/// The state of a session after some of the folders of a round were visited.
spec fn visited_some(s: SyncView, answers: Seq<FolderAnswer>, t: SyncView) -> bool {
    let k = answers.len();
    &&& t.account == s.account && t.limit == s.limit && t.first == s.first
    &&& t.at == k
    &&& t.phase == (if k < s.folders.len() {
        PhaseView::Open
    } else {
        PhaseView::Publish
    })
    &&& t.folders.len() == s.folders.len()
    &&& t.mails == s.mails + round_mails(s, answers)
    &&& forall|j: int|
        0 <= j < k ==> same_folder(#[trigger] t.folders[j], s.folders[j]) && t.folders[j].current
            == answers[j].unread(s.folders[j], s.limit)
    &&& forall|j: int| k <= j < s.folders.len() ==> #[trigger] t.folders[j] == s.folders[j]
}

proof fn lemma_round(s: SyncView, answers: Seq<FolderAnswer>)
    requires
        begins(s),
        answers.len() <= s.folders.len(),
    ensures
        visited_some(s, answers, round(s, answers).0),
        round(s, answers).1 == round_notices(s, answers),
    decreases answers.len(),
{
    if answers.len() == 0 {
        assert(s.mails + round_mails(s, answers) =~= s.mails);
    } else {
        let head = answers.drop_last();
        lemma_round(s, head);
        let (u, _) = round(s, head);
        let (t, _) = round(s, answers);
        let i = answers.len() - 1;
        assert(u.folders[i] == s.folders[i]);
        lemma_visited(u, answers.last());
        assert(t.mails =~= s.mails + round_mails(s, answers));
        assert forall|j: int| 0 <= j < answers.len() implies same_folder(
            #[trigger] t.folders[j],
            s.folders[j],
        ) && t.folders[j].current == answers[j].unread(s.folders[j], s.limit) by {
            if j < i {
                assert(same_folder(u.folders[j], s.folders[j]));
                assert(t.folders[j] == u.folders[j]);
                assert(head[j] == answers[j]);
            }
        }
        assert forall|j: int| answers.len() <= j < s.folders.len() implies #[trigger] t.folders[j]
            == s.folders[j] by {
            assert(t.folders[j] == u.folders[j]);
        }
    }
}

/// The server shows `m` in one of the folders of a round, with this header and this flag.
pub open spec fn shown_by(s: SyncView, answers: Seq<FolderAnswer>, m: MailView) -> bool {
    exists|i: int|
        {
            &&& 0 <= i < answers.len()
            &&& (#[trigger] answers[i]).shows_mails()
            &&& answers[i].window(s.limit).contains(m.uid)
            &&& m == mail_of(
                s.account,
                s.folders[i].name,
                m.uid,
                answers[i].headers(s.folders[i], s.limit)[m.uid],
                answers[i].flags(s.folders[i], s.limit)[m.uid],
            )
        }
}

proof fn lemma_round_mails(s: SyncView, answers: Seq<FolderAnswer>, k: int)
    requires
        0 <= k < round_mails(s, answers).len(),
    ensures
        shown_by(s, answers, round_mails(s, answers)[k]),
    decreases answers.len(),
{
    let head = answers.drop_last();
    let before = round_mails(s, head);
    let m = round_mails(s, answers)[k];
    let last = answers.len() - 1;
    if k < before.len() {
        lemma_round_mails(s, head, k);
        let i = choose|i: int|
            {
                &&& 0 <= i < head.len()
                &&& (#[trigger] head[i]).shows_mails()
                &&& head[i].window(s.limit).contains(m.uid)
                &&& m == mail_of(
                    s.account,
                    s.folders[i].name,
                    m.uid,
                    head[i].headers(s.folders[i], s.limit)[m.uid],
                    head[i].flags(s.folders[i], s.limit)[m.uid],
                )
            };
        assert(answers[i] == head[i]);
    } else {
        let a = answers[last];
        let f = s.folders[last];
        lemma_mails_in(
            s.account,
            f.name,
            a.window(s.limit),
            a.headers(f, s.limit),
            a.flags(f, s.limit),
        );
        assert(m == a.mails(s.account, f, s.limit)[k - before.len()]);
        assert(a.shows_mails());
    }
}

/// After a whole round the list holds the mails of the other accounts and the newest of the
/// mails that the server showed in the round, at most `limit` of them, all in order. Every mail
/// of the account has the flag that the server gave for it. The errors stay as they are.
pub proof fn lemma_round_lists_what_the_server_shows(
    s: SyncView,
    answers: Seq<FolderAnswer>,
    state: DaemonStateView,
    now: Seq<char>,
)
    requires
        begins(s),
        answers.len() == s.folders.len(),
    ensures
        ({
            let t = round(s, answers).0;
            let shown = round_mails(s, answers);
            let list = state::listed_anew(state, t.account, t.mails, t.limit, now);
            let kept = state::newest(shown, s.limit);
            &&& t.phase is Publish
            &&& t.account == s.account && t.limit == s.limit && t.mails == shown
            &&& forall|k: int|
                0 <= k < shown.len() ==> shown_by(s, answers, #[trigger] shown[k])
            &&& state::newest_first(list.unread_mails)
            &&& list.unread_mails.to_multiset() == state::mails_but(
                state.unread_mails,
                s.account,
            ).to_multiset().add(kept.to_multiset())
            &&& list.errors == state.errors
            &&& s.limit == 0 || shown.len() <= s.limit ==> kept.to_multiset()
                == shown.to_multiset()
            &&& 0 < s.limit < shown.len() ==> kept.len() == s.limit
            &&& kept == state::by_date(shown).take(kept.len() as int)
            &&& state::newest_first(state::by_date(shown))
            &&& state::by_date(shown).to_multiset() == shown.to_multiset()
        }),
{
    lemma_round(s, answers);
    let t = round(s, answers).0;
    let shown = round_mails(s, answers);
    assert(t.mails =~= shown);
    assert forall|k: int| 0 <= k < shown.len() implies shown_by(
        s,
        answers,
        #[trigger] shown[k],
    ) by {
        lemma_round_mails(s, answers, k);
    }
    let others = state::mails_but(state.unread_mails, s.account);
    let kept = state::newest(shown, s.limit);
    state::lemma_by_date(shown);
    state::lemma_by_date(others + kept);
    vstd::seq_lib::lemma_multiset_commutative(others, kept);
    if !(0 < s.limit < shown.len()) {
        assert(kept == state::by_date(shown));
        assert(state::by_date(shown).take(kept.len() as int) =~= kept);
    }
}

proof fn lemma_first_round_notices(s: SyncView, answers: Seq<FolderAnswer>)
    requires
        s.first,
    ensures
        round_notices(s, answers).len() == 0,
    decreases answers.len(),
{
    if answers.len() > 0 {
        lemma_first_round_notices(s, answers.drop_last());
        let a = answers.last();
        let f = s.folders[answers.len() - 1];
        lemma_silent(a.window(s.limit), a.headers(f, s.limit), a.flags(f, s.limit), f.known);
    }
}

proof fn lemma_announced_once(
    window: Seq<u32>,
    headers: Map<u32, HeaderView>,
    seen: Map<u32, bool>,
    first: bool,
    known: Set<u32>,
)
    requires
        window.no_duplicates(),
    ensures
        announced(window, headers, seen, first, known).no_duplicates(),
    decreases window.len(),
{
    if window.len() > 0 {
        let head = window.drop_last();
        let u = window.last();
        let rest = announced(head, headers, seen, first, known);
        let out = announced(window, headers, seen, first, known);
        assert(head.no_duplicates());
        lemma_announced_once(head, headers, seen, first, known);
        lemma_announced(head, headers, seen, first, known, u);
        if head.contains(u) {
            let i = choose|i: int| 0 <= i < head.len() && head[i] == u;
            assert(window[i] == window[window.len() - 1]);
        }
        assert forall|i: int, j: int|
            0 <= i < out.len() && 0 <= j < out.len() && i != j implies out[i] != out[j] by {
            if i < rest.len() {
                assert(rest.contains(rest[i]));
            }
            if j < rest.len() {
                assert(rest.contains(rest[j]));
            }
        }
    }
}

proof fn lemma_window_no_duplicates(uids: Seq<u32>, limit: nat)
    requires
        uids.no_duplicates(),
    ensures
        window_of(uids, limit).no_duplicates(),
{
    let geq = |a: u32, b: u32| a >= b;
    let sorted = uids.sort_by(geq);
    uids.lemma_sort_by_ensures(geq);
    uids.lemma_multiset_has_no_duplicates();
    sorted.lemma_multiset_has_no_duplicates_conv();
}

/// Over two rounds of a session, one behind the other: in the second one a mail of a folder is
/// announced exactly when the server shows it as unread there and did not show it as unread in
/// the first, and it is announced once. The notices of the round are those of its folders, one
/// folder behind the other. In the first round of a session nothing is announced.
pub proof fn lemma_notices_over_two_rounds(
    s: SyncView,
    before: Seq<FolderAnswer>,
    answers: Seq<FolderAnswer>,
    i: int,
    u: u32,
)
    requires
        begins(s),
        before.len() == s.folders.len(),
        answers.len() == s.folders.len(),
        0 <= i < s.folders.len(),
    ensures
        ({
            let n = round(s, before).0.rounded().restarted();
            let f = n.folders[i];
            let told = answers[i].announced(f, n.limit, n.first);
            &&& begins(n)
            &&& round(s, before).1 == round_notices(s, before)
            &&& round(n, answers).1 == round_notices(n, answers)
            &&& s.first ==> round(s, before).1.len() == 0
            &&& f.name == s.folders[i].name
            &&& told.contains(u) <==> answers[i].unread(f, n.limit).contains(u)
                && !before[i].unread(s.folders[i], s.limit).contains(u)
            &&& answers[i].shows_mails() && answers[i].uids->0.no_duplicates()
                ==> told.no_duplicates()
        }),
{
    lemma_round(s, before);
    let t = round(s, before).0;
    let n = t.rounded().restarted();
    assert(n.folders.len() == s.folders.len());
    assert(same_folder(t.folders[i], s.folders[i]));
    assert(begins(n));
    lemma_round(n, answers);
    if s.first {
        lemma_first_round_notices(s, before);
    }
    let a = answers[i];
    let f = n.folders[i];
    assert(f.known == before[i].unread(s.folders[i], s.limit));
    if a.shows_mails() {
        let w = a.window(n.limit);
        let h = a.headers(f, n.limit);
        let seen = a.flags(f, n.limit);
        lemma_announced(w, h, seen, n.first, f.known, u);
        if a.uids->0.no_duplicates() {
            lemma_window_no_duplicates(a.uids->0, n.limit);
            lemma_announced_once(w, h, seen, n.first, f.known);
        }
    }
}

// ---------------------------------------------------------------------------
// What a round makes of the answers
// ---------------------------------------------------------------------------

/// As many uids are listed as the limit allows, and all where there is none or they are not more.
pub proof fn lemma_window_is_full(uids: Seq<u32>, limit: nat)
    ensures
        window_of(uids, limit).len() == (if 0 < limit < uids.len() {
            limit
        } else {
            uids.len()
        }),
        limit == 0 || uids.len() <= limit ==> window_of(uids, limit).to_multiset()
            == uids.to_multiset(),
{
    broadcast use vstd::seq_lib::group_to_multiset_ensures;

    let geq = |a: u32, b: u32| a >= b;
    let sorted = uids.sort_by(geq);
    uids.lemma_sort_by_ensures(geq);
    assert(sorted.len() == sorted.to_multiset().len());
    assert(uids.len() == uids.to_multiset().len());
}

/// The uids that are lacking are those of the window, in order, that are not there.
pub proof fn lemma_lacking_are_not_there(window: Seq<u32>, have: Set<u32>)
    ensures
        lacking(window, have) == window.filter(|u: u32| !have.contains(u)),
    decreases window.len(),
{
    reveal(Seq::filter);
    if window.len() > 0 {
        lemma_lacking_are_not_there(window.drop_last(), have);
    }
}

/// The mails of a folder are those of its window, in order, of which a header and a flag are
/// known, and nothing else decides it. Each has that header and that flag.
pub proof fn lemma_every_mail_is_listed(
    account: Seq<char>,
    folder: Seq<char>,
    window: Seq<u32>,
    headers: Map<u32, HeaderView>,
    seen: Map<u32, bool>,
)
    ensures
        mails_in(account, folder, window, headers, seen) == window.filter(
            |u: u32| headers.contains_key(u) && seen.contains_key(u),
        ).map_values(
            |u: u32|
                MailView {
                    account,
                    folder,
                    uid: u,
                    from: headers[u].from,
                    subject: headers[u].subject,
                    date: headers[u].date,
                    seen: seen[u],
                },
        ),
    decreases window.len(),
{
    reveal(Seq::filter);
    let known = |u: u32| headers.contains_key(u) && seen.contains_key(u);
    let shown = |u: u32|
        MailView {
            account,
            folder,
            uid: u,
            from: headers[u].from,
            subject: headers[u].subject,
            date: headers[u].date,
            seen: seen[u],
        };
    if window.len() > 0 {
        let head = window.drop_last();
        let u = window.last();
        lemma_every_mail_is_listed(account, folder, head, headers, seen);
        if known(u) {
            assert(window.filter(known).map_values(shown) =~= head.filter(known).map_values(
                shown,
            ).push(shown(u)));
        }
    } else {
        assert(window.filter(known).map_values(shown) =~= Seq::<MailView>::empty());
    }
}

/// A uid of the window with a header and a flag is listed, with them.
pub proof fn lemma_known_mail_is_listed(
    account: Seq<char>,
    folder: Seq<char>,
    window: Seq<u32>,
    headers: Map<u32, HeaderView>,
    seen: Map<u32, bool>,
    u: u32,
)
    requires
        window.contains(u),
        headers.contains_key(u),
        seen.contains_key(u),
    ensures
        mails_in(account, folder, window, headers, seen).contains(
            MailView {
                account,
                folder,
                uid: u,
                from: headers[u].from,
                subject: headers[u].subject,
                date: headers[u].date,
                seen: seen[u],
            },
        ),
    decreases window.len(),
{
    let head = window.drop_last();
    let rest = mails_in(account, folder, head, headers, seen);
    let out = mails_in(account, folder, window, headers, seen);
    let m = mail_of(account, folder, u, headers[u], seen[u]);
    let i = choose|i: int| 0 <= i < window.len() && window[i] == u;
    if i < head.len() {
        assert(head[i] == u);
        lemma_known_mail_is_listed(account, folder, head, headers, seen, u);
        let k = choose|k: int| 0 <= k < rest.len() && rest[k] == m;
        assert(out[k] == m);
    } else {
        assert(out[out.len() - 1] == m);
    }
}

/// The mails that are announced are those of the window, in order, of which a header is known,
/// that are not read, and that were not known as unread; in the first round there are none. What
/// is unread is noted whether it is announced or not.
pub proof fn lemma_every_new_mail_is_announced(
    window: Seq<u32>,
    headers: Map<u32, HeaderView>,
    seen: Map<u32, bool>,
    first: bool,
    known: Set<u32>,
    u: u32,
)
    ensures
        announced(window, headers, seen, first, known) == window.filter(
            |u: u32|
                headers.contains_key(u) && seen.contains_key(u) && !seen[u] && !first
                    && !known.contains(u),
        ),
        unread_in(window, headers, seen).contains(u) <==> window.contains(u)
            && headers.contains_key(u) && seen.contains_key(u) && !seen[u],
    decreases window.len(),
{
    reveal(Seq::filter);
    if window.len() > 0 {
        lemma_every_new_mail_is_announced(window.drop_last(), headers, seen, first, known, u);
    }
}

/// A line of an answer tells of `u`.
pub open spec fn tells_of(line: FetchedView, u: u32) -> bool {
    line.uid == Some(u)
}

/// A flag is known if it was before or a line of the answer tells of its mail, and it is what the
/// last such line says.
pub proof fn lemma_flags_are_the_last_told(
    seen: Map<u32, bool>,
    list: Seq<FetchedView>,
    u: u32,
    i: int,
)
    ensures
        flags_after(seen, list).contains_key(u) <==> seen.contains_key(u) || exists|k: int|
            0 <= k < list.len() && tells_of(#[trigger] list[k], u),
        0 <= i < list.len() && tells_of(list[i], u) && (forall|k: int|
            i < k < list.len() ==> !tells_of(#[trigger] list[k], u)) ==> flags_after(
            seen,
            list,
        )[u] == list[i].seen,
        (forall|k: int| 0 <= k < list.len() ==> !tells_of(#[trigger] list[k], u)) ==> flags_after(
            seen,
            list,
        )[u] == seen[u],
{
    if flags_after(seen, list).contains_key(u) && !seen.contains_key(u) {
        let k = lemma_flags_are_the_last_told_by(seen, list, u);
        assert(tells_of(list[k], u));
    }
    if seen.contains_key(u) {
        lemma_flags_are_the_last_told_stays(seen, list, u);
    }
    if exists|k: int| 0 <= k < list.len() && tells_of(#[trigger] list[k], u) {
        let k = choose|k: int| 0 <= k < list.len() && tells_of(#[trigger] list[k], u);
        lemma_flags_are_the_last_told_known(seen, list, u, k);
    }
    if 0 <= i < list.len() && tells_of(list[i], u) && (forall|k: int|
        i < k < list.len() ==> !tells_of(#[trigger] list[k], u)) {
        lemma_flags_are_the_last_told_value(seen, list, u, i);
    }
    if forall|k: int| 0 <= k < list.len() ==> !tells_of(#[trigger] list[k], u) {
        lemma_flags_are_the_last_told_value(seen, list, u, -1);
    }
}

proof fn lemma_flags_are_the_last_told_by(
    seen: Map<u32, bool>,
    list: Seq<FetchedView>,
    u: u32,
) -> (k: int)
    requires
        flags_after(seen, list).contains_key(u),
        !seen.contains_key(u),
    ensures
        0 <= k < list.len(),
        tells_of(list[k], u),
    decreases list.len(),
{
    if tells_of(list.last(), u) {
        list.len() - 1
    } else {
        lemma_flags_are_the_last_told_by(seen, list.drop_last(), u)
    }
}

proof fn lemma_flags_are_the_last_told_stays(
    seen: Map<u32, bool>,
    list: Seq<FetchedView>,
    u: u32,
)
    requires
        seen.contains_key(u),
    ensures
        flags_after(seen, list).contains_key(u),
    decreases list.len(),
{
    if list.len() > 0 {
        lemma_flags_are_the_last_told_stays(seen, list.drop_last(), u);
    }
}

proof fn lemma_flags_are_the_last_told_known(
    seen: Map<u32, bool>,
    list: Seq<FetchedView>,
    u: u32,
    k: int,
)
    requires
        0 <= k < list.len(),
        tells_of(list[k], u),
    ensures
        flags_after(seen, list).contains_key(u),
    decreases list.len(),
{
    if k < list.len() - 1 {
        lemma_flags_are_the_last_told_known(seen, list.drop_last(), u, k);
    }
}

proof fn lemma_flags_are_the_last_told_value(
    seen: Map<u32, bool>,
    list: Seq<FetchedView>,
    u: u32,
    i: int,
)
    requires
        -1 <= i < list.len(),
        i >= 0 ==> tells_of(list[i], u),
        forall|k: int| i < k < list.len() ==> !tells_of(#[trigger] list[k], u),
    ensures
        flags_after(seen, list)[u] == (if i >= 0 {
            list[i].seen
        } else {
            seen[u]
        }),
    decreases list.len(),
{
    if i < list.len() - 1 {
        let head = list.drop_last();
        assert(!tells_of(list[list.len() - 1], u));
        lemma_flags_are_the_last_told_value(seen, head, u, i);
    }
}

/// A line of an answer brings a header for `u`.
pub open spec fn brings_header(line: FetchedView, u: u32) -> bool {
    line.uid == Some(u) && line.header is Some
}

/// A header is known if it was before or a line of the answer brings it, and it is the one that
/// the last such line brings.
pub proof fn lemma_headers_are_the_last_brought(
    headers: Map<u32, HeaderView>,
    list: Seq<FetchedView>,
    u: u32,
    i: int,
)
    ensures
        headers_after(headers, list).contains_key(u) <==> headers.contains_key(u) || exists|k: int|
            0 <= k < list.len() && brings_header(#[trigger] list[k], u),
        0 <= i < list.len() && brings_header(list[i], u) && (forall|k: int|
            i < k < list.len() ==> !brings_header(#[trigger] list[k], u)) ==> headers_after(
            headers,
            list,
        )[u] == list[i].header->0,
        (forall|k: int| 0 <= k < list.len() ==> !brings_header(#[trigger] list[k], u)) ==> headers_after(
            headers,
            list,
        )[u] == headers[u],
{
    if headers_after(headers, list).contains_key(u) && !headers.contains_key(u) {
        let k = lemma_headers_are_the_last_brought_by(headers, list, u);
        assert(brings_header(list[k], u));
    }
    if headers.contains_key(u) {
        lemma_headers_are_the_last_brought_stays(headers, list, u);
    }
    if exists|k: int| 0 <= k < list.len() && brings_header(#[trigger] list[k], u) {
        let k = choose|k: int| 0 <= k < list.len() && brings_header(#[trigger] list[k], u);
        lemma_headers_are_the_last_brought_known(headers, list, u, k);
    }
    if 0 <= i < list.len() && brings_header(list[i], u) && (forall|k: int|
        i < k < list.len() ==> !brings_header(#[trigger] list[k], u)) {
        lemma_headers_are_the_last_brought_value(headers, list, u, i);
    }
    if forall|k: int| 0 <= k < list.len() ==> !brings_header(#[trigger] list[k], u) {
        lemma_headers_are_the_last_brought_value(headers, list, u, -1);
    }
}

proof fn lemma_headers_are_the_last_brought_by(
    headers: Map<u32, HeaderView>,
    list: Seq<FetchedView>,
    u: u32,
) -> (k: int)
    requires
        headers_after(headers, list).contains_key(u),
        !headers.contains_key(u),
    ensures
        0 <= k < list.len(),
        brings_header(list[k], u),
    decreases list.len(),
{
    if brings_header(list.last(), u) {
        list.len() - 1
    } else {
        lemma_headers_are_the_last_brought_by(headers, list.drop_last(), u)
    }
}

proof fn lemma_headers_are_the_last_brought_stays(
    headers: Map<u32, HeaderView>,
    list: Seq<FetchedView>,
    u: u32,
)
    requires
        headers.contains_key(u),
    ensures
        headers_after(headers, list).contains_key(u),
    decreases list.len(),
{
    if list.len() > 0 {
        lemma_headers_are_the_last_brought_stays(headers, list.drop_last(), u);
    }
}

proof fn lemma_headers_are_the_last_brought_known(
    headers: Map<u32, HeaderView>,
    list: Seq<FetchedView>,
    u: u32,
    k: int,
)
    requires
        0 <= k < list.len(),
        brings_header(list[k], u),
    ensures
        headers_after(headers, list).contains_key(u),
    decreases list.len(),
{
    if k < list.len() - 1 {
        lemma_headers_are_the_last_brought_known(headers, list.drop_last(), u, k);
    }
}

proof fn lemma_headers_are_the_last_brought_value(
    headers: Map<u32, HeaderView>,
    list: Seq<FetchedView>,
    u: u32,
    i: int,
)
    requires
        -1 <= i < list.len(),
        i >= 0 ==> brings_header(list[i], u),
        forall|k: int| i < k < list.len() ==> !brings_header(#[trigger] list[k], u),
    ensures
        headers_after(headers, list)[u] == (if i >= 0 {
            list[i].header->0
        } else {
            headers[u]
        }),
    decreases list.len(),
{
    if i < list.len() - 1 {
        let head = list.drop_last();
        assert(!brings_header(list[list.len() - 1], u));
        lemma_headers_are_the_last_brought_value(headers, head, u, i);
    }
}

/// The headers of a folder are kept as long as the server does not give it another UIDVALIDITY,
/// and dropped where it does. Nothing else of the folder changes.
pub proof fn lemma_headers_are_kept_with_validity(f: FolderView, validity: Option<u32>)
    ensures
        ({
            let g = opened(f, validity);
            &&& g.name == f.name && g.known == f.known && g.current == f.current
            &&& validity is None ==> g == f
            &&& validity is Some ==> g.validity == validity
            &&& validity is Some && f.validity == validity ==> g.headers == f.headers
            &&& validity is Some && f.validity != validity ==> g.headers.dom().is_empty()
        }),
{
}

/// After a folder was visited, the mails of its window with a known header are those whose header
/// was known before, under the same UIDVALIDITY, or was fetched; those with a known flag are those
/// of which an answer told. Headers and flags are asked for only where they are lacking.
pub proof fn lemma_answers_make_mails_known(a: FolderAnswer, f: FolderView, limit: nat, u: u32)
    requires
        a.shows_mails(),
        window_of(a.uids->0, limit).contains(u),
    ensures
        ({
            let kept = f.headers.contains_key(u) && (a.validity->0 is None || a.validity->0
                == f.validity);
            let brought = exists|i: int|
                0 <= i < a.first.len() && brings_header(#[trigger] a.first[i], u);
            let asked = exists|v: u32|
                {
                    &&& #[trigger] window_of(a.uids->0, limit).contains(v)
                    &&& !(f.headers.contains_key(v) && (a.validity->0 is None || a.validity->0
                        == f.validity))
                };
            let told_first = asked && exists|i: int|
                0 <= i < a.first.len() && tells_of(#[trigger] a.first[i], u);
            let told_second = exists|i: int|
                0 <= i < a.second.len() && tells_of(#[trigger] a.second[i], u);
            &&& a.headers(f, limit).contains_key(u) <==> kept || (asked && brought)
            &&& a.flags(f, limit).contains_key(u) ==> told_first || told_second
            &&& told_first ==> a.flags(f, limit).contains_key(u)
            &&& told_second && !told_first ==> a.flags(f, limit).contains_key(u)
            &&& kept && !(asked && brought) ==> a.headers(f, limit)[u] == f.headers[u]
        }),
{
    let w = window_of(a.uids->0, limit);
    let kept = a.kept_headers(f, limit);
    lemma_lacking(w, kept.dom(), u);
    let early = a.early_flags(f, limit);
    lemma_lacking(w, early.dom(), u);
    assert(w.to_set().contains(u));
    if a.lacks_headers(f, limit) {
        let v = lacking(w, kept.dom())[0];
        assert(lacking(w, kept.dom()).contains(v));
        lemma_lacking(w, kept.dom(), v);
        assert(w.contains(v));
        assert(w.to_set().contains(v));
        lemma_headers_are_the_last_brought(kept, a.first, u, 0);
        lemma_flags_are_the_last_told(Map::<u32, bool>::empty(), a.first, u, 0);
    } else {
        assert forall|v: u32| #[trigger] w.contains(v) implies kept.contains_key(v) by {
            lemma_lacking(w, kept.dom(), v);
            if lacking(w, kept.dom()).contains(v) {
                let i = choose|i: int|
                    0 <= i < lacking(w, kept.dom()).len() && lacking(w, kept.dom())[i] == v;
            }
        }
    }
    lemma_flags_are_the_last_told(early, a.second, u, 0);
    if lacking(w, early.dom()).len() == 0 {
        if lacking(w, early.dom()).contains(u) {
            let i = choose|i: int|
                0 <= i < lacking(w, early.dom()).len() && lacking(w, early.dom())[i] == u;
        }
    }
}

/// In a whole round every mail is listed that is in the window of its folder and of which a header
/// and a flag are known: with the words of that header and with that flag.
pub proof fn lemma_round_lists_every_known_mail(
    s: SyncView,
    answers: Seq<FolderAnswer>,
    i: int,
    u: u32,
)
    requires
        begins(s),
        answers.len() == s.folders.len(),
        0 <= i < answers.len(),
        answers[i].shows_mails(),
        window_of(answers[i].uids->0, s.limit).contains(u),
        answers[i].headers(s.folders[i], s.limit).contains_key(u),
        answers[i].flags(s.folders[i], s.limit).contains_key(u),
    ensures
        ({
            let h = answers[i].headers(s.folders[i], s.limit)[u];
            round(s, answers).0.mails.contains(
                MailView {
                    account: s.account,
                    folder: s.folders[i].name,
                    uid: u,
                    from: h.from,
                    subject: h.subject,
                    date: h.date,
                    seen: answers[i].flags(s.folders[i], s.limit)[u],
                },
            )
        }),
{
    let h = answers[i].headers(s.folders[i], s.limit)[u];
    let m = mail_of(
        s.account,
        s.folders[i].name,
        u,
        h,
        answers[i].flags(s.folders[i], s.limit)[u],
    );
    lemma_round(s, answers);
    lemma_known_mail_is_listed(
        s.account,
        s.folders[i].name,
        answers[i].window(s.limit),
        answers[i].headers(s.folders[i], s.limit),
        answers[i].flags(s.folders[i], s.limit),
        u,
    );
    lemma_round_mails_hold(s, answers, i, m);
    let shown = round_mails(s, answers);
    let k = choose|k: int| 0 <= k < shown.len() && shown[k] == m;
    assert((s.mails + shown)[s.mails.len() + k] == m);
}

proof fn lemma_round_mails_hold(s: SyncView, answers: Seq<FolderAnswer>, i: int, m: MailView)
    requires
        0 <= i < answers.len(),
        answers[i].mails(s.account, s.folders[i], s.limit).contains(m),
    ensures
        round_mails(s, answers).contains(m),
    decreases answers.len(),
{
    let head = round_mails(s, answers.drop_last());
    let n = answers.len() - 1;
    let last = answers.last().mails(s.account, s.folders[n], s.limit);
    let out = round_mails(s, answers);
    if i < n {
        assert(answers.drop_last()[i] == answers[i]);
        lemma_round_mails_hold(s, answers.drop_last(), i, m);
        let k = choose|k: int| 0 <= k < head.len() && head[k] == m;
        assert(out[k] == m);
    } else {
        let k = choose|k: int| 0 <= k < last.len() && last[k] == m;
        assert(out[head.len() + k] == m);
    }
}

/// A notice names the account and the folder, and below them the sender and the subject, one line
/// each.
pub proof fn lemma_notice_says_who_wrote_what(
    account: Seq<char>,
    folder: Seq<char>,
    h: HeaderView,
)
    ensures
        ({
            let n = notice_of(account, folder, h);
            &&& folder == "INBOX"@ ==> n.summary == "新邮件 - "@ + account + " · 收件箱"@
            &&& folder != "INBOX"@ ==> n.summary == "新邮件 - "@ + account + " · 垃圾邮件"@
            &&& n.body == "发件人: "@ + h.from + "\n主题: "@ + h.subject
        }),
{
    reveal_strlit(" · ");
    reveal_strlit("收件箱");
    reveal_strlit("垃圾邮件");
    reveal_strlit(" · 收件箱");
    reveal_strlit(" · 垃圾邮件");
    assert(" · "@ + "收件箱"@ =~= " · 收件箱"@);
    assert(" · "@ + "垃圾邮件"@ =~= " · 垃圾邮件"@);
    let n = notice_of(account, folder, h);
    if folder == "INBOX"@ {
        assert(n.summary =~= "新邮件 - "@ + account + (" · "@ + "收件箱"@));
    } else {
        assert(n.summary =~= "新邮件 - "@ + account + (" · "@ + "垃圾邮件"@));
    }
}

/// A set of uids is read back as it was written: between its commas stand the uids in decimal, in
/// order.
pub proof fn lemma_uid_sets_are_read_back(uids: Seq<u32>)
    requires
        uids.len() > 0,
    ensures
        text::split_on(uid_set(uids), ',') == uids.map_values(|u: u32| text::decimal(u as nat)),
{
    let parts = uids.map_values(|u: u32| text::decimal(u as nat));
    assert forall|i: int| 0 <= i < parts.len() implies !(#[trigger] parts[i]).contains(',') by {
        text::lemma_decimal_chars(uids[i] as nat);
        assert(parts[i] == text::decimal(uids[i] as nat));
        if parts[i].contains(',') {
            let k = choose|k: int| 0 <= k < parts[i].len() && parts[i][k] == ',';
            assert('0' <= parts[i][k] <= '9');
        }
    }
    reveal_strlit(",");
    assert(","@ =~= seq![',']);
    text::lemma_split_undoes_join(parts, ',');
}

/// What a session asks of the server: to open the folder that the round is at; then which mails
/// it holds; then the flags and headers of the mails of the window whose header is lacking; then
/// the flags that are lacking; and at the end of a round to wait on the inbox.
pub proof fn lemma_session_asks_for_what_is_lacking(s: SyncView)
    ensures
        s.phase is Open ==> s.action() == ActionView::Open(s.folders[s.at].name),
        s.phase is Search ==> s.action() == ActionView::Search,
        s.phase is Headers ==> s.action() == (ActionView::Fetch {
            set: uid_set(
                s.phase->Headers_window.filter(
                    |u: u32| !s.folders[s.at].headers.contains_key(u),
                ),
            ),
            items: "(FLAGS RFC822.HEADER)"@,
        }),
        s.phase is Flags ==> s.action() == (ActionView::Fetch {
            set: uid_set(s.phase->Flags_window.filter(|u: u32| !s.phase->seen.contains_key(u))),
            items: "FLAGS"@,
        }),
        s.phase is Publish ==> s.action() == ActionView::Publish,
        s.phase is Wait ==> s.action() == ActionView::Wait("INBOX"@),
{
    match s.phase {
        PhaseView::Headers { window } => {
            let have = s.folders[s.at].headers.dom();
            lemma_lacking_are_not_there(window, have);
            let p = |u: u32| !have.contains(u);
            let q = |u: u32| !s.folders[s.at].headers.contains_key(u);
            assert(p =~= q);
        },
        PhaseView::Flags { window, seen } => {
            lemma_lacking_are_not_there(window, seen.dom());
            let p = |u: u32| !seen.dom().contains(u);
            let q = |u: u32| !s.phase->seen.contains_key(u);
            assert(p =~= q);
        },
        _ => {},
    }
}

/// At the end of a round the mails that were unread in it are known, nothing is unread in the next
/// one yet, the next one is not the first, and the headers stay.
pub proof fn lemma_round_passes_on_what_is_unread(s: SyncView, i: int)
    requires
        0 <= i < s.folders.len(),
    ensures
        ({
            let t = s.rounded().restarted();
            &&& t.folders.len() == s.folders.len()
            &&& t.folders[i].known == s.folders[i].current
            &&& t.folders[i].current.is_empty()
            &&& t.folders[i].name == s.folders[i].name
            &&& t.folders[i].validity == s.folders[i].validity
            &&& t.folders[i].headers == s.folders[i].headers
            &&& !t.first && t.mails.len() == 0 && t.at == 0 && t.phase is Open
            &&& t.account == s.account && t.limit == s.limit
        }),
{
}

/// A connection that was closed leaves no error; one that failed leaves its message.
pub proof fn lemma_faults_are_told(message: String)
    ensures
        fault(SessionEnd::Closed) is None,
        fault(SessionEnd::Failed(message)) == Some(message@),
        fault(SessionEnd::Panicked) == Some("内部错误(panic)，已自动重启该账户"@),
{
}

/// A folder that cannot be opened or searched is passed over: nothing that is known of it is
/// forgotten and no mail is dropped. One that is empty has no headers any more. An event that does
/// not fit changes nothing.
pub proof fn lemma_session_passes_over_folders(r: SyncView, e: EventView)
    requires
        r.well_formed(),
    ensures
        ({
            let (next, told) = r.stepped(e);
            &&& e is Refused && (r.phase is Open || r.phase is Search) ==> {
                &&& next.folders == r.folders
                &&& next.mails == r.mails
                &&& next.at == r.at + 1
                &&& next.first == r.first && next.limit == r.limit && next.account == r.account
                &&& told.len() == 0
            }
            &&& r.phase is Search && e == EventView::Found(Seq::<u32>::empty()) ==> {
                &&& next.folders.len() == r.folders.len()
                &&& forall|k: int|
                    0 <= k < r.folders.len() && k != r.at ==> #[trigger] next.folders[k]
                        == r.folders[k]
                &&& next.folders[r.at].headers.dom() == Set::<u32>::empty()
                &&& next.folders[r.at].name == r.folders[r.at].name
                &&& next.folders[r.at].validity == r.folders[r.at].validity
                &&& next.folders[r.at].known == r.folders[r.at].known
                &&& next.folders[r.at].current == r.folders[r.at].current
                &&& next.mails == r.mails
                &&& next.at == r.at + 1
                &&& next.first == r.first && next.limit == r.limit && next.account == r.account
                &&& told.len() == 0
            }
            &&& !(r.phase is Open && (e is Opened || e is Refused)) && !(r.phase is Search && (
            e is Found || e is Refused)) && !((r.phase is Headers || r.phase is Flags)
                && e is Fetched) && !(r.phase is Wait && e is Woken) ==> next == r && told.len()
                == 0
        }),
{
    let none = Map::<u32, HeaderView>::empty();
    assert(none.dom() =~= Set::<u32>::empty());
}

} // verus!
