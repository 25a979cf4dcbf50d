//! The state of the daemon: the listed mails, the errors of the accounts, and the version that
//! tells subscribers of a change.

use crate::text;
use vstd::prelude::*;

verus! {

/// A mail in the list.
#[derive(Debug, Clone, PartialEq, Eq)]
pub struct MailInfo {
    pub account: String,
    /// The IMAP folder, such as `INBOX` or `[Gmail]/Spam`.
    pub folder: String,
    pub uid: u32,
    pub from: String,
    pub subject: String,
    pub date: String,
    /// Whether the mail was read. Read mails stay in the list.
    pub seen: bool,
}

/// What a [`MailInfo`] holds.
pub struct MailView {
    pub account: Seq<char>,
    pub folder: Seq<char>,
    pub uid: u32,
    pub from: Seq<char>,
    pub subject: Seq<char>,
    pub date: Seq<char>,
    pub seen: bool,
}

impl View for MailInfo {
    type V = MailView;

    open spec fn view(&self) -> MailView {
        MailView {
            account: self.account@,
            folder: self.folder@,
            uid: self.uid,
            from: self.from@,
            subject: self.subject@,
            date: self.date@,
            seen: self.seen,
        }
    }
}

/// The views of a list of mails.
pub open spec fn mail_views(mails: Seq<MailInfo>) -> Seq<MailView> {
    mails.map_values(|m: MailInfo| m@)
}

/// What went wrong with an account.
#[derive(Debug, Clone, PartialEq, Eq)]
pub struct AccountError {
    pub account: String,
    pub message: String,
}

/// What an [`AccountError`] holds.
pub struct AccountErrorView {
    pub account: Seq<char>,
    pub message: Seq<char>,
}

impl View for AccountError {
    type V = AccountErrorView;

    open spec fn view(&self) -> AccountErrorView {
        AccountErrorView { account: self.account@, message: self.message@ }
    }
}

/// The views of a list of errors.
pub open spec fn error_views(errors: Seq<AccountError>) -> Seq<AccountErrorView> {
    errors.map_values(|e: AccountError| e@)
}

/// The state of the daemon.
#[derive(Debug, Clone)]
pub struct DaemonState {
    pub unread_mails: Vec<MailInfo>,
    pub last_update: String,
    /// What is wrong with the accounts at present.
    pub errors: Vec<AccountError>,
}

/// What a [`DaemonState`] holds.
pub struct DaemonStateView {
    pub unread_mails: Seq<MailView>,
    pub last_update: Seq<char>,
    pub errors: Seq<AccountErrorView>,
}

impl View for DaemonState {
    type V = DaemonStateView;

    open spec fn view(&self) -> DaemonStateView {
        DaemonStateView {
            unread_mails: mail_views(self.unread_mails@),
            last_update: self.last_update@,
            errors: error_views(self.errors@),
        }
    }
}

impl Default for DaemonState {
    /// The state before anything happened.
    fn default() -> (state: DaemonState)
        ensures
            state@ == (DaemonStateView {
                unread_mails: Seq::<MailView>::empty(),
                last_update: Seq::<char>::empty(),
                errors: Seq::<AccountErrorView>::empty(),
            }),
    {
        let state = DaemonState {
            unread_mails: Vec::new(),
            last_update: String::new(),
            errors: Vec::new(),
        };
        assert(state@.unread_mails =~= Seq::<MailView>::empty());
        assert(state@.last_update =~= Seq::<char>::empty());
        assert(state@.errors =~= Seq::<AccountErrorView>::empty());
        state
    }
}

/// The folder of a mail that names none.
pub fn default_folder() -> (folder: String)
    ensures
        folder@ == "INBOX"@,
{
    "INBOX".to_owned()
}

// ---------------------------------------------------------------------------
// Changes
// ---------------------------------------------------------------------------

/// What tells subscribers of a change: a version that every change moves on.
#[derive(Debug, Clone, Copy, PartialEq, Eq, Structural)]
pub struct Notifier {
    pub version: u64,
}

/// The version after `v`.
pub open spec fn next_version(v: u64) -> u64 {
    if v == u64::MAX {
        0
    } else {
        (v + 1) as u64
    }
}

/// The notifier before anything changed.
pub fn notifier() -> (n: Notifier)
    ensures
        n.version == 0,
{
    Notifier { version: 0 }
}

/// Tells subscribers that the state has changed.
pub fn notify_state_changed(n: &mut Notifier)
    ensures
        final(n).version == next_version(old(n).version),
{
    n.version = n.version.wrapping_add(1);
}

/// Whether the state has changed since a subscriber saw version `last`.
pub fn changed_since(n: &Notifier, last: u64) -> (yes: bool)
    ensures
        yes == (n.version != last),
{
    n.version != last
}

/// A subscriber that saw the last version sees that the next one is another.
pub proof fn lemma_change_is_seen(v: u64)
    ensures
        next_version(v) != v,
{
}

// ---------------------------------------------------------------------------
// Errors
// ---------------------------------------------------------------------------

/// The errors of all accounts but one.
pub open spec fn errors_but(errors: Seq<AccountErrorView>, account: Seq<char>) -> Seq<
    AccountErrorView,
>
    decreases errors.len(),
{
    if errors.len() == 0 {
        errors
    } else {
        let head = errors_but(errors.drop_last(), account);
        if errors.last().account == account {
            head
        } else {
            head.push(errors.last())
        }
    }
}

fn drop_errors(errors: &mut Vec<AccountError>, account: &str)
    ensures
        error_views(final(errors)@) == errors_but(error_views(old(errors)@), account@),
{
    let mut was: Vec<AccountError> = Vec::new();
    std::mem::swap(&mut was, errors);
    let ghost all = error_views(old(errors)@);
    assert(error_views(errors@) =~= errors_but(all.take(0), account@));
    for e in it: was.into_iter()
        invariant
            it.seq() == old(errors)@,
            all == error_views(old(errors)@),
            error_views(errors@) == errors_but(all.take(it.index() as int), account@),
    {
        let ghost before = error_views(errors@);
        let ghost i = it.index() as int;
        assert(all.take(i + 1).drop_last() =~= all.take(i));
        assert(all.take(i + 1).last() == e@);
        if !text::same_text(e.account.as_str(), account) {
            errors.push(e);
            assert(error_views(errors@) =~= before.push(e@));
        }
    }
    assert(all.take(all.len() as int) =~= all);
}

/// Records what is wrong with an account, in place of what was wrong with it before.
pub fn set_account_error(
    state: &mut DaemonState,
    notifier: &mut Notifier,
    account: &str,
    message: String,
)
    ensures
        final(state)@ == (DaemonStateView {
            unread_mails: old(state)@.unread_mails,
            last_update: old(state)@.last_update,
            errors: errors_but(old(state)@.errors, account@).push(
                (AccountErrorView { account: account@, message: message@ }),
            ),
        }),
        final(notifier).version == next_version(old(notifier).version),
{
    drop_errors(&mut state.errors, account);
    let ghost kept = error_views(state.errors@);
    let error = AccountError { account: account.to_owned(), message };
    state.errors.push(error);
    assert(error_views(state.errors@) =~= kept.push(error@));
    notify_state_changed(notifier);
}

/// Forgets what was wrong with an account. Subscribers are told only if something was.
pub fn clear_account_error(state: &mut DaemonState, notifier: &mut Notifier, account: &str)
    ensures
        final(state)@ == (DaemonStateView {
            unread_mails: old(state)@.unread_mails,
            last_update: old(state)@.last_update,
            errors: errors_but(old(state)@.errors, account@),
        }),
        final(notifier).version == (if final(state)@.errors == old(state)@.errors {
            old(notifier).version
        } else {
            next_version(old(notifier).version)
        }),
{
    let before: usize = state.errors.len();
    drop_errors(&mut state.errors, account);
    proof {
        lemma_errors_but(old(state)@.errors, account@);
    }
    if state.errors.len() != before {
        notify_state_changed(notifier);
    }
}

/// The errors of all accounts but one hold none of that account, and all of the others.
pub proof fn lemma_errors_but(errors: Seq<AccountErrorView>, account: Seq<char>)
    ensures
        errors_but(errors, account).len() <= errors.len(),
        errors_but(errors, account).len() == errors.len() ==> errors_but(errors, account)
            == errors,
        forall|i: int|
            0 <= i < errors_but(errors, account).len() ==> (#[trigger] errors_but(
                errors,
                account,
            )[i]).account != account,
        forall|e: AccountErrorView|
            e.account != account ==> (#[trigger] errors_but(errors, account).contains(e)
                <==> errors.contains(e)),
    decreases errors.len(),
{
    let out = errors_but(errors, account);
    if errors.len() > 0 {
        let head = errors.drop_last();
        let kept = errors_but(head, account);
        lemma_errors_but(head, account);
        if out.len() == errors.len() {
            assert(head.push(errors.last()) =~= errors);
        }
        assert forall|i: int| 0 <= i < out.len() implies (#[trigger] out[i]).account
            != account by {
            if i < kept.len() {
                assert(out[i] == kept[i]);
            }
        }
        assert forall|e: AccountErrorView| e.account != account implies (
        #[trigger] out.contains(e) <==> errors.contains(e)) by {
            assert(kept.contains(e) <==> head.contains(e));
            if errors.contains(e) {
                let i = choose|i: int| 0 <= i < errors.len() && errors[i] == e;
                if i < head.len() {
                    assert(head[i] == e);
                    let j = choose|j: int| 0 <= j < kept.len() && kept[j] == e;
                    assert(out[j] == e);
                } else {
                    assert(out[out.len() - 1] == e);
                }
            }
            if out.contains(e) {
                let i = choose|i: int| 0 <= i < out.len() && out[i] == e;
                if i < kept.len() {
                    assert(kept[i] == e);
                    let j = choose|j: int| 0 <= j < head.len() && head[j] == e;
                    assert(errors[j] == e);
                } else {
                    assert(errors[errors.len() - 1] == e);
                }
            }
        }
    }
}

// ---------------------------------------------------------------------------
// The order of the list
// ---------------------------------------------------------------------------

/// `m` put into a list with the newest mail first, behind all mails that are not older.
pub open spec fn placed(list: Seq<MailView>, m: MailView) -> Seq<MailView>
    decreases list.len(),
{
    if list.len() > 0 && text::precedes(list.last().date, m.date) {
        placed(list.drop_last(), m).push(list.last())
    } else {
        list.push(m)
    }
}

/// The mails by date, the newest first; mails of one date stay in the order they have.
pub open spec fn by_date(mails: Seq<MailView>) -> Seq<MailView>
    decreases mails.len(),
{
    if mails.len() == 0 {
        mails
    } else {
        placed(by_date(mails.drop_last()), mails.last())
    }
}

fn place(list: &mut Vec<MailInfo>, m: MailInfo)
    ensures
        mail_views(final(list)@) == placed(mail_views(old(list)@), m@),
{
    let ghost all = mail_views(list@);
    let mut at: usize = list.len();
    assert(all.take(at as int) =~= all);
    assert(placed(all, m@) =~= placed(all.take(at as int), m@) + all.skip(at as int));
    while at > 0 && text::is_before(list[at - 1].date.as_str(), m.date.as_str())
        invariant
            at <= list.len(),
            all == mail_views(list@),
            placed(all, m@) == placed(all.take(at as int), m@) + all.skip(at as int),
        decreases at,
    {
        let ghost head = all.take(at as int);
        assert(head.drop_last() =~= all.take(at - 1));
        assert(head.last() == all[at - 1]);
        assert(placed(head.drop_last(), m@).push(head.last()) + all.skip(at as int) =~= placed(
            all.take(at - 1),
            m@,
        ) + all.skip(at - 1));
        at -= 1;
    }
    let ghost head = all.take(at as int);
    assert(head.push(m@) + all.skip(at as int) =~= all.insert(at as int, m@));
    list.insert(at, m);
    assert(mail_views(list@) =~= all.insert(at as int, m@));
}

/// Puts mails in order: the newest first, and mails of one date in the order they have.
pub fn sort_by_date(mails: Vec<MailInfo>) -> (list: Vec<MailInfo>)
    ensures
        mail_views(list@) == by_date(mail_views(mails@)),
{
    let mut list: Vec<MailInfo> = Vec::new();
    let ghost all = mail_views(mails@);
    assert(mail_views(list@) =~= by_date(all.take(0)));
    for m in it: mails.into_iter()
        invariant
            it.seq() == mails@,
            all == mail_views(mails@),
            mail_views(list@) == by_date(all.take(it.index() as int)),
    {
        let ghost i = it.index() as int;
        assert(all.take(i + 1).drop_last() =~= all.take(i));
        assert(all.take(i + 1).last() == m@);
        place(&mut list, m);
    }
    assert(all.take(all.len() as int) =~= all);
    list
}

/// No mail of the list is older than one behind it.
pub open spec fn newest_first(list: Seq<MailView>) -> bool {
    forall|i: int, j: int|
        0 <= i < j < list.len() ==> !text::precedes(
            (#[trigger] list[i]).date,
            (#[trigger] list[j]).date,
        )
}

proof fn lemma_placed(list: Seq<MailView>, m: MailView)
    requires
        newest_first(list),
    ensures
        newest_first(placed(list, m)),
        placed(list, m).len() == list.len() + 1,
        placed(list, m).to_multiset() == list.to_multiset().insert(m),
        forall|i: int|
            0 <= i < placed(list, m).len() ==> (#[trigger] placed(list, m)[i] == m
                || list.contains(placed(list, m)[i])),
    decreases list.len(),
{
    broadcast use vstd::seq_lib::group_to_multiset_ensures;

    let out = placed(list, m);
    if list.len() > 0 && text::precedes(list.last().date, m.date) {
        let head = list.drop_last();
        let last = list.last();
        lemma_placed(head, m);
        let rest = placed(head, m);
        assert(list =~= head.push(last));
        assert forall|i: int| 0 <= i < out.len() implies (#[trigger] out[i] == m || list.contains(
            out[i],
        )) by {
            if i < rest.len() {
                assert(out[i] == rest[i]);
                if rest[i] != m {
                    let j = choose|j: int| 0 <= j < head.len() && head[j] == rest[i];
                    assert(list[j] == out[i]);
                }
            } else {
                assert(list[list.len() - 1] == out[i]);
            }
        }
        assert forall|i: int, j: int| 0 <= i < j < out.len() implies !text::precedes(
            (#[trigger] out[i]).date,
            (#[trigger] out[j]).date,
        ) by {
            if j < rest.len() {
                assert(out[i] == rest[i] && out[j] == rest[j]);
            } else {
                assert(out[i] == rest[i]);
                if rest[i] == m {
                    text::lemma_precedes_total(m.date, last.date);
                } else {
                    let k = choose|k: int| 0 <= k < head.len() && head[k] == rest[i];
                    assert(list[k] == rest[i]);
                    assert(!text::precedes(list[k].date, list[list.len() - 1].date));
                }
            }
        }
        assert(out.to_multiset() =~= list.to_multiset().insert(m));
    } else {
        assert forall|i: int, j: int| 0 <= i < j < out.len() implies !text::precedes(
            (#[trigger] out[i]).date,
            (#[trigger] out[j]).date,
        ) by {
            if j < list.len() {
                assert(out[i] == list[i] && out[j] == list[j]);
            } else {
                let last = list[list.len() - 1];
                if i < list.len() - 1 {
                    assert(!text::precedes(list[i].date, last.date));
                    if text::precedes(list[i].date, m.date) {
                        text::lemma_precedes_total(last.date, m.date);
                        text::lemma_precedes_total(last.date, list[i].date);
                        if text::precedes(m.date, last.date) {
                            text::lemma_precedes_transitive(list[i].date, m.date, last.date);
                        }
                    }
                }
            }
        }
        assert forall|i: int| 0 <= i < out.len() implies (#[trigger] out[i] == m || list.contains(
            out[i],
        )) by {
            if i < list.len() {
                assert(list[i] == out[i]);
            }
        }
    }
}

/// The ordered list holds the same mails, the newest first.
pub proof fn lemma_by_date(mails: Seq<MailView>)
    ensures
        newest_first(by_date(mails)),
        by_date(mails).to_multiset() == mails.to_multiset(),
        by_date(mails).len() == mails.len(),
    decreases mails.len(),
{
    broadcast use vstd::seq_lib::group_to_multiset_ensures;

    if mails.len() > 0 {
        let head = mails.drop_last();
        lemma_by_date(head);
        lemma_placed(by_date(head), mails.last());
        assert(mails =~= head.push(mails.last()));
    }
}

/// The mails of one date.
pub open spec fn of_date(mails: Seq<MailView>, date: Seq<char>) -> Seq<MailView>
    decreases mails.len(),
{
    if mails.len() == 0 {
        mails
    } else {
        let head = of_date(mails.drop_last(), date);
        if mails.last().date == date {
            head.push(mails.last())
        } else {
            head
        }
    }
}

proof fn lemma_placed_stable(list: Seq<MailView>, m: MailView, date: Seq<char>)
    ensures
        of_date(placed(list, m), date) == of_date(list.push(m), date),
    decreases list.len(),
{
    assert(list.push(m).drop_last() =~= list);
    if list.len() > 0 && text::precedes(list.last().date, m.date) {
        let head = list.drop_last();
        let last = list.last();
        lemma_placed_stable(head, m, date);
        text::lemma_precedes_total(last.date, m.date);
        assert(placed(head, m).push(last).drop_last() =~= placed(head, m));
        assert(head.push(m).drop_last() =~= head);
        let one = |x: MailView| if x.date == date {
            seq![x]
        } else {
            Seq::<MailView>::empty()
        };
        assert(of_date(list, date) =~= of_date(head, date) + one(last));
        assert(of_date(list.push(m), date) =~= of_date(list, date) + one(m));
        assert(of_date(head.push(m), date) =~= of_date(head, date) + one(m));
        assert(of_date(placed(list, m), date) =~= of_date(placed(head, m), date) + one(last));
        assert(one(m) + one(last) =~= one(last) + one(m));
        assert(of_date(placed(list, m), date) =~= of_date(list.push(m), date));
    }
}

/// Putting mails in order does not swap mails of one date.
pub proof fn lemma_by_date_stable(mails: Seq<MailView>, date: Seq<char>)
    ensures
        of_date(by_date(mails), date) == of_date(mails, date),
    decreases mails.len(),
{
    if mails.len() > 0 {
        let head = mails.drop_last();
        lemma_by_date_stable(head, date);
        lemma_placed_stable(by_date(head), mails.last(), date);
        assert(by_date(head).push(mails.last()).drop_last() =~= by_date(head));
    }
}

// ---------------------------------------------------------------------------
// The mails of an account
// ---------------------------------------------------------------------------

/// The mails of all accounts but one.
pub open spec fn mails_but(mails: Seq<MailView>, account: Seq<char>) -> Seq<MailView>
    decreases mails.len(),
{
    if mails.len() == 0 {
        mails
    } else {
        let head = mails_but(mails.drop_last(), account);
        if mails.last().account == account {
            head
        } else {
            head.push(mails.last())
        }
    }
}

/// The newest mails, at most `limit` of them. Zero means no limit.
pub open spec fn newest(mails: Seq<MailView>, limit: nat) -> Seq<MailView> {
    let list = by_date(mails);
    if limit > 0 && list.len() > limit {
        list.take(limit as int)
    } else {
        list
    }
}

/// The state after the mails of an account were listed anew.
pub open spec fn listed_anew(
    state: DaemonStateView,
    account: Seq<char>,
    mails: Seq<MailView>,
    limit: nat,
    now: Seq<char>,
) -> DaemonStateView {
    DaemonStateView {
        unread_mails: by_date(mails_but(state.unread_mails, account) + newest(mails, limit)),
        last_update: now,
        errors: state.errors,
    }
}

fn drop_mails(mails: Vec<MailInfo>, account: &str) -> (kept: Vec<MailInfo>)
    ensures
        mail_views(kept@) == mails_but(mail_views(mails@), account@),
{
    let mut kept: Vec<MailInfo> = Vec::new();
    let ghost all = mail_views(mails@);
    assert(mail_views(kept@) =~= mails_but(all.take(0), account@));
    for m in it: mails.into_iter()
        invariant
            it.seq() == mails@,
            all == mail_views(mails@),
            mail_views(kept@) == mails_but(all.take(it.index() as int), account@),
    {
        let ghost before = mail_views(kept@);
        let ghost i = it.index() as int;
        assert(all.take(i + 1).drop_last() =~= all.take(i));
        assert(all.take(i + 1).last() == m@);
        if !text::same_text(m.account.as_str(), account) {
            kept.push(m);
            assert(mail_views(kept@) =~= before.push(m@));
        }
    }
    assert(all.take(all.len() as int) =~= all);
    kept
}

/// Lists the mails of an account anew: its newest mails, at most `limit` of them, take the place
/// of those that were listed, and the whole list is put in order. Subscribers are told.
pub fn list_anew(
    state: &mut DaemonState,
    notifier: &mut Notifier,
    account: &str,
    mails: Vec<MailInfo>,
    limit: usize,
    now: String,
)
    ensures
        final(state)@ == listed_anew(
            old(state)@,
            account@,
            mail_views(mails@),
            limit as nat,
            now@,
        ),
        final(notifier).version == next_version(old(notifier).version),
{
    let mut fresh = sort_by_date(mails);
    let ghost ordered = mail_views(fresh@);
    if limit > 0 && fresh.len() > limit {
        fresh.truncate(limit);
        assert(mail_views(fresh@) =~= ordered.take(limit as int));
    }
    let ghost shown = mail_views(fresh@);
    let mut was: Vec<MailInfo> = Vec::new();
    std::mem::swap(&mut was, &mut state.unread_mails);
    let mut all = drop_mails(was, account);
    let ghost kept = mail_views(all@);
    all.append(&mut fresh);
    assert(mail_views(all@) =~= kept + shown);
    state.unread_mails = sort_by_date(all);
    state.last_update = now;
    notify_state_changed(notifier);
}

proof fn lemma_mails_but(mails: Seq<MailView>, account: Seq<char>)
    ensures
        forall|m: MailView|
            #[trigger] mails_but(mails, account).contains(m) <==> mails.contains(m) && m.account
                != account,
    decreases mails.len(),
{
    let out = mails_but(mails, account);
    if mails.len() > 0 {
        let head = mails.drop_last();
        let kept = mails_but(head, account);
        lemma_mails_but(head, account);
        assert forall|m: MailView| #[trigger]
            out.contains(m) <==> mails.contains(m) && m.account != account by {
            assert(kept.contains(m) <==> head.contains(m) && m.account != account);
            if mails.contains(m) && m.account != account {
                let i = choose|i: int| 0 <= i < mails.len() && mails[i] == m;
                if i < head.len() {
                    assert(head[i] == m);
                    let j = choose|j: int| 0 <= j < kept.len() && kept[j] == m;
                    assert(out[j] == m);
                } else {
                    assert(out[out.len() - 1] == m);
                }
            }
            if out.contains(m) {
                let i = choose|i: int| 0 <= i < out.len() && out[i] == m;
                if i < kept.len() {
                    assert(kept[i] == m);
                    let j = choose|j: int| 0 <= j < head.len() && head[j] == m;
                    assert(mails[j] == m);
                } else {
                    assert(mails[mails.len() - 1] == m);
                }
            }
        }
    }
}

proof fn lemma_same_mails(a: Seq<MailView>, b: Seq<MailView>, m: MailView)
    requires
        a.to_multiset() == b.to_multiset(),
    ensures
        a.contains(m) <==> b.contains(m),
{
    broadcast use vstd::seq_lib::group_to_multiset_ensures;

    assert(a.contains(m) <==> a.to_multiset().count(m) > 0);
    assert(b.contains(m) <==> b.to_multiset().count(m) > 0);
}

/// Listing the mails of an account anew leaves the mails of all others in the list, brings in
/// none of theirs, and lists of the account what it was given, up to the limit. The list stays
/// in order.
pub proof fn lemma_listing_anew(
    state: DaemonStateView,
    account: Seq<char>,
    mails: Seq<MailView>,
    limit: nat,
    now: Seq<char>,
    m: MailView,
)
    requires
        forall|i: int| 0 <= i < mails.len() ==> (#[trigger] mails[i]).account == account,
    ensures
        newest_first(listed_anew(state, account, mails, limit, now).unread_mails),
        m.account != account ==> (listed_anew(
            state,
            account,
            mails,
            limit,
            now,
        ).unread_mails.contains(m) <==> state.unread_mails.contains(m)),
        m.account == account ==> (listed_anew(
            state,
            account,
            mails,
            limit,
            now,
        ).unread_mails.contains(m) <==> newest(mails, limit).contains(m)),
        limit > 0 ==> newest(mails, limit).len() <= limit,
{
    let kept = mails_but(state.unread_mails, account);
    let fresh = newest(mails, limit);
    let all = kept + fresh;
    lemma_by_date(all);
    lemma_by_date(mails);
    lemma_mails_but(state.unread_mails, account);
    lemma_same_mails(by_date(all), all, m);
    if fresh.contains(m) {
        let i = choose|i: int| 0 <= i < fresh.len() && fresh[i] == m;
        assert(by_date(mails)[i] == m);
        lemma_same_mails(by_date(mails), mails, m);
        let j = choose|j: int| 0 <= j < mails.len() && mails[j] == m;
        assert(m.account == account);
        assert(all[kept.len() + i] == m);
    }
    if kept.contains(m) {
        let i = choose|i: int| 0 <= i < kept.len() && kept[i] == m;
        assert(all[i] == m);
    }
    if all.contains(m) {
        let i = choose|i: int| 0 <= i < all.len() && all[i] == m;
        if i < kept.len() {
            assert(kept[i] == m);
        } else {
            assert(fresh[i - kept.len()] == m);
        }
    }
}

// ---------------------------------------------------------------------------
// What the list and the errors hold
// ---------------------------------------------------------------------------

/// The errors of all accounts but one are the errors, in order, without those of that account.
pub proof fn lemma_errors_but_are_the_others(errors: Seq<AccountErrorView>, account: Seq<char>)
    ensures
        errors_but(errors, account) == errors.filter(|e: AccountErrorView| e.account != account),
    decreases errors.len(),
{
    reveal(Seq::filter);
    if errors.len() > 0 {
        lemma_errors_but_are_the_others(errors.drop_last(), account);
    }
}

/// The mails of all accounts but one are the mails, in order, without those of that account.
pub proof fn lemma_mails_but_are_the_others(mails: Seq<MailView>, account: Seq<char>)
    ensures
        mails_but(mails, account) == mails.filter(|m: MailView| m.account != account),
    decreases mails.len(),
{
    reveal(Seq::filter);
    if mails.len() > 0 {
        lemma_mails_but_are_the_others(mails.drop_last(), account);
    }
}

/// The mails of one date are the mails, in order, without those of other dates.
pub proof fn lemma_of_date_are_those(mails: Seq<MailView>, date: Seq<char>)
    ensures
        of_date(mails, date) == mails.filter(|m: MailView| m.date == date),
    decreases mails.len(),
{
    reveal(Seq::filter);
    if mails.len() > 0 {
        lemma_of_date_are_those(mails.drop_last(), date);
    }
}

/// Of an account as many mails are kept as the limit allows, and all where there is none or they
/// are not more: the first ones of all its mails in order, so that none that is left out is newer
/// than one that is kept. The whole list is what the others had and what is kept, in order, and
/// it is as of now. What was wrong stays.
pub proof fn lemma_newest_are_kept(
    state: DaemonStateView,
    account: Seq<char>,
    mails: Seq<MailView>,
    limit: nat,
    now: Seq<char>,
)
    ensures
        ({
            let kept = newest(mails, limit);
            let all = by_date(mails);
            let list = listed_anew(state, account, mails, limit, now);
            &&& kept.len() == (if 0 < limit < mails.len() {
                limit
            } else {
                mails.len()
            })
            &&& forall|i: int| 0 <= i < kept.len() ==> #[trigger] kept[i] == all[i]
            &&& forall|i: int, j: int|
                0 <= i < kept.len() <= j < all.len() ==> !text::precedes(
                    (#[trigger] kept[i]).date,
                    (#[trigger] all[j]).date,
                )
            &&& all.to_multiset() == mails.to_multiset()
            &&& list.unread_mails.to_multiset() == state.unread_mails.filter(
                |m: MailView| m.account != account,
            ).to_multiset().add(kept.to_multiset())
            &&& forall|i: int, j: int|
                0 <= i < j < list.unread_mails.len() ==> !text::precedes(
                    (#[trigger] list.unread_mails[i]).date,
                    (#[trigger] list.unread_mails[j]).date,
                )
            &&& list.last_update == now
            &&& list.errors == state.errors
        }),
{
    let others = mails_but(state.unread_mails, account);
    let kept = newest(mails, limit);
    lemma_by_date(mails);
    lemma_by_date(others + kept);
    lemma_mails_but_are_the_others(state.unread_mails, account);
    vstd::seq_lib::lemma_multiset_commutative(others, kept);
}

/// Every change moves the version on by one, and from the last one back to zero.
pub proof fn lemma_versions_count_changes(v: u64)
    ensures
        v < u64::MAX ==> next_version(v) == v + 1,
        next_version(u64::MAX) == 0,
{
}

} // verus!
