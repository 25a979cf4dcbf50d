//! Marking mails as read: one mail, or all that are unread.

use crate::config::Account;
use crate::config;
use crate::reply;
use crate::state::{DaemonState, DaemonStateView, MailInfo, MailView, Notifier};
use crate::state;
use crate::sync;
use crate::text;
use vstd::prelude::*;

verus! {

/// The mail as it is once it was read.
pub open spec fn as_read(m: MailView) -> MailView {
    MailView { seen: true, ..m }
}

// ---------------------------------------------------------------------------
// One mail
// ---------------------------------------------------------------------------

/// Where a mail is to be marked: the first account of that name; where there is none, the reply
/// says so.
pub fn mark_read(accounts: &[Account], account_name: &str) -> (place: Result<usize, String>)
    ensures
        ({
            let views = config::account_views(accounts@);
            match place {
                Ok(i) => {
                    &&& i < accounts@.len()
                    &&& accounts@[i as int].name@ == account_name@
                    &&& !config::named_before(views, account_name@, i as int)
                },
                Err(r) => {
                    &&& !config::named_before(views, account_name@, views.len() as int)
                    &&& r@ == reply::error_text("账户不存在"@)
                },
            }
        }),
{
    match config::find_account(accounts, account_name) {
        Some(i) => Ok(i),
        None => Err(reply::json_err("账户不存在")),
    }
}

/// The mails with one of them marked as read. A uid that is no number marks none.
pub open spec fn marked_one(
    mails: Seq<MailView>,
    account: Seq<char>,
    folder: Seq<char>,
    uid: Seq<char>,
) -> Seq<MailView> {
    mails.map_values(
        |m: MailView|
            if m.account == account && m.folder == folder && text::parsed_u32(uid) == Some(m.uid) {
                as_read(m)
            } else {
                m
            },
    )
}

fn set_read(mails: &mut Vec<MailInfo>, i: usize)
    requires
        i < old(mails)@.len(),
    ensures
        state::mail_views(final(mails)@) == state::mail_views(old(mails)@).update(
            i as int,
            as_read(old(mails)@[i as int]@),
        ),
        final(mails)@.len() == old(mails)@.len(),
{
    mails[i].seen = true;
    assert(state::mail_views(mails@) =~= state::mail_views(old(mails)@).update(
        i as int,
        as_read(old(mails)@[i as int]@),
    ));
}

/// The reply to a client that asked for a mail to be marked as read, where `outcome` is what
/// the server made of it. A mail that was marked stays in the list, as read, and subscribers
/// are told.
pub fn answer_mark_read(
    state: &mut DaemonState,
    notifier: &mut Notifier,
    account: &str,
    folder: &str,
    uid: &str,
    outcome: Result<(), String>,
) -> (out: String)
    ensures
        match outcome {
            Ok(()) => {
                &&& out@ == reply::done_text()
                &&& final(state)@ == (DaemonStateView {
                    unread_mails: marked_one(old(state)@.unread_mails, account@, folder@, uid@),
                    ..old(state)@
                })
                &&& final(notifier).version == state::next_version(old(notifier).version)
            },
            Err(e) => {
                &&& out@ == reply::error_text(e@)
                &&& final(state)@ == old(state)@
                &&& final(notifier).version == old(notifier).version
            },
        },
{
    match outcome {
        Ok(()) => {
            let ghost all = state@.unread_mails;
            let ghost done = marked_one(all, account@, folder@, uid@);
            match text::parse_u32(uid) {
                Some(number) => {
                    let mut i: usize = 0;
                    while i < state.unread_mails.len()
                        invariant
                            i <= state.unread_mails.len(),
                            all == old(state)@.unread_mails,
                            done == marked_one(all, account@, folder@, uid@),
                            text::parsed_u32(uid@) == Some(number),
                            state.last_update == old(state).last_update,
                            state.errors == old(state).errors,
                            state@.unread_mails.len() == all.len(),
                            forall|k: int|
                                0 <= k < i ==> #[trigger] state@.unread_mails[k] == done[k],
                            forall|k: int|
                                i <= k < all.len() ==> #[trigger] state@.unread_mails[k] == all[k],
                        decreases state.unread_mails.len() - i,
                    {
                        let m = &state.unread_mails[i];
                        assert(m@ == state@.unread_mails[i as int]);
                        if m.uid == number && text::same_text(m.account.as_str(), account)
                            && text::same_text(m.folder.as_str(), folder) {
                            set_read(&mut state.unread_mails, i);
                        }
                        i += 1;
                    }
                },
                None => {},
            }
            assert(state@.unread_mails =~= done);
            state::notify_state_changed(notifier);
            reply::json_done()
        },
        Err(e) => reply::json_err(e.as_str()),
    }
}

// ---------------------------------------------------------------------------
// All mails
// ---------------------------------------------------------------------------

/// The unread mails of an account, or of all accounts where `filter` is empty.
pub open spec fn targets_in(mails: Seq<MailView>, filter: Seq<char>) -> Seq<MailView>
    decreases mails.len(),
{
    if mails.len() == 0 {
        mails
    } else {
        let head = targets_in(mails.drop_last(), filter);
        let m = mails.last();
        if !m.seen && (filter.len() == 0 || m.account == filter) {
            head.push(m)
        } else {
            head
        }
    }
}

/// `name` put into a list of names in order, each once.
pub open spec fn enrolled(list: Seq<Seq<char>>, name: Seq<char>) -> Seq<Seq<char>>
    decreases list.len(),
{
    if list.len() == 0 {
        list.push(name)
    } else if text::precedes(name, list.last()) {
        enrolled(list.drop_last(), name).push(list.last())
    } else if name == list.last() {
        list
    } else {
        list.push(name)
    }
}

/// The accounts of some mails, in order, each once.
pub open spec fn accounts_of(mails: Seq<MailView>) -> Seq<Seq<char>>
    decreases mails.len(),
{
    if mails.len() == 0 {
        Seq::<Seq<char>>::empty()
    } else {
        enrolled(accounts_of(mails.drop_last()), mails.last().account)
    }
}

/// The folders of some mails of an account, in order, each once.
pub open spec fn folders_of(mails: Seq<MailView>, account: Seq<char>) -> Seq<Seq<char>>
    decreases mails.len(),
{
    if mails.len() == 0 {
        Seq::<Seq<char>>::empty()
    } else {
        let head = folders_of(mails.drop_last(), account);
        if mails.last().account == account {
            enrolled(head, mails.last().folder)
        } else {
            head
        }
    }
}

/// The uids of some mails of a folder, in the order of the mails.
pub open spec fn uids_of(mails: Seq<MailView>, account: Seq<char>, folder: Seq<char>) -> Seq<u32>
    decreases mails.len(),
{
    if mails.len() == 0 {
        Seq::<u32>::empty()
    } else {
        let head = uids_of(mails.drop_last(), account, folder);
        if mails.last().account == account && mails.last().folder == folder {
            head.push(mails.last().uid)
        } else {
            head
        }
    }
}

/// The mails of one folder that are to be marked.
#[derive(Debug, Clone)]
pub struct FolderBatch {
    pub folder: String,
    pub uids: Vec<u32>,
}

/// What a [`FolderBatch`] holds.
pub struct FolderBatchView {
    pub folder: Seq<char>,
    pub uids: Seq<u32>,
}

impl View for FolderBatch {
    type V = FolderBatchView;

    open spec fn view(&self) -> FolderBatchView {
        FolderBatchView { folder: self.folder@, uids: self.uids@ }
    }
}

impl FolderBatch {
    /// The uids as a store names them.
    pub fn set(&self) -> (set: String)
        ensures
            set@ == sync::uid_set(self@.uids),
    {
        sync::write_uids(&self.uids)
    }
}

/// The views of a list of batches.
pub open spec fn folder_batches(list: Seq<FolderBatch>) -> Seq<FolderBatchView> {
    list.map_values(|b: FolderBatch| b@)
}

/// The mails of one account that are to be marked, and the account's place in the configuration.
#[derive(Debug, Clone)]
pub struct AccountBatch {
    pub account: String,
    pub place: usize,
    pub folders: Vec<FolderBatch>,
}

/// What an [`AccountBatch`] holds.
pub struct AccountBatchView {
    pub account: Seq<char>,
    pub place: int,
    pub folders: Seq<FolderBatchView>,
}

impl View for AccountBatch {
    type V = AccountBatchView;

    open spec fn view(&self) -> AccountBatchView {
        AccountBatchView {
            account: self.account@,
            place: self.place as int,
            folders: folder_batches(self.folders@),
        }
    }
}

/// The views of a list of batches.
pub open spec fn account_batches(list: Seq<AccountBatch>) -> Seq<AccountBatchView> {
    list.map_values(|b: AccountBatch| b@)
}

/// The folders of an account with what is to be marked in them.
pub open spec fn folder_plan(mails: Seq<MailView>, account: Seq<char>) -> Seq<FolderBatchView> {
    folders_of(mails, account).map_values(
        |f: Seq<char>| FolderBatchView { folder: f, uids: uids_of(mails, account, f) },
    )
}

/// The place of the first account of that name.
pub open spec fn place_of(accounts: Seq<config::AccountView>, name: Seq<char>) -> Option<int>
    decreases accounts.len(),
{
    if accounts.len() == 0 {
        None
    } else {
        match place_of(accounts.drop_last(), name) {
            Some(i) => Some(i),
            None => if accounts.last().name == name {
                Some(accounts.len() - 1)
            } else {
                None
            },
        }
    }
}

/// What is to be marked: for each of `names` that is configured, its folders.
pub open spec fn account_plan(
    mails: Seq<MailView>,
    accounts: Seq<config::AccountView>,
    names: Seq<Seq<char>>,
) -> Seq<AccountBatchView>
    decreases names.len(),
{
    if names.len() == 0 {
        Seq::<AccountBatchView>::empty()
    } else {
        let head = account_plan(mails, accounts, names.drop_last());
        let name = names.last();
        match place_of(accounts, name) {
            Some(place) => head.push(
                AccountBatchView { account: name, place, folders: folder_plan(mails, name) },
            ),
            None => head,
        }
    }
}

/// How many mails a list of folders holds.
pub open spec fn folders_size(list: Seq<FolderBatchView>) -> nat
    decreases list.len(),
{
    if list.len() == 0 {
        0
    } else {
        folders_size(list.drop_last()) + list.last().uids.len()
    }
}

/// How many mails a plan holds.
pub open spec fn plan_size(list: Seq<AccountBatchView>) -> nat
    decreases list.len(),
{
    if list.len() == 0 {
        0
    } else {
        plan_size(list.drop_last()) + folders_size(list.last().folders)
    }
}

/// `m` is one of the mails of a batch.
pub open spec fn in_batch(b: AccountBatchView, m: MailView) -> bool {
    &&& m.account == b.account
    &&& exists|i: int|
        {
            &&& 0 <= i < b.folders.len()
            &&& (#[trigger] b.folders[i]).folder == m.folder
            &&& b.folders[i].uids.contains(m.uid)
        }
}

/// The mails with those of a batch marked as read.
pub open spec fn marked_batch(mails: Seq<MailView>, b: AccountBatchView) -> Seq<MailView> {
    mails.map_values(
        |m: MailView|
            if in_batch(b, m) {
                as_read(m)
            } else {
                m
            },
    )
}

// The sizes ------------------------------------------------------------------

/// The names are in order, each once.
pub open spec fn ascending(list: Seq<Seq<char>>) -> bool {
    forall|i: int, j: int|
        0 <= i < j < list.len() ==> text::precedes(#[trigger] list[i], #[trigger] list[j])
}

proof fn lemma_enrolled(list: Seq<Seq<char>>, name: Seq<char>)
    requires
        ascending(list),
    ensures
        ascending(enrolled(list, name)),
        forall|x: Seq<char>| #[trigger]
            enrolled(list, name).contains(x) <==> list.contains(x) || x == name,
    decreases list.len(),
{
    let out = enrolled(list, name);
    if list.len() == 0 {
        assert(out[0] == name);
    } else {
        let head = list.drop_last();
        let last = list.last();
        text::lemma_precedes_total(name, last);
        if text::precedes(name, last) {
            lemma_enrolled(head, name);
            let rest = enrolled(head, name);
            assert forall|i: int, j: int| 0 <= i < j < out.len() implies text::precedes(
                #[trigger] out[i],
                #[trigger] out[j],
            ) by {
                if j == rest.len() {
                    assert(rest.contains(rest[i]));
                    if rest[i] != name {
                        let k = choose|k: int| 0 <= k < head.len() && head[k] == rest[i];
                        assert(text::precedes(list[k], list[list.len() - 1]));
                    }
                }
            }
            assert forall|x: Seq<char>| #[trigger]
                out.contains(x) <==> list.contains(x) || x == name by {
                assert(rest.contains(x) <==> head.contains(x) || x == name);
                lemma_push_contains(rest, last, x);
                lemma_push_contains(head, last, x);
                assert(head.push(last) =~= list);
            }
        } else if name == last {
            assert(list[list.len() - 1] == name);
        } else {
            assert forall|i: int, j: int| 0 <= i < j < out.len() implies text::precedes(
                #[trigger] out[i],
                #[trigger] out[j],
            ) by {
                if j == list.len() && i < list.len() - 1 {
                    text::lemma_precedes_transitive(list[i], last, name);
                }
            }
            assert forall|x: Seq<char>| #[trigger]
                out.contains(x) <==> list.contains(x) || x == name by {
                lemma_push_contains(list, name, x);
            }
        }
    }
}

proof fn lemma_push_contains<A>(s: Seq<A>, a: A, x: A)
    ensures
        s.push(a).contains(x) <==> s.contains(x) || x == a,
{
    if s.contains(x) {
        let i = choose|i: int| 0 <= i < s.len() && s[i] == x;
        assert(s.push(a)[i] == x);
    }
    if x == a {
        assert(s.push(a)[s.len() as int] == x);
    }
}

/// The accounts of some mails are in order, each once, and that of every mail is among them.
pub proof fn lemma_accounts_of(mails: Seq<MailView>)
    ensures
        ascending(accounts_of(mails)),
        forall|k: int|
            0 <= k < mails.len() ==> accounts_of(mails).contains((#[trigger] mails[k]).account),
    decreases mails.len(),
{
    if mails.len() > 0 {
        let head = mails.drop_last();
        lemma_accounts_of(head);
        lemma_enrolled(accounts_of(head), mails.last().account);
        assert forall|k: int| 0 <= k < mails.len() implies accounts_of(mails).contains(
            (#[trigger] mails[k]).account,
        ) by {
            if k < head.len() {
                assert(accounts_of(head).contains(head[k].account));
            }
        }
    }
}

/// The folders of some mails of an account are in order, each once, and that of every mail of
/// the account is among them.
pub proof fn lemma_folders_of(mails: Seq<MailView>, account: Seq<char>)
    ensures
        ascending(folders_of(mails, account)),
        forall|k: int|
            0 <= k < mails.len() && (#[trigger] mails[k]).account == account ==> folders_of(
                mails,
                account,
            ).contains(mails[k].folder),
    decreases mails.len(),
{
    if mails.len() > 0 {
        let head = mails.drop_last();
        lemma_folders_of(head, account);
        lemma_enrolled(folders_of(head, account), mails.last().folder);
        assert forall|k: int|
            0 <= k < mails.len() && (#[trigger] mails[k]).account == account implies folders_of(
            mails,
            account,
        ).contains(mails[k].folder) by {
            if k < head.len() {
                assert(folders_of(head, account).contains(head[k].folder));
            }
        }
    }
}

/// Every mail that is to be marked is among the uids of its folder.
pub proof fn lemma_uids_of(mails: Seq<MailView>, k: int)
    requires
        0 <= k < mails.len(),
    ensures
        uids_of(mails, mails[k].account, mails[k].folder).contains(mails[k].uid),
    decreases mails.len(),
{
    let head = mails.drop_last();
    let m = mails[k];
    let out = uids_of(mails, m.account, m.folder);
    if k < head.len() {
        lemma_uids_of(head, k);
        let rest = uids_of(head, m.account, m.folder);
        let i = choose|i: int| 0 <= i < rest.len() && rest[i] == m.uid;
        assert(out[i] == m.uid);
    } else {
        assert(out[out.len() - 1] == m.uid);
    }
}

/// How many mails of an account there are in some folders.
spec fn count_in(mails: Seq<MailView>, account: Seq<char>, folders: Seq<Seq<char>>) -> nat
    decreases folders.len(),
{
    if folders.len() == 0 {
        0
    } else {
        count_in(mails, account, folders.drop_last()) + uids_of(
            mails,
            account,
            folders.last(),
        ).len()
    }
}

/// How many mails of an account there are.
spec fn count_of(mails: Seq<MailView>, account: Seq<char>) -> nat
    decreases mails.len(),
{
    if mails.len() == 0 {
        0
    } else {
        count_of(mails.drop_last(), account) + (if mails.last().account == account {
            1nat
        } else {
            0nat
        })
    }
}

/// How many of some mails are of accounts that are named.
spec fn count_named(mails: Seq<MailView>, names: Seq<Seq<char>>) -> nat
    decreases mails.len(),
{
    if mails.len() == 0 {
        0
    } else {
        count_named(mails.drop_last(), names) + (if names.contains(mails.last().account) {
            1nat
        } else {
            0nat
        })
    }
}

/// How many mails there are of some accounts.
spec fn count_of_all(mails: Seq<MailView>, accounts: Seq<Seq<char>>) -> nat
    decreases accounts.len(),
{
    if accounts.len() == 0 {
        0
    } else {
        count_of_all(mails, accounts.drop_last()) + count_of(mails, accounts.last())
    }
}

proof fn lemma_count_in_step(mails: Seq<MailView>, account: Seq<char>, folders: Seq<Seq<char>>)
    requires
        mails.len() > 0,
        ascending(folders),
    ensures
        ({
            let m = mails.last();
            count_in(mails, account, folders) == count_in(mails.drop_last(), account, folders) + (
            if m.account == account && folders.contains(m.folder) {
                1nat
            } else {
                0nat
            })
        }),
    decreases folders.len(),
{
    if folders.len() > 0 {
        let head = folders.drop_last();
        let m = mails.last();
        lemma_count_in_step(mails, account, head);
        lemma_push_contains(head, folders.last(), m.folder);
        assert(head.push(folders.last()) =~= folders);
        if head.contains(m.folder) {
            let i = choose|i: int| 0 <= i < head.len() && head[i] == m.folder;
            assert(text::precedes(folders[i], folders[folders.len() - 1]));
            text::lemma_precedes_total(m.folder, folders.last());
        }
    }
}

proof fn lemma_count_in(mails: Seq<MailView>, account: Seq<char>, folders: Seq<Seq<char>>)
    requires
        ascending(folders),
        forall|k: int|
            0 <= k < mails.len() && (#[trigger] mails[k]).account == account ==> folders.contains(
                mails[k].folder,
            ),
    ensures
        count_in(mails, account, folders) == count_of(mails, account),
    decreases mails.len(),
{
    if mails.len() == 0 {
        lemma_count_in_nothing(mails, account, folders);
    } else {
        let head = mails.drop_last();
        assert forall|k: int|
            0 <= k < head.len() && (#[trigger] head[k]).account == account implies folders.contains(
            head[k].folder,
        ) by {
            assert(mails[k] == head[k]);
        }
        lemma_count_in(head, account, folders);
        lemma_count_in_step(mails, account, folders);
        assert(mails[mails.len() - 1] == mails.last());
    }
}

proof fn lemma_count_in_nothing(mails: Seq<MailView>, account: Seq<char>, folders: Seq<Seq<char>>)
    requires
        mails.len() == 0,
    ensures
        count_in(mails, account, folders) == 0,
    decreases folders.len(),
{
    if folders.len() > 0 {
        lemma_count_in_nothing(mails, account, folders.drop_last());
    }
}

proof fn lemma_count_of_all_step(mails: Seq<MailView>, accounts: Seq<Seq<char>>)
    requires
        mails.len() > 0,
        ascending(accounts),
    ensures
        count_of_all(mails, accounts) == count_of_all(mails.drop_last(), accounts) + (
        if accounts.contains(mails.last().account) {
            1nat
        } else {
            0nat
        }),
    decreases accounts.len(),
{
    if accounts.len() > 0 {
        let head = accounts.drop_last();
        let m = mails.last();
        lemma_count_of_all_step(mails, head);
        lemma_push_contains(head, accounts.last(), m.account);
        assert(head.push(accounts.last()) =~= accounts);
        if head.contains(m.account) {
            let i = choose|i: int| 0 <= i < head.len() && head[i] == m.account;
            assert(text::precedes(accounts[i], accounts[accounts.len() - 1]));
            text::lemma_precedes_total(m.account, accounts.last());
        }
    }
}

proof fn lemma_count_of_all(mails: Seq<MailView>, accounts: Seq<Seq<char>>)
    requires
        ascending(accounts),
    ensures
        count_of_all(mails, accounts) == count_named(mails, accounts),
        count_named(mails, accounts) <= mails.len(),
    decreases mails.len(),
{
    if mails.len() == 0 {
        lemma_count_of_nothing(mails, accounts);
    } else {
        lemma_count_of_all(mails.drop_last(), accounts);
        lemma_count_of_all_step(mails, accounts);
    }
}

proof fn lemma_count_of_nothing(mails: Seq<MailView>, accounts: Seq<Seq<char>>)
    requires
        mails.len() == 0,
    ensures
        count_of_all(mails, accounts) == 0,
    decreases accounts.len(),
{
    if accounts.len() > 0 {
        lemma_count_of_nothing(mails, accounts.drop_last());
    }
}

proof fn lemma_folder_plan_size(
    mails: Seq<MailView>,
    account: Seq<char>,
    folders: Seq<Seq<char>>,
)
    ensures
        folders_size(
            folders.map_values(
                |f: Seq<char>| FolderBatchView { folder: f, uids: uids_of(mails, account, f) },
            ),
        ) == count_in(mails, account, folders),
    decreases folders.len(),
{
    let list = folders.map_values(
        |f: Seq<char>| FolderBatchView { folder: f, uids: uids_of(mails, account, f) },
    );
    if folders.len() > 0 {
        let head = folders.drop_last();
        lemma_folder_plan_size(mails, account, head);
        assert(list.drop_last() =~= head.map_values(
            |f: Seq<char>| FolderBatchView { folder: f, uids: uids_of(mails, account, f) },
        ));
    }
}

proof fn lemma_account_plan_size(
    mails: Seq<MailView>,
    accounts: Seq<config::AccountView>,
    names: Seq<Seq<char>>,
)
    ensures
        plan_size(account_plan(mails, accounts, names)) <= count_of_all(mails, names),
    decreases names.len(),
{
    if names.len() > 0 {
        let head = names.drop_last();
        let name = names.last();
        lemma_account_plan_size(mails, accounts, head);
        if place_of(accounts, name) is Some {
            let plan = account_plan(mails, accounts, names);
            assert(plan.drop_last() =~= account_plan(mails, accounts, head));
            lemma_folders_of(mails, name);
            lemma_folder_plan_size(mails, name, folders_of(mails, name));
            lemma_count_in(mails, name, folders_of(mails, name));
        }
    }
}

/// No mail is marked twice: a plan holds no more mails than there are to mark.
pub proof fn lemma_plan_size(mails: Seq<MailView>, accounts: Seq<config::AccountView>)
    ensures
        plan_size(account_plan(mails, accounts, accounts_of(mails))) <= mails.len(),
{
    lemma_accounts_of(mails);
    lemma_account_plan_size(mails, accounts, accounts_of(mails));
    lemma_count_of_all(mails, accounts_of(mails));
}

// The work -------------------------------------------------------------------

/// What a [`ReadAll`] holds: the batches that are left, how many mails were marked, and what
/// went wrong.
pub struct ReadAllView {
    pub batches: Seq<AccountBatchView>,
    pub marked: nat,
    pub errors: Seq<Seq<char>>,
}

impl ReadAllView {
    /// What was marked and what is left can be counted.
    pub open spec fn well_formed(self) -> bool {
        self.marked + plan_size(self.batches) <= usize::MAX
    }
}

/// The marking of all unread mails: account by account, folder by folder.
pub struct ReadAll {
    batches: Vec<AccountBatch>,
    at: usize,
    marked: usize,
    errors: Vec<Vec<char>>,
}

impl View for ReadAll {
    type V = ReadAllView;

    closed spec fn view(&self) -> ReadAllView {
        ReadAllView {
            batches: if self.at < self.batches@.len() {
                account_batches(self.batches@).skip(self.at as int)
            } else {
                Seq::<AccountBatchView>::empty()
            },
            marked: self.marked as nat,
            errors: text::views(self.errors@),
        }
    }
}

/// What is to be marked in a state, for an account or, where `filter` is empty, for all.
pub open spec fn read_all_plan(
    mails: Seq<MailView>,
    accounts: Seq<config::AccountView>,
    filter: Seq<char>,
) -> Seq<AccountBatchView> {
    let targets = targets_in(mails, filter);
    account_plan(targets, accounts, accounts_of(targets))
}

/// The mails that are to be marked, as references into a list.
fn find_targets(mails: &[MailInfo], filter: &str) -> (places: Vec<usize>)
    ensures
        forall|k: int| 0 <= k < places@.len() ==> #[trigger] places@[k] < mails@.len(),
        at_places(state::mail_views(mails@), places@) == targets_in(
            state::mail_views(mails@),
            filter@,
        ),
{
    let ghost all = state::mail_views(mails@);
    let mut places: Vec<usize> = Vec::new();
    let any = filter.is_empty();
    let mut i: usize = 0;
    assert(at_places(all, places@) =~= targets_in(all.take(0), filter@));
    while i < mails.len()
        invariant
            i <= mails.len(),
            all == state::mail_views(mails@),
            any == (filter@.len() == 0),
            forall|k: int| 0 <= k < places@.len() ==> #[trigger] places@[k] < mails@.len(),
            at_places(all, places@) == targets_in(all.take(i as int), filter@),
        decreases mails.len() - i,
    {
        let ghost before = at_places(all, places@);
        assert(all.take(i + 1).drop_last() =~= all.take(i as int));
        assert(all.take(i + 1).last() == mails@[i as int]@);
        let m = &mails[i];
        if !m.seen && (any || text::same_text(m.account.as_str(), filter)) {
            places.push(i);
            assert(at_places(all, places@) =~= before.push(all[i as int]));
        }
        i += 1;
    }
    assert(all.take(i as int) =~= all);
    places
}

/// The mails at some places of a list.
spec fn at_places(mails: Seq<MailView>, places: Seq<usize>) -> Seq<MailView> {
    places.map_values(|p: usize| mails[p as int])
}

fn enroll(list: &mut Vec<String>, name: &str)
    ensures
        text::texts(final(list)@) == enrolled(text::texts(old(list)@), name@),
{
    let ghost all = text::texts(list@);
    let mut at: usize = list.len();
    assert(all.take(at as int) =~= all);
    assert(enrolled(all, name@) =~= enrolled(all.take(at as int), name@) + all.skip(at as int));
    while at > 0 && text::is_before(name, list[at - 1].as_str())
        invariant
            at <= list.len(),
            all == text::texts(list@),
            enrolled(all, name@) == enrolled(all.take(at as int), name@) + all.skip(at as int),
        decreases at,
    {
        let ghost head = all.take(at as int);
        assert(head.drop_last() =~= all.take(at - 1));
        assert(head.last() == all[at - 1]);
        assert(enrolled(head.drop_last(), name@).push(head.last()) + all.skip(at as int)
            =~= enrolled(all.take(at - 1), name@) + all.skip(at - 1));
        at -= 1;
    }
    let ghost head = all.take(at as int);
    if at > 0 && text::same_text(name, list[at - 1].as_str()) {
        assert(head.last() == all[at - 1]);
        assert(head + all.skip(at as int) =~= all);
        return;
    }
    proof {
        if at > 0 {
            assert(head.last() == all[at - 1]);
        }
    }
    assert(head.push(name@) + all.skip(at as int) =~= all.insert(at as int, name@));
    let fresh = name.to_owned();
    list.insert(at, fresh);
    assert(text::texts(list@) =~= all.insert(at as int, name@));
}

fn list_accounts(mails: &[MailInfo], places: &[usize]) -> (names: Vec<String>)
    requires
        forall|k: int| 0 <= k < places@.len() ==> #[trigger] places@[k] < mails@.len(),
    ensures
        text::texts(names@) == accounts_of(at_places(state::mail_views(mails@), places@)),
{
    let ghost all = at_places(state::mail_views(mails@), places@);
    let mut names: Vec<String> = Vec::new();
    let mut i: usize = 0;
    assert(text::texts(names@) =~= accounts_of(all.take(0)));
    while i < places.len()
        invariant
            i <= places.len(),
            forall|k: int| 0 <= k < places@.len() ==> #[trigger] places@[k] < mails@.len(),
            all == at_places(state::mail_views(mails@), places@),
            text::texts(names@) == accounts_of(all.take(i as int)),
        decreases places.len() - i,
    {
        assert(all.take(i + 1).drop_last() =~= all.take(i as int));
        assert(all.take(i + 1).last() == mails@[places@[i as int] as int]@);
        enroll(&mut names, mails[places[i]].account.as_str());
        i += 1;
    }
    assert(all.take(i as int) =~= all);
    names
}

fn list_folders(mails: &[MailInfo], places: &[usize], account: &str) -> (names: Vec<String>)
    requires
        forall|k: int| 0 <= k < places@.len() ==> #[trigger] places@[k] < mails@.len(),
    ensures
        text::texts(names@) == folders_of(
            at_places(state::mail_views(mails@), places@),
            account@,
        ),
{
    let ghost all = at_places(state::mail_views(mails@), places@);
    let mut names: Vec<String> = Vec::new();
    let mut i: usize = 0;
    assert(text::texts(names@) =~= folders_of(all.take(0), account@));
    while i < places.len()
        invariant
            i <= places.len(),
            forall|k: int| 0 <= k < places@.len() ==> #[trigger] places@[k] < mails@.len(),
            all == at_places(state::mail_views(mails@), places@),
            text::texts(names@) == folders_of(all.take(i as int), account@),
        decreases places.len() - i,
    {
        assert(all.take(i + 1).drop_last() =~= all.take(i as int));
        assert(all.take(i + 1).last() == mails@[places@[i as int] as int]@);
        let m = &mails[places[i]];
        if text::same_text(m.account.as_str(), account) {
            enroll(&mut names, m.folder.as_str());
        }
        i += 1;
    }
    assert(all.take(i as int) =~= all);
    names
}

fn list_uids(mails: &[MailInfo], places: &[usize], account: &str, folder: &str) -> (uids: Vec<u32>)
    requires
        forall|k: int| 0 <= k < places@.len() ==> #[trigger] places@[k] < mails@.len(),
    ensures
        uids@ == uids_of(
            at_places(state::mail_views(mails@), places@),
            account@,
            folder@,
        ),
{
    let ghost all = at_places(state::mail_views(mails@), places@);
    let mut uids: Vec<u32> = Vec::new();
    let mut i: usize = 0;
    assert(uids@ =~= uids_of(all.take(0), account@, folder@));
    while i < places.len()
        invariant
            i <= places.len(),
            forall|k: int| 0 <= k < places@.len() ==> #[trigger] places@[k] < mails@.len(),
            all == at_places(state::mail_views(mails@), places@),
            uids@ == uids_of(all.take(i as int), account@, folder@),
        decreases places.len() - i,
    {
        assert(all.take(i + 1).drop_last() =~= all.take(i as int));
        assert(all.take(i + 1).last() == mails@[places@[i as int] as int]@);
        let m = &mails[places[i]];
        if text::same_text(m.account.as_str(), account) && text::same_text(
            m.folder.as_str(),
            folder,
        ) {
            uids.push(m.uid);
        }
        i += 1;
    }
    assert(all.take(i as int) =~= all);
    uids
}

fn plan_folders(mails: &[MailInfo], places: &[usize], account: &str) -> (list: Vec<FolderBatch>)
    requires
        forall|k: int| 0 <= k < places@.len() ==> #[trigger] places@[k] < mails@.len(),
    ensures
        folder_batches(list@) == folder_plan(
            at_places(state::mail_views(mails@), places@),
            account@,
        ),
{
    let ghost targets = at_places(state::mail_views(mails@), places@);
    let ghost all = folder_plan(targets, account@);
    let names = list_folders(mails, places, account);
    let mut list: Vec<FolderBatch> = Vec::new();
    let ghost named = text::texts(names@);
    assert(folder_batches(list@) =~= all.take(0));
    for name in it: names.into_iter()
        invariant
            it.seq() == names@,
            forall|k: int| 0 <= k < places@.len() ==> #[trigger] places@[k] < mails@.len(),
            targets == at_places(state::mail_views(mails@), places@),
            named == text::texts(names@),
            named == folders_of(targets, account@),
            all == folder_plan(targets, account@),
            folder_batches(list@) == all.take(it.index() as int),
    {
        let ghost before = folder_batches(list@);
        let ghost i = it.index() as int;
        assert(named[i] == name@);
        let uids = list_uids(mails, places, account, name.as_str());
        let batch = FolderBatch { folder: name, uids };
        assert(batch@ == all[i]);
        list.push(batch);
        assert(folder_batches(list@) =~= before.push(all[i]));
        assert(all.take(i + 1) =~= before.push(all[i]));
    }
    assert(all.take(all.len() as int) =~= all);
    list
}

proof fn lemma_place_of(accounts: Seq<config::AccountView>, name: Seq<char>)
    ensures
        match place_of(accounts, name) {
            Some(i) => 0 <= i < accounts.len() && accounts[i].name == name
                && !config::named_before(accounts, name, i),
            None => !config::named_before(accounts, name, accounts.len() as int),
        },
    decreases accounts.len(),
{
    if accounts.len() > 0 {
        let head = accounts.drop_last();
        lemma_place_of(head, name);
        match place_of(head, name) {
            Some(i) => {
                assert forall|k: int| 0 <= k < i implies (#[trigger] accounts[k]).name != name by {
                    assert(head[k].name != name);
                }
            },
            None => {
                assert forall|k: int| 0 <= k < head.len() implies (#[trigger] accounts[k]).name
                    != name by {
                    assert(head[k].name != name);
                }
            },
        }
    }
}

fn place_of_account(accounts: &[Account], name: &str) -> (place: Option<usize>)
    ensures
        match place {
            Some(i) => place_of(config::account_views(accounts@), name@) == Some(i as int),
            None => place_of(config::account_views(accounts@), name@) is None,
        },
{
    let ghost all = config::account_views(accounts@);
    proof {
        lemma_place_of(all, name@);
    }
    match config::find_account(accounts, name) {
        Some(i) => {
            assert(all[i as int].name == name@);
            Some(i)
        },
        None => None,
    }
}

proof fn lemma_first_batch(list: Seq<AccountBatchView>)
    requires
        list.len() > 0,
    ensures
        plan_size(list) == folders_size(list[0].folders) + plan_size(list.drop_first()),
    decreases list.len(),
{
    if list.len() == 1 {
        assert(list.drop_last() =~= Seq::<AccountBatchView>::empty());
        assert(list.drop_first() =~= Seq::<AccountBatchView>::empty());
    } else {
        lemma_first_batch(list.drop_last());
        assert(list.drop_first().drop_last() =~= list.drop_last().drop_first());
    }
}

proof fn lemma_folders_size_grows(list: Seq<FolderBatchView>, k: int)
    requires
        0 <= k <= list.len(),
    ensures
        folders_size(list.take(k)) <= folders_size(list),
    decreases list.len(),
{
    if k == list.len() {
        assert(list.take(k) =~= list);
    } else {
        lemma_folders_size_grows(list.drop_last(), k);
        assert(list.drop_last().take(k) =~= list.take(k));
    }
}

fn count_mails(folders: &[FolderBatch]) -> (n: usize)
    requires
        folders_size(folder_batches(folders@)) <= usize::MAX,
    ensures
        n == folders_size(folder_batches(folders@)),
{
    let ghost all = folder_batches(folders@);
    let mut n: usize = 0;
    let mut i: usize = 0;
    while i < folders.len()
        invariant
            i <= folders.len(),
            all == folder_batches(folders@),
            folders_size(all) <= usize::MAX,
            n == folders_size(all.take(i as int)),
        decreases folders.len() - i,
    {
        assert(all.take(i + 1).drop_last() =~= all.take(i as int));
        assert(all.take(i + 1).last() == folders@[i as int]@);
        proof {
            lemma_folders_size_grows(all, i + 1);
        }
        n = n + folders[i].uids.len();
        i += 1;
    }
    assert(all.take(i as int) =~= all);
    n
}

fn holds_uid(uids: &[u32], u: u32) -> (yes: bool)
    ensures
        yes == uids@.contains(u),
{
    let mut i: usize = 0;
    while i < uids.len()
        invariant
            i <= uids.len(),
            forall|k: int| 0 <= k < i ==> uids@[k] != u,
        decreases uids.len() - i,
    {
        if uids[i] == u {
            assert(uids@[i as int] == u);
            return true;
        }
        i += 1;
    }
    false
}

fn is_in_batch(b: &AccountBatch, m: &MailInfo) -> (yes: bool)
    ensures
        yes == in_batch(b@, m@),
{
    if !text::same_text(m.account.as_str(), b.account.as_str()) {
        return false;
    }
    let ghost all = b@.folders;
    let mut i: usize = 0;
    while i < b.folders.len()
        invariant
            i <= b.folders.len(),
            all == b@.folders,
            all == folder_batches(b.folders@),
            m@.account == b@.account,
            forall|k: int|
                0 <= k < i ==> !((#[trigger] all[k]).folder == m@.folder && all[k].uids.contains(
                    m@.uid,
                )),
        decreases b.folders.len() - i,
    {
        assert(all[i as int] == b.folders@[i as int]@);
        if text::same_text(b.folders[i].folder.as_str(), m.folder.as_str()) && holds_uid(
            &b.folders[i].uids,
            m.uid,
        ) {
            assert(b@.folders[i as int].folder == m@.folder);
            return true;
        }
        i += 1;
    }
    false
}

fn mark_batch(state: &mut DaemonState, b: &AccountBatch)
    ensures
        final(state)@ == (DaemonStateView {
            unread_mails: marked_batch(old(state)@.unread_mails, b@),
            ..old(state)@
        }),
{
    let ghost all = state@.unread_mails;
    let ghost done = marked_batch(all, b@);
    let mut i: usize = 0;
    while i < state.unread_mails.len()
        invariant
            i <= state.unread_mails.len(),
            all == old(state)@.unread_mails,
            done == marked_batch(all, b@),
            state.last_update == old(state).last_update,
            state.errors == old(state).errors,
            state@.unread_mails.len() == all.len(),
            forall|k: int| 0 <= k < i ==> #[trigger] state@.unread_mails[k] == done[k],
            forall|k: int| i <= k < all.len() ==> #[trigger] state@.unread_mails[k] == all[k],
        decreases state.unread_mails.len() - i,
    {
        assert(state.unread_mails@[i as int]@ == state@.unread_mails[i as int]);
        if is_in_batch(b, &state.unread_mails[i]) {
            set_read(&mut state.unread_mails, i);
        }
        i += 1;
    }
    assert(state@.unread_mails =~= done);
}

impl ReadAll {
    /// The marking of the unread mails that are listed: those of the account `account_filter`,
    /// or all where that is empty. Mails of accounts that are not configured are left out.
    pub fn new(accounts: &[Account], state: &DaemonState, account_filter: &str) -> (work: ReadAll)
        ensures
            work@ == (ReadAllView {
                batches: read_all_plan(
                    state@.unread_mails,
                    config::account_views(accounts@),
                    account_filter@,
                ),
                marked: 0,
                errors: Seq::<Seq<char>>::empty(),
            }),
            work@.well_formed(),
    {
        let mails = &state.unread_mails;
        let places = find_targets(mails, account_filter);
        let ghost targets = at_places(state::mail_views(mails@), places@);
        let ghost views = config::account_views(accounts@);
        let names = list_accounts(mails, &places);
        let ghost named = text::texts(names@);
        let mut batches: Vec<AccountBatch> = Vec::new();
        assert(account_batches(batches@) =~= account_plan(targets, views, named.take(0)));
        for name in it: names.into_iter()
            invariant
                it.seq() == names@,
                forall|k: int| 0 <= k < places@.len() ==> #[trigger] places@[k] < mails@.len(),
                targets == at_places(state::mail_views(mails@), places@),
                views == config::account_views(accounts@),
                named == text::texts(names@),
                account_batches(batches@) == account_plan(
                    targets,
                    views,
                    named.take(it.index() as int),
                ),
        {
            let ghost before = account_batches(batches@);
            let ghost i = it.index() as int;
            assert(named.take(i + 1).drop_last() =~= named.take(i));
            assert(named.take(i + 1).last() == name@);
            if let Some(place) = place_of_account(accounts, name.as_str()) {
                let folders = plan_folders(mails, &places, name.as_str());
                let batch = AccountBatch { account: name, place, folders };
                batches.push(batch);
                assert(account_batches(batches@) =~= before.push(batch@));
            }
        }
        assert(named.take(named.len() as int) =~= named);
        proof {
            lemma_plan_size(targets, views);
            assert(targets.len() == places.len());
        }
        let work = ReadAll { batches, at: 0, marked: 0, errors: Vec::new() };
        assert(work@.batches =~= account_batches(batches@));
        assert(work@.errors =~= Seq::<Seq<char>>::empty());
        work
    }

    /// The account that comes next, with what is to be marked there.
    pub fn next(&self) -> (batch: Option<&AccountBatch>)
        ensures
            match batch {
                Some(b) => self@.batches.len() > 0 && b@ == self@.batches[0],
                None => self@.batches.len() == 0,
            },
    {
        if self.at < self.batches.len() {
            assert(account_batches(self.batches@)[self.at as int]
                == self.batches@[self.at as int]@);
            Some(&self.batches[self.at])
        } else {
            None
        }
    }

    /// Takes in what the server of the next account made of it. Mails that were marked stay in
    /// the list, as read, and subscribers are told.
    pub fn step(
        &mut self,
        state: &mut DaemonState,
        notifier: &mut Notifier,
        outcome: Result<(), String>,
    )
        requires
            old(self)@.well_formed(),
            old(self)@.batches.len() > 0,
        ensures
            final(self)@.well_formed(),
            final(self)@.batches == old(self)@.batches.drop_first(),
            ({
                let b = old(self)@.batches[0];
                match outcome {
                    Ok(()) => {
                        &&& final(self)@.marked == old(self)@.marked + folders_size(b.folders)
                        &&& final(self)@.errors == old(self)@.errors
                        &&& final(state)@ == (DaemonStateView {
                            unread_mails: marked_batch(old(state)@.unread_mails, b),
                            ..old(state)@
                        })
                        &&& final(notifier).version == state::next_version(old(notifier).version)
                    },
                    Err(e) => {
                        &&& final(self)@.marked == old(self)@.marked
                        &&& final(self)@.errors == old(self)@.errors.push(
                            b.account + ": "@ + e@,
                        )
                        &&& final(state)@ == old(state)@
                        &&& final(notifier).version == old(notifier).version
                    },
                }
            }),
    {
        let ghost was = self@;
        let ghost b = was.batches[0];
        assert(self.at < self.batches.len());
        assert(account_batches(self.batches@)[self.at as int] == self.batches@[self.at as int]@);
        proof {
            lemma_first_batch(was.batches);
        }
        match outcome {
            Ok(()) => {
                let n: usize = count_mails(&self.batches[self.at].folders);
                self.marked = self.marked + n;
                mark_batch(state, &self.batches[self.at]);
                state::notify_state_changed(notifier);
            },
            Err(e) => {
                let mut said = text::to_chars(self.batches[self.at].account.as_str());
                text::push_text(&mut said, ": ");
                text::push_text(&mut said, e.as_str());
                proof {
                    text::lemma_views_push(self.errors@, said);
                }
                self.errors.push(said);
            },
        }
        self.at = self.at + 1;
        assert(self@.batches =~= was.batches.drop_first());
    }

    /// The reply: how many mails were marked, and what went wrong.
    pub fn reply(&self) -> (out: String)
        ensures
            out@ == reply::marked_text(self@.marked as usize, self@.errors),
    {
        reply::json_marked(self.marked, &self.errors)
    }
}

// ---------------------------------------------------------------------------
// What holds of all marking
// ---------------------------------------------------------------------------

/// The two lists hold the same mails in the same order, but that some were read meanwhile.
pub open spec fn only_read(before: Seq<MailView>, after: Seq<MailView>) -> bool {
    &&& after.len() == before.len()
    &&& forall|i: int|
        0 <= i < before.len() ==> (#[trigger] after[i] == before[i] || after[i] == as_read(
            before[i],
        ))
}

/// Marking a mail as read keeps every mail in the list and in its place.
pub proof fn lemma_marking_one_keeps_the_list(
    mails: Seq<MailView>,
    account: Seq<char>,
    folder: Seq<char>,
    uid: Seq<char>,
)
    ensures
        only_read(mails, marked_one(mails, account, folder, uid)),
{
}

/// Marking a batch as read keeps every mail in the list and in its place, and marks all mails
/// of the batch.
pub proof fn lemma_marking_a_batch_keeps_the_list(mails: Seq<MailView>, b: AccountBatchView)
    ensures
        only_read(mails, marked_batch(mails, b)),
        forall|i: int|
            0 <= i < mails.len() && in_batch(b, #[trigger] mails[i]) ==> marked_batch(
                mails,
                b,
            )[i].seen,
{
}

proof fn lemma_targets_in(mails: Seq<MailView>, filter: Seq<char>, k: int) -> (j: int)
    requires
        0 <= k < mails.len(),
        !mails[k].seen,
        filter.len() == 0 || mails[k].account == filter,
    ensures
        0 <= j < targets_in(mails, filter).len(),
        targets_in(mails, filter)[j] == mails[k],
    decreases mails.len(),
{
    if k == mails.len() - 1 {
        targets_in(mails, filter).len() - 1
    } else {
        lemma_targets_in(mails.drop_last(), filter, k)
    }
}

proof fn lemma_account_planned(
    mails: Seq<MailView>,
    accounts: Seq<config::AccountView>,
    names: Seq<Seq<char>>,
    name: Seq<char>,
) -> (j: int)
    requires
        names.contains(name),
        place_of(accounts, name) is Some,
    ensures
        0 <= j < account_plan(mails, accounts, names).len(),
        account_plan(mails, accounts, names)[j].account == name,
        account_plan(mails, accounts, names)[j].folders == folder_plan(mails, name),
    decreases names.len(),
{
    let head = names.drop_last();
    let plan = account_plan(mails, accounts, names);
    if names.last() == name {
        plan.len() - 1
    } else {
        let i = choose|i: int| 0 <= i < names.len() && names[i] == name;
        assert(head[i] == name);
        lemma_account_planned(mails, accounts, head, name)
    }
}

/// Every unread mail that is asked for is marked, if its account is configured: it is in one of
/// the batches.
pub proof fn lemma_every_unread_mail_is_planned(
    mails: Seq<MailView>,
    accounts: Seq<config::AccountView>,
    filter: Seq<char>,
    k: int,
)
    requires
        0 <= k < mails.len(),
        !mails[k].seen,
        filter.len() == 0 || mails[k].account == filter,
        place_of(accounts, mails[k].account) is Some,
    ensures
        exists|j: int|
            0 <= j < read_all_plan(mails, accounts, filter).len() && in_batch(
                #[trigger] read_all_plan(mails, accounts, filter)[j],
                mails[k],
            ),
{
    let m = mails[k];
    let targets = targets_in(mails, filter);
    let names = accounts_of(targets);
    let plan = read_all_plan(mails, accounts, filter);
    let t = lemma_targets_in(mails, filter, k);
    lemma_accounts_of(targets);
    assert(names.contains(targets[t].account));
    let j = lemma_account_planned(targets, accounts, names, m.account);
    lemma_folders_of(targets, m.account);
    assert(folders_of(targets, m.account).contains(targets[t].folder));
    let i = choose|i: int|
        0 <= i < folders_of(targets, m.account).len() && folders_of(targets, m.account)[i]
            == m.folder;
    lemma_uids_of(targets, t);
    assert(plan[j].folders[i].folder == m.folder);
    assert(in_batch(plan[j], m));
}

proof fn lemma_targets_match(mails: Seq<MailView>, filter: Seq<char>, k: int)
    requires
        0 <= k < targets_in(mails, filter).len(),
    ensures
        !targets_in(mails, filter)[k].seen,
        filter.len() == 0 || targets_in(mails, filter)[k].account == filter,
        mails.contains(targets_in(mails, filter)[k]),
    decreases mails.len(),
{
    let head = mails.drop_last();
    let rest = targets_in(head, filter);
    let out = targets_in(mails, filter);
    if k < rest.len() {
        lemma_targets_match(head, filter, k);
        assert(out[k] == rest[k]);
        let i = choose|i: int| 0 <= i < head.len() && head[i] == rest[k];
        assert(mails[i] == out[k]);
    } else {
        assert(mails[mails.len() - 1] == out[k]);
    }
}

proof fn lemma_accounts_are_those_of_mails(mails: Seq<MailView>, name: Seq<char>)
    requires
        accounts_of(mails).contains(name),
    ensures
        exists|k: int| 0 <= k < mails.len() && (#[trigger] mails[k]).account == name,
    decreases mails.len(),
{
    if mails.len() == 0 {
        assert(accounts_of(mails).len() == 0);
    } else {
        let head = mails.drop_last();
        lemma_accounts_of(head);
        lemma_enrolled(accounts_of(head), mails.last().account);
        if mails.last().account == name {
            assert(mails[mails.len() - 1].account == name);
        } else {
            lemma_accounts_are_those_of_mails(head, name);
            let k = choose|k: int| 0 <= k < head.len() && (#[trigger] head[k]).account == name;
            assert(mails[k].account == name);
        }
    }
}

proof fn lemma_plan_names(
    mails: Seq<MailView>,
    accounts: Seq<config::AccountView>,
    names: Seq<Seq<char>>,
    j: int,
)
    requires
        0 <= j < account_plan(mails, accounts, names).len(),
    ensures
        names.contains(account_plan(mails, accounts, names)[j].account),
    decreases names.len(),
{
    let head = names.drop_last();
    let rest = account_plan(mails, accounts, head);
    let plan = account_plan(mails, accounts, names);
    if j < rest.len() {
        lemma_plan_names(mails, accounts, head, j);
        assert(plan[j] == rest[j]);
        let i = choose|i: int| 0 <= i < head.len() && head[i] == rest[j].account;
        assert(names[i] == plan[j].account);
    } else {
        assert(names[names.len() - 1] == plan[j].account);
    }
}

/// Where one account is asked for, no other is touched.
pub proof fn lemma_filter_is_kept(
    mails: Seq<MailView>,
    accounts: Seq<config::AccountView>,
    filter: Seq<char>,
    j: int,
)
    requires
        filter.len() > 0,
        0 <= j < read_all_plan(mails, accounts, filter).len(),
    ensures
        read_all_plan(mails, accounts, filter)[j].account == filter,
{
    let targets = targets_in(mails, filter);
    let names = accounts_of(targets);
    lemma_plan_names(targets, accounts, names, j);
    let name = read_all_plan(mails, accounts, filter)[j].account;
    lemma_accounts_are_those_of_mails(targets, name);
    let k = choose|k: int| 0 <= k < targets.len() && (#[trigger] targets[k]).account == name;
    lemma_targets_match(mails, filter, k);
}

// A whole run ----------------------------------------------------------------

/// The mails after all batches, one by one, of which the accounts with `true` in `done` did not
/// fail.
pub open spec fn marked_all(
    mails: Seq<MailView>,
    batches: Seq<AccountBatchView>,
    done: Seq<bool>,
) -> Seq<MailView>
    decreases batches.len(),
{
    if batches.len() == 0 {
        mails
    } else if done[0] {
        marked_all(marked_batch(mails, batches[0]), batches.drop_first(), done.drop_first())
    } else {
        marked_all(mails, batches.drop_first(), done.drop_first())
    }
}

/// How many mails were counted as marked after all batches.
pub open spec fn counted_all(batches: Seq<AccountBatchView>, done: Seq<bool>) -> nat
    decreases batches.len(),
{
    if batches.len() == 0 {
        0
    } else {
        let rest = counted_all(batches.drop_first(), done.drop_first());
        if done[0] {
            folders_size(batches[0].folders) + rest
        } else {
            rest
        }
    }
}

/// The account has a batch and did not fail.
pub open spec fn account_done(
    batches: Seq<AccountBatchView>,
    done: Seq<bool>,
    account: Seq<char>,
) -> bool {
    exists|j: int|
        0 <= j < batches.len() && (#[trigger] batches[j]).account == account && done[j]
}

/// How many mails are read in `after` that were not in `before`.
pub open spec fn turned_read(before: Seq<MailView>, after: Seq<MailView>) -> nat
    decreases before.len(),
{
    if before.len() == 0 {
        0
    } else {
        turned_read(before.drop_last(), after.drop_last()) + (if !before.last().seen
            && after.last().seen {
            1nat
        } else {
            0nat
        })
    }
}

/// The accounts that did not fail, in the order of their batches.
spec fn names_done(batches: Seq<AccountBatchView>, done: Seq<bool>) -> Seq<Seq<char>>
    decreases batches.len(),
{
    if batches.len() == 0 {
        Seq::<Seq<char>>::empty()
    } else {
        let rest = names_done(batches.drop_first(), done.drop_first());
        if done[0] {
            seq![batches[0].account] + rest
        } else {
            rest
        }
    }
}

/// The accounts of a list of batches.
spec fn batch_names(batches: Seq<AccountBatchView>) -> Seq<Seq<char>> {
    batches.map_values(|b: AccountBatchView| b.account)
}

/// `m` is in a batch of an account that did not fail.
spec fn in_done_batch(batches: Seq<AccountBatchView>, done: Seq<bool>, m: MailView) -> bool {
    exists|j: int| 0 <= j < batches.len() && in_batch(#[trigger] batches[j], m) && done[j]
}

proof fn lemma_in_done_batch(batches: Seq<AccountBatchView>, done: Seq<bool>, m: MailView)
    requires
        batches.len() > 0,
        done.len() == batches.len(),
    ensures
        in_done_batch(batches, done, m) <==> (done[0] && in_batch(batches[0], m)) || in_done_batch(
            batches.drop_first(),
            done.drop_first(),
            m,
        ),
{
    let rest = batches.drop_first();
    if in_done_batch(batches, done, m) {
        let j = choose|j: int|
            0 <= j < batches.len() && in_batch(#[trigger] batches[j], m) && done[j];
        if j > 0 {
            assert(in_batch(rest[j - 1], m) && done.drop_first()[j - 1]);
        }
    }
    if in_done_batch(rest, done.drop_first(), m) {
        let j = choose|j: int|
            0 <= j < rest.len() && in_batch(#[trigger] rest[j], m) && done.drop_first()[j];
        assert(in_batch(batches[j + 1], m) && done[j + 1]);
    }
}

proof fn lemma_account_done(batches: Seq<AccountBatchView>, done: Seq<bool>, name: Seq<char>)
    requires
        batches.len() > 0,
        done.len() == batches.len(),
    ensures
        account_done(batches, done, name) <==> (done[0] && batches[0].account == name)
            || account_done(batches.drop_first(), done.drop_first(), name),
{
    let rest = batches.drop_first();
    if account_done(batches, done, name) {
        let j = choose|j: int|
            0 <= j < batches.len() && (#[trigger] batches[j]).account == name && done[j];
        if j > 0 {
            assert(rest[j - 1].account == name && done.drop_first()[j - 1]);
        }
    }
    if account_done(rest, done.drop_first(), name) {
        let j = choose|j: int|
            0 <= j < rest.len() && (#[trigger] rest[j]).account == name && done.drop_first()[j];
        assert(batches[j + 1].account == name && done[j + 1]);
    }
}

proof fn lemma_marked_all(mails: Seq<MailView>, batches: Seq<AccountBatchView>, done: Seq<bool>)
    requires
        done.len() == batches.len(),
    ensures
        marked_all(mails, batches, done).len() == mails.len(),
        forall|k: int|
            0 <= k < mails.len() ==> #[trigger] marked_all(mails, batches, done)[k] == (
            if in_done_batch(batches, done, mails[k]) {
                as_read(mails[k])
            } else {
                mails[k]
            }),
    decreases batches.len(),
{
    if batches.len() > 0 {
        let next = if done[0] {
            marked_batch(mails, batches[0])
        } else {
            mails
        };
        let rest = batches.drop_first();
        let left = done.drop_first();
        lemma_marked_all(next, rest, left);
        assert forall|k: int| 0 <= k < mails.len() implies #[trigger] marked_all(
            mails,
            batches,
            done,
        )[k] == (if in_done_batch(batches, done, mails[k]) {
            as_read(mails[k])
        } else {
            mails[k]
        }) by {
            let m = mails[k];
            let n = next[k];
            lemma_in_done_batch(batches, done, m);
            assert(marked_all(next, rest, left)[k] == (if in_done_batch(rest, left, n) {
                as_read(n)
            } else {
                n
            }));
            assert forall|j: int| 0 <= j < rest.len() implies in_batch(#[trigger] rest[j], n)
                == in_batch(rest[j], m) by {
                assert(n.account == m.account && n.folder == m.folder && n.uid == m.uid);
            }
            assert(in_done_batch(rest, left, n) == in_done_batch(rest, left, m));
        }
    }
}

proof fn lemma_plan_shape(
    mails: Seq<MailView>,
    accounts: Seq<config::AccountView>,
    names: Seq<Seq<char>>,
)
    requires
        ascending(names),
    ensures
        ascending(batch_names(account_plan(mails, accounts, names))),
        forall|j: int|
            0 <= j < account_plan(mails, accounts, names).len() ==> {
                let b = #[trigger] account_plan(mails, accounts, names)[j];
                b.folders == folder_plan(mails, b.account)
            },
    decreases names.len(),
{
    if names.len() > 0 {
        let head = names.drop_last();
        let plan = account_plan(mails, accounts, names);
        let rest = account_plan(mails, accounts, head);
        lemma_plan_shape(mails, accounts, head);
        if place_of(accounts, names.last()) is Some {
            let all = batch_names(plan);
            assert forall|i: int, j: int| 0 <= i < j < all.len() implies text::precedes(
                #[trigger] all[i],
                #[trigger] all[j],
            ) by {
                assert(batch_names(rest)[i] == all[i]);
                if j == rest.len() {
                    lemma_plan_names(mails, accounts, head, i);
                    let k = choose|k: int| 0 <= k < head.len() && head[k] == rest[i].account;
                    assert(text::precedes(names[k], names[names.len() - 1]));
                } else {
                    assert(batch_names(rest)[j] == all[j]);
                }
            }
        }
    }
}

proof fn lemma_names_done(batches: Seq<AccountBatchView>, done: Seq<bool>)
    requires
        done.len() == batches.len(),
        ascending(batch_names(batches)),
    ensures
        ascending(names_done(batches, done)),
        forall|x: Seq<char>| #[trigger]
            names_done(batches, done).contains(x) <==> account_done(batches, done, x),
    decreases batches.len(),
{
    let out = names_done(batches, done);
    if batches.len() > 0 {
        let tail = batches.drop_first();
        let left = done.drop_first();
        let rest = names_done(tail, left);
        let first = batches[0].account;
        assert(batch_names(tail) =~= batch_names(batches).drop_first());
        lemma_names_done(tail, left);
        assert forall|i: int, j: int| 0 <= i < j < out.len() implies text::precedes(
            #[trigger] out[i],
            #[trigger] out[j],
        ) by {
            if done[0] {
                assert(out[j] == rest[j - 1]);
                if i == 0 {
                    assert(rest.contains(rest[j - 1]));
                    let k = choose|k: int|
                        0 <= k < tail.len() && (#[trigger] tail[k]).account == rest[j - 1]
                            && left[k];
                    assert(batch_names(batches)[k + 1] == rest[j - 1]);
                    assert(batch_names(batches)[0] == first);
                } else {
                    assert(out[i] == rest[i - 1]);
                }
            }
        }
        assert forall|x: Seq<char>| #[trigger] out.contains(x) <==> account_done(
            batches,
            done,
            x,
        ) by {
            lemma_account_done(batches, done, x);
            assert(rest.contains(x) <==> account_done(tail, left, x));
            if done[0] {
                if rest.contains(x) {
                    let k = choose|k: int| 0 <= k < rest.len() && rest[k] == x;
                    assert(out[k + 1] == x);
                }
                if x == first {
                    assert(out[0] == x);
                }
                if out.contains(x) && x != first {
                    let k = choose|k: int| 0 <= k < out.len() && out[k] == x;
                    assert(rest[k - 1] == x);
                }
            }
        }
    }
}

proof fn lemma_count_of_first(mails: Seq<MailView>, name: Seq<char>, rest: Seq<Seq<char>>)
    ensures
        count_of_all(mails, seq![name] + rest) == count_of(mails, name) + count_of_all(mails, rest),
    decreases rest.len(),
{
    let all = seq![name] + rest;
    if rest.len() == 0 {
        assert(all.drop_last() =~= rest);
        assert(all.last() == name);
    } else {
        lemma_count_of_first(mails, name, rest.drop_last());
        assert(all.drop_last() =~= seq![name] + rest.drop_last());
        assert(all.last() == rest.last());
    }
}

proof fn lemma_counted_all(mails: Seq<MailView>, batches: Seq<AccountBatchView>, done: Seq<bool>)
    requires
        done.len() == batches.len(),
        forall|j: int|
            0 <= j < batches.len() ==> (#[trigger] batches[j]).folders == folder_plan(
                mails,
                batches[j].account,
            ),
    ensures
        counted_all(batches, done) == count_of_all(mails, names_done(batches, done)),
    decreases batches.len(),
{
    if batches.len() > 0 {
        let tail = batches.drop_first();
        let left = done.drop_first();
        assert forall|j: int| 0 <= j < tail.len() implies (#[trigger] tail[j]).folders
            == folder_plan(mails, tail[j].account) by {
            assert(tail[j] == batches[j + 1]);
        }
        lemma_counted_all(mails, tail, left);
        let name = batches[0].account;
        lemma_folders_of(mails, name);
        lemma_folder_plan_size(mails, name, folders_of(mails, name));
        lemma_count_in(mails, name, folders_of(mails, name));
        lemma_count_of_first(mails, name, names_done(tail, left));
    }
}

proof fn lemma_turned_read(
    before: Seq<MailView>,
    after: Seq<MailView>,
    filter: Seq<char>,
    names: Seq<Seq<char>>,
)
    requires
        after.len() == before.len(),
        forall|k: int|
            0 <= k < before.len() && !(#[trigger] before[k]).seen ==> (after[k].seen <==> (
            filter.len() == 0 || before[k].account == filter) && names.contains(
                before[k].account,
            )),
    ensures
        turned_read(before, after) == count_named(targets_in(before, filter), names),
    decreases before.len(),
{
    if before.len() > 0 {
        let head = before.drop_last();
        let rest = after.drop_last();
        assert forall|k: int| 0 <= k < head.len() && !(#[trigger] head[k]).seen implies (
        rest[k].seen <==> (filter.len() == 0 || head[k].account == filter) && names.contains(
            head[k].account,
        )) by {
            assert(head[k] == before[k] && rest[k] == after[k]);
        }
        lemma_turned_read(head, rest, filter, names);
        let m = before.last();
        assert(before[before.len() - 1] == m);
        assert(after[after.len() - 1] == after.last());
        let targets = targets_in(before, filter);
        if !m.seen && (filter.len() == 0 || m.account == filter) {
            assert(targets.drop_last() =~= targets_in(head, filter));
            assert(targets.last() == m);
        }
    }
}

/// After a whole run every mail is in its place, and it is read if and only if it was before, or
/// it was asked for and its account has a batch and did not fail. The accounts that have a batch,
/// of unread mails that were asked for, are those that are configured. How many mails were
/// counted is how many turned read.
pub proof fn lemma_read_all_reads_what_was_asked_for(
    mails: Seq<MailView>,
    accounts: Seq<config::AccountView>,
    filter: Seq<char>,
    done: Seq<bool>,
)
    requires
        done.len() == read_all_plan(mails, accounts, filter).len(),
    ensures
        ({
            let plan = read_all_plan(mails, accounts, filter);
            let after = marked_all(mails, plan, done);
            &&& only_read(mails, after)
            &&& forall|k: int|
                0 <= k < mails.len() ==> ((#[trigger] after[k]).seen <==> mails[k].seen || ((
                filter.len() == 0 || mails[k].account == filter) && account_done(
                    plan,
                    done,
                    mails[k].account,
                )))
            &&& counted_all(plan, done) == turned_read(mails, after)
        }),
        forall|k: int|
            0 <= k < mails.len() && !(#[trigger] mails[k]).seen && (filter.len() == 0
                || mails[k].account == filter) ==> {
                place_of(accounts, mails[k].account) is Some <==> exists|j: int|
                    0 <= j < done.len() && (#[trigger] read_all_plan(
                        mails,
                        accounts,
                        filter,
                    )[j]).account == mails[k].account
            },
{
    let targets = targets_in(mails, filter);
    let names = accounts_of(targets);
    let plan = read_all_plan(mails, accounts, filter);
    let after = marked_all(mails, plan, done);
    lemma_accounts_of(targets);
    lemma_plan_shape(targets, accounts, names);
    lemma_marked_all(mails, plan, done);
    lemma_names_done(plan, done);
    assert forall|k: int| 0 <= k < mails.len() implies ((#[trigger] after[k]).seen <==> mails[k].seen
        || ((filter.len() == 0 || mails[k].account == filter) && account_done(
        plan,
        done,
        mails[k].account,
    ))) by {
        let m = mails[k];
        assert(after[k] == (if in_done_batch(plan, done, m) {
            as_read(m)
        } else {
            m
        }));
        if !m.seen {
            if in_done_batch(plan, done, m) {
                let j = choose|j: int|
                    0 <= j < plan.len() && in_batch(#[trigger] plan[j], m) && done[j];
                assert(plan[j].account == m.account);
                if filter.len() > 0 {
                    lemma_filter_is_kept(mails, accounts, filter, j);
                }
            }
            if (filter.len() == 0 || m.account == filter) && account_done(plan, done, m.account) {
                let j = choose|j: int|
                    0 <= j < plan.len() && (#[trigger] plan[j]).account == m.account && done[j];
                lemma_planned_are_configured(targets, accounts, names, j);
                lemma_every_unread_mail_is_planned(mails, accounts, filter, k);
                let i = choose|i: int| 0 <= i < plan.len() && in_batch(#[trigger] plan[i], m);
                lemma_one_batch_each(plan, i, j);
                assert(in_batch(plan[j], m));
            }
        }
    }
    assert forall|k: int|
        0 <= k < mails.len() && !(#[trigger] mails[k]).seen && (filter.len() == 0
            || mails[k].account == filter) implies {
        place_of(accounts, mails[k].account) is Some <==> exists|j: int|
            0 <= j < done.len() && (#[trigger] plan[j]).account == mails[k].account
    } by {
        let m = mails[k];
        if place_of(accounts, m.account) is Some {
            lemma_every_unread_mail_is_planned(mails, accounts, filter, k);
            let i = choose|i: int| 0 <= i < plan.len() && in_batch(#[trigger] plan[i], m);
            assert(plan[i].account == m.account);
        }
        if exists|j: int| 0 <= j < done.len() && (#[trigger] plan[j]).account == m.account {
            let j = choose|j: int|
                0 <= j < done.len() && (#[trigger] plan[j]).account == m.account;
            lemma_planned_are_configured(targets, accounts, names, j);
        }
    }
    let listed = names_done(plan, done);
    assert forall|k: int| 0 <= k < mails.len() && !(#[trigger] mails[k]).seen implies (after[k].seen
        <==> (filter.len() == 0 || mails[k].account == filter) && listed.contains(
        mails[k].account,
    )) by {
        assert(listed.contains(mails[k].account) <==> account_done(plan, done, mails[k].account));
    }
    lemma_turned_read(mails, after, filter, listed);
    lemma_counted_all(targets, plan, done);
    lemma_count_of_all(targets, listed);
}

proof fn lemma_one_batch_each(batches: Seq<AccountBatchView>, i: int, j: int)
    requires
        ascending(batch_names(batches)),
        0 <= i < batches.len(),
        0 <= j < batches.len(),
        batches[i].account == batches[j].account,
    ensures
        i == j,
{
    let all = batch_names(batches);
    assert(all[i] == batches[i].account);
    assert(all[j] == batches[j].account);
    text::lemma_precedes_total(all[i], all[j]);
}

proof fn lemma_planned_are_configured(
    mails: Seq<MailView>,
    accounts: Seq<config::AccountView>,
    names: Seq<Seq<char>>,
    j: int,
)
    requires
        0 <= j < account_plan(mails, accounts, names).len(),
    ensures
        place_of(accounts, account_plan(mails, accounts, names)[j].account) is Some,
    decreases names.len(),
{
    let head = names.drop_last();
    if j < account_plan(mails, accounts, head).len() {
        lemma_planned_are_configured(mails, accounts, head, j);
    }
}

// What marking changes ---------------------------------------------------------

/// `m` and `n` are one mail, but that `n` may have been read.
pub open spec fn same_mail(m: MailView, n: MailView) -> bool {
    &&& n.account == m.account
    &&& n.folder == m.folder
    &&& n.uid == m.uid
    &&& n.from == m.from
    &&& n.subject == m.subject
    &&& n.date == m.date
}

/// Marking one mail marks the mail that was asked for and changes no other: what differs in its
/// account, its folder or its uid stays as it is. A uid is asked for by its number in decimal;
/// what is no number asks for none.
pub proof fn lemma_marking_one_changes_no_other(
    mails: Seq<MailView>,
    account: Seq<char>,
    folder: Seq<char>,
    uid: Seq<char>,
    n: u32,
    k: int,
)
    requires
        0 <= k < mails.len(),
    ensures
        ({
            let m = mails[k];
            let asked = m.account == account && m.folder == folder;
            let after = marked_one(mails, account, folder, text::decimal(n as nat));
            &&& after.len() == mails.len()
            &&& same_mail(m, after[k])
            &&& asked && m.uid == n ==> after[k].seen
            &&& !(asked && m.uid == n) ==> after[k] == m
            &&& text::parsed_u32(uid) != Some(m.uid) ==> marked_one(
                mails,
                account,
                folder,
                uid,
            )[k] == m
        }),
{
    let none = Seq::<char>::empty();
    text::lemma_numbers_are_read_from_decimal(n, none, none);
    assert(none + text::decimal(n as nat) =~= text::decimal(n as nat));
}

/// Marking a batch marks the mails of its account whose uid it names for their folder, and
/// changes no other.
pub proof fn lemma_marking_a_batch_changes_no_other(
    mails: Seq<MailView>,
    b: AccountBatchView,
    k: int,
)
    requires
        0 <= k < mails.len(),
    ensures
        ({
            let m = mails[k];
            let named = m.account == b.account && exists|i: int, j: int|
                {
                    &&& 0 <= i < b.folders.len()
                    &&& b.folders[i].folder == m.folder
                    &&& 0 <= j < b.folders[i].uids.len()
                    &&& #[trigger] b.folders[i].uids[j] == m.uid
                };
            let after = marked_batch(mails, b);
            &&& after.len() == mails.len()
            &&& same_mail(m, after[k])
            &&& named ==> after[k].seen
            &&& !named ==> after[k] == m
        }),
{
    let m = mails[k];
    if exists|i: int, j: int|
        {
            &&& 0 <= i < b.folders.len()
            &&& b.folders[i].folder == m.folder
            &&& 0 <= j < b.folders[i].uids.len()
            &&& #[trigger] b.folders[i].uids[j] == m.uid
        } {
        let (i, j) = choose|i: int, j: int|
            {
                &&& 0 <= i < b.folders.len()
                &&& b.folders[i].folder == m.folder
                &&& 0 <= j < b.folders[i].uids.len()
                &&& #[trigger] b.folders[i].uids[j] == m.uid
            };
        assert(b.folders[i].uids.contains(m.uid));
    }
    if in_batch(b, m) {
        let i = choose|i: int|
            {
                &&& 0 <= i < b.folders.len()
                &&& (#[trigger] b.folders[i]).folder == m.folder
                &&& b.folders[i].uids.contains(m.uid)
            };
        let j = choose|j: int| 0 <= j < b.folders[i].uids.len() && b.folders[i].uids[j] == m.uid;
        assert(b.folders[i].uids[j] == m.uid);
    }
}

proof fn lemma_uids_are_those_of_mails(
    mails: Seq<MailView>,
    account: Seq<char>,
    folder: Seq<char>,
    u: u32,
)
    requires
        uids_of(mails, account, folder).contains(u),
    ensures
        exists|k: int|
            {
                &&& 0 <= k < mails.len()
                &&& (#[trigger] mails[k]).account == account
                &&& mails[k].folder == folder
                &&& mails[k].uid == u
            },
    decreases mails.len(),
{
    let out = uids_of(mails, account, folder);
    let i = choose|i: int| 0 <= i < out.len() && out[i] == u;
    let head = mails.drop_last();
    let rest = uids_of(head, account, folder);
    if i < rest.len() {
        assert(rest[i] == u);
        lemma_uids_are_those_of_mails(head, account, folder, u);
        let k = choose|k: int|
            {
                &&& 0 <= k < head.len()
                &&& (#[trigger] head[k]).account == account
                &&& head[k].folder == folder
                &&& head[k].uid == u
            };
        assert(mails[k] == head[k]);
    } else {
        assert(mails[mails.len() - 1].uid == u);
    }
}

/// The server is asked to mark exactly the unread mails that were asked for: a batch is for the
/// first account of its name, and names a uid for a folder if and only if there is an unread mail
/// of that account and folder with that uid which was asked for.
pub proof fn lemma_batches_name_the_unread(
    mails: Seq<MailView>,
    accounts: Seq<config::AccountView>,
    filter: Seq<char>,
    j: int,
    folder: Seq<char>,
    u: u32,
)
    requires
        0 <= j < read_all_plan(mails, accounts, filter).len(),
    ensures
        ({
            let b = read_all_plan(mails, accounts, filter)[j];
            &&& 0 <= b.place < accounts.len() && accounts[b.place].name == b.account
            &&& forall|i: int| 0 <= i < b.place ==> (#[trigger] accounts[i]).name != b.account
            &&& (exists|i: int|
                {
                    &&& 0 <= i < b.folders.len()
                    &&& (#[trigger] b.folders[i]).folder == folder
                    &&& b.folders[i].uids.contains(u)
                }) <==> exists|k: int|
                {
                    &&& 0 <= k < mails.len()
                    &&& !(#[trigger] mails[k]).seen
                    &&& filter.len() == 0 || mails[k].account == filter
                    &&& mails[k].account == b.account
                    &&& mails[k].folder == folder
                    &&& mails[k].uid == u
                }
        }),
{
    let targets = targets_in(mails, filter);
    let names = accounts_of(targets);
    let plan = read_all_plan(mails, accounts, filter);
    let b = plan[j];
    lemma_accounts_of(targets);
    lemma_plan_shape(targets, accounts, names);
    lemma_plan_places(targets, accounts, names, j);
    lemma_place_of(accounts, b.account);
    let all = folders_of(targets, b.account);
    if exists|i: int|
        {
            &&& 0 <= i < b.folders.len()
            &&& (#[trigger] b.folders[i]).folder == folder
            &&& b.folders[i].uids.contains(u)
        } {
        let i = choose|i: int|
            {
                &&& 0 <= i < b.folders.len()
                &&& (#[trigger] b.folders[i]).folder == folder
                &&& b.folders[i].uids.contains(u)
            };
        assert(b.folders[i].uids == uids_of(targets, b.account, folder));
        lemma_uids_are_those_of_mails(targets, b.account, folder, u);
        let t = choose|t: int|
            {
                &&& 0 <= t < targets.len()
                &&& (#[trigger] targets[t]).account == b.account
                &&& targets[t].folder == folder
                &&& targets[t].uid == u
            };
        lemma_targets_match(mails, filter, t);
        let k = choose|k: int| 0 <= k < mails.len() && mails[k] == targets[t];
        assert(mails[k].uid == u);
    }
    if exists|k: int|
        {
            &&& 0 <= k < mails.len()
            &&& !(#[trigger] mails[k]).seen
            &&& filter.len() == 0 || mails[k].account == filter
            &&& mails[k].account == b.account
            &&& mails[k].folder == folder
            &&& mails[k].uid == u
        } {
        let k = choose|k: int|
            {
                &&& 0 <= k < mails.len()
                &&& !(#[trigger] mails[k]).seen
                &&& filter.len() == 0 || mails[k].account == filter
                &&& mails[k].account == b.account
                &&& mails[k].folder == folder
                &&& mails[k].uid == u
            };
        let t = lemma_targets_in(mails, filter, k);
        lemma_folders_of(targets, b.account);
        assert(all.contains(targets[t].folder));
        let i = choose|i: int| 0 <= i < all.len() && all[i] == folder;
        lemma_uids_of(targets, t);
        assert(b.folders[i].folder == folder);
        assert(b.folders[i].uids == uids_of(targets, b.account, folder));
    }
}

proof fn lemma_plan_places(
    mails: Seq<MailView>,
    accounts: Seq<config::AccountView>,
    names: Seq<Seq<char>>,
    j: int,
)
    requires
        0 <= j < account_plan(mails, accounts, names).len(),
    ensures
        ({
            let b = account_plan(mails, accounts, names)[j];
            place_of(accounts, b.account) == Some(b.place)
        }),
    decreases names.len(),
{
    let head = names.drop_last();
    if j < account_plan(mails, accounts, head).len() {
        lemma_plan_places(mails, accounts, head, j);
    }
}

/// Of several accounts with one name the first is the one that is asked.
pub proof fn lemma_first_account_of_a_name(
    accounts: Seq<config::AccountView>,
    name: Seq<char>,
    i: int,
)
    ensures
        place_of(accounts, name) == Some(i) <==> {
            &&& 0 <= i < accounts.len()
            &&& accounts[i].name == name
            &&& forall|k: int| 0 <= k < i ==> (#[trigger] accounts[k]).name != name
        },
        place_of(accounts, name) is None <==> forall|k: int|
            0 <= k < accounts.len() ==> (#[trigger] accounts[k]).name != name,
    decreases accounts.len(),
{
    if accounts.len() > 0 {
        let head = accounts.drop_last();
        lemma_first_account_of_a_name(head, name, i);
        if place_of(head, name) is Some {
            lemma_first_account_of_a_name(head, name, place_of(head, name)->0);
        }
        let last = accounts.len() - 1;
        assert(forall|k: int| 0 <= k < head.len() ==> #[trigger] accounts[k] == head[k]);
        assert(forall|k: int| 0 <= k < head.len() ==> #[trigger] head[k] == accounts[k]);
        assert(accounts[last] == accounts.last());
        match place_of(head, name) {
            Some(j) => {
                assert(accounts[j].name == name);
                if 0 <= i < accounts.len() && i != j {
                    assert(j < i ==> accounts[j].name == name);
                    assert(i < j ==> head[i].name != name);
                }
            },
            None => {},
        }
    }
}

} // verus!
