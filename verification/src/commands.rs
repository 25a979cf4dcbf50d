//! What the daemon does for a client that asks for the body of a mail or for its translation.
//!
//! Each command is cut where the server or a translator has to be asked: one function says
//! what is to be asked, if anything, and another makes the reply of what came back.

use crate::cache::{EngineKey, TransCache};
use crate::cache;
use crate::config::Account;
use crate::config;
use crate::mailhtml;
use crate::message::MailMessage;
use crate::message;
use crate::reply;
use crate::text;
use crate::translate;
use vstd::prelude::*;

verus! {

/// What comes next for a request: the reply, or a question to the server of the account at this
/// place in the configuration.
#[derive(Debug, Clone, PartialEq, Eq)]
pub enum Step {
    Reply(String),
    Ask(usize),
}

/// What a [`Step`] holds.
pub enum StepView {
    Reply(Seq<char>),
    Ask(int),
}

impl View for Step {
    type V = StepView;

    open spec fn view(&self) -> StepView {
        match *self {
            Step::Reply(r) => StepView::Reply(r@),
            Step::Ask(i) => StepView::Ask(i as int),
        }
    }
}

/// `i` is the place of the first account of that name.
pub open spec fn first_named(accounts: Seq<config::AccountView>, name: Seq<char>, i: int) -> bool {
    &&& 0 <= i < accounts.len()
    &&& accounts[i].name == name
    &&& !config::named_before(accounts, name, i)
}

/// What comes next for a request that has to go to the server: the first account of that name
/// is asked; where there is none, the reply says so.
pub open spec fn asks_account(
    accounts: Seq<config::AccountView>,
    name: Seq<char>,
    next: StepView,
) -> bool {
    match next {
        StepView::Ask(i) => first_named(accounts, name, i),
        StepView::Reply(r) => {
            &&& !config::named_before(accounts, name, accounts.len() as int)
            &&& r == reply::error_text("账户不存在"@)
        },
    }
}

fn ask_account(accounts: &[Account], name: &str) -> (next: Step)
    ensures
        asks_account(config::account_views(accounts@), name@, next@),
{
    match config::find_account(accounts, name) {
        Some(i) => {
            assert(config::account_views(accounts@)[i as int].name == name@);
            Step::Ask(i)
        },
        None => Step::Reply(reply::json_err("账户不存在")),
    }
}

// ---------------------------------------------------------------------------
// Raw mails
// ---------------------------------------------------------------------------

/// What a server answers to the fetch of one mail: the bodies it sent, or what went wrong.
pub type FetchedBodies = Result<Vec<Option<Vec<u8>>>, String>;

/// The bytes of a mail, or why there are none, where `answer` is what the server answered.
pub open spec fn raw_mail(answer: FetchedBodies) -> Result<Seq<u8>, Seq<char>> {
    match answer {
        Err(e) => Err(e@),
        Ok(bodies) => if bodies@.len() == 0 {
            Err("未找到该邮件"@)
        } else {
            match bodies@[0] {
                Some(bytes) => Ok(bytes@),
                None => Err("邮件无正文数据"@),
            }
        },
    }
}

/// The mail that the server sent, or why there is none.
pub open spec fn fetched_mail(answer: FetchedBodies) -> Result<
    message::MailMessageView,
    Seq<char>,
> {
    match raw_mail(answer) {
        Err(e) => Err(e),
        Ok(raw) => match message::parsed_message(raw) {
            Some(m) => Ok(m),
            None => Err("邮件解析失败"@),
        },
    }
}

/// The view of a mail that may be missing.
pub open spec fn mail_view(m: Result<MailMessage, String>) -> Result<
    message::MailMessageView,
    Seq<char>,
> {
    match m {
        Ok(m) => Ok(m@),
        Err(e) => Err(e@),
    }
}

/// The mail that the server sent, or why there is none.
pub fn fetch_raw_message(answer: FetchedBodies) -> (m: Result<MailMessage, String>)
    ensures
        mail_view(m) == fetched_mail(answer),
{
    match answer {
        Err(e) => Err(e),
        Ok(bodies) => {
            if bodies.len() == 0 {
                return Err("未找到该邮件".to_owned());
            }
            match &bodies[0] {
                Some(bytes) => match message::parse_message(bytes) {
                    Some(m) => Ok(m),
                    None => Err("邮件解析失败".to_owned()),
                },
                None => Err("邮件无正文数据".to_owned()),
            }
        },
    }
}

// ---------------------------------------------------------------------------
// Bodies
// ---------------------------------------------------------------------------

/// What comes next for a client that asks for the body of a mail, where `cached` is what is on
/// disk: the reply that is there, if it is not empty, and else a question to the server.
pub open spec fn body_step(
    accounts: Seq<config::AccountView>,
    name: Seq<char>,
    cached: Option<Seq<char>>,
    next: StepView,
) -> bool {
    if cached is Some && cached->0.len() > 0 {
        next == StepView::Reply(cached->0)
    } else {
        asks_account(accounts, name, next)
    }
}

/// What comes next for a client that asks for the body of a mail: the reply that is on disk,
/// where there is one, and else a question to the server.
pub fn fetch_body(accounts: &[Account], account_name: &str, cached: Option<String>) -> (next: Step)
    ensures
        body_step(
            config::account_views(accounts@),
            account_name@,
            text::opt(cached),
            next@,
        ),
{
    if let Some(reply) = cached {
        if !reply.as_str().is_empty() {
            return Step::Reply(reply);
        }
    }
    ask_account(accounts, account_name)
}

/// The reply that brings the body of a mail, where `date` is the local time it was sent at.
pub open spec fn body_reply(
    m: message::MailMessageView,
    date: Option<Seq<char>>,
    folder: Seq<char>,
) -> Seq<char> {
    let h = message::opened_header(m, date);
    reply::body_text(
        h.from,
        h.subject,
        h.date,
        folder,
        mailhtml::html_of(
            crate::segment::segments_of(mailhtml::readable_body(m.parts)),
        ),
    )
}

/// The reply that brings the body of a mail, where `date` is the local time it was sent at.
pub fn show_body(m: &MailMessage, date: Option<String>, folder: &str) -> (out: String)
    ensures
        out@ == body_reply(m@, text::opt(date), folder@),
        out@.len() > 0,
{
    let plain = mailhtml::extract_body(m);
    let html = mailhtml::body_to_html(plain.as_str());
    let h = message::open_header(m, date);
    reply::json_body(
        h.from.as_str(),
        h.subject.as_str(),
        h.date.as_str(),
        folder,
        html.as_str(),
    )
}

/// `reply` is the reply to a client that asked for the body of a mail, and `stored` says whether
/// it goes to disk, where `answer` is what the server answered: what shows a mail is stored, what
/// says that something went wrong is not.
pub open spec fn body_answer(
    answer: FetchedBodies,
    folder: Seq<char>,
    reply: Seq<char>,
    stored: bool,
) -> bool {
    match fetched_mail(answer) {
        Ok(m) => {
            &&& stored
            &&& reply.len() > 0
            &&& exists|date: Option<Seq<char>>|
                {
                    &&& reply == #[trigger] body_reply(m, date, folder)
                    &&& message::dates(m.parts, date)
                }
        },
        Err(e) => !stored && reply == reply::error_text(e),
    }
}

/// The reply to a client that asked for the body of a mail, and whether it goes to disk, where
/// `answer` is what the server answered. All but the date is a function of the answer; the date
/// is the local time of the mail's date.
pub fn answer_body(answer: FetchedBodies, folder: &str) -> (out: (String, bool))
    ensures
        body_answer(answer, folder@, out.0@, out.1),
{
    match fetch_raw_message(answer) {
        Ok(m) => {
            let date = message::sent_at(&m);
            let ghost shown = text::opt(date);
            let out = show_body(&m, date, folder);
            assert(out@ == body_reply(m@, shown, folder@));
            (out, true)
        },
        Err(e) => (reply::json_err(e.as_str()), false),
    }
}

/// A body that was fetched comes back as it was: once the reply is on disk, the same request gets
/// it, letter for letter, without a question to the server, even where the account is gone. What
/// went wrong is not on disk: the server is asked again, or the account is missing.
pub proof fn lemma_stored_body_comes_back(
    answer: FetchedBodies,
    folder: Seq<char>,
    reply: Seq<char>,
    stored: bool,
    accounts: Seq<config::AccountView>,
    name: Seq<char>,
    next: StepView,
)
    requires
        body_answer(answer, folder, reply, stored),
        body_step(
            accounts,
            name,
            if stored {
                Some(reply)
            } else {
                None
            },
            next,
        ),
    ensures
        stored <==> fetched_mail(answer) is Ok,
        stored ==> next == StepView::Reply(reply),
        !stored ==> asks_account(accounts, name, next),
{
}

// ---------------------------------------------------------------------------
// Translations
// ---------------------------------------------------------------------------

/// The cache of translations that the daemon starts with.
pub fn trans_cache() -> (cache: TransCache<EngineKey>)
    ensures
        cache@.well_formed(),
        cache@.cap == 200,
        cache@.entries.len() == 0,
{
    TransCache::new(200)
}

/// What the key of a translation says. A uid that is no number counts as zero.
pub open spec fn key_name(
    account: Seq<char>,
    folder: Seq<char>,
    uid: Seq<char>,
    engine: Seq<char>,
    src: Seq<char>,
    tgt: Seq<char>,
) -> (Seq<char>, Seq<char>, u32, Seq<char>, Seq<char>, Seq<char>) {
    let number = match text::parsed_u32(uid) {
        Some(n) => n,
        None => 0,
    };
    (account, folder, number, engine, src, tgt)
}

/// The key of a translation.
pub fn translation_key(
    account: &str,
    folder: &str,
    uid: &str,
    engine: &str,
    src: &str,
    tgt: &str,
) -> (key: EngineKey)
    ensures
        cache::CacheKey::name(&key) == key_name(account@, folder@, uid@, engine@, src@, tgt@),
{
    let number: u32 = match text::parse_u32(uid) {
        Some(n) => n,
        None => 0,
    };
    (
        account.to_owned(),
        folder.to_owned(),
        number,
        engine.to_owned(),
        src.to_owned(),
        tgt.to_owned(),
    )
}

/// What comes next for a client that asks for a translation: an account that is not there is an
/// error, a translation in the cache is the reply, and else the server is asked.
pub fn fetch_translation(
    accounts: &[Account],
    cache: &TransCache<EngineKey>,
    account_name: &str,
    key: &EngineKey,
) -> (next: Step)
    requires
        cache@.well_formed(),
    ensures
        ({
            let views = config::account_views(accounts@);
            let hit = cache@.lookup(cache::CacheKey::name(key));
            if hit is Some && config::named_before(views, account_name@, views.len() as int) {
                next@ == StepView::Reply(reply::translation_text(hit->0))
            } else {
                asks_account(views, account_name@, next@)
            }
        }),
{
    match ask_account(accounts, account_name) {
        Step::Reply(r) => Step::Reply(r),
        Step::Ask(i) => {
            assert(config::account_views(accounts@)[i as int].name == account_name@);
            match cache.get(key) {
                Some(html) => Step::Reply(reply::json_translation(html.as_str())),
                None => Step::Ask(i),
            }
        },
    }
}

/// What has to be done for a translation.
#[derive(Debug, Clone, PartialEq, Eq)]
pub enum Work {
    /// Nothing: the text stays as it is.
    Keep(String),
    /// The text goes to Google.
    Google(String),
    /// The text goes to a DeepLX server.
    DeepLx(String),
    /// The text goes to the offline model, from the language `src`.
    Offline { plain: String, src: String },
}

/// What a [`Work`] holds.
pub enum WorkView {
    Keep(Seq<char>),
    Google(Seq<char>),
    DeepLx(Seq<char>),
    Offline { plain: Seq<char>, src: Seq<char> },
}

impl View for Work {
    type V = WorkView;

    open spec fn view(&self) -> WorkView {
        match *self {
            Work::Keep(t) => WorkView::Keep(t@),
            Work::Google(t) => WorkView::Google(t@),
            Work::DeepLx(t) => WorkView::DeepLx(t@),
            Work::Offline { plain, src } => WorkView::Offline { plain: plain@, src: src@ },
        }
    }
}

/// What has to be done to translate `plain`, where `src` is the language it is in: a blank text
/// stays as it is, and so does one that the offline model would translate into its own language.
pub open spec fn work_for(
    plain: Seq<char>,
    engine: Seq<char>,
    src: Seq<char>,
    tgt: Seq<char>,
) -> WorkView {
    if text::blank(plain) {
        WorkView::Keep(plain)
    } else if engine == "google"@ {
        WorkView::Google(plain)
    } else if engine == "deeplx"@ {
        WorkView::DeepLx(plain)
    } else if src == tgt {
        WorkView::Keep(plain)
    } else {
        WorkView::Offline { plain, src }
    }
}

/// What has to be done to translate `plain`, where `src` is the language it is in.
pub fn choose_work(plain: String, engine: &str, src: String, tgt: &str) -> (work: Work)
    ensures
        work@ == work_for(plain@, engine@, src@, tgt@),
{
    let v = text::to_chars(plain.as_str());
    if text::is_blank(&v) {
        Work::Keep(plain)
    } else if text::same_text(engine, "google") {
        Work::Google(plain)
    } else if text::same_text(engine, "deeplx") {
        Work::DeepLx(plain)
    } else if text::same_text(src.as_str(), tgt) {
        Work::Keep(plain)
    } else {
        Work::Offline { plain, src }
    }
}

/// What has to be done to translate a mail.
pub fn plan_translation(m: &MailMessage, engine: &str, src_req: &str, tgt: &str) -> (work: Work)
    ensures
        ({
            let plain = mailhtml::readable_body(m@.parts);
            work@ == work_for(plain, engine@, translate::source_lang(src_req@, plain), tgt@)
        }),
{
    let plain = mailhtml::extract_body(m);
    let src = if text::same_text(engine, "google") || text::same_text(engine, "deeplx") {
        String::new()
    } else {
        translate::resolve_source_lang(src_req, plain.as_str())
    };
    choose_work(plain, engine, src, tgt)
}

/// The HTML of a plain text.
pub open spec fn html_text(plain: Seq<char>) -> Seq<char> {
    mailhtml::html_of(crate::segment::segments_of(plain))
}

/// The reply to a client that asked for a translation, where `translated` is what came of it.
/// What was translated goes into the cache as HTML.
pub fn answer_translation(
    cache: &mut TransCache<EngineKey>,
    key: EngineKey,
    translated: Result<String, String>,
) -> (out: String)
    requires
        old(cache)@.well_formed(),
    ensures
        final(cache)@.well_formed(),
        match translated {
            Ok(t) => {
                &&& out@ == reply::translation_text(html_text(t@))
                &&& final(cache)@ == old(cache)@.with(
                    cache::CacheKey::name(&key),
                    html_text(t@),
                )
            },
            Err(e) => out@ == reply::error_text(e@) && final(cache)@ == old(cache)@,
        },
{
    match translated {
        Ok(t) => {
            let html = mailhtml::body_to_html(t.as_str());
            let out = reply::json_translation(html.as_str());
            cache.put(key, html);
            out
        },
        Err(e) => reply::json_err(e.as_str()),
    }
}

/// A translation that was made is found again: the same request gets the same reply from the
/// cache, without a question to the server.
pub proof fn lemma_translation_is_found_again(
    cache: cache::TransCacheView<(Seq<char>, Seq<char>, u32, Seq<char>, Seq<char>, Seq<char>)>,
    account: Seq<char>,
    folder: Seq<char>,
    uid: Seq<char>,
    engine: Seq<char>,
    src: Seq<char>,
    tgt: Seq<char>,
    plain: Seq<char>,
)
    requires
        cache.well_formed(),
    ensures
        cache.with(
            key_name(account, folder, uid, engine, src, tgt),
            html_text(plain),
        ).lookup(key_name(account, folder, uid, engine, src, tgt)) == Some(html_text(plain)),
{
    cache::lemma_put_then_get(
        cache,
        key_name(account, folder, uid, engine, src, tgt),
        html_text(plain),
    );
}

/// Another engine or other languages never find this translation.
pub proof fn lemma_other_choices_find_another(
    account: Seq<char>,
    folder: Seq<char>,
    uid: Seq<char>,
    engine: Seq<char>,
    src: Seq<char>,
    tgt: Seq<char>,
    engine2: Seq<char>,
    src2: Seq<char>,
    tgt2: Seq<char>,
)
    ensures
        key_name(account, folder, uid, engine, src, tgt) == key_name(
            account,
            folder,
            uid,
            engine2,
            src2,
            tgt2,
        ) <==> engine == engine2 && src == src2 && tgt == tgt2,
{
    let a = key_name(account, folder, uid, engine, src, tgt);
    let b = key_name(account, folder, uid, engine2, src2, tgt2);
    if a == b {
        assert(a.3 == b.3 && a.4 == b.4 && a.5 == b.5);
    }
}

/// A blank text is not translated. Any other goes to the engine that was asked for: to Google or
/// to DeepLX by their names, and else to the offline model, unless it is in the language that was
/// asked for already. It goes there whole.
pub proof fn lemma_text_goes_to_the_engine(
    plain: Seq<char>,
    engine: Seq<char>,
    src: Seq<char>,
    tgt: Seq<char>,
)
    ensures
        text::blank(plain) ==> work_for(plain, engine, src, tgt) == WorkView::Keep(plain),
        !text::blank(plain) ==> work_for(plain, "google"@, src, tgt) == WorkView::Google(plain),
        !text::blank(plain) ==> work_for(plain, "deeplx"@, src, tgt) == WorkView::DeepLx(plain),
        !text::blank(plain) && engine != "google"@ && engine != "deeplx"@ && src != tgt
            ==> work_for(plain, engine, src, tgt) == (WorkView::Offline { plain, src }),
        !text::blank(plain) && engine != "google"@ && engine != "deeplx"@ ==> work_for(
            plain,
            engine,
            tgt,
            tgt,
        ) == WorkView::Keep(plain),
{
    reveal_strlit("google");
    reveal_strlit("deeplx");
    assert("google"@[0] == 'g' && "deeplx"@[0] == 'd');
}

/// Two translations are kept under one key only if they are of one mail, by one engine, between
/// the same languages: the account, the folder and the number of the mail all count.
pub proof fn lemma_other_mails_find_another(
    account: Seq<char>,
    folder: Seq<char>,
    n: u32,
    account2: Seq<char>,
    folder2: Seq<char>,
    n2: u32,
    engine: Seq<char>,
    src: Seq<char>,
    tgt: Seq<char>,
)
    ensures
        key_name(account, folder, text::decimal(n as nat), engine, src, tgt) == key_name(
            account2,
            folder2,
            text::decimal(n2 as nat),
            engine,
            src,
            tgt,
        ) <==> account == account2 && folder == folder2 && n == n2,
{
    let none = Seq::<char>::empty();
    text::lemma_numbers_are_read_from_decimal(n, none, none);
    text::lemma_numbers_are_read_from_decimal(n2, none, none);
    assert(none + text::decimal(n as nat) =~= text::decimal(n as nat));
    assert(none + text::decimal(n2 as nat) =~= text::decimal(n2 as nat));
}

/// The mail is in the first line of the server's answer. No line, a line without a body, and bytes
/// that are no mail each have their own error; an error of the server is passed on.
pub proof fn lemma_answers_have_their_errors(message: String, rest: Seq<Option<Vec<u8>>>)
    ensures
        raw_mail(Err(message)) == Err::<Seq<u8>, Seq<char>>(message@),
        forall|answer: FetchedBodies|
            {
                &&& answer is Ok && answer->Ok_0@.len() == 0 ==> #[trigger] raw_mail(answer)
                    == Err::<Seq<u8>, Seq<char>>("未找到该邮件"@)
                &&& answer is Ok && answer->Ok_0@.len() > 0 && answer->Ok_0@[0] is None ==> raw_mail(
                    answer,
                ) == Err::<Seq<u8>, Seq<char>>("邮件无正文数据"@)
                &&& answer is Ok && answer->Ok_0@.len() > 0 && answer->Ok_0@[0] is Some ==> raw_mail(
                    answer,
                ) == Ok::<Seq<u8>, Seq<char>>(answer->Ok_0@[0]->0@)
                &&& raw_mail(answer) is Err ==> fetched_mail(answer) == Err::<
                    message::MailMessageView,
                    Seq<char>,
                >(raw_mail(answer)->Err_0)
                &&& raw_mail(answer) is Ok && message::parsed_message(raw_mail(answer)->Ok_0) is None
                    ==> fetched_mail(answer) == Err::<message::MailMessageView, Seq<char>>(
                    "邮件解析失败"@,
                )
                &&& raw_mail(answer) is Ok && message::parsed_message(raw_mail(answer)->Ok_0) is Some
                    ==> fetched_mail(answer) == Ok::<message::MailMessageView, Seq<char>>(
                    message::parsed_message(raw_mail(answer)->Ok_0)->0,
                )
            },
{
}

/// The reply with a body shows the header as the reader shows it, the folder, and the readable body
/// as HTML.
pub proof fn lemma_body_reply_shows_the_mail(
    m: message::MailMessageView,
    date: Option<Seq<char>>,
    folder: Seq<char>,
)
    ensures
        body_reply(m, date, folder) == reply::json_object_text(
            seq![
                ("ok"@, reply::JsonView::Bool(true)),
                ("from"@, reply::JsonView::Text(message::opened_header(m, date).from)),
                ("subject"@, reply::JsonView::Text(message::opened_header(m, date).subject)),
                ("date"@, reply::JsonView::Text(message::opened_header(m, date).date)),
                ("folder"@, reply::JsonView::Text(folder)),
                (
                    "body"@,
                    reply::JsonView::Text(
                        mailhtml::html_of(
                            crate::segment::segments_of(mailhtml::readable_body(m.parts)),
                        ),
                    ),
                ),
            ],
        ),
        html_text(mailhtml::readable_body(m.parts)) == mailhtml::html_of(
            crate::segment::segments_of(mailhtml::readable_body(m.parts)),
        ),
{
}

/// A request for an account that is there goes to the first account of its name; one for an account
/// that is not there is answered by an error.
pub proof fn lemma_requests_go_to_the_first_account(
    accounts: Seq<config::AccountView>,
    name: Seq<char>,
    next: StepView,
    i: int,
)
    requires
        asks_account(accounts, name, next),
    ensures
        0 <= i < accounts.len() && accounts[i].name == name ==> {
            &&& next is Ask
            &&& 0 <= next->Ask_0 <= i
            &&& accounts[next->Ask_0].name == name
            &&& forall|k: int| 0 <= k < next->Ask_0 ==> (#[trigger] accounts[k]).name != name
        },
        (forall|k: int| 0 <= k < accounts.len() ==> (#[trigger] accounts[k]).name != name) ==> next
            == StepView::Reply(reply::error_text("账户不存在"@)),
{
}

/// A body that is kept is the reply, unless what is kept is empty; else the account is asked.
pub proof fn lemma_kept_bodies_are_the_reply(
    accounts: Seq<config::AccountView>,
    name: Seq<char>,
    kept: Seq<char>,
    next: StepView,
)
    ensures
        kept.len() > 0 ==> (body_step(accounts, name, Some(kept), next) <==> next
            == StepView::Reply(kept)),
        body_step(accounts, name, None, next) <==> asks_account(accounts, name, next),
        body_step(accounts, name, Some(Seq::<char>::empty()), next) <==> asks_account(
            accounts,
            name,
            next,
        ),
{
}

/// Only the reply with a body is kept, and an error says what went wrong.
pub proof fn lemma_only_bodies_are_kept(
    answer: FetchedBodies,
    folder: Seq<char>,
    reply: Seq<char>,
    stored: bool,
)
    requires
        body_answer(answer, folder, reply, stored),
    ensures
        stored <==> fetched_mail(answer) is Ok,
        fetched_mail(answer) is Err ==> reply == reply::json_object_text(
            seq![
                ("ok"@, reply::JsonView::Bool(false)),
                ("error"@, reply::JsonView::Text(fetched_mail(answer)->Err_0)),
            ],
        ),
        stored ==> exists|date: Option<Seq<char>>|
            reply == #[trigger] body_reply(fetched_mail(answer)->Ok_0, date, folder)
                && message::dates(fetched_mail(answer)->Ok_0.parts, date),
{
}

/// Two translations are kept under one key exactly if account, folder, engine and languages are the
/// same and the uids are the same number; a uid that is no number counts as zero.
pub proof fn lemma_keys_tell_translations_apart(
    account: Seq<char>,
    folder: Seq<char>,
    uid: Seq<char>,
    engine: Seq<char>,
    src: Seq<char>,
    tgt: Seq<char>,
    engine2: Seq<char>,
    src2: Seq<char>,
    tgt2: Seq<char>,
    word: Seq<char>,
)
    ensures
        key_name(account, folder, uid, engine, src, tgt) == key_name(
            account,
            folder,
            uid,
            engine2,
            src2,
            tgt2,
        ) <==> engine == engine2 && src == src2 && tgt == tgt2,
        text::parsed_u32(word) is None ==> key_name(account, folder, word, engine, src, tgt)
            == key_name(account, folder, seq!['0'], engine, src, tgt),
{
    let none = Seq::<char>::empty();
    text::lemma_numbers_are_read_from_decimal(0u32, none, none);
    text::lemma_decimal_chars(0);
    assert(none + text::decimal(0) =~= text::decimal(0));
    assert(text::decimal(0) =~= seq!['0']);
}

/// A text is shown piece by piece: its prose, its links and its codes, in order.
pub proof fn lemma_texts_are_shown_piece_by_piece(plain: Seq<char>)
    ensures
        html_text(plain) == mailhtml::html_of(crate::segment::segments_of(plain)),
        html_text(Seq::<char>::empty()) == Seq::<char>::empty(),
{
    let none = Seq::<char>::empty();
    let ps = crate::segment::segments_of(none);
    assert(none.subrange(0, 0) =~= none);
    assert(crate::segment::prose(none) =~= Seq::<crate::segment::Piece>::empty());
    assert(ps =~= Seq::<crate::segment::Piece>::empty());
}

} // verus!
