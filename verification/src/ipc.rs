//! What a client and the daemon say to each other: requests of one line each, with fields that
//! tabs separate, and the socket that carries them.

use crate::text;
use vstd::prelude::*;

verus! {

// ---------------------------------------------------------------------------
// The socket
// ---------------------------------------------------------------------------

/// The path of the socket: in the runtime directory of the session where there is one, and
/// else in the directory for temporary files, under the user's name.
pub open spec fn socket_place(
    runtime_dir: Option<Seq<char>>,
    user: Option<Seq<char>>,
    logname: Option<Seq<char>>,
    temp_dir: Seq<char>,
) -> Seq<char> {
    let dir = text::without_tail(text::opt_or(runtime_dir, Seq::<char>::empty()), seq!['/']);
    if dir.len() > 0 {
        dir + "/dms-email-client.sock"@
    } else {
        let name = text::opt_or(user, text::opt_or(logname, "user"@));
        text::path_under(temp_dir, "dms-email-client-"@ + name + ".sock"@)
    }
}

/// The path of the socket, where the arguments are what the environment says: the runtime
/// directory of the session, the user's name, the login name, and the directory for temporary
/// files.
pub fn socket_path(
    runtime_dir: &Option<String>,
    user: &Option<String>,
    logname: &Option<String>,
    temp_dir: &str,
) -> (path: String)
    ensures
        path@ == socket_place(
            text::opt(*runtime_dir),
            text::opt(*user),
            text::opt(*logname),
            temp_dir@,
        ),
{
    let slash: Vec<char> = vec!['/'];
    assert(slash@ =~= seq!['/']);
    if let Some(d) = runtime_dir {
        let v = text::to_chars(d.as_str());
        let mut dir = text::drop_tail(&v, &slash);
        if dir.len() > 0 {
            text::push_text(&mut dir, "/dms-email-client.sock");
            return text::from_chars(&dir);
        }
    }
    let name = match user {
        Some(u) => text::to_chars(u.as_str()),
        None => match logname {
            Some(l) => text::to_chars(l.as_str()),
            None => text::to_chars("user"),
        },
    };
    let mut file = text::to_chars("dms-email-client-");
    text::push_all(&mut file, &name);
    text::push_text(&mut file, ".sock");
    let base = text::to_chars(temp_dir);
    let path = text::path_join(&base, &file);
    text::from_chars(&path)
}

// ---------------------------------------------------------------------------
// Requests
// ---------------------------------------------------------------------------

/// What a client asks of the daemon.
#[derive(Debug, Clone, PartialEq, Eq)]
pub enum Request {
    /// The state, once.
    Status,
    /// The state now and after every change, one line each, until the connection closes.
    Watch,
    /// That the daemon exits, so that it is started again with a new configuration.
    Reload,
    /// That the daemon exits.
    Shutdown,
    /// The body of a mail.
    Body { account: String, folder: String, uid: String },
    /// That a mail is marked as read.
    Read { account: String, folder: String, uid: String },
    /// That all mails of an account are marked as read, or of all accounts where `account` is
    /// empty.
    ReadAll { account: String },
    /// The translated body of a mail.
    Translate {
        account: String,
        folder: String,
        uid: String,
        src: String,
        tgt: String,
        engine: String,
        deeplx_url: String,
    },
}

/// What a [`Request`] holds.
pub enum RequestView {
    Status,
    Watch,
    Reload,
    Shutdown,
    Body { account: Seq<char>, folder: Seq<char>, uid: Seq<char> },
    Read { account: Seq<char>, folder: Seq<char>, uid: Seq<char> },
    ReadAll { account: Seq<char> },
    Translate {
        account: Seq<char>,
        folder: Seq<char>,
        uid: Seq<char>,
        src: Seq<char>,
        tgt: Seq<char>,
        engine: Seq<char>,
        deeplx_url: Seq<char>,
    },
}

impl View for Request {
    type V = RequestView;

    open spec fn view(&self) -> RequestView {
        match *self {
            Request::Status => RequestView::Status,
            Request::Watch => RequestView::Watch,
            Request::Reload => RequestView::Reload,
            Request::Shutdown => RequestView::Shutdown,
            Request::Body { account, folder, uid } => RequestView::Body {
                account: account@,
                folder: folder@,
                uid: uid@,
            },
            Request::Read { account, folder, uid } => RequestView::Read {
                account: account@,
                folder: folder@,
                uid: uid@,
            },
            Request::ReadAll { account } => RequestView::ReadAll { account: account@ },
            Request::Translate { account, folder, uid, src, tgt, engine, deeplx_url } =>
                RequestView::Translate {
                    account: account@,
                    folder: folder@,
                    uid: uid@,
                    src: src@,
                    tgt: tgt@,
                    engine: engine@,
                    deeplx_url: deeplx_url@,
                },
        }
    }
}

/// The fields of a request's line.
pub open spec fn fields_of(r: RequestView) -> Seq<Seq<char>> {
    match r {
        RequestView::Status => seq!["status"@],
        RequestView::Watch => seq!["watch"@],
        RequestView::Reload => seq!["reload"@],
        RequestView::Shutdown => seq!["shutdown"@],
        RequestView::Body { account, folder, uid } => seq!["body"@, account, folder, uid],
        RequestView::Read { account, folder, uid } => seq!["read"@, account, folder, uid],
        RequestView::ReadAll { account } => seq!["read_all"@, account],
        RequestView::Translate { account, folder, uid, src, tgt, engine, deeplx_url } =>
            seq!["translate"@, account, folder, uid, src, tgt, engine, deeplx_url],
    }
}

/// The line of a request, without a line end.
pub open spec fn line_of(r: RequestView) -> Seq<char> {
    text::joined(fields_of(r), seq!['\t'])
}

/// The request that the fields of a line make. A translation without an engine is one for the
/// offline model. Whatever is not known asks for the state.
pub open spec fn request_of(f: Seq<Seq<char>>) -> RequestView {
    if f == seq!["watch"@] {
        RequestView::Watch
    } else if f == seq!["reload"@] {
        RequestView::Reload
    } else if f == seq!["shutdown"@] {
        RequestView::Shutdown
    } else if f.len() == 4 && f[0] == "body"@ {
        RequestView::Body { account: f[1], folder: f[2], uid: f[3] }
    } else if f.len() == 4 && f[0] == "read"@ {
        RequestView::Read { account: f[1], folder: f[2], uid: f[3] }
    } else if f.len() == 2 && f[0] == "read_all"@ {
        RequestView::ReadAll { account: f[1] }
    } else if f.len() == 8 && f[0] == "translate"@ {
        RequestView::Translate {
            account: f[1],
            folder: f[2],
            uid: f[3],
            src: f[4],
            tgt: f[5],
            engine: f[6],
            deeplx_url: f[7],
        }
    } else if f.len() == 6 && f[0] == "translate"@ {
        RequestView::Translate {
            account: f[1],
            folder: f[2],
            uid: f[3],
            src: f[4],
            tgt: f[5],
            engine: "nllb"@,
            deeplx_url: Seq::<char>::empty(),
        }
    } else {
        RequestView::Status
    }
}

/// The fields of a line, whose line end does not count.
pub open spec fn fields_in(line: Seq<char>) -> Seq<Seq<char>> {
    text::split_on(text::without_tail(line, seq!['\n', '\r']), '\t')
}

/// The request that a line makes.
pub open spec fn parsed_request(line: Seq<char>) -> RequestView {
    request_of(fields_in(line))
}

fn field(s: &String) -> (v: Vec<char>)
    ensures
        v@ == s@,
{
    text::to_chars(s.as_str())
}

fn take_field(fields: &[Vec<char>], i: usize) -> (s: String)
    requires
        i < fields@.len(),
    ensures
        s@ == text::views(fields@)[i as int],
{
    text::from_chars(&fields[i])
}

impl Request {
    /// The line of this request, without a line end.
    pub fn encode(&self) -> (line: String)
        ensures
            line@ == line_of(self@),
    {
        let mut fields: Vec<Vec<char>> = Vec::new();
        match self {
            Request::Status => {
                fields.push(text::to_chars("status"));
            },
            Request::Watch => {
                fields.push(text::to_chars("watch"));
            },
            Request::Reload => {
                fields.push(text::to_chars("reload"));
            },
            Request::Shutdown => {
                fields.push(text::to_chars("shutdown"));
            },
            Request::Body { account, folder, uid } => {
                fields.push(text::to_chars("body"));
                fields.push(field(account));
                fields.push(field(folder));
                fields.push(field(uid));
            },
            Request::Read { account, folder, uid } => {
                fields.push(text::to_chars("read"));
                fields.push(field(account));
                fields.push(field(folder));
                fields.push(field(uid));
            },
            Request::ReadAll { account } => {
                fields.push(text::to_chars("read_all"));
                fields.push(field(account));
            },
            Request::Translate { account, folder, uid, src, tgt, engine, deeplx_url } => {
                fields.push(text::to_chars("translate"));
                fields.push(field(account));
                fields.push(field(folder));
                fields.push(field(uid));
                fields.push(field(src));
                fields.push(field(tgt));
                fields.push(field(engine));
                fields.push(field(deeplx_url));
            },
        }
        assert(text::views(fields@) =~= fields_of(self@));
        let tab: Vec<char> = vec!['\t'];
        assert(tab@ =~= seq!['\t']);
        let line = text::join(&fields, &tab);
        text::from_chars(&line)
    }

    /// The request that a line makes. A line end does not count. Whatever is not known asks for
    /// the state.
    pub fn parse(line: &str) -> (r: Request)
        ensures
            r@ == parsed_request(line@),
    {
        let line = text::to_chars(line);
        let ends: Vec<char> = vec!['\n', '\r'];
        assert(ends@ =~= seq!['\n', '\r']);
        let bare = text::drop_tail(&line, &ends);
        let f = text::split(&bare, '\t');
        let n: usize = f.len();
        let ghost all = text::views(f@);
        assert(all == fields_in(line@));
        let command = take_field(&f, 0);
        proof {
            if n == 1 {
                assert(all =~= seq![all[0]]);
            }
            assert(seq!["watch"@][0] == "watch"@);
            assert(seq!["reload"@][0] == "reload"@);
            assert(seq!["shutdown"@][0] == "shutdown"@);
        }
        if n == 1 && text::same_text(command.as_str(), "watch") {
            Request::Watch
        } else if n == 1 && text::same_text(command.as_str(), "reload") {
            Request::Reload
        } else if n == 1 && text::same_text(command.as_str(), "shutdown") {
            Request::Shutdown
        } else if n == 4 && text::same_text(command.as_str(), "body") {
            Request::Body {
                account: take_field(&f, 1),
                folder: take_field(&f, 2),
                uid: take_field(&f, 3),
            }
        } else if n == 4 && text::same_text(command.as_str(), "read") {
            Request::Read {
                account: take_field(&f, 1),
                folder: take_field(&f, 2),
                uid: take_field(&f, 3),
            }
        } else if n == 2 && text::same_text(command.as_str(), "read_all") {
            Request::ReadAll { account: take_field(&f, 1) }
        } else if n == 8 && text::same_text(command.as_str(), "translate") {
            Request::Translate {
                account: take_field(&f, 1),
                folder: take_field(&f, 2),
                uid: take_field(&f, 3),
                src: take_field(&f, 4),
                tgt: take_field(&f, 5),
                engine: take_field(&f, 6),
                deeplx_url: take_field(&f, 7),
            }
        } else if n == 6 && text::same_text(command.as_str(), "translate") {
            let deeplx_url = String::new();
            assert(deeplx_url@ =~= Seq::<char>::empty());
            Request::Translate {
                account: take_field(&f, 1),
                folder: take_field(&f, 2),
                uid: take_field(&f, 3),
                src: take_field(&f, 4),
                tgt: take_field(&f, 5),
                engine: "nllb".to_owned(),
                deeplx_url,
            }
        } else {
            Request::Status
        }
    }
}

/// Whether what came back for a status request shows that a daemon is running: it holds the
/// start of a JSON object.
pub fn is_status_reply(reply: &str) -> (yes: bool)
    ensures
        yes == text::holds(reply@, "{"@),
{
    text::contains(reply, "{")
}

// ---------------------------------------------------------------------------
// What holds of every request
// ---------------------------------------------------------------------------

/// A request whose line can be read back: no field holds a tab, and the last one does not end
/// in a line end.
pub open spec fn writable(r: RequestView) -> bool {
    let f = fields_of(r);
    &&& forall|i: int| 0 <= i < f.len() ==> !(#[trigger] f[i]).contains('\t')
    &&& f.last().len() > 0 ==> !seq!['\n', '\r'].contains(f.last().last())
}

proof fn lemma_literals()
    ensures
        "status"@.len() == 6,
        "status"@[0] == 's',
        "status"@[1] == 't',
        "status"@.last() == 's',
        "watch"@.len() == 5,
        "watch"@[0] == 'w',
        "watch"@.last() == 'h',
        "reload"@.len() == 6,
        "reload"@[0] == 'r',
        "reload"@.last() == 'd',
        "shutdown"@.len() == 8,
        "shutdown"@[0] == 's',
        "shutdown"@.last() == 'n',
        "body"@.len() == 4,
        "body"@[0] == 'b',
        "read"@.len() == 4,
        "read"@[0] == 'r',
        "read_all"@.len() == 8,
        "translate"@.len() == 9,
{
    reveal_strlit("status");
    reveal_strlit("watch");
    reveal_strlit("reload");
    reveal_strlit("shutdown");
    reveal_strlit("body");
    reveal_strlit("read");
    reveal_strlit("read_all");
    reveal_strlit("translate");
}

proof fn lemma_request_of_fields(r: RequestView)
    ensures
        request_of(fields_of(r)) == r,
{
    lemma_literals();
    let f = fields_of(r);
    if f.len() == 1 {
        assert(f =~= seq![f[0]]);
        assert(seq!["watch"@][0] == "watch"@);
        assert(seq!["reload"@][0] == "reload"@);
        assert(seq!["shutdown"@][0] == "shutdown"@);
    }
}

proof fn lemma_tail_of_join(f: Seq<Seq<char>>)
    requires
        f.len() >= 1,
        f.len() == 1 ==> f[0].len() > 0,
        f.last().len() > 0 ==> !seq!['\n', '\r'].contains(f.last().last()),
    ensures
        text::without_tail(text::joined(f, seq!['\t']), seq!['\n', '\r']) == text::joined(
            f,
            seq!['\t'],
        ),
{
    let ends = seq!['\n', '\r'];
    let line = text::joined(f, seq!['\t']);
    assert(!ends.contains('\t'));
    if f.last().len() > 0 {
        assert(line.last() == f.last().last());
    } else {
        assert(line.last() == '\t');
    }
}

/// A request is what its line is read as.
pub proof fn lemma_parse_undoes_encode(r: RequestView)
    requires
        writable(r),
    ensures
        parsed_request(line_of(r)) == r,
{
    lemma_literals();
    let f = fields_of(r);
    lemma_tail_of_join(f);
    text::lemma_split_undoes_join(f, '\t');
    lemma_request_of_fields(r);
}

/// Line ends behind a line change nothing.
pub proof fn lemma_line_end_does_not_count(line: Seq<char>, end: char)
    requires
        end == '\n' || end == '\r',
    ensures
        parsed_request(line.push(end)) == parsed_request(line),
{
    let ends = seq!['\n', '\r'];
    assert(ends[0] == '\n' && ends[1] == '\r');
    assert(ends.contains(end));
    assert(line.push(end).drop_last() =~= line);
}

proof fn lemma_no_tail(s: Seq<char>, tail: Seq<char>)
    ensures
        text::without_tail(s, tail).len() > 0 ==> !tail.contains(
            text::without_tail(s, tail).last(),
        ),
    decreases s.len(),
{
    if s.len() > 0 && tail.contains(s.last()) {
        lemma_no_tail(s.drop_last(), tail);
    }
}

proof fn lemma_last_field(s: Seq<char>)
    ensures
        ({
            let f = text::split_on(s, '\t');
            &&& f.len() >= 1
            &&& f.last().len() > 0 ==> s.len() > 0 && f.last().last() == s.last()
        }),
{
    text::lemma_split_pieces(s, '\t');
    text::lemma_join_undoes_split(s, '\t');
    let f = text::split_on(s, '\t');
    assert(text::joined(f, seq!['\t']) == s);
}

/// Every request that is read from a line can be written as a line that reads the same.
pub proof fn lemma_read_requests_are_writable(line: Seq<char>)
    ensures
        writable(parsed_request(line)),
        parsed_request(line_of(parsed_request(line))) == parsed_request(line),
{
    let r = parsed_request(line);
    let bare = text::without_tail(line, seq!['\n', '\r']);
    let f = fields_in(line);
    text::lemma_split_pieces(bare, '\t');
    lemma_no_tail(line, seq!['\n', '\r']);
    lemma_last_field(bare);
    reveal_strlit("status");
    reveal_strlit("watch");
    reveal_strlit("reload");
    reveal_strlit("shutdown");
    reveal_strlit("body");
    reveal_strlit("read");
    reveal_strlit("read_all");
    reveal_strlit("translate");
    reveal_strlit("nllb");
    let g = fields_of(r);
    assert forall|i: int| 0 <= i < g.len() implies !(#[trigger] g[i]).contains('\t') by {
        if 1 <= i < f.len() && r !is Status {
            assert(g[i] == f[i]);
        }
    }
    let ends = seq!['\n', '\r'];
    assert(forall|c: char| ends.contains(c) ==> c == '\n' || c == '\r');
    lemma_parse_undoes_encode(r);
}

proof fn lemma_join_two(a: Seq<char>, rest: Seq<Seq<char>>)
    requires
        rest.len() > 0,
    ensures
        text::joined(seq![a] + rest, seq!['\t']) == a + seq!['\t'] + text::joined(rest, seq!['\t']),
{
    text::lemma_joined_halves(seq![a], rest, a, seq!['\t']);
}

/// The line of a request is its word, and behind it what it asks for: the account, the folder and
/// the uid, and for a translation the two languages, the engine and the address of a server, with
/// tabs between them.
pub proof fn lemma_lines_are_words_with_tabs(
    account: Seq<char>,
    folder: Seq<char>,
    uid: Seq<char>,
    src: Seq<char>,
    tgt: Seq<char>,
    engine: Seq<char>,
    url: Seq<char>,
)
    ensures
        line_of(RequestView::Status) == "status"@,
        line_of(RequestView::Watch) == "watch"@,
        line_of(RequestView::Reload) == "reload"@,
        line_of(RequestView::Shutdown) == "shutdown"@,
        line_of(RequestView::Body { account, folder, uid }) == "body"@ + seq!['\t'] + (account
            + seq!['\t'] + (folder + seq!['\t'] + uid)),
        line_of(RequestView::Read { account, folder, uid }) == "read"@ + seq!['\t'] + (account
            + seq!['\t'] + (folder + seq!['\t'] + uid)),
        line_of(RequestView::ReadAll { account }) == "read_all"@ + seq!['\t'] + account,
        line_of(
            RequestView::Translate { account, folder, uid, src, tgt, engine, deeplx_url: url },
        ) == "translate"@ + seq!['\t'] + (account + seq!['\t'] + (folder + seq!['\t'] + (uid
            + seq!['\t'] + (src + seq!['\t'] + (tgt + seq!['\t'] + (engine + seq!['\t'] + url)))))),
{
    let sep = seq!['\t'];
    let three = seq![account, folder, uid];
    lemma_join_two("body"@, three);
    lemma_join_two("read"@, three);
    assert(seq!["body"@] + three =~= seq!["body"@, account, folder, uid]);
    assert(seq!["read"@] + three =~= seq!["read"@, account, folder, uid]);
    lemma_join_two(account, seq![folder, uid]);
    assert(seq![account] + seq![folder, uid] =~= three);
    lemma_join_two(folder, seq![uid]);
    assert(seq![folder] + seq![uid] =~= seq![folder, uid]);
    lemma_join_two("read_all"@, seq![account]);
    assert(seq!["read_all"@] + seq![account] =~= seq!["read_all"@, account]);
    lemma_join_two(engine, seq![url]);
    assert(seq![engine] + seq![url] =~= seq![engine, url]);
    lemma_join_two(tgt, seq![engine, url]);
    assert(seq![tgt] + seq![engine, url] =~= seq![tgt, engine, url]);
    lemma_join_two(src, seq![tgt, engine, url]);
    assert(seq![src] + seq![tgt, engine, url] =~= seq![src, tgt, engine, url]);
    lemma_join_two(uid, seq![src, tgt, engine, url]);
    assert(seq![uid] + seq![src, tgt, engine, url] =~= seq![uid, src, tgt, engine, url]);
    lemma_join_two(folder, seq![uid, src, tgt, engine, url]);
    assert(seq![folder] + seq![uid, src, tgt, engine, url] =~= seq![
        folder,
        uid,
        src,
        tgt,
        engine,
        url,
    ]);
    lemma_join_two(account, seq![folder, uid, src, tgt, engine, url]);
    assert(seq![account] + seq![folder, uid, src, tgt, engine, url] =~= seq![
        account,
        folder,
        uid,
        src,
        tgt,
        engine,
        url,
    ]);
    lemma_join_two("translate"@, seq![account, folder, uid, src, tgt, engine, url]);
    assert(seq!["translate"@] + seq![account, folder, uid, src, tgt, engine, url] =~= seq![
        "translate"@,
        account,
        folder,
        uid,
        src,
        tgt,
        engine,
        url,
    ]);
}

/// What is not known asks for the state: a word that is none of the others, or one with more or
/// less behind it than it takes.
pub proof fn lemma_unknown_lines_ask_for_the_state(f: Seq<Seq<char>>)
    requires
        f.len() > 0,
    ensures
        !(f.len() == 1 && (f[0] == "watch"@ || f[0] == "reload"@ || f[0] == "shutdown"@)) && !(
        f.len() == 4 && (f[0] == "body"@ || f[0] == "read"@)) && !(f.len() == 2 && f[0]
            == "read_all"@) && !((f.len() == 6 || f.len() == 8) && f[0] == "translate"@)
            ==> request_of(f) == RequestView::Status,
        f.len() == 6 && f[0] == "translate"@ ==> request_of(f) == (RequestView::Translate {
            account: f[1],
            folder: f[2],
            uid: f[3],
            src: f[4],
            tgt: f[5],
            engine: "nllb"@,
            deeplx_url: Seq::<char>::empty(),
        }),
{
    reveal_strlit("watch");
    reveal_strlit("reload");
    reveal_strlit("shutdown");
    reveal_strlit("body");
    reveal_strlit("read");
    reveal_strlit("read_all");
    reveal_strlit("translate");
    assert(seq!["watch"@][0] == "watch"@);
    assert(seq!["reload"@][0] == "reload"@);
    assert(seq!["shutdown"@][0] == "shutdown"@);
    assert("translate"@.len() == 9 && "body"@.len() == 4 && "read"@.len() == 4);
}

/// The socket lies in the runtime directory, whatever slashes end that; where there is none, in the
/// directory for temporary files, under the user's name, the login name, or no one's.
pub proof fn lemma_socket_places(
    dir: Seq<char>,
    slashes: Seq<char>,
    user: Seq<char>,
    logname: Seq<char>,
    temp: Seq<char>,
)
    requires
        dir.len() > 0 && dir[dir.len() - 1] != '/',
        temp.len() > 0 && temp[temp.len() - 1] != '/',
        forall|i: int| 0 <= i < slashes.len() ==> #[trigger] slashes[i] == '/',
    ensures
        socket_place(Some(dir + slashes), Some(user), Some(logname), temp) == dir
            + "/dms-email-client.sock"@,
        socket_place(None, Some(user), Some(logname), temp) == temp + "/dms-email-client-"@ + user
            + ".sock"@,
        socket_place(Some(slashes), Some(user), None, temp) == temp + "/dms-email-client-"@ + user
            + ".sock"@,
        socket_place(None, None, Some(logname), temp) == temp + "/dms-email-client-"@ + logname
            + ".sock"@,
        socket_place(None, None, None, temp) == temp + "/dms-email-client-"@ + "user"@ + ".sock"@,
{
    let none = Seq::<char>::empty();
    let slash = seq!['/'];
    let a = text::lemma_without_tail_is_the_head(dir + slashes, slash);
    let s = dir + slashes;
    assert(slash[0] == '/');
    if a < dir.len() {
        assert(s[dir.len() - 1] == dir[dir.len() - 1]);
        assert(slash.contains(s[dir.len() - 1]));
    }
    if a > dir.len() {
        assert(s[a - 1] == slashes[a - 1 - dir.len()]);
        assert(slash.contains('/'));
    }
    assert(s.subrange(0, dir.len() as int) =~= dir);
    let b = text::lemma_without_tail_is_the_head(slashes, slash);
    if b > 0 {
        assert(slashes[b - 1] == '/');
        assert(slash.contains('/'));
    }
    assert(text::without_tail(none, slash) =~= none);
    lemma_socket_in_temp(temp, user);
    lemma_socket_in_temp(temp, logname);
    lemma_socket_in_temp(temp, "user"@);
}

proof fn lemma_socket_in_temp(temp: Seq<char>, name: Seq<char>)
    requires
        temp.len() > 0 && temp[temp.len() - 1] != '/',
    ensures
        text::path_under(temp, "dms-email-client-"@ + name + ".sock"@) == temp
            + "/dms-email-client-"@ + name + ".sock"@,
{
    reveal_strlit("dms-email-client-");
    reveal_strlit("/dms-email-client-");
    let part = "dms-email-client-"@ + name + ".sock"@;
    assert(part[0] == 'd');
    text::lemma_paths_have_one_slash_between(temp, part);
    assert(temp + seq!['/'] + part =~= temp + "/dms-email-client-"@ + name + ".sock"@);
}

} // verus!
