//! The daemon's replies: one JSON object each.

use crate::text;
use vstd::prelude::*;

verus! {

/// A value in a reply.
#[derive(Debug, Clone)]
pub enum Json {
    Bool(bool),
    Number(usize),
    Text(String),
    EmptyList,
}

/// What a [`Json`] holds.
pub enum JsonView {
    Bool(bool),
    Number(usize),
    Text(Seq<char>),
    EmptyList,
}

impl View for Json {
    type V = JsonView;

    open spec fn view(&self) -> JsonView {
        match *self {
            Json::Bool(b) => JsonView::Bool(b),
            Json::Number(n) => JsonView::Number(n),
            Json::Text(t) => JsonView::Text(t@),
            Json::EmptyList => JsonView::EmptyList,
        }
    }
}

/// The names and the values of an object.
pub open spec fn fields(list: Seq<(String, Json)>) -> Seq<(Seq<char>, JsonView)> {
    list.map_values(|f: (String, Json)| (f.0@, f.1@))
}

/// The text that `serde_json` writes for an object of these fields.
pub uninterp spec fn json_object_text(fields: Seq<(Seq<char>, JsonView)>) -> Seq<char>;

/// Collects the fields in a `serde_json::Map` and calls `serde_json::Value::to_string` on it.
/// The result is a function of the names and the values, between curly brackets; how they are
/// written there is `serde_json`'s own matter.
#[verifier::external_body]
fn write_object(list: &[(String, Json)]) -> (out: String)
    ensures
        out@ == json_object_text(fields(list@)),
        out@.len() >= 2 && out@.first() == '{' && out@.last() == '}',
{
    let value = |v: &Json| match v {
        Json::Bool(b) => serde_json::Value::from(*b),
        Json::Number(n) => serde_json::Value::from(*n),
        Json::Text(t) => serde_json::Value::from(t.as_str()),
        Json::EmptyList => serde_json::Value::Array(Vec::new()),
    };
    let map: serde_json::Map<String, serde_json::Value> =
        list.iter().map(|(k, v)| (k.clone(), value(v))).collect();
    serde_json::Value::Object(map).to_string()
}

fn push_field(list: &mut Vec<(String, Json)>, name: &str, value: Json)
    ensures
        fields(final(list)@) == fields(old(list)@).push((name@, value@)),
{
    let ghost before = fields(list@);
    list.push((name.to_owned(), value));
    assert(fields(list@) =~= before.push((name@, value@)));
}

fn no_fields() -> (list: Vec<(String, Json)>)
    ensures
        fields(list@) == Seq::<(Seq<char>, JsonView)>::empty(),
{
    let list: Vec<(String, Json)> = Vec::new();
    assert(fields(list@) =~= Seq::<(Seq<char>, JsonView)>::empty());
    list
}

/// The reply where nothing is to be said but that it went well.
pub open spec fn done_text() -> Seq<char> {
    json_object_text(seq![("ok"@, JsonView::Bool(true))])
}

/// The reply where nothing is to be said but that it went well.
pub fn json_done() -> (reply: String)
    ensures
        reply@ == done_text(),
{
    let mut list = no_fields();
    push_field(&mut list, "ok", Json::Bool(true));
    assert(fields(list@) =~= seq![("ok"@, JsonView::Bool(true))]);
    write_object(&list)
}

/// The reply to a request that failed.
pub open spec fn error_text(message: Seq<char>) -> Seq<char> {
    json_object_text(
        seq![("ok"@, JsonView::Bool(false)), ("error"@, JsonView::Text(message))],
    )
}

/// The reply to a request that failed.
pub fn json_err(msg: &str) -> (reply: String)
    ensures
        reply@ == error_text(msg@),
{
    let mut list = no_fields();
    push_field(&mut list, "ok", Json::Bool(false));
    push_field(&mut list, "error", Json::Text(msg.to_owned()));
    assert(fields(list@) =~= seq![
        ("ok"@, JsonView::Bool(false)),
        ("error"@, JsonView::Text(msg@)),
    ]);
    write_object(&list)
}

/// What a client prints where no daemon answers: an empty state, and what went wrong.
pub open spec fn no_state_text(message: Seq<char>) -> Seq<char> {
    json_object_text(
        seq![
            ("error"@, JsonView::Text(message)),
            ("unread_mails"@, JsonView::EmptyList),
            ("last_update"@, JsonView::Text(Seq::<char>::empty())),
        ],
    )
}

/// What a client prints where no daemon answers: an empty state, and what went wrong.
pub fn json_no_state(err_msg: &str) -> (reply: String)
    ensures
        reply@ == no_state_text(err_msg@),
{
    let mut list = no_fields();
    push_field(&mut list, "error", Json::Text(err_msg.to_owned()));
    push_field(&mut list, "unread_mails", Json::EmptyList);
    let never = String::new();
    assert(never@ =~= Seq::<char>::empty());
    push_field(&mut list, "last_update", Json::Text(never));
    assert(fields(list@) =~= seq![
        ("error"@, JsonView::Text(err_msg@)),
        ("unread_mails"@, JsonView::EmptyList),
        ("last_update"@, JsonView::Text(Seq::<char>::empty())),
    ]);
    write_object(&list)
}

/// The reply that brings the translated body of a mail.
pub open spec fn translation_text(html: Seq<char>) -> Seq<char> {
    json_object_text(seq![("ok"@, JsonView::Bool(true)), ("body"@, JsonView::Text(html))])
}

/// The reply that brings the translated body of a mail.
pub fn json_translation(html: &str) -> (reply: String)
    ensures
        reply@ == translation_text(html@),
{
    let mut list = no_fields();
    push_field(&mut list, "ok", Json::Bool(true));
    push_field(&mut list, "body", Json::Text(html.to_owned()));
    assert(fields(list@) =~= seq![
        ("ok"@, JsonView::Bool(true)),
        ("body"@, JsonView::Text(html@)),
    ]);
    write_object(&list)
}

/// The reply that brings the body of a mail.
pub open spec fn body_text(
    from: Seq<char>,
    subject: Seq<char>,
    date: Seq<char>,
    folder: Seq<char>,
    html: Seq<char>,
) -> Seq<char> {
    json_object_text(
        seq![
            ("ok"@, JsonView::Bool(true)),
            ("from"@, JsonView::Text(from)),
            ("subject"@, JsonView::Text(subject)),
            ("date"@, JsonView::Text(date)),
            ("folder"@, JsonView::Text(folder)),
            ("body"@, JsonView::Text(html)),
        ],
    )
}

/// The reply that brings the body of a mail.
pub fn json_body(from: &str, subject: &str, date: &str, folder: &str, html: &str) -> (reply: String)
    ensures
        reply@ == body_text(from@, subject@, date@, folder@, html@),
        reply@.len() > 0,
{
    let mut list = no_fields();
    push_field(&mut list, "ok", Json::Bool(true));
    push_field(&mut list, "from", Json::Text(from.to_owned()));
    push_field(&mut list, "subject", Json::Text(subject.to_owned()));
    push_field(&mut list, "date", Json::Text(date.to_owned()));
    push_field(&mut list, "folder", Json::Text(folder.to_owned()));
    push_field(&mut list, "body", Json::Text(html.to_owned()));
    assert(fields(list@) =~= seq![
        ("ok"@, JsonView::Bool(true)),
        ("from"@, JsonView::Text(from@)),
        ("subject"@, JsonView::Text(subject@)),
        ("date"@, JsonView::Text(date@)),
        ("folder"@, JsonView::Text(folder@)),
        ("body"@, JsonView::Text(html@)),
    ]);
    write_object(&list)
}

/// The reply that says how many mails were marked, and what went wrong, if anything did.
pub open spec fn marked_text(marked: usize, errors: Seq<Seq<char>>) -> Seq<char> {
    if errors.len() == 0 {
        json_object_text(
            seq![("ok"@, JsonView::Bool(true)), ("marked"@, JsonView::Number(marked))],
        )
    } else {
        json_object_text(
            seq![
                ("ok"@, JsonView::Bool(false)),
                ("marked"@, JsonView::Number(marked)),
                ("error"@, JsonView::Text(text::joined(errors, "; "@))),
            ],
        )
    }
}

/// The reply that says how many mails were marked, and what went wrong, if anything did.
pub fn json_marked(marked: usize, errors: &[Vec<char>]) -> (reply: String)
    ensures
        reply@ == marked_text(marked, text::views(errors@)),
{
    let mut list = no_fields();
    push_field(&mut list, "ok", Json::Bool(errors.len() == 0));
    push_field(&mut list, "marked", Json::Number(marked));
    if errors.len() == 0 {
        assert(fields(list@) =~= seq![
            ("ok"@, JsonView::Bool(true)),
            ("marked"@, JsonView::Number(marked)),
        ]);
    } else {
        let sep = text::to_chars("; ");
        let all = text::join(errors, &sep);
        push_field(&mut list, "error", Json::Text(text::from_chars(&all)));
        assert(fields(list@) =~= seq![
            ("ok"@, JsonView::Bool(false)),
            ("marked"@, JsonView::Number(marked)),
            ("error"@, JsonView::Text(all@)),
        ]);
    }
    write_object(&list)
}

/// What every reply says: whether it went well, and with it either what was asked for or what
/// went wrong.
pub proof fn lemma_replies_say_how_it_went(
    message: Seq<char>,
    html: Seq<char>,
    marked: usize,
    errors: Seq<Seq<char>>,
)
    ensures
        done_text() == json_object_text(seq![("ok"@, JsonView::Bool(true))]),
        error_text(message) == json_object_text(
            seq![("ok"@, JsonView::Bool(false)), ("error"@, JsonView::Text(message))],
        ),
        translation_text(html) == json_object_text(
            seq![("ok"@, JsonView::Bool(true)), ("body"@, JsonView::Text(html))],
        ),
        no_state_text(message) == json_object_text(
            seq![
                ("error"@, JsonView::Text(message)),
                ("unread_mails"@, JsonView::EmptyList),
                ("last_update"@, JsonView::Text(Seq::<char>::empty())),
            ],
        ),
        marked_text(marked, Seq::<Seq<char>>::empty()) == json_object_text(
            seq![("ok"@, JsonView::Bool(true)), ("marked"@, JsonView::Number(marked))],
        ),
        errors.len() > 0 ==> marked_text(marked, errors) == json_object_text(
            seq![
                ("ok"@, JsonView::Bool(false)),
                ("marked"@, JsonView::Number(marked)),
                ("error"@, JsonView::Text(text::joined(errors, seq![';', ' ']))),
            ],
        ),
{
    reveal_strlit("; ");
    assert("; "@ =~= seq![';', ' ']);
}

/// The reply with a body says who wrote it, what about and when, where it lies, and what it says,
/// each under its name.
pub proof fn lemma_body_reply_names_its_parts(
    from: Seq<char>,
    subject: Seq<char>,
    date: Seq<char>,
    folder: Seq<char>,
    html: Seq<char>,
)
    ensures
        body_text(from, subject, date, folder, html) == json_object_text(
            seq![("ok"@, JsonView::Bool(true))] + seq![
                ("from"@, JsonView::Text(from)),
                ("subject"@, JsonView::Text(subject)),
                ("date"@, JsonView::Text(date)),
                ("folder"@, JsonView::Text(folder)),
                ("body"@, JsonView::Text(html)),
            ],
        ),
{
    let all = seq![
        ("ok"@, JsonView::Bool(true)),
        ("from"@, JsonView::Text(from)),
        ("subject"@, JsonView::Text(subject)),
        ("date"@, JsonView::Text(date)),
        ("folder"@, JsonView::Text(folder)),
        ("body"@, JsonView::Text(html)),
    ];
    assert(all =~= seq![("ok"@, JsonView::Bool(true))] + seq![
        ("from"@, JsonView::Text(from)),
        ("subject"@, JsonView::Text(subject)),
        ("date"@, JsonView::Text(date)),
        ("folder"@, JsonView::Text(folder)),
        ("body"@, JsonView::Text(html)),
    ]);
}

} // verus!
