//! A mail as the rest of the library reads it, and what is shown of its header.

use crate::readable;
use crate::text;
use chrono::TimeZone;
use mail_parser::{HeaderName, MessageParser};
use vstd::prelude::*;

verus! {

/// One sender: a display name and an address, either of which can be missing.
#[derive(Debug, Clone)]
pub struct Mailbox {
    pub name: Option<String>,
    pub address: Option<String>,
}

/// A named group of senders.
#[derive(Debug, Clone)]
pub struct MailGroup {
    pub name: Option<String>,
    pub addresses: Vec<Mailbox>,
}

/// The address field of a header: a plain list, or groups.
#[derive(Debug, Clone)]
pub enum Address {
    List(Vec<Mailbox>),
    Group(Vec<MailGroup>),
}

/// What a [`Mailbox`] holds.
pub struct MailboxView {
    pub name: Option<Seq<char>>,
    pub address: Option<Seq<char>>,
}

/// What a [`MailGroup`] holds.
pub struct MailGroupView {
    pub name: Option<Seq<char>>,
    pub addresses: Seq<MailboxView>,
}

/// What an [`Address`] holds.
pub enum AddressView {
    List(Seq<MailboxView>),
    Group(Seq<MailGroupView>),
}

impl View for Mailbox {
    type V = MailboxView;

    open spec fn view(&self) -> MailboxView {
        MailboxView { name: text::opt(self.name), address: text::opt(self.address) }
    }
}

/// The mailboxes of a list.
pub open spec fn mailboxes(list: Seq<Mailbox>) -> Seq<MailboxView> {
    list.map_values(|m: Mailbox| m@)
}

impl View for MailGroup {
    type V = MailGroupView;

    open spec fn view(&self) -> MailGroupView {
        MailGroupView { name: text::opt(self.name), addresses: mailboxes(self.addresses@) }
    }
}

/// The groups of a list.
pub open spec fn mail_groups(list: Seq<MailGroup>) -> Seq<MailGroupView> {
    list.map_values(|g: MailGroup| g@)
}

impl View for Address {
    type V = AddressView;

    open spec fn view(&self) -> AddressView {
        match *self {
            Address::List(list) => AddressView::List(mailboxes(list@)),
            Address::Group(groups) => AddressView::Group(mail_groups(groups@)),
        }
    }
}

/// The body parts and the plain header fields of a mail. `timestamp` counts seconds since 1970.
#[derive(Debug, Clone)]
pub struct MailParts {
    pub text: Option<String>,
    pub html: Option<String>,
    pub subject: Option<String>,
    pub timestamp: Option<i64>,
}

/// What [`MailParts`] hold.
pub struct MailPartsView {
    pub text: Option<Seq<char>>,
    pub html: Option<Seq<char>>,
    pub subject: Option<Seq<char>>,
    pub timestamp: Option<i64>,
}

impl View for MailParts {
    type V = MailPartsView;

    open spec fn view(&self) -> MailPartsView {
        MailPartsView {
            text: text::opt(self.text),
            html: text::opt(self.html),
            subject: text::opt(self.subject),
            timestamp: self.timestamp,
        }
    }
}

/// A parsed mail.
#[derive(Debug, Clone)]
pub struct MailMessage {
    pub parts: MailParts,
    pub from: Option<Address>,
}

/// What a [`MailMessage`] holds.
pub struct MailMessageView {
    pub parts: MailPartsView,
    pub from: Option<AddressView>,
}

impl View for MailMessage {
    type V = MailMessageView;

    open spec fn view(&self) -> MailMessageView {
        MailMessageView { parts: self.parts@, from: opt_address(self.from) }
    }
}

/// The view of an optional address.
pub open spec fn opt_address(a: Option<Address>) -> Option<AddressView> {
    match a {
        Some(a) => Some(a@),
        None => None,
    }
}

// ---------------------------------------------------------------------------
// Parsing
// ---------------------------------------------------------------------------

/// What `mail_parser` finds in the bytes of a mail as its first text body and its first HTML
/// body; nothing if it finds no mail there.
pub uninterp spec fn parsed_bodies(raw: Seq<u8>) -> Option<(Option<Seq<char>>, Option<Seq<char>>)>;

/// The subject and the date, in seconds since 1970, that `mail_parser` finds in the header of a
/// mail; nothing if it finds no header.
pub uninterp spec fn parsed_fields(raw: Seq<u8>) -> Option<(Option<Seq<char>>, Option<i64>)>;

/// The `From` field that `mail_parser` finds in the header of a mail.
pub uninterp spec fn parsed_sender(raw: Seq<u8>) -> Option<AddressView>;

/// The texts of two bodies.
pub open spec fn bodies_view(b: Option<(Option<String>, Option<String>)>) -> Option<
    (Option<Seq<char>>, Option<Seq<char>>),
> {
    match b {
        Some((text, html)) => Some((text::opt(text), text::opt(html))),
        None => None,
    }
}

/// The text of a subject, and a date.
pub open spec fn fields_view(f: Option<(Option<String>, Option<i64>)>) -> Option<
    (Option<Seq<char>>, Option<i64>),
> {
    match f {
        Some((subject, timestamp)) => Some((text::opt(subject), timestamp)),
        None => None,
    }
}

/// Calls `mail_parser::MessageParser::parse`, which reads of the header what tells the parts of
/// a mail apart, and the date, behind which it may miss a field. Then calls `Message::body_text`
/// and `Message::body_html` for the first text and the first HTML body. The result is a function of the bytes alone; what it is, is
/// `mail_parser`'s own matter. Mails that are not readable are left out, since the parser may
/// panic or overflow the stack on them.
#[verifier::external_body]
fn parse_bodies(raw: &[u8]) -> (bodies: Option<(Option<String>, Option<String>)>)
    requires
        readable::readable(raw@),
    ensures
        bodies_view(bodies) == parsed_bodies(raw@),
{
    let message = MessageParser::new()
        .header_content_type(HeaderName::ContentType)
        .header_content_type(HeaderName::ContentDisposition)
        .header_text(HeaderName::ContentTransferEncoding)
        .header_date(HeaderName::Date)
        .parse(raw)?;
    let text = message.body_text(0).map(|t| t.into_owned());
    let html = message.body_html(0).map(|t| t.into_owned());
    Some((text, html))
}

/// Calls `mail_parser::MessageParser::parse_headers`, which ends before the body, and reads
/// `Message::subject` and `Message::date`. The result is a function of the bytes alone.
#[verifier::external_body]
fn parse_fields(raw: &[u8]) -> (found: Option<(Option<String>, Option<i64>)>)
    requires
        readable::header_readable(raw@),
    ensures
        fields_view(found) == parsed_fields(raw@),
{
    let message = MessageParser::new()
        .header_text(HeaderName::Subject)
        .header_date(HeaderName::Date)
        .parse_headers(raw)?;
    let date = message.date().map(|d| d.to_timestamp());
    Some((message.subject().map(|s| s.to_string()), date))
}

/// Calls `mail_parser::MessageParser::parse_headers`, which ends before the body, and copies the
/// address field that `Message::from` returns. The result is a function of the bytes alone.
#[verifier::external_body]
fn parse_sender(raw: &[u8]) -> (from: Option<Address>)
    requires
        readable::header_readable(raw@),
    ensures
        opt_address(from) == parsed_sender(raw@),
{
    let message = MessageParser::new()
        .header_address(HeaderName::From)
        .header_date(HeaderName::Date)
        .parse_headers(raw)?;
    let copy = |m: &mail_parser::Addr<'_>| Mailbox {
        name: m.name.as_deref().map(String::from),
        address: m.address.as_deref().map(String::from),
    };
    message.from().map(|a| match a {
        mail_parser::Address::List(l) => Address::List(l.iter().map(copy).collect()),
        mail_parser::Address::Group(g) => Address::Group(g.iter().map(|g| MailGroup {
            name: g.name.as_deref().map(String::from),
            addresses: g.addresses.iter().map(copy).collect(),
        }).collect()),
    })
}

/// A mail of which the bodies and the fields of the header are given.
pub open spec fn mail_of(
    bodies: (Option<Seq<char>>, Option<Seq<char>>),
    fields: Option<(Option<Seq<char>>, Option<i64>)>,
    from: Option<AddressView>,
) -> MailMessageView {
    MailMessageView {
        parts: MailPartsView {
            text: bodies.0,
            html: bodies.1,
            subject: match fields {
                Some(f) => f.0,
                None => None,
            },
            timestamp: match fields {
                Some(f) => f.1,
                None => None,
            },
        },
        from,
    }
}

/// The mail that the bytes `raw` hold.
pub open spec fn parsed_message(raw: Seq<u8>) -> Option<MailMessageView> {
    if readable::readable(raw) {
        match parsed_bodies(raw) {
            Some(bodies) => Some(mail_of(bodies, parsed_fields(raw), parsed_sender(raw))),
            None => None,
        }
    } else {
        None
    }
}

/// The header that the bytes `raw` hold, as a mail without bodies. One that begins with an empty
/// line has no fields.
pub open spec fn parsed_header(raw: Seq<u8>) -> Option<MailMessageView> {
    if !readable::header_readable(raw) {
        None
    } else if parsed_fields(raw) is Some || readable::headerless(raw) {
        Some(mail_of((None, None), parsed_fields(raw), parsed_sender(raw)))
    } else {
        None
    }
}

fn make_mail(
    bodies: (Option<String>, Option<String>),
    fields: Option<(Option<String>, Option<i64>)>,
    from: Option<Address>,
) -> (m: MailMessage)
    ensures
        m@ == mail_of(
            (text::opt(bodies.0), text::opt(bodies.1)),
            fields_view(fields),
            opt_address(from),
        ),
{
    let (subject, timestamp) = match fields {
        Some(f) => f,
        None => (None, None),
    };
    MailMessage { parts: MailParts { text: bodies.0, html: bodies.1, subject, timestamp }, from }
}

/// Parses the bytes of a mail. What is not readable is no mail.
pub fn parse_message(raw: &[u8]) -> (message: Option<MailMessage>)
    ensures
        match message {
            Some(m) => parsed_message(raw@) == Some(m@),
            None => parsed_message(raw@) is None,
        },
{
    if !readable::is_readable(raw) {
        return None;
    }
    match parse_bodies(raw) {
        Some(bodies) => Some(make_mail(bodies, parse_fields(raw), parse_sender(raw))),
        None => None,
    }
}

/// Parses the bytes of a header.
pub fn parse_header(raw: &[u8]) -> (message: Option<MailMessage>)
    ensures
        match message {
            Some(m) => parsed_header(raw@) == Some(m@),
            None => parsed_header(raw@) is None,
        },
{
    if raw.len() >= readable::MAX_MAIL_BYTES {
        return None;
    }
    let fields = parse_fields(raw);
    if fields.is_some() || readable::is_headerless(raw) {
        Some(make_mail((None, None), fields, parse_sender(raw)))
    } else {
        None
    }
}

// ---------------------------------------------------------------------------
// Addresses
// ---------------------------------------------------------------------------

/// A sender as it is shown: `name <address>`, or the address alone.
pub open spec fn mailbox_text(m: MailboxView) -> Seq<char> {
    let name = text::opt_or(m.name, Seq::<char>::empty());
    let address = text::opt_or(m.address, Seq::<char>::empty());
    if name.len() > 0 {
        name + " <"@ + address + ">"@
    } else {
        address
    }
}

/// Senders as they are shown, separated by commas.
pub open spec fn mailboxes_text(list: Seq<MailboxView>) -> Seq<char> {
    text::joined(list.map_values(|m: MailboxView| mailbox_text(m)), ", "@)
}

/// A group as it is shown: its name, then its members in square brackets.
pub open spec fn mail_group_text(g: MailGroupView) -> Seq<char> {
    text::opt_or(g.name, "Group"@) + ": ["@ + mailboxes_text(g.addresses) + "]"@
}

/// An address field as it is shown.
pub open spec fn address_text(a: AddressView) -> Seq<char> {
    match a {
        AddressView::List(list) => mailboxes_text(list),
        AddressView::Group(groups) => text::joined(
            groups.map_values(|g: MailGroupView| mail_group_text(g)),
            ", "@,
        ),
    }
}

fn text_or(o: &Option<String>, default: &str) -> (v: Vec<char>)
    ensures
        v@ == text::opt_or(text::opt(*o), default@),
{
    match o {
        Some(s) => text::to_chars(s.as_str()),
        None => text::to_chars(default),
    }
}

fn format_mailbox(m: &Mailbox) -> (out: Vec<char>)
    ensures
        out@ == mailbox_text(m@),
{
    let name = text_or(&m.name, "");
    let address = text_or(&m.address, "");
    proof {
        reveal_strlit("");
        assert(""@ =~= Seq::<char>::empty());
    }
    if name.len() > 0 {
        let mut out = name;
        text::push_text(&mut out, " <");
        text::push_all(&mut out, &address);
        text::push_text(&mut out, ">");
        out
    } else {
        address
    }
}

fn format_mailboxes(list: &[Mailbox]) -> (out: Vec<char>)
    ensures
        out@ == mailboxes_text(mailboxes(list@)),
{
    let mut shown: Vec<Vec<char>> = Vec::new();
    let mut i: usize = 0;
    let ghost all = mailboxes(list@).map_values(|m: MailboxView| mailbox_text(m));
    while i < list.len()
        invariant
            i <= list.len(),
            all == mailboxes(list@).map_values(|m: MailboxView| mailbox_text(m)),
            text::views(shown@) == all.take(i as int),
        decreases list.len() - i,
    {
        let one = format_mailbox(&list[i]);
        proof {
            text::lemma_views_push(shown@, one);
            assert(all.take(i + 1) =~= all.take(i as int).push(all[i as int]));
        }
        shown.push(one);
        i += 1;
    }
    assert(all.take(i as int) =~= all);
    let sep = text::to_chars(", ");
    text::join(&shown, &sep)
}

fn format_group(g: &MailGroup) -> (out: Vec<char>)
    ensures
        out@ == mail_group_text(g@),
{
    let mut out = text_or(&g.name, "Group");
    text::push_text(&mut out, ": [");
    let members = format_mailboxes(&g.addresses);
    text::push_all(&mut out, &members);
    text::push_text(&mut out, "]");
    out
}

/// An address field as it is shown: each sender as `name <address>`, or as the address alone
/// where it has no name; a group as its name with its members in square brackets.
pub fn format_address(addr: &Address) -> (shown: String)
    ensures
        shown@ == address_text(addr@),
{
    let out = match addr {
        Address::List(list) => format_mailboxes(list),
        Address::Group(groups) => {
            let mut shown: Vec<Vec<char>> = Vec::new();
            let mut i: usize = 0;
            let ghost all = mail_groups(groups@).map_values(
                |g: MailGroupView| mail_group_text(g),
            );
            while i < groups.len()
                invariant
                    i <= groups.len(),
                    all == mail_groups(groups@).map_values(|g: MailGroupView| mail_group_text(g)),
                    text::views(shown@) == all.take(i as int),
                decreases groups.len() - i,
            {
                let one = format_group(&groups[i]);
                proof {
                    text::lemma_views_push(shown@, one);
                    assert(all.take(i + 1) =~= all.take(i as int).push(all[i as int]));
                }
                shown.push(one);
                i += 1;
            }
            assert(all.take(i as int) =~= all);
            let sep = text::to_chars(", ");
            text::join(&shown, &sep)
        },
    };
    text::from_chars(&out)
}

// ---------------------------------------------------------------------------
// Times
// ---------------------------------------------------------------------------

/// How a time is written.
pub open spec fn time_format() -> Seq<char> {
    "%Y-%m-%d %H:%M:%S"@
}

/// The times that the calendar of `chrono` has: from the first second of the year -262143 to the
/// last one of the year 262142.
pub open spec fn in_calendar(timestamp: i64) -> bool {
    -8334601228800 <= timestamp <= 8210266876799
}

/// A time as a clock shows it.
pub struct ClockTime {
    pub year: int,
    pub month: nat,
    pub day: nat,
    pub hour: nat,
    pub minute: nat,
    pub second: nat,
}

/// A leap year of the Gregorian calendar.
pub open spec fn leap_year(year: int) -> bool {
    year % 4 == 0 && (year % 100 != 0 || year % 400 == 0)
}

/// How many days a month of the Gregorian calendar has.
pub open spec fn days_in_month(year: int, month: nat) -> nat {
    if month == 2 {
        if leap_year(year) {
            29
        } else {
            28
        }
    } else if month == 4 || month == 6 || month == 9 || month == 11 {
        30
    } else {
        31
    }
}

/// A time that a clock can show.
pub open spec fn clock_shows(t: ClockTime) -> bool {
    &&& 1 <= t.month <= 12
    &&& 1 <= t.day <= days_in_month(t.year, t.month)
    &&& t.hour < 24
    &&& t.minute < 60
    &&& t.second < 60
}

/// How many leap years there are from the year 1 to `year`, counted backwards before it.
pub open spec fn leap_years(year: int) -> int {
    year / 4 - year / 100 + year / 400
}

/// How many days lie between the start of 1970 and the start of `year`.
pub open spec fn days_to_year(year: int) -> int {
    (year - 1970) * 365 + leap_years(year - 1) - leap_years(1969)
}

/// How many days of `year` lie before its month `month`.
pub open spec fn days_to_month(year: int, month: nat) -> nat
    decreases month,
{
    if month <= 1 {
        0
    } else {
        days_to_month(year, (month - 1) as nat) + days_in_month(year, (month - 1) as nat)
    }
}

/// How many seconds lie between the start of 1970 and `t`, by the same clock.
pub open spec fn seconds_of(t: ClockTime) -> int {
    let days = days_to_year(t.year) + days_to_month(t.year, t.month) + t.day - 1;
    ((days * 24 + t.hour) * 60 + t.minute) * 60 + t.second
}

/// A number below a hundred in two digits.
pub open spec fn two_digits(n: nat) -> Seq<char> {
    seq![text::digit(n / 10), text::digit(n % 10)]
}

/// A number in at least four digits.
pub open spec fn four_digits(n: nat) -> Seq<char> {
    if n < 10000 {
        two_digits(n / 100) + two_digits(n % 100)
    } else {
        text::decimal(n)
    }
}

/// A year as it is written: in at least four digits, with a sign if it is not of four digits.
pub open spec fn year_text(year: int) -> Seq<char> {
    if year < 0 {
        seq!['-'] + four_digits((-year) as nat)
    } else if year < 10000 {
        four_digits(year as nat)
    } else {
        seq!['+'] + four_digits(year as nat)
    }
}

/// A time as it is written, such as `2026-07-05 08:30:00`.
pub open spec fn time_text(t: ClockTime) -> Seq<char> {
    year_text(t.year) + seq!['-'] + two_digits(t.month) + seq!['-'] + two_digits(t.day) + seq![' ']
        + two_digits(t.hour) + seq![':'] + two_digits(t.minute) + seq![':'] + two_digits(t.second)
}

/// `s` is the time that a clock somewhere shows at `timestamp`: no time zone is a day or more
/// away from UTC.
pub open spec fn local_text(timestamp: i64, s: Seq<char>) -> bool {
    exists|t: ClockTime|
        {
            &&& clock_shows(t)
            &&& -86400 < seconds_of(t) - timestamp < 86400
            &&& s == #[trigger] time_text(t)
        }
}

/// Calls `chrono::Local`'s `timestamp_opt` and writes the result with `format`. There is a text
/// for every time that the calendar has, and it is the time of a clock that is less than a day
/// away from UTC. By how much it is away is left unsaid, since that depends on the time zone of
/// the machine.
#[verifier::external_body]
fn write_local(timestamp: i64, format: &str) -> (shown: Option<String>)
    requires
        format@ == time_format(),
    ensures
        shown is Some <==> in_calendar(timestamp),
        shown is Some ==> local_text(timestamp, shown->0@),
{
    chrono::Local.timestamp_opt(timestamp, 0).single().map(|d| d.format(format).to_string())
}

/// A text that is a time which a clock can show that runs from 1970 on. Where it is 1970 in UTC,
/// it can still be 1969 elsewhere.
pub open spec fn written_time(s: Seq<char>) -> bool {
    exists|t: ClockTime| clock_shows(t) && t.year >= 1969 && s == #[trigger] time_text(t)
}

/// Calls `chrono::Local::now` and writes the result with `format`. The text is that of a time
/// which a clock can show; which one is left unsaid, since it depends on the clock and on the
/// time zone of the machine. The clock has to stand at 1970 or later, or the call panics.
#[verifier::external_body]
fn write_now(format: &str) -> (shown: String)
    requires
        format@ == time_format(),
    ensures
        written_time(shown@),
{
    chrono::Local::now().format(format).to_string()
}

/// The local time of `timestamp`, as `2026-07-05 08:30:00`; nothing where the calendar has no
/// such time.
pub fn local_time(timestamp: i64) -> (shown: Option<String>)
    ensures
        shown is Some <==> in_calendar(timestamp),
        shown is Some ==> local_text(timestamp, shown->0@),
{
    write_local(timestamp, "%Y-%m-%d %H:%M:%S")
}

/// The local time now, as `2026-07-05 08:30:00`.
pub fn local_now() -> (shown: String)
    ensures
        written_time(shown@),
{
    write_now("%Y-%m-%d %H:%M:%S")
}

// ---------------------------------------------------------------------------
// Headers
// ---------------------------------------------------------------------------

/// What is shown of a mail in a list, beside its place.
#[derive(Debug, Clone)]
pub struct HeaderInfo {
    pub from: String,
    pub subject: String,
    pub date: String,
}

/// What a [`HeaderInfo`] holds.
pub struct HeaderView {
    pub from: Seq<char>,
    pub subject: Seq<char>,
    pub date: Seq<char>,
}

impl View for HeaderInfo {
    type V = HeaderView;

    open spec fn view(&self) -> HeaderView {
        HeaderView { from: self.from@, subject: self.subject@, date: self.date@ }
    }
}

/// The header of `m` as it is shown, with given words for what is missing.
pub open spec fn shown_header(
    m: MailMessageView,
    date: Option<Seq<char>>,
    no_sender: Seq<char>,
    no_subject: Seq<char>,
    no_date: Seq<char>,
) -> HeaderView {
    HeaderView {
        from: match m.from {
            Some(a) => address_text(a),
            None => no_sender,
        },
        subject: text::opt_or(m.parts.subject, no_subject),
        date: text::opt_or(date, no_date),
    }
}

/// The header of a mail as the list shows it.
pub open spec fn listed_header(m: MailMessageView, date: Option<Seq<char>>) -> HeaderView {
    shown_header(m, date, "Unknown Sender"@, "No Subject"@, "Unknown Date"@)
}

/// The header of a mail as the reader shows it.
pub open spec fn opened_header(m: MailMessageView, date: Option<Seq<char>>) -> HeaderView {
    shown_header(m, date, ""@, "(无主题)"@, ""@)
}

fn show_header(
    m: &MailMessage,
    date: Option<String>,
    no_sender: &str,
    no_subject: &str,
    no_date: &str,
) -> (h: HeaderInfo)
    ensures
        h@ == shown_header(m@, text::opt(date), no_sender@, no_subject@, no_date@),
{
    HeaderInfo {
        from: match &m.from {
            Some(a) => format_address(a),
            None => no_sender.to_owned(),
        },
        subject: match &m.parts.subject {
            Some(s) => s.clone(),
            None => no_subject.to_owned(),
        },
        date: match date {
            Some(d) => d,
            None => no_date.to_owned(),
        },
    }
}

/// The header of `m` as the list shows it, where `date` is its local time.
pub fn list_header(m: &MailMessage, date: Option<String>) -> (h: HeaderInfo)
    ensures
        h@ == listed_header(m@, text::opt(date)),
{
    show_header(m, date, "Unknown Sender", "No Subject", "Unknown Date")
}

/// The header of `m` as the reader shows it, where `date` is its local time.
pub fn open_header(m: &MailMessage, date: Option<String>) -> (h: HeaderInfo)
    ensures
        h@ == opened_header(m@, text::opt(date)),
{
    show_header(m, date, "", "(无主题)", "")
}

/// The mail has a date, and one that the calendar has.
pub open spec fn dated(parts: MailPartsView) -> bool {
    parts.timestamp is Some && in_calendar(parts.timestamp->0)
}

/// `date` is the local time of a mail's date, if it has one.
pub open spec fn dates(parts: MailPartsView, date: Option<Seq<char>>) -> bool {
    match date {
        Some(d) => dated(parts) && local_text(parts.timestamp->0, d),
        None => !dated(parts),
    }
}

/// The local time at which `m` was sent.
pub fn sent_at(m: &MailMessage) -> (shown: Option<String>)
    ensures
        dates(m@.parts, text::opt(shown)),
{
    match m.parts.timestamp {
        Some(t) => local_time(t),
        None => None,
    }
}

/// Reads the bytes of a header for the list. All but the date is a function of the bytes; the
/// date is the local time of the header's date.
pub fn read_header(raw: &[u8]) -> (h: Option<HeaderInfo>)
    ensures
        h is Some <==> parsed_header(raw@) is Some,
        h is Some ==> {
            let m = parsed_header(raw@)->0;
            exists|date: Option<Seq<char>>|
                {
                    &&& h->0@ == #[trigger] listed_header(m, date)
                    &&& dates(m.parts, date)
                }
        },
{
    match parse_header(raw) {
        Some(m) => {
            let date = sent_at(&m);
            let ghost shown = text::opt(date);
            let h = list_header(&m, date);
            assert(h@ == listed_header(m@, shown));
            Some(h)
        },
        None => None,
    }
}

/// A mail that says when it was sent, within the years that the calendar knows, is shown with a
/// time on the clock less than a day from that; one that does not is shown with none. The time now
/// is one since the clock began to count.
pub proof fn lemma_dates_are_shown(parts: MailPartsView, t: ClockTime, d: Seq<char>)
    ensures
        dates(parts, None) <==> match parts.timestamp {
            Some(at) => at < -8_334_601_228_800 || 8_210_266_876_799 < at,
            None => true,
        },
        dates(parts, Some(d)) ==> match parts.timestamp {
            Some(at) => exists|c: ClockTime|
                {
                    &&& d == #[trigger] time_text(c)
                    &&& clock_shows(c)
                    &&& at - 24 * 60 * 60 < seconds_of(c) < at + 24 * 60 * 60
                },
            None => false,
        },
        parts.timestamp is Some && -8_334_601_228_800 <= parts.timestamp->0 <= 8_210_266_876_799
            && clock_shows(t) && parts.timestamp->0 - 24 * 60 * 60 < seconds_of(t)
            < parts.timestamp->0 + 24 * 60 * 60 ==> dates(parts, Some(time_text(t))),
        written_time(d) ==> exists|c: ClockTime|
            d == #[trigger] time_text(c) && clock_shows(c) && c.year >= 1969,
{
}

} // verus!
