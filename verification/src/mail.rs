use vstd::prelude::*;

use mail_parser::{Address, DateTime, MessageParser, MimeHeaders};

use crate::text;
use crate::text::{chars_of, push_chars};

verus! {

broadcast use vstd::string::group_string_axioms;

// ---------------------------------------------------------------------
// Data
// ---------------------------------------------------------------------

/// A mail address with an optional display name.
#[derive(Debug)]
pub struct MailAddress {
    pub name: Option<String>,
    pub address: String,
}

/// A date and time with its offset from UTC, as a mail's `Date` header
/// gives it.
#[derive(Debug, Clone, Copy, PartialEq, Eq)]
pub struct MailDate {
    pub year: u16,
    pub month: u8,
    pub day: u8,
    pub hour: u8,
    pub minute: u8,
    pub second: u8,
    pub tz_before_gmt: bool,
    pub tz_hour: u8,
    pub tz_minute: u8,
}

/// One address of an address header: display name and address, each as the
/// header gives it, if at all.
#[derive(Debug)]
pub struct AddrFields {
    pub name: Option<String>,
    pub address: Option<String>,
}

/// An address header: a plain list of addresses, or a list of groups.
#[derive(Debug)]
pub enum AddressFields {
    List(Vec<AddrFields>),
    Group(Vec<Vec<AddrFields>>),
}

/// What a parsed message gives for each field that a `Mail` is made of.
#[derive(Debug)]
pub struct MessageFields {
    pub message_id: Option<String>,
    pub subject: Option<String>,
    pub preview: Option<String>,
    pub from: Option<AddressFields>,
    pub date: Option<MailDate>,
    pub to: Option<AddressFields>,
    pub cc: Option<AddressFields>,
    pub in_reply_to: Option<String>,
    pub body_text: Option<String>,
    pub format: Option<String>,
}

/// A mail of an archive, with the fields that the site shows.
#[derive(Debug)]
pub struct Mail {
    pub id: String,
    pub subject: String,
    pub thread_subject: String,
    pub preview: String,
    pub from: MailAddress,
    pub date: MailDate,
    pub body: String,
    pub flowed: bool,
    pub in_reply_to: Option<String>,
    pub to: Vec<MailAddress>,
    pub cc: Vec<MailAddress>,
}

// ---------------------------------------------------------------------
// Outside types
// ---------------------------------------------------------------------

#[verifier::external_type_specification]
#[verifier::external_body]
pub struct ExAddress<'x>(Address<'x>);

#[verifier::external_type_specification]
#[verifier::external_body]
pub struct ExDateTime(DateTime);

// ---------------------------------------------------------------------
// Names for what outside functions compute
// ---------------------------------------------------------------------

/// The base subject that `mail_parser::parsers::fields::thread::thread_name`
/// finds in a subject (RFC 5256, 2.1: reply and forward prefixes removed).
pub uninterp spec fn base_subject(subject: Seq<char>) -> Seq<char>;

/// Whether `mail_parser::MessageParser::parse`, with the default parser,
/// finds a message in raw bytes.
pub uninterp spec fn message_parses(data: Seq<u8>) -> bool;

/// What the message that the default `mail_parser::MessageParser` finds in
/// raw bytes gives for each field a mail is made of: its message id,
/// subject, body preview of `preview_len` characters, `From`, date, `To`,
/// `Cc`, `In-Reply-To` text, text body number `body_part`, and the content
/// type's parameter `attribute`.
pub uninterp spec fn fields_of(data: Seq<u8>, preview_len: usize, body_part: usize, attribute: Seq<char>) -> MessageFieldsView;

/// Seconds since the Unix epoch that `mail_parser::DateTime::to_timestamp`
/// computes for a date.
pub uninterp spec fn timestamp_of(
    year: u16,
    month: u8,
    day: u8,
    hour: u8,
    minute: u8,
    second: u8,
    tz_before_gmt: bool,
    tz_hour: u8,
    tz_minute: u8,
) -> i64;

// ---------------------------------------------------------------------
// Specifications
// ---------------------------------------------------------------------

impl MailDate {
    /// Seconds since the Unix epoch.
    pub open spec fn timestamp(self) -> int {
        timestamp_of(
            self.year,
            self.month,
            self.day,
            self.hour,
            self.minute,
            self.second,
            self.tz_before_gmt,
            self.tz_hour,
            self.tz_minute,
        ) as int
    }

    /// The RFC 3339 text of this date, as `DateTime::to_rfc3339` writes it.
    pub open spec fn rfc3339(self) -> Seq<char> {
        let base = text::zero_pad(text::decimal(self.year as nat), 4) + "-"@ + text::zero_pad(
            text::decimal(self.month as nat),
            2,
        ) + "-"@ + text::zero_pad(text::decimal(self.day as nat), 2) + "T"@ + text::zero_pad(
            text::decimal(self.hour as nat),
            2,
        ) + ":"@ + text::zero_pad(text::decimal(self.minute as nat), 2) + ":"@ + text::zero_pad(
            text::decimal(self.second as nat),
            2,
        );
        if self.tz_hour != 0 || self.tz_minute != 0 {
            base + (if self.tz_before_gmt { "-"@ } else { "+"@ }) + text::zero_pad(
                text::decimal(self.tz_hour as nat),
                2,
            ) + ":"@ + text::zero_pad(text::decimal(self.tz_minute as nat), 2)
        } else {
            base + "Z"@
        }
    }
}

/// The Unix epoch, the date a mail without a `Date` header is given.
pub open spec fn epoch_date() -> MailDate {
    MailDate {
        year: 1970,
        month: 1,
        day: 1,
        hour: 0,
        minute: 0,
        second: 0,
        tz_before_gmt: false,
        tz_hour: 0,
        tz_minute: 0,
    }
}

/// The model of a `MailAddress`.
pub struct AddressView {
    pub name: Option<Seq<char>>,
    pub address: Seq<char>,
}

impl View for MailAddress {
    type V = AddressView;

    open spec fn view(&self) -> AddressView {
        AddressView { name: self.name.deep_view(), address: self.address@ }
    }
}

impl DeepView for MailAddress {
    type V = AddressView;

    open spec fn deep_view(&self) -> AddressView {
        self@
    }
}

impl AddressView {
    /// How the address is shown: `"Name" <address>`, or `<address>`.
    pub open spec fn shown(self) -> Seq<char> {
        match self.name {
            Some(n) => "\""@ + n + "\" "@ + "<"@ + self.address + ">"@,
            None => "<"@ + self.address + ">"@,
        }
    }
}

/// The model of one header address.
pub open spec fn addr_fields_view(a: AddrFields) -> (Option<Seq<char>>, Option<Seq<char>>) {
    (a.name.deep_view(), a.address.deep_view())
}

/// The address made of the fields of one header address: a missing address
/// becomes the empty string.
pub open spec fn address_of_fields(a: (Option<Seq<char>>, Option<Seq<char>>)) -> AddressView {
    AddressView {
        name: a.0,
        address: match a.1 {
            Some(s) => s,
            None => Seq::empty(),
        },
    }
}

/// The model of an address header.
pub enum AddressFieldsView {
    List(Seq<(Option<Seq<char>>, Option<Seq<char>>)>),
    Group(Seq<Seq<(Option<Seq<char>>, Option<Seq<char>>)>>),
}

impl View for AddressFields {
    type V = AddressFieldsView;

    open spec fn view(&self) -> AddressFieldsView {
        match self {
            AddressFields::List(l) => AddressFieldsView::List(
                l@.map_values(|a: AddrFields| addr_fields_view(a)),
            ),
            AddressFields::Group(g) => AddressFieldsView::Group(
                g@.map_values(|x: Vec<AddrFields>| x@.map_values(|a: AddrFields| addr_fields_view(a))),
            ),
        }
    }
}

/// All addresses of an address header, groups flattened in order.
pub open spec fn flatten_groups(g: Seq<Seq<(Option<Seq<char>>, Option<Seq<char>>)>>) -> Seq<
    (Option<Seq<char>>, Option<Seq<char>>),
>
    decreases g.len(),
{
    if g.len() == 0 {
        Seq::empty()
    } else {
        flatten_groups(g.drop_last()) + g.last()
    }
}

/// The addresses of an address header.
pub open spec fn addresses_of(f: AddressFieldsView) -> Seq<AddressView> {
    let all = match f {
        AddressFieldsView::List(l) => l,
        AddressFieldsView::Group(g) => flatten_groups(g),
    };
    all.map_values(|a: (Option<Seq<char>>, Option<Seq<char>>)| address_of_fields(a))
}

/// The model of a `Mail`.
pub struct MailView {
    pub id: Seq<char>,
    pub subject: Seq<char>,
    pub thread_subject: Seq<char>,
    pub preview: Seq<char>,
    pub from: AddressView,
    pub date: MailDate,
    pub body: Seq<char>,
    pub flowed: bool,
    pub in_reply_to: Option<Seq<char>>,
    pub to: Seq<AddressView>,
    pub cc: Seq<AddressView>,
}

impl View for Mail {
    type V = MailView;

    open spec fn view(&self) -> MailView {
        MailView {
            id: self.id@,
            subject: self.subject@,
            thread_subject: self.thread_subject@,
            preview: self.preview@,
            from: self.from@,
            date: self.date,
            body: self.body@,
            flowed: self.flowed,
            in_reply_to: self.in_reply_to.deep_view(),
            to: self.to.deep_view(),
            cc: self.cc.deep_view(),
        }
    }
}

impl DeepView for Mail {
    type V = MailView;

    open spec fn deep_view(&self) -> MailView {
        self@
    }
}

/// The model of `MessageFields`.
pub struct MessageFieldsView {
    pub message_id: Option<Seq<char>>,
    pub subject: Option<Seq<char>>,
    pub preview: Option<Seq<char>>,
    pub from: Option<AddressFieldsView>,
    pub date: Option<MailDate>,
    pub to: Option<AddressFieldsView>,
    pub cc: Option<AddressFieldsView>,
    pub in_reply_to: Option<Seq<char>>,
    pub body_text: Option<Seq<char>>,
    pub format: Option<Seq<char>>,
}

/// The model of an optional address header.
pub open spec fn opt_address_fields(o: Option<AddressFields>) -> Option<AddressFieldsView> {
    match o {
        Some(a) => Some(a@),
        None => None,
    }
}

impl View for MessageFields {
    type V = MessageFieldsView;

    open spec fn view(&self) -> MessageFieldsView {
        MessageFieldsView {
            message_id: self.message_id.deep_view(),
            subject: self.subject.deep_view(),
            preview: self.preview.deep_view(),
            from: opt_address_fields(self.from),
            date: self.date,
            to: opt_address_fields(self.to),
            cc: opt_address_fields(self.cc),
            in_reply_to: self.in_reply_to.deep_view(),
            body_text: self.body_text.deep_view(),
            format: self.format.deep_view(),
        }
    }
}

/// `c` in lower case if it is an ASCII upper-case letter.
pub open spec fn ascii_lower(c: char) -> char {
    if 'A' <= c && c <= 'Z' {
        ((c as u32) + 32) as char
    } else {
        c
    }
}

/// `a` and `b` are equal up to ASCII case (`str::eq_ignore_ascii_case`).
pub open spec fn eq_ignore_ascii_case(a: Seq<char>, b: Seq<char>) -> bool {
    a.len() == b.len() && forall|i: int| 0 <= i < a.len() ==> ascii_lower(a[i]) == ascii_lower(b[i])
}

/// `o`'s text, or `d` when there is none.
pub open spec fn text_or(o: Option<Seq<char>>, d: Seq<char>) -> Seq<char> {
    match o {
        Some(s) => s,
        None => d,
    }
}

/// The addresses of an optional address header; none when it is missing.
pub open spec fn addresses_or_none(o: Option<AddressFieldsView>) -> Seq<AddressView> {
    match o {
        Some(a) => addresses_of(a),
        None => Seq::empty(),
    }
}

/// The sender of a mail: the first address of its `From` header, or
/// `invalid-email` when there is none.
pub open spec fn sender_of(o: Option<AddressFieldsView>) -> AddressView {
    let all = addresses_or_none(o);
    if all.len() > 0 {
        all[0]
    } else {
        AddressView { name: None, address: "invalid-email"@ }
    }
}

/// The mail made of what its message gives.
pub open spec fn mail_of_fields(f: MessageFieldsView) -> MailView {
    MailView {
        id: text_or(f.message_id, Seq::empty()),
        subject: text_or(f.subject, "(No Subject)"@),
        thread_subject: match f.subject {
            Some(s) => base_subject(s),
            None => "(No Subject)"@,
        },
        preview: text_or(f.preview, Seq::empty()),
        from: sender_of(f.from),
        date: match f.date {
            Some(d) => d,
            None => epoch_date(),
        },
        body: text_or(f.body_text, "[No message body]"@),
        flowed: match f.format {
            Some(x) => eq_ignore_ascii_case(x, "flowed"@),
            None => false,
        },
        in_reply_to: f.in_reply_to,
        to: addresses_or_none(f.to),
        cc: addresses_or_none(f.cc),
    }
}

// ---------------------------------------------------------------------
// Trusted calls into mail_parser
// ---------------------------------------------------------------------

/// Calls `mail_parser::parsers::fields::thread::thread_name`; claims that
/// the result is the base subject named by `base_subject`.
#[verifier::external_body]
fn thread_name_of(subject: &str) -> (r: String)
    ensures
        r@ == base_subject(subject@),
{
    mail_parser::parsers::fields::thread::thread_name(subject).to_string()
}

/// Calls `mail_parser::DateTime::to_timestamp` on the same date; claims the
/// result is the one named by `timestamp_of`.
#[verifier::external_body]
fn date_timestamp(d: &MailDate) -> (r: i64)
    ensures
        r == timestamp_of(
            d.year,
            d.month,
            d.day,
            d.hour,
            d.minute,
            d.second,
            d.tz_before_gmt,
            d.tz_hour,
            d.tz_minute,
        ),
{
    DateTime {
        year: d.year,
        month: d.month,
        day: d.day,
        hour: d.hour,
        minute: d.minute,
        second: d.second,
        tz_before_gmt: d.tz_before_gmt,
        tz_hour: d.tz_hour,
        tz_minute: d.tz_minute,
    }.to_timestamp()
}

/// Calls `mail_parser::DateTime::to_rfc3339` on the same date; claims the
/// text that its `format!` writes: zero-padded fields, then `Z`, or the sign
/// and offset when the offset is not zero.
#[verifier::external_body]
fn date_rfc3339(d: &MailDate) -> (r: String)
    ensures
        r@ == d.rfc3339(),
{
    DateTime {
        year: d.year,
        month: d.month,
        day: d.day,
        hour: d.hour,
        minute: d.minute,
        second: d.second,
        tz_before_gmt: d.tz_before_gmt,
        tz_hour: d.tz_hour,
        tz_minute: d.tz_minute,
    }.to_rfc3339()
}

/// Copies a `mail_parser::Address` into plain fields, one for one;
/// nothing is claimed of the result.
#[verifier::external_body]
fn address_fields(a: &Address) -> AddressFields {
    let conv = |x: &mail_parser::Addr| AddrFields {
        name: x.name.as_ref().map(|s| s.to_string()),
        address: x.address.as_ref().map(|s| s.to_string()),
    };
    match a {
        Address::List(l) => AddressFields::List(l.iter().map(conv).collect()),
        Address::Group(g) => AddressFields::Group(
            g.iter().map(|x| x.addresses.iter().map(conv).collect()).collect(),
        ),
    }
}

/// Copies a `mail_parser::DateTime` into a `MailDate`, field for field;
/// nothing is claimed of the result.
#[verifier::external_body]
fn date_fields(d: &DateTime) -> MailDate {
    MailDate {
        year: d.year,
        month: d.month,
        day: d.day,
        hour: d.hour,
        minute: d.minute,
        second: d.second,
        tz_before_gmt: d.tz_before_gmt,
        tz_hour: d.tz_hour,
        tz_minute: d.tz_minute,
    }
}

/// Calls `mail_parser::MessageParser::parse` with the default parser, then
/// the message's `message_id`, `subject`, `body_preview(preview_len)`,
/// `from`, `date`, `to`, `cc`, `in_reply_to().as_text()`,
/// `body_text(body_part)` and the `content_type`'s `attribute(attribute)`,
/// each copied one for one. Claims that there is a message exactly for the
/// bytes that `message_parses` names, none for no bytes at all (no header
/// and no part is found), and that the fields are those that `fields_of`
/// names for the same arguments.
#[verifier::external_body]
fn parse_fields(data: &[u8], preview_len: usize, body_part: usize, attribute: &str) -> (r: Option<
    MessageFields,
>)
    ensures
        r is Some <==> message_parses(data@),
        data@.len() == 0 ==> r is None,
        r matches Some(f) ==> f@ == fields_of(data@, preview_len, body_part, attribute@),
{
    let m = MessageParser::default().parse(data)?;
    let t = |x: Option<&str>| x.map(str::to_string);
    Some(MessageFields {
        message_id: t(m.message_id()),
        subject: t(m.subject()),
        preview: m.body_preview(preview_len).map(String::from),
        from: m.from().map(address_fields),
        date: m.date().map(date_fields),
        to: m.to().map(address_fields),
        cc: m.cc().map(address_fields),
        in_reply_to: t(m.in_reply_to().as_text()),
        body_text: m.body_text(body_part).map(String::from),
        format: m.content_type().and_then(|c| t(c.attribute(attribute))),
    })
}

// ---------------------------------------------------------------------
// Verified construction
// ---------------------------------------------------------------------

/// `a` and `b` are equal up to ASCII case.
pub fn eq_ignore_ascii_case_exec(a: &str, b: &str) -> (r: bool)
    ensures
        r == eq_ignore_ascii_case(a@, b@),
{
    let av = chars_of(a);
    let bv = chars_of(b);
    if av.len() != bv.len() {
        return false;
    }
    let mut i: usize = 0;
    while i < av.len()
        invariant
            av@ == a@,
            bv@ == b@,
            av.len() == bv.len(),
            i <= av.len(),
            forall|j: int| 0 <= j < i ==> ascii_lower(a@[j]) == ascii_lower(b@[j]),
        decreases av.len() - i,
    {
        if ascii_lower_exec(av[i]) != ascii_lower_exec(bv[i]) {
            return false;
        }
        i = i + 1;
    }
    true
}

fn ascii_lower_exec(c: char) -> (r: char)
    ensures
        r == ascii_lower(c),
{
    if 'A' <= c && c <= 'Z' {
        let b = (c as u8) + 32;
        b as char
    } else {
        c
    }
}

impl MailAddress {
    /// The address made of one header address; a missing address becomes
    /// the empty string.
    pub fn from_addr(a: AddrFields) -> (r: MailAddress)
        ensures
            r@ == address_of_fields(addr_fields_view(a)),
    {
        let address = match a.address {
            Some(s) => s,
            None => String::new(),
        };
        MailAddress { name: a.name, address }
    }

    /// All addresses of an address header, groups flattened in order.
    pub fn from_address(addr: AddressFields) -> (r: Vec<MailAddress>)
        ensures
            r.deep_view() == addresses_of(addr@),
    {
        let ghost all = match addr@ {
            AddressFieldsView::List(l) => l,
            AddressFieldsView::Group(g) => flatten_groups(g),
        };
        let mut out: Vec<MailAddress> = Vec::new();
        match addr {
            AddressFields::List(l) => {
                let ghost lv = l@;
                for a in it: l
                    invariant
                        it.seq() == lv,
                        all == lv.map_values(|a: AddrFields| addr_fields_view(a)),
                        out.deep_view() =~= all.take(it.index() as int).map_values(
                            |a: (Option<Seq<char>>, Option<Seq<char>>)| address_of_fields(a),
                        ),
                {
                    let ghost k = it.index();
                    let ghost av = addr_fields_view(a);
                    let ghost prev = out.deep_view();
                    assert(av == all[k as int]);
                    out.push(MailAddress::from_addr(a));
                    proof {
                        assert(out.deep_view() =~= prev.push(address_of_fields(av)));
                        assert(all.take(k + 1) =~= all.take(k as int).push(all[k as int]));
                    }
                }
                proof {
                    assert(all.take(lv.len() as int) =~= all);
                }
            },
            AddressFields::Group(g) => {
                let ghost gv = g@.map_values(
                    |x: Vec<AddrFields>| x@.map_values(|a: AddrFields| addr_fields_view(a)),
                );
                for grp in it: g
                    invariant
                        it.seq().map_values(
                            |x: Vec<AddrFields>| x@.map_values(|a: AddrFields| addr_fields_view(a)),
                        ) == gv,
                        all == flatten_groups(gv),
                        out.deep_view() =~= flatten_groups(gv.take(it.index() as int)).map_values(
                            |a: (Option<Seq<char>>, Option<Seq<char>>)| address_of_fields(a),
                        ),
                {
                    let ghost k = it.index();
                    let ghost before = out.deep_view();
                    let ghost grp_view = gv[k as int];
                    assert(grp_view == grp@.map_values(|a: AddrFields| addr_fields_view(a)));
                    for a in jt: grp
                        invariant
                            grp_view == jt.seq().map_values(|a: AddrFields| addr_fields_view(a)),
                            out.deep_view() =~= before + grp_view.take(jt.index() as int).map_values(
                                |a: (Option<Seq<char>>, Option<Seq<char>>)| address_of_fields(a),
                            ),
                    {
                        let ghost j = jt.index();
                        let ghost av = addr_fields_view(a);
                        let ghost prev = out.deep_view();
                        assert(av == grp_view[j as int]);
                        out.push(MailAddress::from_addr(a));
                        proof {
                            assert(out.deep_view() =~= prev.push(address_of_fields(av)));
                            assert(grp_view.take(j + 1) =~= grp_view.take(j as int).push(grp_view[j as int]));
                        }
                    }
                    proof {
                        assert(grp_view.take(grp_view.len() as int) =~= grp_view);
                        assert(gv.take(k + 1).drop_last() =~= gv.take(k as int));
                        assert(flatten_groups(gv.take(k + 1)) == flatten_groups(gv.take(k as int)) + grp_view);
                    }
                }
                proof {
                    assert(gv.take(gv.len() as int) =~= gv);
                }
            },
        }
        out
    }

    /// How the address is shown: `"Name" <address>`, or `<address>`.
    pub fn display(&self) -> (r: String)
        ensures
            r@ == self@.shown(),
    {
        let mut out = String::new();
        match &self.name {
            Some(n) => {
                out.append("\"");
                out.append(n.as_str());
                out.append("\" ");
            },
            None => {},
        }
        out.append("<");
        out.append(self.address.as_str());
        out.append(">");
        out
    }

    /// A copy of this address.
    pub fn duplicate(&self) -> (r: MailAddress)
        ensures
            r == *self,
    {
        let name = match &self.name {
            Some(n) => Some(n.clone()),
            None => None,
        };
        MailAddress { name, address: self.address.clone() }
    }
}

impl MailDate {
    /// The Unix epoch.
    pub fn epoch() -> (r: MailDate)
        ensures
            r == epoch_date(),
    {
        MailDate {
            year: 1970,
            month: 1,
            day: 1,
            hour: 0,
            minute: 0,
            second: 0,
            tz_before_gmt: false,
            tz_hour: 0,
            tz_minute: 0,
        }
    }

    /// Seconds since the Unix epoch.
    pub fn to_timestamp(&self) -> (r: i64)
        ensures
            r == self.timestamp(),
    {
        date_timestamp(self)
    }

    /// The RFC 3339 text of this date.
    pub fn to_rfc3339(&self) -> (r: String)
        ensures
            r@ == self.rfc3339(),
    {
        date_rfc3339(self)
    }
}

/// `id` with every `/` replaced by `;`, safe as a file name.
pub open spec fn path_escaped(id: Seq<char>) -> Seq<char> {
    id.map_values(|c: char| if c == '/' { ';' } else { c })
}

impl Mail {
    /// The message id, path-escaped for use as a file name: `/` becomes `;`.
    pub fn pathescape_msg_id(&self) -> (r: String)
        ensures
            r@ == path_escaped(self.id@),
    {
        escape_path(self.id.as_str())
    }

    /// The mail made of what its message gives: missing fields get their
    /// defaults, the sender is the first `From` address, and the body is
    /// flowed when the content type says `format=flowed`.
    pub fn from_fields(f: MessageFields) -> (m: Mail)
        ensures
            m@ == mail_of_fields(f@),
    {
        let ghost fv = f@;
        let id = match f.message_id {
            Some(s) => s,
            None => String::new(),
        };
        let (subject, thread_subject) = match f.subject {
            Some(s) => {
                let t = thread_name_of(s.as_str());
                (s, t)
            },
            None => (String::from_str("(No Subject)"), String::from_str("(No Subject)")),
        };
        let preview = match f.preview {
            Some(s) => s,
            None => String::new(),
        };
        let ghost from_all = addresses_or_none(fv.from);
        let from = match f.from {
            Some(a) => {
                let mut all = MailAddress::from_address(a);
                if all.len() > 0 {
                    let ghost dv = all.deep_view();
                    assert(dv[0] == all@[0]@);
                    let first = all.remove(0);
                    first
                } else {
                    MailAddress { name: None, address: String::from_str("invalid-email") }
                }
            },
            None => MailAddress { name: None, address: String::from_str("invalid-email") },
        };
        let date = match f.date {
            Some(d) => d,
            None => MailDate::epoch(),
        };
        let body = match f.body_text {
            Some(s) => s,
            None => String::from_str("[No message body]"),
        };
        let flowed = match &f.format {
            Some(x) => eq_ignore_ascii_case_exec(x.as_str(), "flowed"),
            None => false,
        };
        let to = match f.to {
            Some(a) => MailAddress::from_address(a),
            None => Vec::new(),
        };
        let cc = match f.cc {
            Some(a) => MailAddress::from_address(a),
            None => Vec::new(),
        };
        let m = Mail {
            id,
            subject,
            thread_subject,
            preview,
            from,
            date,
            body,
            flowed,
            in_reply_to: f.in_reply_to,
            to,
            cc,
        };
        proof {
            assert(m@.to =~= mail_of_fields(fv).to);
            assert(m@.cc =~= mail_of_fields(fv).cc);
        }
        m
    }
}

/// The mail of raw bytes, as the default `mail_parser::MessageParser`
/// reads them: a preview of 80 characters, the first text body, and
/// whether the content type's `format` parameter says `flowed`.
pub open spec fn mail_of_bytes(data: Seq<u8>) -> MailView {
    mail_of_fields(fields_of(data, 80, 0, "format"@))
}

/// Parses the raw bytes of one mail; `None` when they are not a message.
pub fn parse_mail(data: &[u8]) -> (r: Option<Mail>)
    ensures
        r is Some <==> message_parses(data@),
        data@.len() == 0 ==> r is None,
        r matches Some(m) ==> m@ == mail_of_bytes(data@),
{
    match parse_fields(data, 80, 0, "format") {
        Some(f) => Some(Mail::from_fields(f)),
        None => None,
    }
}

/// `id` with every `/` replaced by `;`.
pub fn escape_path(id: &str) -> (r: String)
    ensures
        r@ == path_escaped(id@),
{
    let v = chars_of(id);
    let mut out = String::new();
    let mut i: usize = 0;
    while i < v.len()
        invariant
            v@ == id@,
            i <= v.len(),
            out@ == path_escaped(v@.take(i as int)),
        decreases v.len() - i,
    {
        let c = v[i];
        out.push(if c == '/' { ';' } else { c });
        proof {
            assert(path_escaped(v@.take(i + 1)) =~= path_escaped(v@.take(i as int)).push(
                if c == '/' { ';' } else { c },
            ));
        }
        i = i + 1;
    }
    proof {
        assert(v@.take(i as int) =~= v@);
    }
    out
}

/// An escaped message id is safe as one file name: it has no `/`, and it
/// keeps its length.
pub proof fn lemma_path_escaped_no_slash(id: Seq<char>)
    ensures
        path_escaped(id).len() == id.len(),
        forall|i: int| 0 <= i < id.len() ==> #[trigger] path_escaped(id)[i] != '/',
{
}

/// The addresses that an address header holds, groups flattened in order.
pub open spec fn header_addrs(o: Option<AddressFieldsView>) -> Seq<(Option<Seq<char>>, Option<Seq<char>>)> {
    match o {
        Some(AddressFieldsView::List(l)) => l,
        Some(AddressFieldsView::Group(g)) => flatten_groups(g),
        None => Seq::empty(),
    }
}

/// A mail keeps every address of its `To` and `Cc` headers, in order: as
/// many addresses as the header holds, address `i` made of header address
/// `i`.
pub proof fn lemma_mail_keeps_recipients(f: MessageFieldsView)
    ensures
        mail_of_fields(f).to.len() == header_addrs(f.to).len(),
        forall|i: int|
            0 <= i < header_addrs(f.to).len() ==> mail_of_fields(f).to[i] == address_of_fields(
                #[trigger] header_addrs(f.to)[i],
            ),
        mail_of_fields(f).cc.len() == header_addrs(f.cc).len(),
        forall|i: int|
            0 <= i < header_addrs(f.cc).len() ==> mail_of_fields(f).cc[i] == address_of_fields(
                #[trigger] header_addrs(f.cc)[i],
            ),
{
}

} // verus!
