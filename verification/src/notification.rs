//! Notifications: what is told about a range of a file, and how it is
//! written down.

use crate::marker::{mark, Marker};
use crate::schema::{join, joined, FileId, NotificationId};
use core::ops::Range;
use vstd::prelude::*;
use vstd::string::*;

verus! {

/// A severity level for a notification
#[derive(Copy, Clone, Debug, PartialEq, PartialOrd, Eq, Ord, Hash, Structural)]
pub enum Level {
    Fatal,
    Error,
    Warning,
    Success,
    Info,
}

impl Default for Level {
    fn default() -> (level: Self)
        ensures
            level == Level::Info,
    {
        Self::Info
    }
}

/// Something that is told about a range: how it reads as HTML, as JSON, on a
/// terminal and as plain text.
pub trait Notification {
    fn html(&self) -> String;

    fn json(&self) -> String;

    fn tty(&self) -> String;

    fn text(&self) -> String;
}

/// A notification of a title, with a code and a description where it has them.
#[derive(Clone, Debug)]
pub struct Simple {
    pub code: Option<String>,
    pub title: String,
    pub description: Option<String>,
}

/// What stands for the character `c` in HTML.
pub open spec fn html_escaped_char(c: char) -> Seq<char> {
    if c == '"' {
        seq!['&', 'q', 'u', 'o', 't', ';']
    } else if c == '&' {
        seq!['&', 'a', 'm', 'p', ';']
    } else if c == '\'' {
        seq!['&', '#', 'x', '2', '7', ';']
    } else if c == '/' {
        seq!['&', '#', 'x', '2', 'f', ';']
    } else if c == '<' {
        seq!['&', 'l', 't', ';']
    } else if c == '>' {
        seq!['&', 'g', 't', ';']
    } else {
        seq![c]
    }
}

/// The text `s` as it stands in HTML: each character by what stands for it.
pub open spec fn html_escaped(s: Seq<char>) -> Seq<char>
    decreases s.len(),
{
    if s.len() == 0 {
        Seq::empty()
    } else {
        html_escaped(s.drop_last()) + html_escaped_char(s.last())
    }
}

/// The digit of sixteen that stands for `d`, in lower case.
pub open spec fn hex_digit(d: int) -> char {
    if d < 10 {
        ((48 + d) as u8) as char
    } else {
        ((87 + d) as u8) as char
    }
}

/// What stands for the character `c` between the quotes of a JSON string: a
/// backslash before a quote and before a backslash; `\b`, `\t`, `\n`, `\f`
/// and `\r` for the control characters that have such a name; `\u00` and
/// two digits of sixteen for the other characters below the space; and the
/// character itself otherwise.
pub open spec fn json_escaped_char(c: char) -> Seq<char> {
    let u = c as u32;
    if c == '"' {
        seq!['\\', '"']
    } else if c == '\\' {
        seq!['\\', '\\']
    } else if u == 0x08 {
        seq!['\\', 'b']
    } else if u == 0x09 {
        seq!['\\', 't']
    } else if u == 0x0a {
        seq!['\\', 'n']
    } else if u == 0x0c {
        seq!['\\', 'f']
    } else if u == 0x0d {
        seq!['\\', 'r']
    } else if u < 0x20 {
        seq!['\\', 'u', '0', '0', hex_digit(u as int / 16), hex_digit(u as int % 16)]
    } else {
        seq![c]
    }
}

/// The text `s` as it stands between the quotes of a JSON string: each
/// character by what stands for it.
pub open spec fn json_escaped(s: Seq<char>) -> Seq<char>
    decreases s.len(),
{
    if s.len() == 0 {
        Seq::empty()
    } else {
        json_escaped(s.drop_last()) + json_escaped_char(s.last())
    }
}

/// The text `s` as it stands in HTML. The call is `v_htmlescape::escape`,
/// whose `Display` writes `&quot;`, `&amp;`, `&#x27;`, `&#x2f;`, `&lt;` and
/// `&gt;` for the six characters that they stand for, and every other
/// character as it is.
#[verifier::external_body]
fn htmlescape(s: &str) -> (r: String)
    ensures
        r@ == html_escaped(s@),
{
    v_htmlescape::escape(s).to_string()
}

/// The text `s` as it stands between the quotes of a JSON string. The call
/// is `v_jsonescape::escape`, whose `Display` writes a backslash before the
/// quote and before the backslash, the escapes of JSON for the characters
/// below the space, and every other character as it is.
#[verifier::external_body]
fn jsonescape(s: &str) -> (r: String)
    ensures
        r@ == json_escaped(s@),
{
    v_jsonescape::escape(s).to_string()
}

/// The HTML of a notification whose title and description are already as
/// they stand in HTML.
pub open spec fn html_of(title: Seq<char>, description: Option<Seq<char>>) -> Seq<char> {
    "<div class=n-title>"@ + title + "</div>"@ + match description {
        Some(d) => "<div class=n-desc>"@ + d + "</div>"@,
        None => Seq::empty(),
    }
}

/// The JSON of a notification whose title, code and description are already
/// as they stand in JSON strings.
pub open spec fn json_of(
    title: Seq<char>,
    code: Option<Seq<char>>,
    description: Option<Seq<char>>,
) -> Seq<char> {
    "{"@ + "\"title\":\""@ + title + "\""@ + match code {
        Some(c) => ",\"code\":\""@ + c + "\""@,
        None => Seq::empty(),
    } + match description {
        Some(d) => ",\"description\":\""@ + d + "\""@,
        None => Seq::empty(),
    } + "}"@
}

impl Simple {
    /// The HTML of a notification from its title and its description, each as
    /// it stands in HTML.
    pub fn html_from(title: &str, description: Option<&str>) -> (out: String)
        ensures
            out@ == html_of(
                title@,
                match description {
                    Some(d) => Some(d@),
                    None => None,
                },
            ),
    {
        let mut out = String::from_str("<div class=n-title>");
        out.append(title);
        out.append("</div>");
        match description {
            Some(d) => {
                out.append("<div class=n-desc>");
                out.append(d);
                out.append("</div>");
                assert(out@ =~= html_of(title@, Some(d@)));
            },
            None => {
                assert(out@ =~= html_of(title@, None));
            },
        }
        out
    }

    /// The JSON of a notification from its title, its code and its
    /// description, each as it stands in a JSON string.
    pub fn json_from(title: &str, code: Option<&str>, description: Option<&str>) -> (out: String)
        ensures
            out@ == json_of(
                title@,
                match code {
                    Some(c) => Some(c@),
                    None => None,
                },
                match description {
                    Some(d) => Some(d@),
                    None => None,
                },
            ),
    {
        let mut out = String::from_str("{");
        out.append("\"title\":\"");
        out.append(title);
        out.append("\"");
        let ghost head = out@;
        match code {
            Some(c) => {
                out.append(",\"code\":\"");
                out.append(c);
                out.append("\"");
            },
            None => {},
        }
        let ghost mid = out@;
        match description {
            Some(d) => {
                out.append(",\"description\":\"");
                out.append(d);
                out.append("\"");
            },
            None => {},
        }
        out.append("}");
        proof {
            let c = match code {
                Some(c) => Some(c@),
                None => None,
            };
            let d = match description {
                Some(d) => Some(d@),
                None => None,
            };
            assert(out@ =~= json_of(title@, c, d));
        }
        out
    }
}

impl Notification for Simple {
    fn html(&self) -> (out: String)
        ensures
            out@ == html_of(
                html_escaped(self.title@),
                match self.description {
                    Some(d) => Some(html_escaped(d@)),
                    None => None,
                },
            ),
    {
        let title = htmlescape(self.title.as_str());
        match &self.description {
            Some(d) => {
                let d = htmlescape(d.as_str());
                Simple::html_from(title.as_str(), Some(d.as_str()))
            },
            None => Simple::html_from(title.as_str(), None),
        }
    }

    fn json(&self) -> (out: String)
        ensures
            out@ == json_of(
                json_escaped(self.title@),
                match self.code {
                    Some(c) => Some(json_escaped(c@)),
                    None => None,
                },
                match self.description {
                    Some(d) => Some(json_escaped(d@)),
                    None => None,
                },
            ),
    {
        let title = jsonescape(self.title.as_str());
        let code = match &self.code {
            Some(c) => Some(jsonescape(c.as_str())),
            None => None,
        };
        let description = match &self.description {
            Some(d) => Some(jsonescape(d.as_str())),
            None => None,
        };
        Simple::json_from(
            title.as_str(),
            match &code {
                Some(c) => Some(c.as_str()),
                None => None,
            },
            match &description {
                Some(d) => Some(d.as_str()),
                None => None,
            },
        )
    }

    fn tty(&self) -> (out: String)
        ensures
            out@ == Seq::<char>::empty(),
    {
        String::new()
    }

    fn text(&self) -> (out: String)
        ensures
            out@ == Seq::<char>::empty(),
    {
        String::new()
    }
}

/// The notifications of a run, each known by the number under which it was
/// created. `N` is what a notification is kept as.
pub struct Notifications<N> {
    pub notifications: Vec<(Level, N)>,
}

impl<N> Notifications<N> {
    pub fn new() -> (n: Self)
        ensures
            n.notifications@.len() == 0,
    {
        Self { notifications: Vec::new() }
    }

    /// Keeps a notification, and gives the identifier under which it is kept:
    /// the number of those that were kept before it.
    pub fn create(&mut self, level: Level, notification: N) -> (id: NotificationId)
        requires
            old(self).notifications@.len() < u32::MAX,
        ensures
            id.0 == old(self).notifications@.len(),
            final(self).notifications@ == old(self).notifications@.push((level, notification)),
    {
        let id = NotificationId::new(self.notifications.len() as u32);
        self.notifications.push((level, notification));
        id
    }

    /// The notification that is kept under `id`.
    pub fn get(&self, id: NotificationId) -> (entry: &(Level, N))
        requires
            id.0 < self.notifications@.len(),
        ensures
            *entry == self.notifications@[id.0 as int],
    {
        &self.notifications[id.0 as usize]
    }
}

/// The writes that record a notification `id` over `bytes` of `file`.
pub fn notify(file: FileId, bytes: Range<u32>, id: NotificationId) -> (writes: Vec<
    (Vec<u8>, Vec<u8>),
>)
    ensures
        bytes.start >= bytes.end ==> writes@.len() == 0,
        bytes.start < bytes.end ==> {
            &&& writes@.len() == 2
            &&& writes@[0].0@ == joined(seq![file.0, bytes.start])
            &&& writes@[0].1@ == Marker { id: id.0, end: bytes.end }.bytes()
            &&& writes@[1].0@ == joined(seq![file.0, bytes.end])
            &&& writes@[1].1@ == Marker { id: id.0, end: bytes.end }.bytes()
        },
{
    mark(file, bytes, id.get())
}

/// The records of the ranges of a file with their notifications: for each
/// entry one, under the file and the range, holding the notifications.
pub fn finish_file(entries: &Vec<crate::marker::Entry>) -> (writes: Vec<(Vec<u8>, Vec<u8>)>)
    ensures
        writes@.len() == entries@.len(),
        forall|i: int|
            0 <= i < entries@.len() ==> (#[trigger] writes@[i]).0@ == joined(
                seq![entries@[i].file.0, entries@[i].start, entries@[i].end],
            ) && writes@[i].1@ == entries@[i].buf@,
{
    let mut writes: Vec<(Vec<u8>, Vec<u8>)> = Vec::new();
    let mut i: usize = 0;
    while i < entries.len()
        invariant
            i <= entries@.len(),
            writes@.len() == i,
            forall|j: int|
                0 <= j < i ==> (#[trigger] writes@[j]).0@ == joined(
                    seq![entries@[j].file.0, entries@[j].start, entries@[j].end],
                ) && writes@[j].1@ == entries@[j].buf@,
        decreases entries@.len() - i,
    {
        let entry = &entries[i];
        let parts = [entry.file.0, entry.start, entry.end];
        let key = join(parts.as_slice());
        let mut value: Vec<u8> = Vec::new();
        crate::schema::extend(&mut value, entry.buf.as_slice());
        proof {
            assert(parts@ =~= seq![entry.file.0, entry.start, entry.end]);
        }
        writes.push((key, value));
        i += 1;
    }
    writes
}

} // verus!
