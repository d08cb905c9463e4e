//! What the log formatter decides, apart from writing: which field of an
//! event is its message, when the span path is printed again, which prefix a
//! line gets, and under which label a field appears.

use vstd::prelude::*;
use vstd::std_specs::iter::IteratorSpec;
use vstd::string::StrSliceExecFns;
use crate::fs::path::to_chars;

verus! {

/// Severity of an event, least severe first.
#[derive(Clone, Copy, Debug, PartialEq, Eq, Structural)]
pub enum LogLevel {
    Trace,
    Debug,
    Info,
    Warn,
    Error,
}

/// The mark in front of a line of a record.
#[derive(Clone, Copy, Debug, PartialEq, Eq, Structural)]
pub enum PrefixKind {
    /// The only line of a record without fields.
    Single,
    /// The first line of a record with fields.
    Start,
    /// A field line that is followed by another.
    Mid,
    /// The last field line.
    End,
}

/// The name of the field that holds an event's message.
pub open spec fn message_field() -> Seq<char> {
    seq!['m', 'e', 's', 's', 'a', 'g', 'e']
}

/// The label under which a field is printed: none for the message, the name
/// without the raw-identifier mark `r#` where it has one, else the name.
pub open spec fn label_of(name: Seq<char>) -> Option<Seq<char>> {
    if name == message_field() {
        None
    } else if name.len() >= 2 && name[0] == 'r' && name[1] == '#' {
        Some(name.skip(2))
    } else {
        Some(name)
    }
}

/// Whether two strings hold the same text.
pub fn same_text(a: &str, b: &str) -> (same: bool)
    ensures
        same == (a@ == b@),
{
    broadcast use vstd::string::group_string_axioms;

    let mut x = a.chars();
    let mut y = b.chars();
    let ghost mut i: int = 0;
    loop
        invariant
            0 <= i <= a@.len(),
            i <= b@.len(),
            x.remaining() == a@.skip(i),
            y.remaining() == b@.skip(i),
            a@.take(i) == b@.take(i),
        decreases a@.len() - i,
    {
        let c: Option<char> = x.next();
        let d: Option<char> = y.next();
        match c {
            None => {
                proof {
                    assert(a@.take(i) =~= a@);
                    if d is None {
                        assert(b@.take(i) =~= b@);
                    }
                }
                return d.is_none();
            },
            Some(c) => {
                match d {
                    None => {
                        return false;
                    },
                    Some(d) => {
                        if c != d {
                            return false;
                        }
                    },
                }
            },
        }
        proof {
            i = i + 1;
        }
    }
}

/// Whether `name` names the message of an event.
pub fn is_message_field(name: &str) -> (result: bool)
    ensures
        result == (name@ == message_field()),
{
    proof {
        reveal_strlit("message");
        assert("message"@ =~= message_field());
    }
    same_text(name, "message")
}

/// The label under which the field `name` is printed, or `None` for the
/// message, which is not printed among the fields.
pub fn field_label(name: &str) -> (label: Option<String>)
    ensures
        label is Some <==> label_of(name@) is Some,
        label matches Some(l) ==> label_of(name@) == Some(l@),
{
    if is_message_field(name) {
        return None;
    }
    let chars = to_chars(name);
    if chars.len() >= 2 && chars[0] == 'r' && chars[1] == '#' {
        let rest: &str = name.substring_char(2, chars.len());
        Some(rest.to_owned())
    } else {
        Some(name.to_owned())
    }
}

/// The prefix of the first line of a record with `field_count` fields.
pub fn first_line_prefix(field_count: usize) -> (prefix: PrefixKind)
    ensures
        prefix == if field_count == 0 {
            PrefixKind::Single
        } else {
            PrefixKind::Start
        },
{
    if field_count == 0 {
        PrefixKind::Single
    } else {
        PrefixKind::Start
    }
}

/// The prefix of field line `index` out of `count`: `End` for the last one,
/// `Mid` for the others.
pub fn field_line_prefix(index: usize, count: usize) -> (prefix: PrefixKind)
    requires
        index < count,
    ensures
        prefix == if index + 1 == count {
            PrefixKind::End
        } else {
            PrefixKind::Mid
        },
{
    if index + 1 == count {
        PrefixKind::End
    } else {
        PrefixKind::Mid
    }
}

/// The colour of a level as hue in degrees, saturation and value; the dimmed
/// form keeps hue and saturation and lowers the value to 90.
pub fn level_hsv(level: LogLevel, is_dimmed: bool) -> (hsv: (u16, u8, u8))
    ensures
        hsv.0 == match level {
            LogLevel::Trace => 221u16,
            LogLevel::Debug => 192u16,
            LogLevel::Info => 134u16,
            LogLevel::Warn => 60u16,
            LogLevel::Error => 358u16,
        },
        hsv.1 == match level {
            LogLevel::Trace => 231u8,
            LogLevel::Debug => 226u8,
            LogLevel::Info => 226u8,
            LogLevel::Warn => 242u8,
            LogLevel::Error => 202u8,
        },
        hsv.2 == if is_dimmed {
            90u8
        } else {
            match level {
                LogLevel::Trace => 224u8,
                LogLevel::Debug => 227u8,
                LogLevel::Info => 227u8,
                LogLevel::Warn => 229u8,
                LogLevel::Error => 220u8,
            }
        },
{
    let (hue, saturation, value): (u16, u8, u8) = match level {
        LogLevel::Trace => (221, 231, 224),
        LogLevel::Debug => (192, 226, 227),
        LogLevel::Info => (134, 226, 227),
        LogLevel::Warn => (60, 242, 229),
        LogLevel::Error => (358, 202, 220),
    };
    if is_dimmed {
        (hue, saturation, 90)
    } else {
        (hue, saturation, value)
    }
}

/// Picks the message out of the fields of an event and counts the others.
#[derive(Debug)]
pub struct MessageValueVisitor {
    value: Option<String>,
    field_count: usize,
}

impl MessageValueVisitor {
    /// The message that was found, as text.
    pub closed spec fn spec_value(&self) -> Option<Seq<char>> {
        match self.value {
            Some(v) => Some(v@),
            None => None,
        }
    }

    /// Number of fields that were seen and are not the message.
    pub closed spec fn spec_field_count(&self) -> nat {
        self.field_count as nat
    }

    /// A visitor that has seen nothing.
    pub fn new() -> (visitor: Self)
        ensures
            visitor.spec_value() is None,
            visitor.spec_field_count() == 0,
    {
        MessageValueVisitor { value: None, field_count: 0 }
    }

    /// Takes one field with its rendered value: the first field named
    /// `message` becomes the message, every other field is counted.
    pub fn record_debug(&mut self, field_name: &str, rendered: String)
        requires
            old(self).spec_field_count() < usize::MAX,
        ensures
            final(self).spec_value() == if old(self).spec_value() is None && field_name@
                == message_field() {
                Some(rendered@)
            } else {
                old(self).spec_value()
            },
            final(self).spec_field_count() == if old(self).spec_value() is None && field_name@
                == message_field() {
                old(self).spec_field_count()
            } else {
                old(self).spec_field_count() + 1
            },
    {
        if self.value.is_none() && is_message_field(field_name) {
            self.value = Some(rendered);
        } else {
            self.field_count = self.field_count + 1;
        }
    }

    /// The message that was found.
    pub fn value(&self) -> (value: Option<&String>)
        ensures
            match value {
                Some(v) => self.spec_value() == Some(v@),
                None => self.spec_value() is None,
            },
    {
        self.value.as_ref()
    }

    /// Number of fields that were seen and are not the message.
    pub fn field_count(&self) -> (count: usize)
        ensures
            count == self.spec_field_count(),
    {
        self.field_count
    }
}

/// Remembers in which span the last record was written, so that the span
/// path is printed once for a run of records of one span.
#[derive(Clone, Copy, Debug, PartialEq, Eq, Structural)]
pub struct PrettierFormatter {
    last_span_id: Option<u64>,
}

impl PrettierFormatter {
    /// The span of the last record.
    pub closed spec fn spec_last_span_id(&self) -> Option<u64> {
        self.last_span_id
    }

    /// A formatter that has written nothing.
    pub fn new() -> (formatter: Self)
        ensures
            formatter.spec_last_span_id() is None,
    {
        PrettierFormatter { last_span_id: None }
    }

    /// Notes the innermost span of the record that is about to be written,
    /// and says whether the span path has to be printed before it: it has,
    /// when the record lies in a span and the last record did not lie in the
    /// same one.
    pub fn enter_span(&mut self, innermost: Option<u64>) -> (print_path: bool)
        ensures
            final(self).spec_last_span_id() == innermost,
            print_path == (innermost is Some && old(self).spec_last_span_id() != innermost),
    {
        let print_path: bool = match innermost {
            Some(id) => match self.last_span_id {
                Some(last) => last != id,
                None => true,
            },
            None => false,
        };
        self.last_span_id = innermost;
        print_path
    }
}

impl Default for PrettierFormatter {
    fn default() -> (formatter: Self)
        ensures
            formatter.spec_last_span_id() is None,
    {
        PrettierFormatter::new()
    }
}

} // verus!
