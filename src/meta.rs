//! Meta constants: constants whose identifier names a field of the current
//! date and time, which is substituted when a template is filled out.

use crate::content::{ContentRequirement, ContentType, Requirement, RequiredContent, Slot};
use vstd::prelude::*;

verus! {

/// A field of the current date and time.
#[derive(Debug, Clone, Copy, PartialEq, Eq)]
pub enum Meta {
    /// The current year (e.g. 2023).
    Year,
    /// The number of the current month, 01 for January to 12 for December.
    MonthNum,
    /// The full name of the current month.
    MonthName,
    /// The name of the current month abbreviated to three letters.
    MonthAbbr,
    /// The number of the current day in the month (01-31).
    DayNum,
    /// The number of the current week in the year.
    Week,
    /// The name of the current day.
    DayName,
    /// The name of the current day abbreviated to three letters.
    DayAbbr,
    /// The current hour of the day, 00 to 23.
    Hour,
    /// The current minute of the hour, 00 to 59.
    Minute,
    /// The current second of the minute, 00 to 59.
    Second,
}

/// The meta element an identifier names, if any.
pub open spec fn meta_of(ident: Seq<char>) -> Option<Meta> {
    if ident == "Year"@ {
        Some(Meta::Year)
    } else if ident == "MonthNum"@ {
        Some(Meta::MonthNum)
    } else if ident == "Month"@ || ident == "MonthName"@ {
        Some(Meta::MonthName)
    } else if ident == "MonthAbbr"@ || ident == "MonthShort"@ {
        Some(Meta::MonthAbbr)
    } else if ident == "DayNum"@ {
        Some(Meta::DayNum)
    } else if ident == "Week"@ {
        Some(Meta::Week)
    } else if ident == "Day"@ || ident == "DayName"@ {
        Some(Meta::DayName)
    } else if ident == "DayAbbr"@ || ident == "DayShort"@ {
        Some(Meta::DayAbbr)
    } else if ident == "Hour"@ {
        Some(Meta::Hour)
    } else if ident == "Minute"@ {
        Some(Meta::Minute)
    } else if ident == "Second"@ {
        Some(Meta::Second)
    } else {
        None
    }
}

/// The `strftime` format of a meta element.
pub open spec fn format_of(m: Meta) -> Seq<char> {
    match m {
        Meta::Year => "%Y"@,
        Meta::MonthNum => "%m"@,
        Meta::MonthName => "%B"@,
        Meta::MonthAbbr => "%b"@,
        Meta::DayNum => "%d"@,
        Meta::Week => "%U"@,
        Meta::DayName => "%A"@,
        Meta::DayAbbr => "%a"@,
        Meta::Hour => "%H"@,
        Meta::Minute => "%M"@,
        Meta::Second => "%S"@,
    }
}

/// Whether `a` and `b` hold the same characters.
fn same_chars(a: &str, b: &str) -> (r: bool)
    ensures
        r == (a@ == b@),
{
    let n = a.unicode_len();
    if n != b.unicode_len() {
        return false;
    }
    let mut i: usize = 0;
    while i < n
        invariant
            n == a@.len() == b@.len(),
            i <= n,
            forall|j: int| 0 <= j < i ==> a@[j] == b@[j],
        decreases n - i,
    {
        if a.get_char(i) != b.get_char(i) {
            return false;
        }
        i = i + 1;
    }
    assert(a@ =~= b@);
    true
}

/// Conversion of an identifier into the meta element it names.
pub trait MetaExt {
    spec fn spec_chars(&self) -> Seq<char>;

    /// The meta element this identifier names, if any.
    fn as_meta(&self) -> (r: Option<Meta>)
        ensures
            r == meta_of(self.spec_chars()),
    ;
}

impl MetaExt for str {
    open spec fn spec_chars(&self) -> Seq<char> {
        self@
    }

    fn as_meta(&self) -> (r: Option<Meta>) {
        let s = self;
        if same_chars(s, "Year") {
            Some(Meta::Year)
        } else if same_chars(s, "MonthNum") {
            Some(Meta::MonthNum)
        } else if same_chars(s, "Month") || same_chars(s, "MonthName") {
            Some(Meta::MonthName)
        } else if same_chars(s, "MonthAbbr") || same_chars(s, "MonthShort") {
            Some(Meta::MonthAbbr)
        } else if same_chars(s, "DayNum") {
            Some(Meta::DayNum)
        } else if same_chars(s, "Week") {
            Some(Meta::Week)
        } else if same_chars(s, "Day") || same_chars(s, "DayName") {
            Some(Meta::DayName)
        } else if same_chars(s, "DayAbbr") || same_chars(s, "DayShort") {
            Some(Meta::DayAbbr)
        } else if same_chars(s, "Hour") {
            Some(Meta::Hour)
        } else if same_chars(s, "Minute") {
            Some(Meta::Minute)
        } else if same_chars(s, "Second") {
            Some(Meta::Second)
        } else {
            None
        }
    }
}

impl MetaExt for String {
    open spec fn spec_chars(&self) -> Seq<char> {
        self@
    }

    fn as_meta(&self) -> (r: Option<Meta>) {
        self.as_str().as_meta()
    }
}

/// The identifiers of all meta elements.
pub fn meta_idents() -> (r: Vec<&'static str>)
    ensures
        r@.len() == 15,
        forall|i: int| 0 <= i < r@.len() ==> meta_of(#[trigger] r@[i]@) is Some,
{
    let r = vec![
        "Year",
        "Week",
        "Hour",
        "Minute",
        "Second",
        "MonthNum",
        "Month",
        "MonthName",
        "MonthAbbr",
        "MonthShort",
        "DayNum",
        "Day",
        "DayName",
        "DayAbbr",
        "DayShort",
    ];
    proof {
        assert forall|i: int| 0 <= i < r@.len() implies meta_of(#[trigger] r@[i]@) is Some by {
            reveal_strlit("Year");
            reveal_strlit("Week");
            reveal_strlit("Hour");
            reveal_strlit("Minute");
            reveal_strlit("Second");
            reveal_strlit("MonthNum");
            reveal_strlit("Month");
            reveal_strlit("MonthName");
            reveal_strlit("MonthAbbr");
            reveal_strlit("MonthShort");
            reveal_strlit("DayNum");
            reveal_strlit("Day");
            reveal_strlit("DayName");
            reveal_strlit("DayAbbr");
            reveal_strlit("DayShort");
        }
    }
    r
}

impl Meta {
    /// The `strftime` format of this field.
    pub fn format(self) -> (r: &'static str)
        ensures
            r@ == format_of(self),
    {
        match self {
            Meta::Year => "%Y",
            Meta::MonthNum => "%m",
            Meta::MonthName => "%B",
            Meta::MonthAbbr => "%b",
            Meta::DayNum => "%d",
            Meta::Week => "%U",
            Meta::DayName => "%A",
            Meta::DayAbbr => "%a",
            Meta::Hour => "%H",
            Meta::Minute => "%M",
            Meta::Second => "%S",
        }
    }

    /// The value of this field at the UTC time `secs` seconds and `nanos`
    /// nanoseconds after the Unix epoch, if chrono can represent that time.
    pub fn content_at(self, secs: u64, nanos: u32) -> (r: Option<String>)
        ensures
            match r {
                Some(text) => utc_text(secs, nanos, format_of(self)) == Some(text@) && text@.len() > 0,
                None => utc_text(secs, nanos, format_of(self)) is None,
            },
    {
        format_utc(secs, nanos, self.format())
    }

    /// The value of this field for the current time, if the system clock
    /// gives one.
    pub fn to_content(self) -> (r: Option<String>)
        ensures
            r matches Some(text) ==> text@.len() > 0 && exists|secs: u64, nanos: u32|
                utc_text(secs, nanos, format_of(self)) == Some(text@),
    {
        match unix_time() {
            Some((secs, nanos)) => self.content_at(secs, nanos),
            None => None,
        }
    }
}

/// Relies on `std::time::SystemTime::now` and `SystemTime::duration_since`
/// with `UNIX_EPOCH`: whole seconds and nanoseconds since the Unix epoch, or
/// `None` where the system clock is set before it. The result depends on
/// the time, so nothing is stated of it.
#[verifier::external_body]
fn unix_time() -> Option<(u64, u32)> {
    std::time::SystemTime::now()
        .duration_since(std::time::UNIX_EPOCH)
        .ok()
        .map(|d| (d.as_secs(), d.subsec_nanos()))
}

/// The UTC time `secs` seconds and `nanos` nanoseconds after the Unix
/// epoch, written by the `strftime` string `fmt`, if chrono represents that
/// time.
pub uninterp spec fn utc_text(secs: u64, nanos: u32, fmt: Seq<char>) -> Option<Seq<char>>;

/// Relies on `chrono::DateTime::from_timestamp`, which gives `None` for a
/// time out of its range, on `DateTime::format`, and on the `Display` of the
/// formatted value. For the formats of meta elements every item is a number
/// or a name that chrono writes from a table, so formatting never fails and
/// never writes nothing. Only those formats are taken: another format could
/// make `to_string` panic.
#[verifier::external_body]
fn format_utc(secs: u64, nanos: u32, fmt: &str) -> (r: Option<String>)
    requires
        exists|m: Meta| fmt@ == format_of(m),
    ensures
        match r {
            Some(text) => utc_text(secs, nanos, fmt@) == Some(text@) && text@.len() > 0,
            None => utc_text(secs, nanos, fmt@) is None,
        },
{
    let secs = i64::try_from(secs).ok()?;
    chrono::DateTime::from_timestamp(secs, nanos).map(|t| t.format(fmt).to_string())
}

/// Entry `entry` once meta constants are evaluated at `secs`/`nanos`: a
/// constant slot whose identifier names a meta element takes that
/// element's value, where the time can be written.
pub open spec fn entry_at_time(entry: (Slot, Requirement), secs: u64, nanos: u32) -> (
    Slot,
    Requirement,
) {
    if entry.0.0 == ContentType::Constant && meta_of(entry.0.1) is Some && utc_text(
        secs,
        nanos,
        format_of(meta_of(entry.0.1)->0),
    ) is Some {
        (entry.0, Requirement::Literal(utc_text(secs, nanos, format_of(meta_of(entry.0.1)->0))->0))
    } else {
        entry
    }
}

/// The entries with meta constants evaluated at `secs`/`nanos`.
pub open spec fn evaluated_at(e: Seq<(Slot, Requirement)>, secs: u64, nanos: u32) -> Seq<
    (Slot, Requirement),
> {
    e.map_values(|entry: (Slot, Requirement)| entry_at_time(entry, secs, nanos))
}

/// The entries after dynamic evaluation: evaluated at some time, or as they
/// were where the system clock gives no time.
pub open spec fn dyn_evaluated(before: Seq<(Slot, Requirement)>, after: Seq<(Slot, Requirement)>) -> bool {
    after == before || exists|secs: u64, nanos: u32| after == evaluated_at(before, secs, nanos)
}

impl RequiredContent {
    /// Fill every constant slot whose identifier names a meta element with
    /// that element's value at the UTC time `secs`/`nanos` after the epoch.
    pub fn eval_dyn_at(&mut self, secs: u64, nanos: u32)
        ensures
            final(self)@ == evaluated_at(old(self)@, secs, nanos),
    {
        let n = self.len();
        let mut i: usize = 0;
        while i < n
            invariant
                n == self@.len() == old(self)@.len(),
                i <= n,
                forall|j: int|
                    0 <= j < i ==> #[trigger] self@[j] == entry_at_time(old(self)@[j], secs, nanos),
                forall|j: int| i <= j < n ==> self@[j] == old(self)@[j],
            decreases n - i,
        {
            let idx = self.index_at(i);
            if idx.0 == ContentType::Constant {
                if let Some(meta) = idx.1.as_meta() {
                    if let Some(text) = meta.content_at(secs, nanos) {
                        self.set_at(i, ContentRequirement::Literal(text));
                    }
                }
            }
            i = i + 1;
        }
        assert(final(self)@ =~= evaluated_at(old(self)@, secs, nanos));
    }

    /// Fill every constant slot whose identifier names a meta element with
    /// that element's value for the current time. Where the system clock
    /// gives no time, nothing changes: an unsupplied meta constant then
    /// fails as missing.
    pub fn eval_dyn(&mut self)
        ensures
            dyn_evaluated(old(self)@, final(self)@),
    {
        match unix_time() {
            Some((secs, nanos)) => self.eval_dyn_at(secs, nanos),
            None => {},
        }
    }
}

} // verus!
