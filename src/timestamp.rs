//! Creation times of tasks, kept as the text they are stored as.
use chrono::{DateTime, FixedOffset, Local};
use vstd::prelude::*;

use crate::text::{chars_of, string_of};

verus! {

/// Whether chrono reads `s` as a date and time with a UTC offset.
pub uninterp spec fn timestamp_accepted(s: Seq<char>) -> bool;

/// Relies on chrono's `FromStr` for `DateTime<FixedOffset>`: whether the text
/// parses as a date and time with an offset. The answer depends on the text alone.
#[verifier::external_body]
fn accepts_timestamp(s: &str) -> (r: bool)
    ensures
        r == timestamp_accepted(s@),
{
    s.parse::<DateTime<FixedOffset>>().is_ok()
}

/// Relies on chrono's `Local::now`, rendered by `DateTime`'s `Debug`: the
/// current local time as text. Nothing is known of its value.
#[verifier::external_body]
fn local_now_text() -> (r: String) {
    format!("{:?}", Local::now())
}

/// Text that can stand as the time field of a task line.
pub open spec fn valid_timestamp_text(s: Seq<char>) -> bool {
    &&& !s.contains(',')
    &&& !s.contains('\n')
    &&& timestamp_accepted(s)
}

/// A point in time with its local offset, held as its rendered text
/// (for example `2024-01-15T10:30:45.123456789+01:00`).
pub struct Timestamp {
    text: String,
}

impl View for Timestamp {
    type V = Seq<char>;

    closed spec fn view(&self) -> Seq<char> {
        self.text@
    }
}

impl Clone for Timestamp {
    fn clone(&self) -> (r: Self)
        ensures
            r@ == self@,
    {
        Timestamp { text: self.text.clone() }
    }
}

impl Timestamp {
    pub open spec fn wf(&self) -> bool {
        valid_timestamp_text(self@)
    }

    /// The timestamp written as `s`, if `s` has no comma or line break and
    /// reads as a date and time with an offset.
    pub fn from_text(s: &str) -> (r: Option<Timestamp>)
        ensures
            r is Some <==> valid_timestamp_text(s@),
            r matches Some(t) ==> t@ == s@ && t.wf(),
    {
        let cs = chars_of(s);
        let mut i: usize = 0;
        while i < cs.len()
            invariant
                0 <= i <= cs.len(),
                cs@ == s@,
                forall|k: int| 0 <= k < i ==> cs@[k] != ',' && cs@[k] != '\n',
            decreases cs.len() - i,
        {
            if cs[i] == ',' || cs[i] == '\n' {
                proof {
                    assert(s@[i as int] == cs@[i as int]);
                }
                return None;
            }
            i = i + 1;
        }
        if !accepts_timestamp(s) {
            return None;
        }
        Some(Timestamp { text: string_of(&cs) })
    }

    /// The current local time, if chrono's rendering of it is accepted back.
    pub fn now() -> (r: Option<Timestamp>)
        ensures
            r matches Some(t) ==> t.wf(),
    {
        let s = local_now_text();
        Timestamp::from_text(s.as_str())
    }

    /// The rendered text.
    pub fn as_str(&self) -> (r: &str)
        ensures
            r@ == self@,
    {
        self.text.as_str()
    }
}

} // verus!
