//! Tasks and their one-line text form `<id>,<timestamp>,<text>,<is_completed>`.
use vstd::prelude::*;

use crate::text::{
    chars_equal, chars_of, decimal, join_with, lemma_decimal_digits, lemma_parse_decimal,
    lemma_split_join, parse_u32, parse_u32_spec, push_chars, push_decimal, split_chars, split_on,
    string_of, views, is_digit,
};
use crate::timestamp::{valid_timestamp_text, Timestamp};

verus! {

/// A task as a plain value.
pub struct TaskView {
    pub id: u32,
    pub created_at: Seq<char>,
    pub text: Seq<char>,
    pub is_completed: bool,
}

/// A single to-do entry.
pub struct Task {
    pub id: u32,
    pub created_at: Timestamp,
    pub text: String,
    pub is_completed: bool,
}

impl View for Task {
    type V = TaskView;

    open spec fn view(&self) -> TaskView {
        TaskView {
            id: self.id,
            created_at: self.created_at@,
            text: self.text@,
            is_completed: self.is_completed,
        }
    }
}

impl Clone for Task {
    fn clone(&self) -> (r: Self)
        ensures
            r@ == self@,
    {
        Task {
            id: self.id,
            created_at: self.created_at.clone(),
            text: self.text.clone(),
            is_completed: self.is_completed,
        }
    }
}

pub open spec fn true_text() -> Seq<char> {
    seq!['t', 'r', 'u', 'e']
}

pub open spec fn false_text() -> Seq<char> {
    seq!['f', 'a', 'l', 's', 'e']
}

pub open spec fn bool_text(b: bool) -> Seq<char> {
    if b {
        true_text()
    } else {
        false_text()
    }
}

/// `true` or `false`, written exactly so.
pub open spec fn parse_bool_spec(s: Seq<char>) -> Option<bool> {
    if s == true_text() {
        Some(true)
    } else if s == false_text() {
        Some(false)
    } else {
        None
    }
}

/// The four fields of a task line.
pub open spec fn task_fields(t: TaskView) -> Seq<Seq<char>> {
    seq![decimal(t.id as nat), t.created_at, t.text, bool_text(t.is_completed)]
}

/// A task as one line of the store file.
pub open spec fn task_line(t: TaskView) -> Seq<char> {
    join_with(task_fields(t), ',')
}

/// The task a line describes: exactly four comma-separated fields, a decimal
/// id, an accepted timestamp, the text and `true` or `false`.
pub open spec fn parse_task_line(l: Seq<char>) -> Option<TaskView> {
    let f = split_on(l, ',');
    if f.len() == 4 && parse_u32_spec(f[0]) is Some && valid_timestamp_text(f[1])
        && parse_bool_spec(f[3]) is Some {
        Some(
            TaskView {
                id: parse_u32_spec(f[0])->0,
                created_at: f[1],
                text: f[2],
                is_completed: parse_bool_spec(f[3])->0,
            },
        )
    } else {
        None
    }
}

/// A task whose line reads back as itself.
pub open spec fn round_trips(t: TaskView) -> bool {
    &&& valid_timestamp_text(t.created_at)
    &&& !t.text.contains(',')
}

/// A task's line reads back as the same task when its text holds no comma.
pub proof fn lemma_task_line_round_trip(t: TaskView)
    requires
        round_trips(t),
    ensures
        parse_task_line(task_line(t)) == Some(t),
{
    let f = task_fields(t);
    lemma_decimal_digits(t.id as nat);
    assert(!decimal(t.id as nat).contains(',')) by {
        if decimal(t.id as nat).contains(',') {
            let k = choose|k: int| 0 <= k < decimal(t.id as nat).len() && decimal(t.id as nat)[k] == ',';
            assert(is_digit(decimal(t.id as nat)[k]));
        }
    }
    assert(!bool_text(t.is_completed).contains(',')) by {
        if bool_text(t.is_completed).contains(',') {
            let k = choose|k: int| 0 <= k < bool_text(t.is_completed).len() && bool_text(t.is_completed)[k] == ',';
        }
    }
    assert(forall|i: int| 0 <= i < f.len() ==> !(#[trigger] f[i]).contains(',')) by {
        assert forall|i: int| 0 <= i < f.len() implies !(#[trigger] f[i]).contains(',') by {
            if i == 0 {
            } else if i == 1 {
            } else if i == 2 {
            } else {
            }
        }
    }
    lemma_split_join(f, ',');
    lemma_parse_decimal(t.id);
}

fn true_chars() -> (r: Vec<char>)
    ensures
        r@ == true_text(),
{
    let r = vec!['t', 'r', 'u', 'e'];
    assert(r@ == true_text());
    r
}

fn false_chars() -> (r: Vec<char>)
    ensures
        r@ == false_text(),
{
    let r = vec!['f', 'a', 'l', 's', 'e'];
    assert(r@ == false_text());
    r
}

/// Reads `true` or `false`.
pub fn parse_bool(s: &[char]) -> (r: Option<bool>)
    ensures
        r == parse_bool_spec(s@),
{
    if chars_equal(s, true_chars().as_slice()) {
        Some(true)
    } else if chars_equal(s, false_chars().as_slice()) {
        Some(false)
    } else {
        None
    }
}

impl Task {
    /// A task carries a valid timestamp.
    pub open spec fn wf(&self) -> bool {
        self.created_at.wf()
    }

    /// Appends the file line that describes `self` to `out`.
    pub fn push_line(&self, out: &mut Vec<char>)
        ensures
            final(out)@ == old(out)@ + task_line(self@),
    {
        let ghost start = out@;
        push_decimal(self.id, out);
        out.push(',');
        let ts = chars_of(self.created_at.as_str());
        push_chars(out, ts.as_slice());
        out.push(',');
        let tx = chars_of(self.text.as_str());
        push_chars(out, tx.as_slice());
        out.push(',');
        if self.is_completed {
            push_chars(out, true_chars().as_slice());
        } else {
            push_chars(out, false_chars().as_slice());
        }
        proof {
            let f = task_fields(self@);
            assert(f.drop_last().drop_last().drop_last() == seq![f[0]]);
            assert(f.drop_last().drop_last() == seq![f[0], f[1]]);
            assert(f.drop_last() == seq![f[0], f[1], f[2]]);
            let j1 = join_with(seq![f[0]], ',');
            assert(j1 == f[0]);
            let j2 = join_with(seq![f[0], f[1]], ',');
            assert(seq![f[0], f[1]].drop_last() == seq![f[0]]);
            assert(j2 == j1.push(',') + f[1]);
            let j3 = join_with(seq![f[0], f[1], f[2]], ',');
            assert(seq![f[0], f[1], f[2]].drop_last() == seq![f[0], f[1]]);
            assert(j3 == j2.push(',') + f[2]);
            assert(task_line(self@) == j3.push(',') + f[3]);
            assert(out@ =~= start + task_line(self@));
        }
    }

    /// The task described by a line of the store file.
    pub fn parse_line(line: &[char]) -> (r: Option<Task>)
        ensures
            r is Some <==> parse_task_line(line@) is Some,
            r matches Some(t) ==> t@ == parse_task_line(line@)->0 && t.wf(),
    {
        let f = split_chars(line, ',');
        proof {
            assert(views(f@).len() == f@.len());
        }
        if f.len() != 4 {
            return None;
        }
        proof {
            assert(forall|i: int| 0 <= i < 4 ==> views(f@)[i] == (#[trigger] f@[i])@);
        }
        let id = match parse_u32(f[0].as_slice()) {
            Some(n) => n,
            None => {
                return None;
            },
        };
        let ts_text = string_of(f[1].as_slice());
        let created_at = match Timestamp::from_text(ts_text.as_str()) {
            Some(t) => t,
            None => {
                return None;
            },
        };
        let is_completed = match parse_bool(f[3].as_slice()) {
            Some(b) => b,
            None => {
                return None;
            },
        };
        let text = string_of(f[2].as_slice());
        Some(Task { id, created_at, text, is_completed })
    }
}

} // verus!
