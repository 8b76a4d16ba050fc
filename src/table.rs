//! Column widths for showing tasks as a table.
use vstd::prelude::*;

use crate::store::task_views;
use crate::task::{Task, TaskView};
use crate::text::{decimal, push_decimal};
use vstd::utf8::encode_utf8;

verus! {

/// Width of the date column, `dd.mm.yyyy`.
pub const DATE_WIDTH: usize = 10;

/// Width of the completion column.
pub const FLAG_WIDTH: usize = 4;

/// The most digits any id has, or zero without tasks.
pub open spec fn id_width(ts: Seq<TaskView>) -> nat
    decreases ts.len(),
{
    if ts.len() == 0 {
        0
    } else {
        let w = id_width(ts.drop_last());
        let d = decimal(ts.last().id as nat).len();
        if d > w { d } else { w }
    }
}

/// The length in bytes of a text written as UTF-8.
pub open spec fn byte_len(text: Seq<char>) -> usize {
    encode_utf8(text).len() as usize
}

/// The most bytes any text takes in UTF-8, or zero without tasks.
pub open spec fn text_width(ts: Seq<TaskView>) -> nat
    decreases ts.len(),
{
    if ts.len() == 0 {
        0
    } else {
        let w = text_width(ts.drop_last());
        let d = byte_len(ts.last().text) as nat;
        if d > w { d } else { w }
    }
}

fn decimal_len(n: u32) -> (r: usize)
    ensures
        r == decimal(n as nat).len(),
{
    let mut v: Vec<char> = Vec::new();
    push_decimal(n, &mut v);
    assert(v@ =~= decimal(n as nat));
    v.len()
}

/// Widths of the id, date, text and completion columns.
pub fn get_size_for_columns(tasks: &Vec<Task>) -> (r: Vec<usize>)
    ensures
        r@ == seq![
            id_width(task_views(tasks@)) as usize,
            DATE_WIDTH,
            text_width(task_views(tasks@)) as usize,
            FLAG_WIDTH,
        ],
{
    let ghost ts = task_views(tasks@);
    let mut id_col: usize = 0;
    let mut text_col: usize = 0;
    let mut i: usize = 0;
    while i < tasks.len()
        invariant
            0 <= i <= tasks.len(),
            ts == task_views(tasks@),
            id_col == id_width(ts.take(i as int)),
            text_col == text_width(ts.take(i as int)),
        decreases tasks.len() - i,
    {
        proof {
            assert(ts.take(i + 1).drop_last() == ts.take(i as int));
            assert(ts.take(i + 1).last() == tasks@[i as int]@);
        }
        let d = decimal_len(tasks[i].id);
        if d > id_col {
            id_col = d;
        }
        let t = tasks[i].text.as_str().len();
        if t > text_col {
            text_col = t;
        }
        i = i + 1;
    }
    proof {
        assert(ts.take(i as int) == ts);
    }
    let mut r: Vec<usize> = Vec::new();
    r.push(id_col);
    r.push(DATE_WIDTH);
    r.push(text_col);
    r.push(FLAG_WIDTH);
    proof {
        assert(r@ =~= seq![id_col, DATE_WIDTH, text_col, FLAG_WIDTH]);
    }
    r
}

} // verus!
