//! The store: the task collection and the id counter, its operations, and the
//! whole-file text form.
use vstd::prelude::*;

use crate::timestamp::Timestamp;
use crate::task::{
    bool_text, lemma_task_line_round_trip, parse_task_line, round_trips, task_fields, task_line,
    Task, TaskView,
};
use crate::text::{
    all_digits, chars_range, chars_of, decimal, is_digit, join_with, lemma_decimal_digits,
    lemma_join_free, lemma_parse_decimal, lemma_split_join, lemma_split_nonempty, parse_u32,
    parse_u32_spec, push_chars, push_decimal, split_chars, split_on, string_of, trim, trim_chars,
    trim_end, trim_start, views, is_white_space,
};

verus! {

/// The store as plain values.
pub struct StoreView {
    pub seq_id: u32,
    pub tasks: Seq<TaskView>,
}

/// The id given was held by no task.
#[derive(Debug, PartialEq, Eq)]
pub struct NotFound;

/// Why a store file was rejected.
#[derive(Debug, PartialEq, Eq)]
pub enum LoadError {
    /// The first line is not `seq_id:` followed by a decimal number.
    BadMetadata,
    /// The task line at this position (counting task lines from zero) is malformed.
    BadTask(usize),
    /// An id exceeds the counter, or two tasks share an id.
    Inconsistent,
}

pub open spec fn task_views(v: Seq<Task>) -> Seq<TaskView> {
    v.map_values(|t: Task| t@)
}

pub open spec fn has_id(tasks: Seq<TaskView>, id: u32) -> bool {
    exists|i: int| 0 <= i < tasks.len() && (#[trigger] tasks[i]).id == id
}

/// Every id is at most the counter, and no two tasks share an id.
pub open spec fn consistent(v: StoreView) -> bool {
    &&& forall|i: int| 0 <= i < v.tasks.len() ==> (#[trigger] v.tasks[i]).id <= v.seq_id
    &&& forall|i: int, j: int|
        0 <= i < v.tasks.len() && 0 <= j < v.tasks.len() && i != j ==> (#[trigger] v.tasks[i]).id
            != (#[trigger] v.tasks[j]).id
}

/// The tasks with the task holding `id`, if any, marked completed.
pub open spec fn completed(tasks: Seq<TaskView>, id: u32) -> Seq<TaskView> {
    tasks.map_values(
        |t: TaskView|
            if t.id == id {
                TaskView { is_completed: true, ..t }
            } else {
                t
            },
    )
}

/// The open tasks, in their order.
pub open spec fn open_tasks(tasks: Seq<TaskView>) -> Seq<TaskView>
    decreases tasks.len(),
{
    if tasks.len() == 0 {
        Seq::<TaskView>::empty()
    } else if tasks.last().is_completed {
        open_tasks(tasks.drop_last())
    } else {
        open_tasks(tasks.drop_last()).push(tasks.last())
    }
}

pub open spec fn meta_prefix() -> Seq<char> {
    seq!['s', 'e', 'q', '_', 'i', 'd', ':']
}

/// The first line of the store file.
pub open spec fn meta_line(n: u32) -> Seq<char> {
    meta_prefix() + decimal(n as nat)
}

/// The counter a first line holds.
pub open spec fn parse_meta_spec(l: Seq<char>) -> Option<u32> {
    if l.len() >= 7 && l.take(7) == meta_prefix() {
        parse_u32_spec(l.skip(7))
    } else {
        None
    }
}

/// `l` without one carriage return at its end.
pub open spec fn strip_cr(l: Seq<char>) -> Seq<char> {
    if l.len() > 0 && l.last() == '\r' {
        l.drop_last()
    } else {
        l
    }
}

/// The line at position `k` of the pieces `p` between line breaks: a piece
/// that a line break ends loses one carriage return before it.
pub open spec fn line_view(p: Seq<Seq<char>>, k: int) -> Seq<char> {
    if k < p.len() - 1 {
        strip_cr(p[k])
    } else {
        p[k]
    }
}

/// The lines of a file, as `BufRead::lines` gives them: the text split at
/// line breaks (`\n` or `\r\n`), without the empty piece that a final line
/// break leaves.
pub open spec fn file_lines(s: Seq<char>) -> Seq<Seq<char>> {
    let p = split_on(s, '\n');
    let q = Seq::new(p.len(), |k: int| line_view(p, k));
    if p.len() > 1 && p.last().len() == 0 {
        q.drop_last()
    } else {
        q
    }
}

/// The tasks that task lines describe, or the position of the first bad line.
pub open spec fn parse_tasks(ls: Seq<Seq<char>>) -> Result<Seq<TaskView>, usize>
    decreases ls.len(),
{
    if ls.len() == 0 {
        Ok(Seq::<TaskView>::empty())
    } else {
        match parse_tasks(ls.drop_last()) {
            Err(i) => Err(i),
            Ok(ts) => match parse_task_line(ls.last()) {
                Some(t) => Ok(ts.push(t)),
                None => Err((ls.len() - 1) as usize),
            },
        }
    }
}

/// The store a file describes. The first line is read with surrounding
/// whitespace trimmed.
pub open spec fn parse_store(s: Seq<char>) -> Result<StoreView, LoadError> {
    let ls = file_lines(s);
    match parse_meta_spec(trim(ls[0])) {
        None => Err(LoadError::BadMetadata),
        Some(n) => match parse_tasks(ls.skip(1)) {
            Err(i) => Err(LoadError::BadTask(i)),
            Ok(ts) => if consistent(StoreView { seq_id: n, tasks: ts }) {
                Ok(StoreView { seq_id: n, tasks: ts })
            } else {
                Err(LoadError::Inconsistent)
            },
        },
    }
}

/// The store file: the counter line, then one line per task, with a line
/// break after the counter line and between task lines.
pub open spec fn file_text(v: StoreView) -> Seq<char> {
    let ls = v.tasks.map_values(|t: TaskView| task_line(t));
    if ls.len() == 0 {
        meta_line(v.seq_id).push('\n')
    } else {
        join_with(seq![meta_line(v.seq_id)] + ls, '\n')
    }
}

proof fn lemma_no_digit_is(s: Seq<char>, c: char)
    requires
        all_digits(s),
        !is_digit(c),
    ensures
        !s.contains(c),
{
    if s.contains(c) {
        let k = choose|k: int| 0 <= k < s.len() && s[k] == c;
        assert(is_digit(s[k]));
    }
}

proof fn lemma_meta_line(n: u32)
    ensures
        parse_meta_spec(meta_line(n)) == Some(n),
        !meta_line(n).contains('\n'),
{
    let m = meta_line(n);
    lemma_parse_decimal(n);
    lemma_decimal_digits(n as nat);
    assert(m.take(7) == meta_prefix());
    assert(m.skip(7) == decimal(n as nat));
    if m.contains('\n') {
        let k = choose|k: int| 0 <= k < m.len() && m[k] == '\n';
        if k >= 7 {
            assert(decimal(n as nat)[k - 7] == '\n');
            assert(is_digit(decimal(n as nat)[k - 7]));
        }
    }
}

proof fn lemma_task_line_shape(t: TaskView)
    requires
        round_trips(t),
        !t.text.contains('\n'),
    ensures
        !task_line(t).contains('\n'),
        task_line(t).len() > 0,
{
    let f = task_fields(t);
    lemma_decimal_digits(t.id as nat);
    lemma_no_digit_is(decimal(t.id as nat), '\n');
    assert(!bool_text(t.is_completed).contains('\n')) by {
        if bool_text(t.is_completed).contains('\n') {
            let k = choose|k: int| 0 <= k < bool_text(t.is_completed).len() && bool_text(t.is_completed)[k] == '\n';
        }
    }
    assert forall|i: int| 0 <= i < f.len() implies !(#[trigger] f[i]).contains('\n') by {
        if i == 0 {
        } else if i == 1 {
        } else if i == 2 {
        } else {
        }
    }
    lemma_join_free(f, ',', '\n');
    assert(f.drop_last().len() == 3);
    assert(task_line(t) == join_with(f.drop_last(), ',').push(',') + f.last());
}

proof fn lemma_parse_task_lines(ts: Seq<TaskView>)
    requires
        forall|i: int| 0 <= i < ts.len() ==> round_trips(#[trigger] ts[i]),
    ensures
        parse_tasks(ts.map_values(|t: TaskView| task_line(t))) == Ok::<Seq<TaskView>, usize>(ts),
    decreases ts.len(),
{
    let ls = ts.map_values(|t: TaskView| task_line(t));
    if ts.len() > 0 {
        let init = ts.drop_last();
        assert(forall|i: int| 0 <= i < init.len() ==> init[i] == ts[i]);
        lemma_parse_task_lines(init);
        assert(ls.drop_last() == init.map_values(|t: TaskView| task_line(t)));
        assert(round_trips(ts[ts.len() - 1]));
        lemma_task_line_round_trip(ts.last());
        assert(ls.last() == task_line(ts.last()));
        assert(init.push(ts.last()) == ts);
        assert(parse_task_line(ls.last()) == Some(ts.last()));
        assert(parse_tasks(ls.drop_last()) == Ok::<Seq<TaskView>, usize>(init));
    } else {
        assert(ls.len() == 0);
        assert(ts == Seq::<TaskView>::empty());
    }
}

/// Saving a store and loading the text back gives the same counter and the
/// same tasks in the same order, when no task text holds a comma or a line
/// break.
pub proof fn lemma_save_load_round_trip(s: Store)
    requires
        s.wf(),
        forall|i: int|
            0 <= i < s@.tasks.len() ==> !(#[trigger] s@.tasks[i]).text.contains(',')
                && !s@.tasks[i].text.contains('\n'),
    ensures
        parse_store(file_text(s@)) == Ok::<StoreView, LoadError>(s@),
{
    let v = s@;
    let m = meta_line(v.seq_id);
    let ls = v.tasks.map_values(|t: TaskView| task_line(t));
    lemma_meta_line(v.seq_id);
    assert forall|i: int| 0 <= i < v.tasks.len() implies round_trips(#[trigger] v.tasks[i]) by {
        assert(s.tasks@[i].wf());
        assert(v.tasks[i] == s.tasks@[i]@);
    }
    lemma_parse_task_lines(v.tasks);
    let e = Seq::<char>::empty();
    if ls.len() == 0 {
        lemma_split_join(seq![m], '\n');
        assert(join_with(seq![m], '\n') == m);
        assert(m.push('\n').drop_last() == m);
        assert(split_on(m.push('\n'), '\n') == seq![m, e]);
        assert(file_lines(file_text(v)) == seq![m]);
        assert(seq![m].skip(1) == ls);
    } else {
        let all = seq![m] + ls;
        assert forall|i: int| 0 <= i < all.len() implies !(#[trigger] all[i]).contains('\n') by {
            if i > 0 {
                lemma_task_line_shape(v.tasks[i - 1]);
            }
        }
        lemma_split_join(all, '\n');
        lemma_task_line_shape(v.tasks[ls.len() - 1]);
        assert(all.last() == task_line(v.tasks[ls.len() - 1]));
        assert(file_lines(file_text(v)) == all);
        assert(all.skip(1) == ls);
    }
}

/// After saving and loading, the counter is at least every id held, so the
/// next task created gets an id above all of them.
pub proof fn lemma_reload_resumes_above(s: Store)
    requires
        s.wf(),
        forall|i: int|
            0 <= i < s@.tasks.len() ==> !(#[trigger] s@.tasks[i]).text.contains(',')
                && !s@.tasks[i].text.contains('\n'),
    ensures
        parse_store(file_text(s@)) matches Ok(v) && v.seq_id == s@.seq_id
            && forall|i: int| 0 <= i < v.tasks.len() ==> (#[trigger] v.tasks[i]).id < v.seq_id + 1,
{
    lemma_save_load_round_trip(s);
}

/// Completing an id a second time succeeds exactly when the first time did,
/// and changes nothing; afterwards the task holding the id is completed.
pub proof fn lemma_complete_twice(tasks: Seq<TaskView>, id: u32)
    ensures
        has_id(completed(tasks, id), id) == has_id(tasks, id),
        completed(completed(tasks, id), id) == completed(tasks, id),
        forall|i: int|
            0 <= i < tasks.len() && tasks[i].id == id ==> (#[trigger] completed(tasks, id)[i]).is_completed,
{
    let c = completed(tasks, id);
    assert(completed(c, id) =~= c);
    if has_id(tasks, id) {
        let i = choose|i: int| 0 <= i < tasks.len() && tasks[i].id == id;
        assert(c[i].id == id);
    }
    if has_id(c, id) {
        let i = choose|i: int| 0 <= i < c.len() && c[i].id == id;
        assert(tasks[i].id == id);
    }
}

/// The open tasks are exactly the tasks not completed, in their order.
pub proof fn lemma_open_tasks_filter(tasks: Seq<TaskView>)
    ensures
        open_tasks(tasks) == tasks.filter(|t: TaskView| !t.is_completed),
    decreases tasks.len(),
{
    reveal(Seq::filter);
    if tasks.len() > 0 {
        lemma_open_tasks_filter(tasks.drop_last());
    }
}

/// Removing the task that holds `id` from a consistent store leaves no task
/// with that id and one task fewer, so a second removal finds nothing.
pub proof fn lemma_delete_removes(v: StoreView, id: u32, i: int)
    requires
        consistent(v),
        0 <= i < v.tasks.len(),
        v.tasks[i].id == id,
    ensures
        !has_id(v.tasks.remove(i), id),
        v.tasks.remove(i).len() == v.tasks.len() - 1,
{
    let r = v.tasks.remove(i);
    if has_id(r, id) {
        let k = choose|k: int| 0 <= k < r.len() && r[k].id == id;
        let k0 = if k < i { k } else { k + 1 };
        assert(r[k] == v.tasks[k0]);
    }
}

/// `after` is `before` with `t` created: `t` is open, takes the id after the
/// counter, the counter moves to that id and `t` is appended.
pub open spec fn creation(before: StoreView, after: StoreView, t: TaskView) -> bool {
    &&& before.seq_id < u32::MAX
    &&& t.id == before.seq_id + 1
    &&& !t.is_completed
    &&& after == (StoreView { seq_id: t.id, tasks: before.tasks.push(t) })
}

/// In a run of creations from a consistent store, each id is one more than
/// the one before it, and every id is above all ids the store held before.
pub proof fn lemma_creations_increase(states: Seq<StoreView>, made: Seq<TaskView>)
    requires
        states.len() == made.len() + 1,
        consistent(states[0]),
        forall|k: int| 0 <= k < made.len() ==> creation(states[k], states[k + 1], #[trigger] made[k]),
    ensures
        forall|k: int| 0 <= k < made.len() - 1 ==> (#[trigger] made[k + 1]).id == made[k].id + 1,
        forall|k: int, j: int|
            0 <= k < made.len() && 0 <= j < states[0].tasks.len() ==> (#[trigger] made[k]).id
                > (#[trigger] states[0].tasks[j]).id,
{
    assert forall|k: int| 0 <= k < made.len() - 1 implies (#[trigger] made[k + 1]).id == made[k].id + 1 by {
        assert(creation(states[k], states[k + 1], made[k]));
        assert(creation(states[k + 1], states[k + 2], made[k + 1]));
    }
    assert forall|k: int| 0 <= k < states.len() implies (#[trigger] states[k]).seq_id >= states[0].seq_id by {
        lemma_counter_grows(states, made, k);
    }
    assert forall|k: int, j: int|
        0 <= k < made.len() && 0 <= j < states[0].tasks.len() implies (#[trigger] made[k]).id
            > (#[trigger] states[0].tasks[j]).id by {
        assert(creation(states[k], states[k + 1], made[k]));
        assert(states[k].seq_id >= states[0].seq_id);
    }
}

proof fn lemma_counter_grows(states: Seq<StoreView>, made: Seq<TaskView>, k: int)
    requires
        states.len() == made.len() + 1,
        forall|i: int| 0 <= i < made.len() ==> creation(states[i], states[i + 1], #[trigger] made[i]),
        0 <= k < states.len(),
    ensures
        states[k].seq_id >= states[0].seq_id,
    decreases k,
{
    if k > 0 {
        lemma_counter_grows(states, made, k - 1);
        assert(creation(states[k - 1], states[k], made[k - 1]));
    }
}

/// The tasks and the id counter of one session.
pub struct Store {
    pub seq_id: u32,
    pub tasks: Vec<Task>,
}

impl View for Store {
    type V = StoreView;

    open spec fn view(&self) -> StoreView {
        StoreView { seq_id: self.seq_id, tasks: task_views(self.tasks@) }
    }
}

/// The line at position `k` of the pieces between line breaks.
fn line_of(pieces: &Vec<Vec<char>>, k: usize) -> (r: Vec<char>)
    requires
        k < pieces.len(),
    ensures
        r@ == line_view(views(pieces@), k as int),
{
    let piece = &pieces[k];
    let ghost p = views(pieces@);
    assert(p[k as int] == piece@);
    let len = piece.len();
    if k + 1 < pieces.len() && len > 0 && piece[len - 1] == '\r' {
        let r = chars_range(piece.as_slice(), 0, len - 1);
        assert(r@ == piece@.drop_last());
        r
    } else {
        let r = chars_range(piece.as_slice(), 0, len);
        assert(r@ == piece@);
        r
    }
}

/// Reads the counter line.
fn parse_meta(l: &[char]) -> (r: Option<u32>)
    ensures
        r == parse_meta_spec(l@),
{
    if l.len() < 7 {
        return None;
    }
    let p = vec!['s', 'e', 'q', '_', 'i', 'd', ':'];
    assert(p@ == meta_prefix());
    let mut k: usize = 0;
    while k < 7
        invariant
            0 <= k <= 7,
            l.len() >= 7,
            p@ == meta_prefix(),
            forall|a: int| 0 <= a < k ==> l@[a] == p@[a],
        decreases 7 - k,
    {
        if l[k] != p[k] {
            proof {
                assert(l@.take(7)[k as int] != meta_prefix()[k as int]);
            }
            return None;
        }
        k = k + 1;
    }
    proof {
        assert(l@.take(7) == meta_prefix());
    }
    let rest = chars_range(l, 7, l.len());
    assert(rest@ == l@.skip(7));
    parse_u32(rest.as_slice())
}

proof fn lemma_parse_tasks_prefix_err(ls: Seq<Seq<char>>, k: int, e: usize)
    requires
        0 <= k <= ls.len(),
        parse_tasks(ls.take(k)) == Err::<Seq<TaskView>, usize>(e),
    ensures
        parse_tasks(ls) == Err::<Seq<TaskView>, usize>(e),
    decreases ls.len(),
{
    if k == ls.len() {
        assert(ls.take(k) == ls);
    } else {
        assert(ls.drop_last().take(k) == ls.take(k));
        lemma_parse_tasks_prefix_err(ls.drop_last(), k, e);
    }
}

impl Store {
    pub open spec fn wf(&self) -> bool {
        &&& consistent(self@)
        &&& forall|i: int| 0 <= i < self.tasks@.len() ==> (#[trigger] self.tasks@[i]).wf()
    }

    /// An empty store whose counter is zero.
    pub fn new() -> (r: Store)
        ensures
            r.wf(),
            r@.seq_id == 0,
            r@.tasks.len() == 0,
    {
        Store { seq_id: 0, tasks: Vec::new() }
    }

    /// Whether every id is at most the counter and no two tasks share an id.
    fn is_consistent(&self) -> (r: bool)
        ensures
            r == consistent(self@),
    {
        let ghost v = self@;
        let mut i: usize = 0;
        while i < self.tasks.len()
            invariant
                0 <= i <= self.tasks.len(),
                v == self@,
                forall|a: int| 0 <= a < i ==> (#[trigger] v.tasks[a]).id <= v.seq_id,
                forall|a: int, b: int|
                    0 <= a < i && 0 <= b < i && a != b ==> (#[trigger] v.tasks[a]).id
                        != (#[trigger] v.tasks[b]).id,
            decreases self.tasks.len() - i,
        {
            let id = self.tasks[i].id;
            assert(v.tasks[i as int].id == id);
            if id > self.seq_id {
                return false;
            }
            let mut j: usize = 0;
            while j < i
                invariant
                    0 <= j <= i < self.tasks.len(),
                    v == self@,
                    v.tasks[i as int].id == id,
                    forall|b: int| 0 <= b < j ==> (#[trigger] v.tasks[b]).id != id,
                decreases i - j,
            {
                assert(v.tasks[j as int].id == self.tasks[j as int].id);
                if self.tasks[j].id == id {
                    assert(v.tasks[j as int].id == v.tasks[i as int].id);
                    return false;
                }
                j = j + 1;
            }
            i = i + 1;
        }
        true
    }

    /// Appends the counter line to `out`.
    fn push_meta(seq_id: u32, out: &mut Vec<char>)
        ensures
            final(out)@ == old(out)@ + meta_line(seq_id),
    {
        let p = vec!['s', 'e', 'q', '_', 'i', 'd', ':'];
        assert(p@ == meta_prefix());
        push_chars(out, p.as_slice());
        push_decimal(seq_id, out);
        proof {
            assert(final(out)@ =~= old(out)@ + meta_line(seq_id));
        }
    }

    /// Adds an open task with the next id; the counter advances to that id.
    pub fn create(&mut self, text: String, created_at: Timestamp) -> (r: Task)
        requires
            old(self).wf(),
            created_at.wf(),
            old(self).seq_id < u32::MAX,
        ensures
            final(self).wf(),
            r.wf(),
            r@.created_at == created_at@,
            r@.text == text@,
            creation(old(self)@, final(self)@, r@),
    {
        self.seq_id = self.seq_id + 1;
        let task = Task { id: self.seq_id, created_at, text, is_completed: false };
        let ghost before = self.tasks@;
        self.tasks.push(task.clone());
        proof {
            let ov = StoreView { seq_id: (self.seq_id - 1) as u32, tasks: task_views(before) };
            assert(task_views(self.tasks@) == ov.tasks.push(task@));
            assert(forall|k: int| 0 <= k < ov.tasks.len() ==> (#[trigger] ov.tasks[k]).id < task.id);
            assert(forall|k: int| 0 <= k < before.len() ==> (#[trigger] self.tasks@[k]) == before[k]);
        }
        task
    }

    /// Marks the task holding `id` completed.
    pub fn complete(&mut self, id: u32) -> (r: Result<(), NotFound>)
        requires
            old(self).wf(),
        ensures
            final(self).wf(),
            r is Ok <==> has_id(old(self)@.tasks, id),
            final(self)@ == (StoreView {
                seq_id: old(self)@.seq_id,
                tasks: completed(old(self)@.tasks, id),
            }),
    {
        let ghost v = self@;
        let mut i: usize = 0;
        while i < self.tasks.len()
            invariant
                0 <= i <= self.tasks.len(),
                v == self@,
                v == old(self)@,
                self.wf(),
                forall|k: int| 0 <= k < i ==> (#[trigger] v.tasks[k]).id != id,
            decreases self.tasks.len() - i,
        {
            assert(v.tasks[i as int].id == self.tasks[i as int].id);
            if self.tasks[i].id == id {
                assert(v.tasks[i as int].id == id);
                let ghost before = self.tasks@;
                self.tasks[i].is_completed = true;
                proof {
                    assert(self.tasks@ == before.update(i as int, self.tasks@[i as int]));
                    assert forall|a: int| 0 <= a < self.tasks@.len() implies (#[trigger] self.tasks@[a]).wf() by {
                        assert(self.tasks@[a].created_at == before[a].created_at);
                    }
                    assert(task_views(self.tasks@) =~= completed(v.tasks, id)) by {
                        assert forall|k: int| 0 <= k < v.tasks.len() && k != i implies
                            v.tasks[k].id != id by {
                            assert(v.tasks[k].id != v.tasks[i as int].id);
                        }
                    }
                }
                return Ok(());
            }
            i = i + 1;
        }
        proof {
            assert(completed(v.tasks, id) =~= v.tasks);
        }
        Err(NotFound)
    }

    /// Removes the task holding `id`.
    pub fn delete(&mut self, id: u32) -> (r: Result<(), NotFound>)
        requires
            old(self).wf(),
        ensures
            final(self).wf(),
            final(self)@.seq_id == old(self)@.seq_id,
            r is Ok <==> has_id(old(self)@.tasks, id),
            r is Err ==> final(self)@ == old(self)@,
            r is Ok ==> exists|i: int|
                0 <= i < old(self)@.tasks.len() && (#[trigger] old(self)@.tasks[i]).id == id
                    && final(self)@.tasks == old(self)@.tasks.remove(i),
    {
        let ghost v = self@;
        let mut i: usize = 0;
        while i < self.tasks.len()
            invariant
                0 <= i <= self.tasks.len(),
                v == self@,
                v == old(self)@,
                self.wf(),
                forall|k: int| 0 <= k < i ==> (#[trigger] v.tasks[k]).id != id,
            decreases self.tasks.len() - i,
        {
            assert(v.tasks[i as int].id == self.tasks[i as int].id);
            if self.tasks[i].id == id {
                assert(v.tasks[i as int].id == id);
                let ghost before = self.tasks@;
                self.tasks.remove(i);
                proof {
                    assert(task_views(self.tasks@) =~= v.tasks.remove(i as int));
                    assert forall|a: int, b: int|
                        0 <= a < self@.tasks.len() && 0 <= b < self@.tasks.len() && a != b
                            implies (#[trigger] self@.tasks[a]).id != (#[trigger] self@.tasks[b]).id by {
                        let a0 = if a < i { a } else { a + 1 };
                        let b0 = if b < i { b } else { b + 1 };
                        assert(self@.tasks[a] == v.tasks[a0]);
                        assert(self@.tasks[b] == v.tasks[b0]);
                    }
                    assert forall|a: int| 0 <= a < self@.tasks.len() implies (#[trigger] self@.tasks[a]).id <= v.seq_id by {
                        let a0 = if a < i { a } else { a + 1 };
                        assert(self@.tasks[a] == v.tasks[a0]);
                    }
                    assert forall|a: int| 0 <= a < self.tasks@.len() implies (#[trigger] self.tasks@[a]).wf() by {
                        let a0 = if a < i { a } else { a + 1 };
                        assert(self.tasks@[a] == before[a0]);
                    }
                }
                return Ok(());
            }
            i = i + 1;
        }
        Err(NotFound)
    }

    /// The tasks in insertion order; with `open_only`, only those not completed.
    pub fn list(&self, open_only: bool) -> (r: Vec<Task>)
        requires
            self.wf(),
        ensures
            task_views(r@) == if open_only {
                open_tasks(self@.tasks)
            } else {
                self@.tasks
            },
            forall|k: int| 0 <= k < r@.len() ==> (#[trigger] r@[k]).wf(),
    {
        let mut out: Vec<Task> = Vec::new();
        let mut i: usize = 0;
        while i < self.tasks.len()
            invariant
                0 <= i <= self.tasks.len(),
                self.wf(),
                task_views(out@) == if open_only {
                    open_tasks(self@.tasks.take(i as int))
                } else {
                    self@.tasks.take(i as int)
                },
                forall|k: int| 0 <= k < out@.len() ==> (#[trigger] out@[k]).wf(),
            decreases self.tasks.len() - i,
        {
            let ghost before = out@;
            proof {
                assert(self@.tasks.take(i + 1).drop_last() == self@.tasks.take(i as int));
                assert(self@.tasks.take(i + 1).last() == self.tasks@[i as int]@);
            }
            if !(open_only && self.tasks[i].is_completed) {
                let t = self.tasks[i].clone();
                out.push(t);
                proof {
                    assert(task_views(out@) == task_views(before).push(t@));
                }
            }
            i = i + 1;
        }
        proof {
            assert(self@.tasks.take(i as int) == self@.tasks);
        }
        out
    }

    /// The store a file's text describes; an error says which part is malformed.
    pub fn load(text: &str) -> (r: Result<Store, LoadError>)
        ensures
            match r {
                Ok(s) => parse_store(text@) == Ok::<StoreView, LoadError>(s@) && s.wf(),
                Err(e) => parse_store(text@) == Err::<StoreView, LoadError>(e),
            },
    {
        let cs = chars_of(text);
        let pieces = split_chars(cs.as_slice(), '\n');
        let ghost p = split_on(text@, '\n');
        let ghost ls = file_lines(text@);
        proof {
            lemma_split_nonempty(text@, '\n');
            assert(views(pieces@).len() == pieces@.len());
        }
        let n = pieces.len();
        let end: usize = if n > 1 && pieces[n - 1].len() == 0 {
            n - 1
        } else {
            n
        };
        proof {
            assert(views(pieces@)[n - 1] == pieces@[n - 1]@);
            assert(ls.len() == end);
            assert(forall|k: int| 0 <= k < end ==> ls[k] == #[trigger] line_view(p, k));
        }
        let first = line_of(&pieces, 0);
        let first_trimmed = trim_chars(first.as_slice());
        let seq_id = match parse_meta(first_trimmed.as_slice()) {
            Some(v) => v,
            None => {
                return Err(LoadError::BadMetadata);
            },
        };
        let ghost rest = ls.skip(1);
        assert(parse_meta_spec(trim(ls[0])) == Some(seq_id));
        let mut tasks: Vec<Task> = Vec::new();
        let mut i: usize = 1;
        proof {
            assert(rest.take(0) == Seq::<Seq<char>>::empty());
            assert(task_views(tasks@) == Seq::<TaskView>::empty());
        }
        while i < end
            invariant
                1 <= i <= end,
                ls == file_lines(text@),
                end == ls.len(),
                parse_meta_spec(trim(ls[0])) == Some(seq_id),
                p == split_on(text@, '\n'),
                p == views(pieces@),
                end <= pieces@.len(),
                rest == ls.skip(1),
                forall|k: int| 0 <= k < end ==> ls[k] == #[trigger] line_view(p, k),
                parse_tasks(rest.take(i - 1)) == Ok::<Seq<TaskView>, usize>(task_views(tasks@)),
                forall|k: int| 0 <= k < tasks@.len() ==> (#[trigger] tasks@[k]).wf(),
            decreases end - i,
        {
            let ghost pre = rest.take(i - 1);
            let line = line_of(&pieces, i);
            proof {
                assert(rest.take(i as int).drop_last() == pre);
                assert(rest.take(i as int).last() == line_view(p, i as int));
            }
            match Task::parse_line(line.as_slice()) {
                Some(t) => {
                    let ghost before = tasks@;
                    tasks.push(t);
                    proof {
                        assert(task_views(tasks@) == task_views(before).push(t@));
                    }
                },
                None => {
                    proof {
                        let cur = rest.take(i as int);
                        assert(parse_task_line(cur.last()) is None);
                        assert(parse_tasks(cur.drop_last()) is Ok);
                        assert(parse_tasks(cur) == Err::<Seq<TaskView>, usize>((i - 1) as usize));
                        lemma_parse_tasks_prefix_err(rest, i as int, (i - 1) as usize);
                    }
                    return Err(LoadError::BadTask(i - 1));
                },
            }
            i = i + 1;
        }
        proof {
            assert(rest.take(i - 1) == rest);
        }
        let store = Store { seq_id, tasks };
        if !store.is_consistent() {
            return Err(LoadError::Inconsistent);
        }
        Ok(store)
    }

    /// The whole file text for this store.
    pub fn save(&self) -> (r: String)
        ensures
            r@ == file_text(self@),
    {
        let mut out: Vec<char> = Vec::new();
        Store::push_meta(self.seq_id, &mut out);
        let ghost m = meta_line(self.seq_id);
        let ghost ls = self@.tasks.map_values(|t: TaskView| task_line(t));
        proof {
            assert(out@ == m);
            assert(seq![m] + ls.take(0) == seq![m]);
        }
        let mut i: usize = 0;
        while i < self.tasks.len()
            invariant
                0 <= i <= self.tasks.len(),
                ls == self@.tasks.map_values(|t: TaskView| task_line(t)),
                ls.len() == self.tasks.len(),
                out@ == join_with(seq![m] + ls.take(i as int), '\n'),
            decreases self.tasks.len() - i,
        {
            let ghost before = out@;
            out.push('\n');
            self.tasks[i].push_line(&mut out);
            proof {
                let all = seq![m] + ls.take(i + 1);
                assert(all.drop_last() == seq![m] + ls.take(i as int));
                assert(all.last() == task_line(self.tasks@[i as int]@));
                assert(out@ == before.push('\n') + task_line(self.tasks@[i as int]@));
            }
            i = i + 1;
        }
        if self.tasks.len() == 0 {
            out.push('\n');
        } else {
            proof {
                assert(ls.take(i as int) == ls);
            }
        }
        string_of(out.as_slice())
    }
}

} // verus!
