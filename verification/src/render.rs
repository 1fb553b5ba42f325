//! The listing text: one block of lines per task, a blank line after each.

use vstd::prelude::*;

use crate::codec::chars_string;
use crate::codec::str_chars;
use crate::num::dec_of;
use crate::num::four_digits;
use crate::num::push_dec;
use crate::num::push_four_digits;
use crate::num::push_two_digits;
use crate::num::two_digits;
use crate::status::status_display;
use crate::store::pairs_view;
use crate::store::tasks_wf;
use crate::task::Task;
use crate::task::TaskView;
use crate::timestamp::Timestamp;

verus! {

/// A timestamp as shown in listings: date, time of day, offset.
pub open spec fn display_time(t: Timestamp) -> Seq<char> {
    let off = if t.offset_minutes >= 0 {
        t.offset_minutes as nat
    } else {
        (-t.offset_minutes) as nat
    };
    four_digits(t.year as nat) + seq!['.'] + two_digits(t.month as nat) + seq!['.'] + two_digits(
        t.day as nat,
    ) + " at "@ + two_digits(t.hour as nat) + seq![':'] + two_digits(t.minute as nat) + seq![':']
        + two_digits(t.second as nat) + seq![' ', if t.offset_minutes >= 0 {
        '+'
    } else {
        '-'
    }] + two_digits(off / 60) + seq![':'] + two_digits(off % 60)
}

/// The lines shown for one task.
#[verifier::opaque]
pub open spec fn render_entry(e: (u64, TaskView)) -> Seq<char> {
    "Id: "@ + dec_of(e.0 as nat) + "\nDescription: "@ + e.1.description + "\nStatus: "@
        + status_display(e.1.status) + "\nCreated: "@ + display_time(e.1.created) + "\nUpdated: "@
        + display_time(e.1.updated) + "\n\n"@
}

/// The listing for a sequence of tasks, in their given order.
pub open spec fn render_list(m: Seq<(u64, TaskView)>) -> Seq<char>
    decreases m.len(),
{
    if m.len() == 0 {
        Seq::empty()
    } else {
        render_entry(m[0]) + render_list(m.skip(1))
    }
}

/// Append a timestamp's display text.
#[verifier::rlimit(100)]
fn push_display_time(out: &mut Vec<char>, t: &Timestamp)
    requires
        t.wf(),
    ensures
        final (out)@ == old(out)@ + display_time(*t),
{
    let ghost pre = out@;
    push_four_digits(out, t.year as u64);
    out.push('.');
    push_two_digits(out, t.month as u64);
    out.push('.');
    push_two_digits(out, t.day as u64);
    out.push(' ');
    out.push('a');
    out.push('t');
    out.push(' ');
    push_two_digits(out, t.hour as u64);
    out.push(':');
    push_two_digits(out, t.minute as u64);
    out.push(':');
    push_two_digits(out, t.second as u64);
    out.push(' ');
    let off: u64 = if t.offset_minutes >= 0 {
        out.push('+');
        t.offset_minutes as u64
    } else {
        out.push('-');
        (-(t.offset_minutes as i32)) as u64
    };
    push_two_digits(out, off / 60);
    out.push(':');
    push_two_digits(out, off % 60);
    proof {
        reveal_strlit(" at ");
        assert(out@ =~= pre + display_time(*t));
    }
}

impl Timestamp {
    /// The text shown for this timestamp in listings.
    pub fn format(&self) -> (r: String)
        requires
            self.wf(),
        ensures
            r@ == display_time(*self),
    {
        let mut out: Vec<char> = Vec::new();
        push_display_time(&mut out, self);
        chars_string(&out)
    }
}

/// Append one task's lines.
fn push_entry(out: &mut Vec<char>, id: u64, task: &Task)
    requires
        task@.wf(),
    ensures
        final (out)@ == old(out)@ + render_entry((id, task@)),
{
    let ghost pre = out@;
    crate::codec::push_lit(out, "Id: ");
    push_dec(out, id);
    crate::codec::push_lit(out, "\nDescription: ");
    let mut descr = str_chars(task.description.as_str());
    out.append(&mut descr);
    crate::codec::push_lit(out, "\nStatus: ");
    let shown = task.status.display_string();
    let mut shown_chars = str_chars(shown.as_str());
    out.append(&mut shown_chars);
    crate::codec::push_lit(out, "\nCreated: ");
    push_display_time(out, &task.created);
    crate::codec::push_lit(out, "\nUpdated: ");
    push_display_time(out, &task.updated);
    crate::codec::push_lit(out, "\n\n");
    proof {
        reveal(render_entry);
        assert(task@.status == task.status@);
        assert(out@ =~= pre + render_entry((id, task@)));
    }
}

/// One listing grows by one task's lines.
proof fn lemma_render_list_snoc(m: Seq<(u64, TaskView)>, e: (u64, TaskView))
    ensures
        render_list(m.push(e)) == render_list(m) + render_entry(e),
    decreases m.len(),
{
    assert(render_list(Seq::<(u64, TaskView)>::empty()) == Seq::<char>::empty());
    if m.len() == 0 {
        assert(m.push(e)[0] == e);
        assert(m.push(e).skip(1) =~= Seq::<(u64, TaskView)>::empty());
        assert(render_list(m.push(e)) == render_entry(e) + Seq::<char>::empty());
        assert(render_entry(e) + Seq::<char>::empty() =~= Seq::<char>::empty() + render_entry(e));
    } else {
        assert(m.push(e)[0] == m[0]);
        assert(m.push(e).skip(1) =~= m.skip(1).push(e));
        lemma_render_list_snoc(m.skip(1), e);
        let a = render_entry(m[0]);
        let b = render_list(m.skip(1));
        let d = render_entry(e);
        assert(render_list(m.push(e)) == a + (b + d));
        assert(render_list(m) == a + b);
        assert(a + (b + d) =~= (a + b) + d);
    }
}

/// The listing text for tasks, one block each, in the given order.
pub fn render_tasks(tasks: &Vec<(u64, Task)>) -> (r: String)
    requires
        tasks_wf(pairs_view(tasks@)),
    ensures
        r@ == render_list(pairs_view(tasks@)),
{
    let mut out: Vec<char> = Vec::new();
    proof {
        assert(pairs_view(tasks@).take(0) =~= Seq::<(u64, TaskView)>::empty());
    }
    let mut i: usize = 0;
    while i < tasks.len()
        invariant
            i <= tasks.len(),
            tasks_wf(pairs_view(tasks@)),
            out@ == render_list(pairs_view(tasks@).take(i as int)),
        decreases tasks.len() - i,
    {
        let ghost prefix = pairs_view(tasks@).take(i as int);
        proof {
            assert(pairs_view(tasks@)[i as int] == (tasks@[i as int].0, tasks@[i as int].1@));
            assert(pairs_view(tasks@)[i as int].1.wf());
        }
        let entry = &tasks[i];
        push_entry(&mut out, entry.0, &entry.1);
        proof {
            lemma_render_list_snoc(prefix, pairs_view(tasks@)[i as int]);
            assert(pairs_view(tasks@).take(i + 1) =~= prefix.push(pairs_view(tasks@)[i as int]));
        }
        i += 1;
    }
    proof {
        assert(pairs_view(tasks@).take(tasks@.len() as int) =~= pairs_view(tasks@));
    }
    chars_string(&out)
}

} // verus!
