//! A single task: an identified, immutable record with a name, freeform
//! details, a completion flag and a priority.

use vstd::prelude::*;

use crate::priority::Priority;
use crate::text::{chars_to_string, dec_digits, push_u64_chars, str_chars};

verus! {

/// Mathematical value of a task: its fields, with the strings as
/// character sequences.
pub ghost struct TaskView {
    pub id: u64,
    pub name: Seq<char>,
    pub details: Seq<char>,
    pub done: bool,
    pub priority: Priority,
}

/// One unit of tracked work. Tasks are immutable values: `done` returns a
/// changed copy and leaves the receiver as it was.
#[derive(Debug)]
pub struct Todo {
    pub id: u64,
    pub name: String,
    pub details: String,
    pub done: bool,
    pub priority: Priority,
}

impl View for Todo {
    type V = TaskView;

    open spec fn view(&self) -> TaskView {
        TaskView {
            id: self.id,
            name: self.name@,
            details: self.details@,
            done: self.done,
            priority: self.priority,
        }
    }
}

impl Clone for Todo {
    fn clone(&self) -> (r: Self)
        ensures
            r@ == self@,
    {
        Todo {
            id: self.id,
            name: self.name.clone(),
            details: self.details.clone(),
            done: self.done,
            priority: self.priority,
        }
    }
}

impl PartialEq for Todo {
    fn eq(&self, other: &Self) -> (r: bool) {
        self.id == other.id && self.name == other.name && self.details == other.details
            && self.done == other.done && self.priority == other.priority
    }
}

impl vstd::std_specs::cmp::PartialEqSpecImpl for Todo {
    open spec fn obeys_eq_spec() -> bool {
        true
    }

    open spec fn eq_spec(&self, other: &Todo) -> bool {
        self@ == other@
    }
}

/// The one-letter glyph that stands for a priority in the rendered line.
pub open spec fn glyph_spec(p: Priority) -> char {
    match p {
        Priority::Critical => 'C',
        Priority::High => 'H',
        Priority::Medium => 'M',
        Priority::Low => 'L',
        Priority::Unknown => '?',
    }
}

/// The rendered projection of a task: completion marker, priority glyph,
/// numeric id and name.
pub open spec fn render_spec(t: TaskView) -> Seq<char> {
    (if t.done {
        seq!['\u{2714}', ' ']
    } else {
        seq![' ', ' ']
    }) + seq![glyph_spec(t.priority), ' ', '#'] + dec_digits(t.id as nat) + seq![' '] + t.name
}

impl Todo {
    /// A task equal to this one except that `done` is the given flag.
    pub fn done(&self, d: bool) -> (r: Self)
        ensures
            r@ == (TaskView { done: d, ..self@ }),
    {
        let mut t = self.clone();
        t.done = d;
        t
    }

    /// Renders the task for display: marker, glyph, id and name.
    pub fn render(&self) -> (r: String)
        ensures
            r@ == render_spec(self@),
    {
        let mut out: Vec<char> = Vec::new();
        if self.done {
            out.push('\u{2714}');
            out.push(' ');
        } else {
            out.push(' ');
            out.push(' ');
        }
        let g = match self.priority {
            Priority::Critical => 'C',
            Priority::High => 'H',
            Priority::Medium => 'M',
            Priority::Low => 'L',
            Priority::Unknown => '?',
        };
        out.push(g);
        out.push(' ');
        out.push('#');
        push_u64_chars(&mut out, self.id);
        out.push(' ');
        let mut name = str_chars(self.name.as_str());
        out.append(&mut name);
        proof {
            assert(out@ =~= render_spec(self@));
        }
        chars_to_string(&out)
    }
}

} // verus!
