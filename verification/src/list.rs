//! The task store: an immutable sequence of tasks in insertion order,
//! together with the next identifier to assign. Every mutating operation
//! returns a new store and leaves the receiver untouched.

use vstd::prelude::*;

use crate::todo::{TaskView, Todo};

verus! {

/// Mathematical value of a store: the task values in order, and the
/// identifier the next added task should carry.
pub ghost struct StoreView {
    pub tasks: Seq<TaskView>,
    pub last_id: u64,
}

/// The immutable, versioned collection of tasks. `last_id` is the id to
/// assign to the next inserted task; it only ever grows, so ids are never
/// reused even after removals.
#[derive(Debug)]
pub struct TodoList {
    pub todos: Vec<Todo>,
    pub last_id: u64,
}

impl View for TodoList {
    type V = StoreView;

    open spec fn view(&self) -> StoreView {
        StoreView { tasks: self.todos@.map(|i: int, t: Todo| t@), last_id: self.last_id }
    }
}

/// Element-for-element copy of a task vector.
fn clone_tasks(ts: &Vec<Todo>) -> (r: Vec<Todo>)
    ensures
        r@.map(|i: int, t: Todo| t@) == ts@.map(|i: int, t: Todo| t@),
        r@.len() == ts@.len(),
{
    let mut r: Vec<Todo> = Vec::new();
    let mut i: usize = 0;
    while i < ts.len()
        invariant
            i <= ts@.len(),
            r@.len() == i,
            forall|j: int| 0 <= j < i ==> #[trigger] r@[j]@ == ts@[j]@,
        decreases ts@.len() - i,
    {
        r.push(ts[i].clone());
        i = i + 1;
    }
    proof {
        assert(r@.map(|i: int, t: Todo| t@) =~= ts@.map(|i: int, t: Todo| t@));
    }
    r
}

impl Clone for TodoList {
    fn clone(&self) -> (r: Self)
        ensures
            r@ == self@,
    {
        TodoList { todos: clone_tasks(&self.todos), last_id: self.last_id }
    }
}

impl PartialEq for TodoList {
    fn eq(&self, other: &Self) -> (r: bool) {
        if self.last_id != other.last_id || self.todos.len() != other.todos.len() {
            proof {
                if self@ == other@ {
                    assert(self@.tasks.len() == other@.tasks.len());
                }
            }
            return false;
        }
        let n = self.todos.len();
        let mut i: usize = 0;
        while i < n
            invariant
                i <= n,
                n == self.todos@.len() && n == other.todos@.len(),
                forall|j: int| 0 <= j < i ==> #[trigger] self.todos@[j]@ == other.todos@[j]@,
            decreases n - i,
        {
            if !(self.todos[i] == other.todos[i]) {
                proof {
                    assert(self@.tasks[i as int] == self.todos@[i as int]@);
                    assert(self@.tasks != other@.tasks);
                }
                return false;
            }
            i = i + 1;
        }
        proof {
            assert(self@.tasks =~= other@.tasks);
        }
        true
    }
}

impl vstd::std_specs::cmp::PartialEqSpecImpl for TodoList {
    open spec fn obeys_eq_spec() -> bool {
        true
    }

    open spec fn eq_spec(&self, other: &TodoList) -> bool {
        self@ == other@
    }
}

impl TodoList {
    /// The empty store: no tasks, next id 0.
    pub fn new() -> (r: Self)
        ensures
            r@.tasks == Seq::<TaskView>::empty(),
            r@.last_id == 0,
    {
        let r = TodoList { todos: Vec::new(), last_id: 0 };
        proof {
            assert(r@.tasks =~= Seq::<TaskView>::empty());
        }
        r
    }

    /// The id that the next inserted task should carry. It is the caller's
    /// job to stamp the task with it before calling `add_todo`.
    pub fn get_next_id(&self) -> (r: u64)
        ensures
            r == self@.last_id,
    {
        self.last_id
    }

    /// A new store with `t` appended at the end and the id counter advanced
    /// by one. The receiver is unchanged.
    pub fn add_todo(&self, t: Todo) -> (r: Self)
        requires
            self@.last_id < u64::MAX,
        ensures
            r@.tasks == self@.tasks.push(t@),
            r@.last_id == self@.last_id + 1,
    {
        let mut todos = clone_tasks(&self.todos);
        todos.push(t);
        let r = TodoList { todos, last_id: self.last_id + 1 };
        proof {
            assert(r@.tasks =~= self@.tasks.push(t@));
        }
        r
    }

    /// Position and copy of the first task whose id equals `id`; `None` when
    /// no task has that id. Absence is a normal outcome, not an error.
    pub fn find_by_id(&self, id: u64) -> (r: Option<(usize, Todo)>)
        ensures
            match r {
                Some((i, t)) => {
                    &&& i < self@.tasks.len()
                    &&& self@.tasks[i as int].id == id
                    &&& t@ == self@.tasks[i as int]
                    &&& forall|j: int| 0 <= j < i ==> #[trigger] self@.tasks[j].id != id
                },
                None => forall|j: int|
                    0 <= j < self@.tasks.len() ==> #[trigger] self@.tasks[j].id != id,
            },
    {
        let n = self.todos.len();
        let mut i: usize = 0;
        while i < n
            invariant
                i <= n,
                n == self.todos@.len(),
                forall|j: int| 0 <= j < i ==> #[trigger] self.todos@[j]@.id != id,
            decreases n - i,
        {
            if self.todos[i].id == id {
                return Some((i, self.todos[i].clone()));
            }
            i = i + 1;
        }
        None
    }

    /// A new store in which the entry at `index` is `t` and every other
    /// entry is unchanged, in its old position.
    pub fn replace_todo(&self, index: usize, t: Todo) -> (r: Self)
        requires
            index < self@.tasks.len(),
        ensures
            r@.tasks == self@.tasks.update(index as int, t@),
            r@.last_id == self@.last_id,
            r@.tasks[index as int] == t@,
            forall|j: int|
                0 <= j < self@.tasks.len() && j != index ==> #[trigger] r@.tasks[j]
                    == self@.tasks[j],
    {
        let mut todos = clone_tasks(&self.todos);
        todos.set(index, t);
        let r = TodoList { todos, last_id: self.last_id };
        proof {
            assert(r@.tasks =~= self@.tasks.update(index as int, t@));
        }
        r
    }

    /// A new store with the entry at `index` deleted; later entries shift
    /// down by one, and `last_id` is unchanged, so the removed id is never
    /// assigned again.
    pub fn remove_todo(&self, index: usize) -> (r: Self)
        requires
            index < self@.tasks.len(),
        ensures
            r@.tasks == self@.tasks.remove(index as int),
            r@.last_id == self@.last_id,
            r@.tasks.len() == self@.tasks.len() - 1,
            forall|j: int| 0 <= j < index ==> #[trigger] r@.tasks[j] == self@.tasks[j],
            forall|j: int|
                index <= j < r@.tasks.len() ==> #[trigger] r@.tasks[j] == self@.tasks[j + 1],
    {
        let mut todos = clone_tasks(&self.todos);
        todos.remove(index);
        let r = TodoList { todos, last_id: self.last_id };
        proof {
            assert(r@.tasks =~= self@.tasks.remove(index as int));
        }
        r
    }
}

// ---------------------------------------------------------------------------
// Identifier laws
// ---------------------------------------------------------------------------

/// A store whose ids are exactly `0 .. last_id`, in insertion order: the
/// shape every store built by `new` and properly stamped `add_todo` calls
/// has.
pub open spec fn ids_sequential(v: StoreView) -> bool {
    &&& v.tasks.len() == v.last_id
    &&& forall|i: int| 0 <= i < v.tasks.len() ==> #[trigger] v.tasks[i].id == i
}

/// No two tasks share an id.
pub open spec fn ids_distinct(v: StoreView) -> bool {
    forall|i: int, j: int|
        0 <= i < j < v.tasks.len() ==> #[trigger] v.tasks[i].id != #[trigger] v.tasks[j].id
}

/// Every id already present is below the next id to assign.
pub open spec fn ids_below_last(v: StoreView) -> bool {
    forall|i: int| 0 <= i < v.tasks.len() ==> #[trigger] v.tasks[i].id < v.last_id
}

/// Id monotonicity, inductive step: adding a task stamped with the current
/// `last_id` keeps the ids exactly `0 .. last_id`. Together with `new`
/// (zero tasks, `last_id == 0`) this gives: after `n` adds the ids are
/// exactly `0 .. n-1` in insertion order and `last_id == n`.
pub proof fn lemma_id_monotonicity(pre: StoreView, post: StoreView, t: TaskView)
    requires
        ids_sequential(pre),
        t.id == pre.last_id,
        pre.last_id < u64::MAX,
        post.tasks == pre.tasks.push(t),
        post.last_id == pre.last_id + 1,
    ensures
        ids_sequential(post),
{
    assert forall|i: int| 0 <= i < post.tasks.len() implies #[trigger] post.tasks[i].id == i by {
        if i < pre.tasks.len() {
            assert(post.tasks[i] == pre.tasks[i]);
        } else {
            assert(post.tasks[i] == t);
        }
    }
}

/// Sequential ids are in particular distinct and below `last_id`.
pub proof fn lemma_sequential_ids_sound(v: StoreView)
    requires
        ids_sequential(v),
    ensures
        ids_distinct(v),
        ids_below_last(v),
{
}

/// Removal never frees an id for reuse: distinctness and the `last_id`
/// bound survive `remove_todo`, and `last_id` itself is unchanged there.
pub proof fn lemma_no_reuse_after_remove(pre: StoreView, post: StoreView, index: int)
    requires
        ids_distinct(pre),
        ids_below_last(pre),
        0 <= index < pre.tasks.len(),
        post.tasks == pre.tasks.remove(index),
        post.last_id == pre.last_id,
    ensures
        ids_distinct(post),
        ids_below_last(post),
{
    assert forall|i: int, j: int|
        0 <= i < j < post.tasks.len() implies #[trigger] post.tasks[i].id
        != #[trigger] post.tasks[j].id by {
        let pi = if i < index {
            i
        } else {
            i + 1
        };
        let pj = if j < index {
            j
        } else {
            j + 1
        };
        assert(post.tasks[i] == pre.tasks[pi]);
        assert(post.tasks[j] == pre.tasks[pj]);
    }
    assert forall|i: int| 0 <= i < post.tasks.len() implies #[trigger] post.tasks[i].id
        < post.last_id by {
        let pi = if i < index {
            i
        } else {
            i + 1
        };
        assert(post.tasks[i] == pre.tasks[pi]);
    }
}

} // verus!
