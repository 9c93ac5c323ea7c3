//! The on-disk document format: a line-oriented, human-editable key-value
//! text. A store is written as one `last_id = N` line followed by one
//! six-line block per task:
//!
//! ```text
//! last_id = 2
//!
//! [[todos]]
//! id = 0
//! name = "write spec"
//! details = ""
//! done = false
//! priority = 3
//! ```
//!
//! Strings are quoted with backslash escapes, so any name or details value
//! round-trips. Parsing is strict per line (empty lines are skipped);
//! a line that does not parse is a parse failure with its location, while
//! well-formed lines in the wrong arrangement are a schema failure.

use vstd::prelude::*;

use crate::error::{Error, ParseIssue};
use crate::list::{StoreView, TodoList};
use crate::priority::Priority;
use crate::text::{
    chars_to_string,
    dec_digits,
    join_nl,
    lemma_dec_digits_ok,
    lemma_escape_clean,
    lemma_first_nl_at,
    lemma_join_append,
    lemma_join_peel,
    lemma_split_join,
    lemma_unescape_escape,
    line_clean,
    parse_qstring_range,
    parse_qstring_spec,
    parse_u64_range,
    parse_u64_spec,
    push_quoted,
    push_str_chars,
    push_u64_chars,
    quote,
    split_lines,
    str_chars,
};
use crate::todo::{TaskView, Todo};

verus! {

// ---------------------------------------------------------------------------
// Lines of the document
// ---------------------------------------------------------------------------

/// One meaningful line of the document.
pub ghost enum LineItemV {
    LastId(u64),
    Header,
    IdKey(u64),
    NameKey(Seq<char>),
    DetailsKey(Seq<char>),
    DoneKey(bool),
    PriorityKey(u64),
}

/// The text of one line.
pub open spec fn render_item(l: LineItemV) -> Seq<char> {
    match l {
        LineItemV::LastId(n) => "last_id = "@ + dec_digits(n as nat),
        LineItemV::Header => "[[todos]]"@,
        LineItemV::IdKey(n) => "id = "@ + dec_digits(n as nat),
        LineItemV::NameKey(s) => "name = "@ + quote(s),
        LineItemV::DetailsKey(s) => "details = "@ + quote(s),
        LineItemV::DoneKey(b) => "done = "@ + (if b {
            "true"@
        } else {
            "false"@
        }),
        LineItemV::PriorityKey(n) => "priority = "@ + dec_digits(n as nat),
    }
}

pub open spec fn starts_with(s: Seq<char>, p: Seq<char>) -> bool {
    p.len() <= s.len() && s.subrange(0, p.len() as int) == p
}

/// Reads one line back. Strict: a recognized key, one `" = "`, and a
/// well-formed value filling the rest of the line.
pub open spec fn parse_line_spec(s: Seq<char>) -> Option<LineItemV> {
    if s == "[[todos]]"@ {
        Some(LineItemV::Header)
    } else if starts_with(s, "last_id = "@) {
        match parse_u64_spec(s.skip("last_id = "@.len() as int)) {
            Some(n) => Some(LineItemV::LastId(n)),
            None => None,
        }
    } else if starts_with(s, "id = "@) {
        match parse_u64_spec(s.skip("id = "@.len() as int)) {
            Some(n) => Some(LineItemV::IdKey(n)),
            None => None,
        }
    } else if starts_with(s, "name = "@) {
        match parse_qstring_spec(s.skip("name = "@.len() as int)) {
            Some(x) => Some(LineItemV::NameKey(x)),
            None => None,
        }
    } else if starts_with(s, "details = "@) {
        match parse_qstring_spec(s.skip("details = "@.len() as int)) {
            Some(x) => Some(LineItemV::DetailsKey(x)),
            None => None,
        }
    } else if starts_with(s, "done = "@) {
        let rest = s.skip("done = "@.len() as int);
        if rest == "true"@ {
            Some(LineItemV::DoneKey(true))
        } else if rest == "false"@ {
            Some(LineItemV::DoneKey(false))
        } else {
            None
        }
    } else if starts_with(s, "priority = "@) {
        match parse_u64_spec(s.skip("priority = "@.len() as int)) {
            Some(n) => Some(LineItemV::PriorityKey(n)),
            None => None,
        }
    } else {
        None
    }
}

proof fn lemma_concat_prefix(p: Seq<char>, t: Seq<char>)
    ensures
        starts_with(p + t, p),
        (p + t).skip(p.len() as int) == t,
{
    assert((p + t).subrange(0, p.len() as int) =~= p);
    assert((p + t).skip(p.len() as int) =~= t);
}

proof fn lemma_digits_clean(n: nat)
    ensures
        line_clean(dec_digits(n)),
{
    lemma_dec_digits_ok(n);
    assert forall|j: int| 0 <= j < dec_digits(n).len() implies #[trigger] dec_digits(n)[j]
        != '\n' by {
        assert(crate::text::is_digit(dec_digits(n)[j]));
    }
}

proof fn lemma_quote_clean(s: Seq<char>)
    ensures
        line_clean(quote(s)),
{
    lemma_escape_clean(s);
    assert forall|j: int| 0 <= j < quote(s).len() implies #[trigger] quote(s)[j] != '\n' by {
        if j == 0 {
            assert(quote(s)[j] == '"');
        } else if j <= crate::text::escape(s).len() {
            assert(quote(s)[j] == crate::text::escape(s)[j - 1]);
        } else {
            assert(quote(s)[j] == '"');
        }
    }
}

/// Every rendered line is non-empty, stays on one line, and parses back to
/// exactly the item it renders.
proof fn lemma_render_item_ok(l: LineItemV)
    ensures
        parse_line_spec(render_item(l)) == Some(l),
        line_clean(render_item(l)),
        render_item(l).len() > 0,
{
    reveal_strlit("[[todos]]");
    reveal_strlit("last_id = ");
    reveal_strlit("id = ");
    reveal_strlit("name = ");
    reveal_strlit("details = ");
    reveal_strlit("done = ");
    reveal_strlit("priority = ");
    reveal_strlit("true");
    reveal_strlit("false");
    let s = render_item(l);
    match l {
        LineItemV::LastId(n) => {
            lemma_concat_prefix("last_id = "@, dec_digits(n as nat));
            lemma_dec_digits_ok(n as nat);
            lemma_digits_clean(n as nat);
            assert(s[0] == 'l');
            assert(s != "[[todos]]"@);
            assert(parse_u64_spec(s.skip(10)) == Some(n));
        },
        LineItemV::Header => {
            assert(s.len() == 9);
        },
        LineItemV::IdKey(n) => {
            lemma_concat_prefix("id = "@, dec_digits(n as nat));
            lemma_dec_digits_ok(n as nat);
            lemma_digits_clean(n as nat);
            assert(s[0] == 'i');
            assert(s != "[[todos]]"@);
            assert(!starts_with(s, "last_id = "@));
            assert(parse_u64_spec(s.skip(5)) == Some(n));
        },
        LineItemV::NameKey(x) => {
            lemma_concat_prefix("name = "@, quote(x));
            lemma_quote_clean(x);
            assert(s[0] == 'n');
            assert(s != "[[todos]]"@);
            assert(!starts_with(s, "last_id = "@));
            assert(!starts_with(s, "id = "@));
            assert(quote(x)[0] == '"');
            assert(quote(x).skip(1) =~= crate::text::escape(x) + seq!['"']);
            lemma_unescape_escape(x);
            assert(parse_qstring_spec(s.skip(7)) == Some(x));
        },
        LineItemV::DetailsKey(x) => {
            lemma_concat_prefix("details = "@, quote(x));
            lemma_quote_clean(x);
            assert(s[0] == 'd');
            assert(s[1] == 'e');
            assert(s != "[[todos]]"@);
            assert(!starts_with(s, "last_id = "@));
            assert(!starts_with(s, "id = "@));
            assert(!starts_with(s, "name = "@));
            assert(quote(x)[0] == '"');
            assert(quote(x).skip(1) =~= crate::text::escape(x) + seq!['"']);
            lemma_unescape_escape(x);
            assert(parse_qstring_spec(s.skip(10)) == Some(x));
        },
        LineItemV::DoneKey(b) => {
            let v = if b {
                "true"@
            } else {
                "false"@
            };
            lemma_concat_prefix("done = "@, v);
            assert(s[0] == 'd');
            assert(s[1] == 'o');
            assert(s != "[[todos]]"@);
            assert(!starts_with(s, "last_id = "@));
            assert(!starts_with(s, "id = "@));
            assert(!starts_with(s, "name = "@));
            assert(!starts_with(s, "details = "@));
            assert("true"@ != "false"@);
            assert(line_clean(s));
        },
        LineItemV::PriorityKey(n) => {
            lemma_concat_prefix("priority = "@, dec_digits(n as nat));
            lemma_dec_digits_ok(n as nat);
            lemma_digits_clean(n as nat);
            assert(s[0] == 'p');
            assert(s != "[[todos]]"@);
            assert(!starts_with(s, "last_id = "@));
            assert(!starts_with(s, "id = "@));
            assert(!starts_with(s, "name = "@));
            assert(!starts_with(s, "details = "@));
            assert(!starts_with(s, "done = "@));
            assert(parse_u64_spec(s.skip(11)) == Some(n));
        },
    }
}

// ---------------------------------------------------------------------------
// From lines to a store
// ---------------------------------------------------------------------------

/// A line the parser must reject: non-empty and not well-formed.
pub open spec fn line_bad(l: Seq<char>) -> bool {
    l.len() > 0 && parse_line_spec(l) is None
}

/// The items of a document's lines, empty lines skipped. (Bad lines are
/// skipped too, but a document with a bad line is rejected outright before
/// this is consulted.)
pub open spec fn items_of_lines(lines: Seq<Seq<char>>) -> Seq<LineItemV>
    decreases lines.len(),
{
    if lines.len() == 0 {
        seq![]
    } else {
        let rest = items_of_lines(lines.skip(1));
        if lines[0].len() == 0 || parse_line_spec(lines[0]) is None {
            rest
        } else {
            seq![parse_line_spec(lines[0])->Some_0] + rest
        }
    }
}

/// The six items that describe one task.
pub open spec fn task_items(t: TaskView) -> Seq<LineItemV> {
    seq![
        LineItemV::Header,
        LineItemV::IdKey(t.id),
        LineItemV::NameKey(t.name),
        LineItemV::DetailsKey(t.details),
        LineItemV::DoneKey(t.done),
        LineItemV::PriorityKey(t.priority.to_u8_spec() as u64),
    ]
}

pub open spec fn tasks_items(ts: Seq<TaskView>) -> Seq<LineItemV>
    decreases ts.len(),
{
    if ts.len() == 0 {
        seq![]
    } else {
        task_items(ts[0]) + tasks_items(ts.skip(1))
    }
}

pub open spec fn store_items(v: StoreView) -> Seq<LineItemV> {
    seq![LineItemV::LastId(v.last_id)] + tasks_items(v.tasks)
}

/// Reads the items after the `last_id` line: whole six-item task blocks,
/// nothing else, in order.
pub open spec fn parse_tasks_items(items: Seq<LineItemV>) -> Option<Seq<TaskView>>
    decreases items.len(),
{
    if items.len() == 0 {
        Some(seq![])
    } else if items.len() >= 6 && items[0] is Header && items[1] is IdKey && items[2] is NameKey
        && items[3] is DetailsKey && items[4] is DoneKey && items[5] is PriorityKey {
        match parse_tasks_items(items.skip(6)) {
            Some(rest) => Some(
                seq![
                    TaskView {
                        id: items[1]->IdKey_0,
                        name: items[2]->NameKey_0,
                        details: items[3]->DetailsKey_0,
                        done: items[4]->DoneKey_0,
                        priority: Priority::from_u64_spec(items[5]->PriorityKey_0),
                    },
                ] + rest,
            ),
            None => None,
        }
    } else {
        None
    }
}

/// A document's items must be one `last_id` item followed by task blocks.
pub open spec fn parse_store_items(items: Seq<LineItemV>) -> Option<StoreView> {
    if items.len() >= 1 && items[0] is LastId {
        match parse_tasks_items(items.skip(1)) {
            Some(ts) => Some(StoreView { tasks: ts, last_id: items[0]->LastId_0 }),
            None => None,
        }
    } else {
        None
    }
}

/// The three possible readings of a document: a store, a text with
/// ill-formed lines, or well-formed lines in the wrong shape.
pub ghost enum DocOutcome {
    Store(StoreView),
    BadLines,
    BadShape,
}

/// The meaning of a document text.
pub open spec fn parse_doc_spec(s: Seq<char>) -> DocOutcome {
    let lines = split_lines(s);
    if exists|i: int| 0 <= i < lines.len() && line_bad(#[trigger] lines[i]) {
        DocOutcome::BadLines
    } else {
        match parse_store_items(items_of_lines(lines)) {
            Some(v) => DocOutcome::Store(v),
            None => DocOutcome::BadShape,
        }
    }
}

// ---------------------------------------------------------------------------
// Serialization
// ---------------------------------------------------------------------------

/// The lines written for one task: a blank separator, the block header,
/// and the five fields.
pub open spec fn task_lines(t: TaskView) -> Seq<Seq<char>> {
    seq![
        Seq::<char>::empty(),
        render_item(LineItemV::Header),
        render_item(LineItemV::IdKey(t.id)),
        render_item(LineItemV::NameKey(t.name)),
        render_item(LineItemV::DetailsKey(t.details)),
        render_item(LineItemV::DoneKey(t.done)),
        render_item(LineItemV::PriorityKey(t.priority.to_u8_spec() as u64)),
    ]
}

pub open spec fn tasks_lines(ts: Seq<TaskView>) -> Seq<Seq<char>>
    decreases ts.len(),
{
    if ts.len() == 0 {
        seq![]
    } else {
        task_lines(ts[0]) + tasks_lines(ts.skip(1))
    }
}

pub open spec fn store_lines(v: StoreView) -> Seq<Seq<char>> {
    seq![render_item(LineItemV::LastId(v.last_id))] + tasks_lines(v.tasks)
}

/// The full document text of a store.
pub open spec fn serialize_spec(v: StoreView) -> Seq<char> {
    join_nl(store_lines(v))
}

// ---------------------------------------------------------------------------
// Round trip
// ---------------------------------------------------------------------------

proof fn lemma_items_peel(l: Seq<char>, rest: Seq<Seq<char>>)
    ensures
        items_of_lines(seq![l] + rest) == if l.len() == 0 || parse_line_spec(l) is None {
            items_of_lines(rest)
        } else {
            seq![parse_line_spec(l)->Some_0] + items_of_lines(rest)
        },
{
    let w = seq![l] + rest;
    assert(w[0] == l);
    assert(w.skip(1) =~= rest);
}

/// The seven lines of one task block are each harmless: on one line,
/// non-ambiguous, and parsing back to their item (or empty).
#[verifier::rlimit(100)]
proof fn lemma_task_lines_good(t: TaskView)
    ensures
        task_lines(t).len() == 7,
        forall|i: int|
            0 <= i < 7 ==> line_clean(#[trigger] task_lines(t)[i]) && !line_bad(task_lines(t)[i]),
{
    lemma_render_item_ok(LineItemV::Header);
    lemma_render_item_ok(LineItemV::IdKey(t.id));
    lemma_render_item_ok(LineItemV::NameKey(t.name));
    lemma_render_item_ok(LineItemV::DetailsKey(t.details));
    lemma_render_item_ok(LineItemV::DoneKey(t.done));
    lemma_render_item_ok(LineItemV::PriorityKey(t.priority.to_u8_spec() as u64));
    assert(task_lines(t)[0] == Seq::<char>::empty());
    assert(line_clean(Seq::<char>::empty()));
    assert(task_lines(t)[1] == render_item(LineItemV::Header));
    assert(task_lines(t)[2] == render_item(LineItemV::IdKey(t.id)));
    assert(task_lines(t)[3] == render_item(LineItemV::NameKey(t.name)));
    assert(task_lines(t)[4] == render_item(LineItemV::DetailsKey(t.details)));
    assert(task_lines(t)[5] == render_item(LineItemV::DoneKey(t.done)));
    assert(task_lines(t)[6] == render_item(LineItemV::PriorityKey(t.priority.to_u8_spec() as u64)));
}

proof fn lemma_tasks_lines_clean(ts: Seq<TaskView>)
    ensures
        forall|i: int|
            0 <= i < tasks_lines(ts).len() ==> line_clean(#[trigger] tasks_lines(ts)[i])
                && !line_bad(tasks_lines(ts)[i]),
    decreases ts.len(),
{
    if ts.len() > 0 {
        let t = ts[0];
        lemma_tasks_lines_clean(ts.skip(1));
        lemma_task_lines_good(t);
        let tl = task_lines(t);
        let rest = tasks_lines(ts.skip(1));
        let all = tasks_lines(ts);
        assert(all == tl + rest);
        assert forall|i: int|
            0 <= i < all.len() implies line_clean(#[trigger] all[i]) && !line_bad(all[i]) by {
            if i < 7 {
                assert(all[i] == tl[i]);
            } else {
                assert(all[i] == rest[i - 7]);
            }
        }
    }
}

/// Reading the seven lines of a task block back gives exactly the six
/// items of the task, whatever lines follow.
#[verifier::rlimit(100)]
proof fn lemma_task_block_items(t: TaskView, rest: Seq<Seq<char>>)
    ensures
        items_of_lines(task_lines(t) + rest) == task_items(t) + items_of_lines(rest),
{
    lemma_render_item_ok(LineItemV::Header);
    lemma_render_item_ok(LineItemV::IdKey(t.id));
    lemma_render_item_ok(LineItemV::NameKey(t.name));
    lemma_render_item_ok(LineItemV::DetailsKey(t.details));
    lemma_render_item_ok(LineItemV::DoneKey(t.done));
    lemma_render_item_ok(LineItemV::PriorityKey(t.priority.to_u8_spec() as u64));
    let l1 = render_item(LineItemV::Header);
    let l2 = render_item(LineItemV::IdKey(t.id));
    let l3 = render_item(LineItemV::NameKey(t.name));
    let l4 = render_item(LineItemV::DetailsKey(t.details));
    let l5 = render_item(LineItemV::DoneKey(t.done));
    let l6 = render_item(LineItemV::PriorityKey(t.priority.to_u8_spec() as u64));
    let r6 = seq![l6] + rest;
    let r5 = seq![l5] + r6;
    let r4 = seq![l4] + r5;
    let r3 = seq![l3] + r4;
    let r2 = seq![l2] + r3;
    let r1 = seq![l1] + r2;
    let r0 = seq![Seq::<char>::empty()] + r1;
    assert(task_lines(t) + rest =~= r0);
    lemma_items_peel(Seq::<char>::empty(), r1);
    lemma_items_peel(l1, r2);
    lemma_items_peel(l2, r3);
    lemma_items_peel(l3, r4);
    lemma_items_peel(l4, r5);
    lemma_items_peel(l5, r6);
    lemma_items_peel(l6, rest);
    assert(items_of_lines(task_lines(t) + rest) =~= task_items(t) + items_of_lines(rest));
}

proof fn lemma_tasks_lines_items(ts: Seq<TaskView>)
    ensures
        items_of_lines(tasks_lines(ts)) == tasks_items(ts),
    decreases ts.len(),
{
    if ts.len() == 0 {
        assert(items_of_lines(tasks_lines(ts)) =~= tasks_items(ts));
    } else {
        lemma_tasks_lines_items(ts.skip(1));
        lemma_task_block_items(ts[0], tasks_lines(ts.skip(1)));
        assert(items_of_lines(tasks_lines(ts)) =~= tasks_items(ts));
    }
}

proof fn lemma_parse_tasks_items(ts: Seq<TaskView>)
    ensures
        parse_tasks_items(tasks_items(ts)) == Some(ts),
    decreases ts.len(),
{
    if ts.len() == 0 {
        assert(tasks_items(ts) =~= Seq::<LineItemV>::empty());
        assert(ts =~= Seq::<TaskView>::empty());
    } else {
        let t = ts[0];
        lemma_parse_tasks_items(ts.skip(1));
        let items = tasks_items(ts);
        let ti = task_items(t);
        assert(items == ti + tasks_items(ts.skip(1)));
        assert(items[0] == ti[0]);
        assert(items[1] == ti[1]);
        assert(items[2] == ti[2]);
        assert(items[3] == ti[3]);
        assert(items[4] == ti[4]);
        assert(items[5] == ti[5]);
        assert(items.skip(6) =~= tasks_items(ts.skip(1)));
        Priority::lemma_encode_decode(t.priority);
        let got = TaskView {
            id: items[1]->IdKey_0,
            name: items[2]->NameKey_0,
            details: items[3]->DetailsKey_0,
            done: items[4]->DoneKey_0,
            priority: Priority::from_u64_spec(items[5]->PriorityKey_0),
        };
        assert(got == t);
        assert(seq![got] + ts.skip(1) =~= ts);
    }
}

/// Round trip: the document written for any store reads back as exactly
/// that store — same `last_id`, same tasks in the same order, all fields
/// equal.
pub proof fn lemma_round_trip(v: StoreView)
    ensures
        parse_doc_spec(serialize_spec(v)) == DocOutcome::Store(v),
{
    let l0 = render_item(LineItemV::LastId(v.last_id));
    let all = store_lines(v);
    let rest = tasks_lines(v.tasks);
    lemma_render_item_ok(LineItemV::LastId(v.last_id));
    lemma_tasks_lines_clean(v.tasks);
    lemma_tasks_lines_items(v.tasks);
    assert forall|i: int|
        0 <= i < all.len() implies line_clean(#[trigger] all[i]) && !line_bad(all[i]) by {
        if i == 0 {
            assert(all[i] == l0);
        } else {
            assert(all[i] == rest[i - 1]);
        }
    }
    lemma_split_join(all);
    assert(split_lines(serialize_spec(v)) == all);
    lemma_items_peel(l0, rest);
    assert(all =~= seq![l0] + rest);
    assert(items_of_lines(all) == seq![LineItemV::LastId(v.last_id)] + tasks_items(v.tasks));
    let items = items_of_lines(all);
    assert(items[0] == LineItemV::LastId(v.last_id));
    assert(items.skip(1) =~= tasks_items(v.tasks));
    lemma_parse_tasks_items(v.tasks);
    assert(parse_store_items(items) == Some(v));
}

// ---------------------------------------------------------------------------
// Writing a document
// ---------------------------------------------------------------------------

proof fn lemma_tasks_lines_snoc(ts: Seq<TaskView>, t: TaskView)
    ensures
        tasks_lines(ts.push(t)) == tasks_lines(ts) + task_lines(t),
    decreases ts.len(),
{
    if ts.len() == 0 {
        assert(ts.push(t)[0] == t);
        assert(ts.push(t).skip(1) =~= Seq::<TaskView>::empty());
        assert(tasks_lines(Seq::<TaskView>::empty()) == Seq::<Seq<char>>::empty());
        assert(tasks_lines(ts.push(t)) =~= tasks_lines(ts) + task_lines(t));
    } else {
        assert(ts.push(t)[0] == ts[0]);
        assert(ts.push(t).skip(1) =~= ts.skip(1).push(t));
        lemma_tasks_lines_snoc(ts.skip(1), t);
        assert(tasks_lines(ts.push(t)) =~= tasks_lines(ts) + task_lines(t));
    }
}

/// Appends the seven lines of one task block, each followed by a newline.
#[verifier::rlimit(60)]
fn push_task(out: &mut Vec<char>, t: &Todo)
    ensures
        final(out)@ == old(out)@ + join_nl(task_lines(t@)),
{
    out.push('\n');
    push_str_chars(out, "[[todos]]");
    out.push('\n');
    push_str_chars(out, "id = ");
    push_u64_chars(out, t.id);
    out.push('\n');
    push_str_chars(out, "name = ");
    let nm = str_chars(t.name.as_str());
    push_quoted(out, &nm);
    out.push('\n');
    push_str_chars(out, "details = ");
    let dt = str_chars(t.details.as_str());
    push_quoted(out, &dt);
    out.push('\n');
    push_str_chars(out, "done = ");
    push_str_chars(out, if t.done {
        "true"
    } else {
        "false"
    });
    out.push('\n');
    push_str_chars(out, "priority = ");
    push_u64_chars(out, t.priority.to_u8() as u64);
    out.push('\n');
    proof {
        let l1 = render_item(LineItemV::Header);
        let l2 = render_item(LineItemV::IdKey(t@.id));
        let l3 = render_item(LineItemV::NameKey(t@.name));
        let l4 = render_item(LineItemV::DetailsKey(t@.details));
        let l5 = render_item(LineItemV::DoneKey(t@.done));
        let l6 = render_item(LineItemV::PriorityKey(t@.priority.to_u8_spec() as u64));
        let r6 = seq![l6] + Seq::<Seq<char>>::empty();
        let r5 = seq![l5] + r6;
        let r4 = seq![l4] + r5;
        let r3 = seq![l3] + r4;
        let r2 = seq![l2] + r3;
        let r1 = seq![l1] + r2;
        let r0 = seq![Seq::<char>::empty()] + r1;
        assert(task_lines(t@) =~= r0);
        assert(join_nl(Seq::<Seq<char>>::empty()) == Seq::<char>::empty());
        lemma_join_peel(l6, Seq::<Seq<char>>::empty());
        lemma_join_peel(l5, r6);
        lemma_join_peel(l4, r5);
        lemma_join_peel(l3, r4);
        lemma_join_peel(l2, r3);
        lemma_join_peel(l1, r2);
        lemma_join_peel(Seq::<char>::empty(), r1);
        assert(out@ =~= old(out)@ + join_nl(task_lines(t@)));
    }
}

impl TodoList {
    /// The full document text of this store, ready to be written to its
    /// file. Serialization is total: every store value has a document.
    pub fn to_document(&self) -> (r: String)
        ensures
            r@ == serialize_spec(self@),
    {
        let mut out: Vec<char> = Vec::new();
        push_str_chars(&mut out, "last_id = ");
        push_u64_chars(&mut out, self.last_id);
        out.push('\n');
        let ghost l0s = seq![render_item(LineItemV::LastId(self.last_id))];
        proof {
            assert(join_nl(Seq::<Seq<char>>::empty()) == Seq::<char>::empty());
            lemma_join_peel(render_item(LineItemV::LastId(self.last_id)), Seq::<Seq<char>>::empty());
            assert(l0s =~= seq![render_item(LineItemV::LastId(self.last_id))]
                + Seq::<Seq<char>>::empty());
            assert(tasks_lines(self@.tasks.subrange(0, 0)) == Seq::<Seq<char>>::empty());
            assert(l0s + tasks_lines(self@.tasks.subrange(0, 0)) =~= l0s);
            assert(out@ =~= join_nl(l0s + tasks_lines(self@.tasks.subrange(0, 0))));
        }
        let n = self.todos.len();
        let mut i: usize = 0;
        while i < n
            invariant
                i <= n,
                n == self.todos@.len(),
                l0s == seq![render_item(LineItemV::LastId(self.last_id))],
                out@ == join_nl(l0s + tasks_lines(self@.tasks.subrange(0, i as int))),
            decreases n - i,
        {
            let t = &self.todos[i];
            proof {
                assert(t@ == self@.tasks[i as int]);
            }
            push_task(&mut out, t);
            proof {
                let pre = self@.tasks.subrange(0, i as int);
                assert(pre.push(t@) =~= self@.tasks.subrange(0, i as int + 1));
                lemma_tasks_lines_snoc(pre, t@);
                assert(l0s + tasks_lines(pre.push(t@)) =~= (l0s + tasks_lines(pre)) + task_lines(
                    t@,
                ));
                lemma_join_append(l0s + tasks_lines(pre), task_lines(t@));
                assert(out@ =~= join_nl(l0s + tasks_lines(self@.tasks.subrange(0, i as int + 1))));
            }
            i = i + 1;
        }
        proof {
            assert(self@.tasks.subrange(0, n as int) =~= self@.tasks);
        }
        chars_to_string(&out)
    }
}

// ---------------------------------------------------------------------------
// Reading a document
// ---------------------------------------------------------------------------

/// One parsed line, as exec data.
pub enum LineItem {
    LastId(u64),
    Header,
    IdKey(u64),
    NameKey(Vec<char>),
    DetailsKey(Vec<char>),
    DoneKey(bool),
    PriorityKey(u64),
}

impl View for LineItem {
    type V = LineItemV;

    open spec fn view(&self) -> LineItemV {
        match self {
            LineItem::LastId(n) => LineItemV::LastId(*n),
            LineItem::Header => LineItemV::Header,
            LineItem::IdKey(n) => LineItemV::IdKey(*n),
            LineItem::NameKey(v) => LineItemV::NameKey(v@),
            LineItem::DetailsKey(v) => LineItemV::DetailsKey(v@),
            LineItem::DoneKey(b) => LineItemV::DoneKey(*b),
            LineItem::PriorityKey(n) => LineItemV::PriorityKey(*n),
        }
    }
}

pub open spec fn items_view(items: Seq<LineItem>) -> Seq<LineItemV> {
    items.map(|k: int, it: LineItem| it@)
}

pub open spec fn todos_view(ts: Seq<Todo>) -> Seq<TaskView> {
    ts.map(|k: int, t: Todo| t@)
}

fn starts_with_lit(v: &Vec<char>, start: usize, end: usize, lit: &str) -> (r: bool)
    requires
        start <= end <= v@.len(),
    ensures
        r == starts_with(v@.subrange(start as int, end as int), lit@),
{
    let ghost sub = v@.subrange(start as int, end as int);
    let n = lit.unicode_len();
    if n > end - start {
        return false;
    }
    let mut i: usize = 0;
    while i < n
        invariant
            i <= n,
            n == lit@.len(),
            n <= end - start,
            start <= end <= v@.len(),
            sub == v@.subrange(start as int, end as int),
            forall|q: int| 0 <= q < i ==> sub[q] == lit@[q],
        decreases n - i,
    {
        let c = v[start + i];
        assert(c == sub[i as int]);
        if c != lit.get_char(i) {
            proof {
                if starts_with(sub, lit@) {
                    assert(sub.subrange(0, n as int)[i as int] == sub[i as int]);
                }
            }
            return false;
        }
        i = i + 1;
    }
    proof {
        assert(sub.subrange(0, n as int) =~= lit@);
    }
    true
}

fn eq_lit(v: &Vec<char>, start: usize, end: usize, lit: &str) -> (r: bool)
    requires
        start <= end <= v@.len(),
    ensures
        r == (v@.subrange(start as int, end as int) == lit@),
{
    let ghost sub = v@.subrange(start as int, end as int);
    let n = lit.unicode_len();
    if end - start != n {
        return false;
    }
    let r = starts_with_lit(v, start, end, lit);
    proof {
        assert(sub.subrange(0, n as int) =~= sub);
    }
    r
}

/// Reads one line of the document.
fn parse_line_range(v: &Vec<char>, start: usize, end: usize) -> (r: Option<LineItem>)
    requires
        start <= end <= v@.len(),
    ensures
        match r {
            Some(it) => parse_line_spec(v@.subrange(start as int, end as int)) == Some(it@),
            None => parse_line_spec(v@.subrange(start as int, end as int)) is None,
        },
{
    let ghost sub = v@.subrange(start as int, end as int);
    if eq_lit(v, start, end, "[[todos]]") {
        return Some(LineItem::Header);
    }
    if starts_with_lit(v, start, end, "last_id = ") {
        let l = "last_id = ".unicode_len();
        proof {
            assert(v@.subrange(start as int + l as int, end as int) =~= sub.skip(l as int));
        }
        return match parse_u64_range(v, start + l, end) {
            Some(n) => Some(LineItem::LastId(n)),
            None => None,
        };
    }
    if starts_with_lit(v, start, end, "id = ") {
        let l = "id = ".unicode_len();
        proof {
            assert(v@.subrange(start as int + l as int, end as int) =~= sub.skip(l as int));
        }
        return match parse_u64_range(v, start + l, end) {
            Some(n) => Some(LineItem::IdKey(n)),
            None => None,
        };
    }
    if starts_with_lit(v, start, end, "name = ") {
        let l = "name = ".unicode_len();
        proof {
            assert(v@.subrange(start as int + l as int, end as int) =~= sub.skip(l as int));
        }
        return match parse_qstring_range(v, start + l, end) {
            Some(x) => Some(LineItem::NameKey(x)),
            None => None,
        };
    }
    if starts_with_lit(v, start, end, "details = ") {
        let l = "details = ".unicode_len();
        proof {
            assert(v@.subrange(start as int + l as int, end as int) =~= sub.skip(l as int));
        }
        return match parse_qstring_range(v, start + l, end) {
            Some(x) => Some(LineItem::DetailsKey(x)),
            None => None,
        };
    }
    if starts_with_lit(v, start, end, "done = ") {
        let l = "done = ".unicode_len();
        proof {
            assert(v@.subrange(start as int + l as int, end as int) =~= sub.skip(l as int));
        }
        if eq_lit(v, start + l, end, "true") {
            return Some(LineItem::DoneKey(true));
        }
        if eq_lit(v, start + l, end, "false") {
            return Some(LineItem::DoneKey(false));
        }
        return None;
    }
    if starts_with_lit(v, start, end, "priority = ") {
        let l = "priority = ".unicode_len();
        proof {
            assert(v@.subrange(start as int + l as int, end as int) =~= sub.skip(l as int));
        }
        return match parse_u64_range(v, start + l, end) {
            Some(n) => Some(LineItem::PriorityKey(n)),
            None => None,
        };
    }
    None
}

proof fn lemma_split_step(v: Seq<char>, pos: int, j: int)
    requires
        0 <= pos <= j <= v.len(),
        pos < v.len(),
        forall|q: int| pos <= q < j ==> v[q] != '\n',
        j == v.len() || v[j] == '\n',
    ensures
        split_lines(v.skip(pos)) == seq![v.subrange(pos, j)] + split_lines(
            v.skip(
                if j == v.len() {
                    j
                } else {
                    j + 1
                },
            ),
        ),
{
    let suf = v.skip(pos);
    assert(suf.len() == v.len() - pos);
    assert forall|q: int| 0 <= q < j - pos implies #[trigger] suf[q] != '\n' by {
        assert(suf[q] == v[q + pos]);
    }
    if j < v.len() {
        assert(suf[j - pos] == v[j]);
    }
    lemma_first_nl_at(suf, j - pos);
    if j == v.len() {
        assert(suf =~= v.subrange(pos, j));
        assert(v.skip(j) =~= Seq::<char>::empty());
        assert(split_lines(v.skip(j)) == Seq::<Seq<char>>::empty());
        assert(seq![v.subrange(pos, j)] + split_lines(v.skip(j)) =~= seq![suf]);
    } else {
        assert(suf.subrange(0, j - pos) =~= v.subrange(pos, j));
        assert(suf.skip(j - pos + 1) =~= v.skip(j + 1));
    }
}

proof fn lemma_items_of_snoc(lines: Seq<Seq<char>>, l: Seq<char>)
    ensures
        items_of_lines(lines.push(l)) == items_of_lines(lines) + (if l.len() == 0
            || parse_line_spec(l) is None {
            Seq::<LineItemV>::empty()
        } else {
            seq![parse_line_spec(l)->Some_0]
        }),
    decreases lines.len(),
{
    let tailitems = if l.len() == 0 || parse_line_spec(l) is None {
        Seq::<LineItemV>::empty()
    } else {
        seq![parse_line_spec(l)->Some_0]
    };
    if lines.len() == 0 {
        assert(lines.push(l)[0] == l);
        assert(lines.push(l).skip(1) =~= Seq::<Seq<char>>::empty());
        assert(items_of_lines(Seq::<Seq<char>>::empty()) == Seq::<LineItemV>::empty());
        assert(items_of_lines(lines.push(l)) =~= items_of_lines(lines) + tailitems);
    } else {
        assert(lines.push(l)[0] == lines[0]);
        assert(lines.push(l).skip(1) =~= lines.skip(1).push(l));
        lemma_items_of_snoc(lines.skip(1), l);
        assert(items_of_lines(lines.push(l)) =~= items_of_lines(lines) + tailitems);
    }
}

/// Every located failure the scan reports is real, none is missed, and
/// they come in order of the lines.
pub open spec fn issues_report(s: Seq<char>, issues: Seq<ParseIssue>) -> bool {
    &&& issues.len() >= 1
    &&& forall|a: int, b: int|
        0 <= a < b < issues.len() ==> #[trigger] issues[a].line < #[trigger] issues[b].line
    &&& forall|k: int|
        0 <= k < issues.len() ==> 1 <= #[trigger] issues[k].line <= split_lines(s).len()
            && line_bad(split_lines(s)[issues[k].line - 1]) && issues[k].col == 1
    &&& forall|i: int|
        0 <= i < split_lines(s).len() && line_bad(#[trigger] split_lines(s)[i]) ==> exists|k: int|
            0 <= k < issues.len() && #[trigger] issues[k].line == i + 1
}

/// First pass: cuts the text into lines and reads each one. Either every
/// non-empty line is well-formed and the items come back in order, or the
/// full list of offending lines comes back.
#[verifier::rlimit(100)]
fn scan_lines(v: &Vec<char>) -> (r: Result<Vec<LineItem>, Vec<ParseIssue>>)
    ensures
        match r {
            Ok(items) => {
                &&& forall|i: int|
                    0 <= i < split_lines(v@).len() ==> !line_bad(#[trigger] split_lines(v@)[i])
                &&& items_view(items@) == items_of_lines(split_lines(v@))
            },
            Err(issues) => issues_report(v@, issues@),
        },
{
    let ghost lines = split_lines(v@);
    let mut items: Vec<LineItem> = Vec::new();
    let mut issues: Vec<ParseIssue> = Vec::new();
    let mut pos: usize = 0;
    let mut lineno: u64 = 0;
    let ghost mut processed = Seq::<Seq<char>>::empty();
    proof {
        assert(v@.skip(0) =~= v@);
        assert(items_view(items@) =~= items_of_lines(processed));
    }
    while pos < v.len()
        invariant
            pos <= v@.len(),
            lineno as int == processed.len(),
            processed.len() <= pos,
            lines == split_lines(v@),
            lines == processed + split_lines(v@.skip(pos as int)),
            items_view(items@) == items_of_lines(processed),
            forall|a: int, b: int|
                0 <= a < b < issues@.len() ==> #[trigger] issues@[a].line
                    < #[trigger] issues@[b].line,
            forall|k: int|
                0 <= k < issues@.len() ==> 1 <= #[trigger] issues@[k].line <= processed.len()
                    && line_bad(processed[issues@[k].line - 1]) && issues@[k].col == 1,
            forall|i: int|
                0 <= i < processed.len() && line_bad(#[trigger] processed[i]) ==> exists|k: int|
                    0 <= k < issues@.len() && #[trigger] issues@[k].line == i + 1,
        decreases v@.len() - pos,
    {
        let ghost issues0 = issues@;
        let mut j = pos;
        while j < v.len() && *(&v[j]) != '\n'
            invariant
                pos <= j <= v@.len(),
                forall|q: int| pos <= q < j ==> v@[q] != '\n',
            decreases v@.len() - j,
        {
            j = j + 1;
        }
        let ghost line = v@.subrange(pos as int, j as int);
        proof {
            lemma_split_step(v@, pos as int, j as int);
        }
        if j == pos {
            // empty line: skipped
            proof {
                lemma_items_of_snoc(processed, line);
                assert(items_view(items@) =~= items_of_lines(processed.push(line)));
            }
        } else {
            match parse_line_range(v, pos, j) {
                Some(item) => {
                    proof {
                        lemma_items_of_snoc(processed, line);
                        assert(items_view(items@).push(item@) =~= items_of_lines(
                            processed.push(line),
                        ));
                    }
                    items.push(item);
                    proof {
                        assert(items_view(items@) =~= items_view(items@.drop_last()).push(item@));
                    }
                },
                None => {
                    proof {
                        assert(line_bad(line));
                        lemma_items_of_snoc(processed, line);
                        assert(items_view(items@) =~= items_of_lines(processed.push(line)));
                    }
                    issues.push(ParseIssue { line: lineno + 1, col: 1 });
                },
            }
        }
        proof {
            assert(processed.push(line)[processed.len() as int] == line);
            assert(lines =~= processed.push(line) + split_lines(
                v@.skip(
                    if j == v@.len() {
                        j as int
                    } else {
                        j as int + 1
                    },
                ),
            ));
            let np = processed.push(line);
            assert forall|i2: int|
                0 <= i2 < np.len() && line_bad(#[trigger] np[i2]) implies exists|k: int|
                0 <= k < issues@.len() && #[trigger] issues@[k].line == i2 + 1 by {
                if i2 < processed.len() {
                    assert(np[i2] == processed[i2]);
                    let k0 = choose|k: int|
                        0 <= k < issues0.len() && #[trigger] issues0[k].line == i2 + 1;
                    assert(issues@[k0].line == i2 + 1);
                } else {
                    assert(np[i2] == line);
                    assert(line_bad(line));
                    assert(issues@[issues@.len() - 1].line == i2 + 1);
                }
            }
            processed = processed.push(line);
        }
        lineno = lineno + 1;
        pos = if j < v.len() {
            j + 1
        } else {
            j
        };
    }
    proof {
        assert(v@.skip(pos as int) =~= Seq::<char>::empty());
        assert(split_lines(v@.skip(pos as int)) == Seq::<Seq<char>>::empty());
        assert(lines =~= processed);
    }
    if issues.len() > 0 {
        Err(issues)
    } else {
        proof {
            assert forall|i: int|
                0 <= i < split_lines(v@).len() implies !line_bad(
                #[trigger] split_lines(v@)[i],
            ) by {
                if line_bad(split_lines(v@)[i]) {
                    assert(line_bad(processed[i]));
                }
            }
        }
        Ok(items)
    }
}

/// Holds while the task blocks are consumed: what the whole item list
/// means is what the blocks read so far mean, followed by the rest.
pub open spec fn tasks_link(whole: Seq<LineItemV>, acc: Seq<TaskView>, rest: Seq<LineItemV>) -> bool {
    match parse_tasks_items(rest) {
        Some(y) => parse_tasks_items(whole) == Some(acc + y),
        None => parse_tasks_items(whole) is None,
    }
}

/// Second pass: checks the arrangement of the items and builds the store.
#[verifier::rlimit(100)]
fn items_to_store(items: &Vec<LineItem>) -> (r: Option<TodoList>)
    ensures
        match r {
            Some(list) => parse_store_items(items_view(items@)) == Some(list@),
            None => parse_store_items(items_view(items@)) is None,
        },
{
    let ghost iv = items_view(items@);
    if items.len() == 0 {
        return None;
    }
    let last_id: u64 = match &items[0] {
        LineItem::LastId(n) => *n,
        _ => {
            proof {
                assert(iv[0] == items@[0]@);
            }
            return None;
        },
    };
    proof {
        assert(iv[0] == items@[0]@);
    }
    let ghost whole = iv.skip(1);
    let mut todos: Vec<Todo> = Vec::new();
    let mut i: usize = 1;
    proof {
        assert(iv.skip(i as int) =~= whole);
        assert(todos_view(todos@) =~= Seq::<TaskView>::empty());
        if parse_tasks_items(whole) is Some {
            assert(Seq::<TaskView>::empty() + parse_tasks_items(whole)->Some_0 =~= parse_tasks_items(
                whole,
            )->Some_0);
        }
    }
    while i < items.len()
        invariant
            1 <= i <= items@.len(),
            iv == items_view(items@),
            whole == iv.skip(1),
            tasks_link(whole, todos_view(todos@), iv.skip(i as int)),
        decreases items@.len() - i,
    {
        let ghost rest = iv.skip(i as int);
        proof {
            assert(rest[0] == items@[i as int]@);
            if items@.len() - i >= 6 {
                assert(rest[1] == items@[i as int + 1]@);
                assert(rest[2] == items@[i as int + 2]@);
                assert(rest[3] == items@[i as int + 3]@);
                assert(rest[4] == items@[i as int + 4]@);
                assert(rest[5] == items@[i as int + 5]@);
            }
        }
        if items.len() - i < 6 {
            return None;
        }
        match &items[i] {
            LineItem::Header => {},
            _ => {
                return None;
            },
        }
        let id: u64 = match &items[i + 1] {
            LineItem::IdKey(n) => *n,
            _ => {
                return None;
            },
        };
        let name: String = match &items[i + 2] {
            LineItem::NameKey(x) => chars_to_string(x),
            _ => {
                return None;
            },
        };
        let details: String = match &items[i + 3] {
            LineItem::DetailsKey(x) => chars_to_string(x),
            _ => {
                return None;
            },
        };
        let done: bool = match &items[i + 4] {
            LineItem::DoneKey(b) => *b,
            _ => {
                return None;
            },
        };
        let pr: u64 = match &items[i + 5] {
            LineItem::PriorityKey(n) => *n,
            _ => {
                return None;
            },
        };
        let task = Todo { id, name, details, done, priority: Priority::from_u64(pr) };
        proof {
            let tv = TaskView {
                id: rest[1]->IdKey_0,
                name: rest[2]->NameKey_0,
                details: rest[3]->DetailsKey_0,
                done: rest[4]->DoneKey_0,
                priority: Priority::from_u64_spec(rest[5]->PriorityKey_0),
            };
            assert(task@ == tv);
            assert(rest.skip(6) =~= iv.skip(i as int + 6));
            let acc = todos_view(todos@);
            match parse_tasks_items(rest.skip(6)) {
                Some(y2) => {
                    assert(parse_tasks_items(rest) == Some(seq![tv] + y2));
                    assert(acc + (seq![tv] + y2) =~= acc.push(tv) + y2);
                },
                None => {
                    assert(parse_tasks_items(rest) is None);
                },
            }
            assert(todos_view(todos@.push(task)) =~= todos_view(todos@).push(task@));
        }
        todos.push(task);
        i = i + 6;
    }
    proof {
        assert(iv.skip(i as int) =~= Seq::<LineItemV>::empty());
        assert(parse_tasks_items(Seq::<LineItemV>::empty()) == Some(Seq::<TaskView>::empty()));
        assert(todos_view(todos@) + Seq::<TaskView>::empty() =~= todos_view(todos@));
    }
    let list = TodoList { todos, last_id };
    proof {
        assert(list@.tasks =~= todos_view(list.todos@));
    }
    Some(list)
}

impl TodoList {
    /// Reads a whole document back into a store.
    ///
    /// Succeeds exactly on the texts whose reading is a store. Ill-formed
    /// lines give `ParserError` with every offending line located;
    /// well-formed lines in the wrong arrangement give `DecodeError`.
    pub fn parse_document(s: &str) -> (r: Result<TodoList, Error>)
        ensures
            match r {
                Ok(list) => parse_doc_spec(s@) == DocOutcome::Store(list@),
                Err(e) => match e {
                    Error::ParserError(issues) => parse_doc_spec(s@) == DocOutcome::BadLines
                        && issues_report(s@, issues@),
                    Error::DecodeError => parse_doc_spec(s@) == DocOutcome::BadShape,
                    _ => false,
                },
            },
    {
        let v = str_chars(s);
        match scan_lines(&v) {
            Err(issues) => {
                proof {
                    let lines = split_lines(s@);
                    assert(line_bad(lines[issues@[0].line - 1]));
                }
                Err(Error::ParserError(issues))
            },
            Ok(items) => {
                proof {
                    let lines = split_lines(s@);
                    if exists|i: int| 0 <= i < lines.len() && line_bad(#[trigger] lines[i]) {
                        let i = choose|i: int| 0 <= i < lines.len() && line_bad(
                            #[trigger] lines[i],
                        );
                        assert(!line_bad(lines[i]));
                    }
                }
                match items_to_store(&items) {
                    Some(list) => Ok(list),
                    None => Err(Error::DecodeError),
                }
            },
        }
    }
}

} // verus!
