//! The command kinds and the operations they perform on the task list.

use vstd::prelude::*;
use vstd::string::StringExecFns;

use crate::text::{bad_tokens, spec_parse_index, spec_tokens, strs_view};
use crate::text::{parse_index, token_is, tokenize};

verus! {

/// A command kind, selected by the first token of an input line.
#[derive(Debug, Clone, Copy, PartialEq, Eq, Structural)]
pub enum Operation {
    Add,
    List,
    Done,
    Remove,
    Reset,
    Sort,
    Exit,
    Help,
}

/// The command kind a token selects, or `Err(())` for a token outside the
/// recognized set (the empty token included).
pub open spec fn spec_from_str(s: Seq<char>) -> Result<Operation, ()> {
    if s == "add"@ {
        Ok(Operation::Add)
    } else if s == "list"@ {
        Ok(Operation::List)
    } else if s == "done"@ {
        Ok(Operation::Done)
    } else if s == "rm"@ {
        Ok(Operation::Remove)
    } else if s == "reset"@ {
        Ok(Operation::Reset)
    } else if s == "sort"@ {
        Ok(Operation::Sort)
    } else if s == "exit"@ || s == "quit"@ {
        Ok(Operation::Exit)
    } else if s == "help"@ || s == "--help"@ || s == "-h"@ {
        Ok(Operation::Help)
    } else {
        Err(())
    }
}

impl Operation {
    /// Parse a command token, case-sensitively; any token outside the
    /// recognized set is an error.
    pub fn from_str(s: &str) -> (r: Result<Operation, ()>)
        ensures
            r == spec_from_str(s@),
    {
        if token_is(s, "add") {
            Ok(Operation::Add)
        } else if token_is(s, "list") {
            Ok(Operation::List)
        } else if token_is(s, "done") {
            Ok(Operation::Done)
        } else if token_is(s, "rm") {
            Ok(Operation::Remove)
        } else if token_is(s, "reset") {
            Ok(Operation::Reset)
        } else if token_is(s, "sort") {
            Ok(Operation::Sort)
        } else if token_is(s, "exit") || token_is(s, "quit") {
            Ok(Operation::Exit)
        } else if token_is(s, "help") || token_is(s, "--help") || token_is(s, "-h") {
            Ok(Operation::Help)
        } else {
            Err(())
        }
    }
}

/// A task: a description and a completion flag.
pub struct Todo {
    pub task: String,
    pub done: bool,
}

/// The mathematical value of a task.
pub ghost struct TodoView {
    pub task: Seq<char>,
    pub done: bool,
}

impl View for Todo {
    type V = TodoView;

    open spec fn view(&self) -> TodoView {
        TodoView { task: self.task@, done: self.done }
    }
}

/// The views of a sequence of tasks.
pub open spec fn views(ts: Seq<Todo>) -> Seq<TodoView> {
    ts.map_values(|t: Todo| t@)
}

/// One line of output: the text to print and whether it should be struck
/// through (a completed task).
pub struct Line {
    pub text: String,
    pub struck: bool,
}

/// The mathematical value of an output line.
pub ghost struct LineView {
    pub text: Seq<char>,
    pub struck: bool,
}

impl View for Line {
    type V = LineView;

    open spec fn view(&self) -> LineView {
        LineView { text: self.text@, struck: self.struck }
    }
}

/// The views of a sequence of output lines.
pub open spec fn lines_view(ls: Seq<Line>) -> Seq<LineView> {
    ls.map_values(|l: Line| l@)
}

/// What one command produced: lines for standard output and the index
/// tokens that failed to parse, to be reported on standard error.
pub struct OpOutput {
    pub lines: Vec<Line>,
    pub invalid: Vec<String>,
}

/// The task at `n` with its completion flag set, if `n` is in bounds;
/// the list unchanged otherwise.
pub open spec fn mark_done(ts: Seq<TodoView>, n: int) -> Seq<TodoView> {
    if 0 <= n < ts.len() {
        ts.update(n, TodoView { task: ts[n].task, done: true })
    } else {
        ts
    }
}

/// The list without the task at `n`, if `n` is in bounds; the list
/// unchanged otherwise.
pub open spec fn drop_at(ts: Seq<TodoView>, n: int) -> Seq<TodoView> {
    if 0 <= n < ts.len() {
        ts.remove(n)
    } else {
        ts
    }
}

/// The effect of `done` on the list: each token that parses as an index
/// marks the task then at that position, left to right; tokens that do
/// not parse, and out-of-range indices, change nothing.
pub open spec fn apply_done(ts: Seq<TodoView>, toks: Seq<Seq<char>>) -> Seq<TodoView>
    decreases toks.len(),
{
    if toks.len() == 0 {
        ts
    } else {
        let ts1 = match spec_parse_index(toks[0]) {
            Some(n) => mark_done(ts, n),
            None => ts,
        };
        apply_done(ts1, toks.skip(1))
    }
}

/// The effect of `rm` on the list: each token that parses as an index
/// removes the task then at that position, so a later token sees the
/// list as earlier removals left it.
pub open spec fn apply_remove(ts: Seq<TodoView>, toks: Seq<Seq<char>>) -> Seq<TodoView>
    decreases toks.len(),
{
    if toks.len() == 0 {
        ts
    } else {
        let ts1 = match spec_parse_index(toks[0]) {
            Some(n) => drop_at(ts, n),
            None => ts,
        };
        apply_remove(ts1, toks.skip(1))
    }
}

/// The tasks of the list whose completion flag is `d`, in order.
pub open spec fn keep(ts: Seq<TodoView>, d: bool) -> Seq<TodoView>
    decreases ts.len(),
{
    if ts.len() == 0 {
        Seq::empty()
    } else {
        let rest = keep(ts.drop_last(), d);
        if ts.last().done == d {
            rest.push(ts.last())
        } else {
            rest
        }
    }
}

/// The list stably reordered: unfinished tasks first, completed tasks
/// after, each group in its original relative order.
pub open spec fn sort_by_done(ts: Seq<TodoView>) -> Seq<TodoView> {
    keep(ts, false) + keep(ts, true)
}

/// The remaining tokens joined with single spaces.
pub open spec fn join_spaces(toks: Seq<Seq<char>>) -> Seq<char>
    decreases toks.len(),
{
    if toks.len() == 0 {
        Seq::empty()
    } else if toks.len() == 1 {
        toks[0]
    } else {
        join_spaces(toks.drop_last()) + seq![' '] + toks.last()
    }
}

/// The new task list after a command, given its argument tokens.
pub open spec fn apply_op(op: Operation, toks: Seq<Seq<char>>, ts: Seq<TodoView>) -> Seq<
    TodoView,
> {
    match op {
        Operation::Add => if toks.len() > 0 {
            ts.push(TodoView { task: join_spaces(toks), done: false })
        } else {
            ts
        },
        Operation::List => ts,
        Operation::Done => apply_done(ts, toks),
        Operation::Remove => apply_remove(ts, toks),
        Operation::Reset => Seq::empty(),
        Operation::Sort => sort_by_done(ts),
        Operation::Exit => ts,
        Operation::Help => ts,
    }
}

/// The fixed usage message.
pub open spec fn help_text() -> Seq<char> {
    "Usage: [COMMAND] [ARGUMENTS]\nAvailable commands:\n    add [TASK...]      append a new task\n    list               print every task, completed ones struck through\n    done [INDEX...]    mark the tasks at the given positions as completed\n    rm [INDEX...]      remove the tasks at the given positions\n    reset              delete all tasks\n    sort               group unfinished tasks before completed ones\n    exit | quit        leave the program\n    help               print this message\n"@
}

/// The fixed usage message, as printable text.
pub fn help_message() -> (r: String)
    ensures
        r@ == help_text(),
{
    "Usage: [COMMAND] [ARGUMENTS]\nAvailable commands:\n    add [TASK...]      append a new task\n    list               print every task, completed ones struck through\n    done [INDEX...]    mark the tasks at the given positions as completed\n    rm [INDEX...]      remove the tasks at the given positions\n    reset              delete all tasks\n    sort               group unfinished tasks before completed ones\n    exit | quit        leave the program\n    help               print this message\n".to_owned()
}

/// One output line per task, the completed ones to be struck through.
pub open spec fn list_lines(ts: Seq<TodoView>) -> Seq<LineView> {
    ts.map_values(|t: TodoView| LineView { text: t.task, struck: t.done })
}

/// The lines a command sends to standard output: one per task for
/// `list`, the usage message for `help`, nothing otherwise.
pub open spec fn op_lines(op: Operation, ts: Seq<TodoView>) -> Seq<LineView> {
    match op {
        Operation::List => list_lines(ts),
        Operation::Help => seq![LineView { text: help_text(), struck: false }],
        _ => Seq::empty(),
    }
}

/// The argument tokens a command reports as unparsable indices: for
/// `done` and `rm` the tokens that fail to parse, in order; nothing for
/// any other command.
pub open spec fn op_invalid(op: Operation, toks: Seq<Seq<char>>) -> Seq<Seq<char>> {
    match op {
        Operation::Done => bad_tokens(toks),
        Operation::Remove => bad_tokens(toks),
        _ => Seq::empty(),
    }
}

/// Apply one parsed command to the task list. The returned value carries
/// everything there is to print: the output lines and the index tokens
/// that failed to parse. `args` holds the whole line's tokens, the
/// command token first.
pub fn process_operation(todo_l: &mut Vec<Todo>, op: Operation, args: &Vec<String>) -> (out:
    OpOutput)
    requires
        args@.len() >= 1,
    ensures
        views(final(todo_l)@) == apply_op(op, strs_view(args@).skip(1), views(old(todo_l)@)),
        lines_view(out.lines@) == op_lines(op, views(old(todo_l)@)),
        strs_view(out.invalid@) == op_invalid(op, strs_view(args@).skip(1)),
{
    let ghost toks = strs_view(args@).skip(1);
    let ghost orig = views(todo_l@);
    let mut lines: Vec<Line> = Vec::new();
    let mut invalid: Vec<String> = Vec::new();
    proof {
        assert(lines_view(lines@) =~= Seq::<LineView>::empty());
        assert(strs_view(invalid@) =~= Seq::<Seq<char>>::empty());
    }
    match op {
        Operation::Add => {
            if args.len() > 1 {
                let mut task = String::new();
                let mut k: usize = 1;
                proof {
                    assert(strs_view(args@).subrange(1, 1) =~= Seq::<Seq<char>>::empty());
                }
                while k < args.len()
                    invariant
                        1 <= k <= args@.len(),
                        args@.len() > 1,
                        task@ == join_spaces(strs_view(args@).subrange(1, k as int)),
                    decreases args@.len() - k,
                {
                    let ghost sv = strs_view(args@);
                    let ghost pre = sv.subrange(1, k as int);
                    if k > 1 {
                        task.append(" ");
                    }
                    task.append(args[k].as_str());
                    proof {
                        reveal_strlit(" ");
                        assert(sv[k as int] == args@[k as int]@);
                        assert(sv.subrange(1, k + 1).drop_last() =~= pre);
                        assert(sv.subrange(1, k + 1).last() == sv[k as int]);
                        if k > 1 {
                            assert(" "@ =~= seq![' ']);
                            assert(task@ == join_spaces(pre) + seq![' '] + sv[k as int]);
                        } else {
                            assert(join_spaces(pre) == Seq::<char>::empty());
                            assert(task@ =~= sv[k as int]);
                        }
                        assert(task@ == join_spaces(sv.subrange(1, k + 1)));
                    }
                    k += 1;
                }
                proof {
                    assert(strs_view(args@).subrange(1, args@.len() as int) =~= toks);
                }
                todo_l.push(Todo { task, done: false });
                proof {
                    assert(views(todo_l@) =~= orig.push(
                        TodoView { task: join_spaces(toks), done: false },
                    ));
                }
            }
        },
        Operation::List => {
            let mut k: usize = 0;
            proof {
                assert(orig.take(0) =~= Seq::<TodoView>::empty());
                assert(list_lines(orig.take(0)) =~= Seq::<LineView>::empty());
            }
            while k < todo_l.len()
                invariant
                    k <= todo_l@.len(),
                    views(todo_l@) == orig,
                    lines_view(lines@) == list_lines(orig.take(k as int)),
                decreases todo_l@.len() - k,
            {
                let text = todo_l[k].task.clone();
                let struck = todo_l[k].done;
                let l = Line { text, struck };
                let ghost lv = l@;
                let ghost prevl = lines@;
                lines.push(l);
                proof {
                    assert(orig.len() == todo_l@.len());
                    assert(lines_view(prevl).len() == prevl.len());
                    assert(list_lines(orig.take(k as int)).len() == k);
                    assert(prevl.len() == k);
                    assert(views(todo_l@)[k as int] == todo_l@[k as int]@);
                    assert(lv == LineView {
                        text: orig[k as int].task,
                        struck: orig[k as int].done,
                    });
                    assert forall|j: int| 0 <= j < lines@.len() implies lines_view(lines@)[j]
                        == list_lines(orig.take(k + 1))[j] by {
                        assert(lines_view(lines@)[j] == lines@[j]@);
                        assert(orig.take(k + 1)[j] == orig[j]);
                        if j < k {
                            assert(lines@[j] == prevl[j]);
                            assert(lines_view(prevl)[j] == prevl[j]@);
                            assert(orig.take(k as int)[j] == orig[j]);
                            assert(list_lines(orig.take(k as int))[j] == LineView {
                                text: orig[j].task,
                                struck: orig[j].done,
                            });
                        }
                    }
                    assert(lines_view(lines@) =~= list_lines(orig.take(k + 1)));
                }
                k += 1;
            }
            proof {
                assert(orig.take(orig.len() as int) =~= orig);
            }
        },
        Operation::Done => {
            let ghost full = strs_view(args@);
            let mut k: usize = 1;
            proof {
                assert(toks.take(0) =~= Seq::<Seq<char>>::empty());
            }
            while k < args.len()
                invariant
                    1 <= k <= args@.len(),
                    full == strs_view(args@),
                    toks == full.skip(1),
                    apply_done(views(todo_l@), full.skip(k as int)) == apply_done(orig, toks),
                    strs_view(invalid@) == bad_tokens(toks.take(k - 1)),
                    lines_view(lines@) == Seq::<LineView>::empty(),
                decreases args@.len() - k,
            {
                let ghost cur = views(todo_l@);
                proof {
                    assert(full.skip(k as int)[0] == full[k as int]);
                    assert(full[k as int] == args@[k as int]@);
                    assert(full.skip(k as int).skip(1) =~= full.skip(k + 1));
                    assert(toks.take(k as int).drop_last() =~= toks.take(k - 1));
                    assert(toks.take(k as int).last() == toks[k - 1]);
                    assert(toks[k - 1] == full[k as int]);
                }
                match parse_index(args[k].as_str()) {
                    Some(n) => {
                        if n < todo_l.len() {
                            todo_l[n].done = true;
                            proof {
                                assert(views(todo_l@) =~= mark_done(cur, n as int));
                            }
                        } else {
                            proof {
                                assert(mark_done(cur, n as int) == cur);
                            }
                        }
                    },
                    None => {
                        invalid.push(args[k].clone());
                        proof {
                            assert(strs_view(invalid@) =~= bad_tokens(toks.take(k - 1)).push(
                                full[k as int],
                            ));
                        }
                    },
                }
                k += 1;
            }
            proof {
                assert(full.skip(args@.len() as int) =~= Seq::<Seq<char>>::empty());
                assert(toks.take(args@.len() - 1) =~= toks);
            }
        },
        Operation::Remove => {
            let ghost full = strs_view(args@);
            let mut k: usize = 1;
            proof {
                assert(toks.take(0) =~= Seq::<Seq<char>>::empty());
            }
            while k < args.len()
                invariant
                    1 <= k <= args@.len(),
                    full == strs_view(args@),
                    toks == full.skip(1),
                    apply_remove(views(todo_l@), full.skip(k as int)) == apply_remove(orig, toks),
                    strs_view(invalid@) == bad_tokens(toks.take(k - 1)),
                    lines_view(lines@) == Seq::<LineView>::empty(),
                decreases args@.len() - k,
            {
                let ghost cur = views(todo_l@);
                proof {
                    assert(full.skip(k as int)[0] == full[k as int]);
                    assert(full[k as int] == args@[k as int]@);
                    assert(full.skip(k as int).skip(1) =~= full.skip(k + 1));
                    assert(toks.take(k as int).drop_last() =~= toks.take(k - 1));
                    assert(toks.take(k as int).last() == toks[k - 1]);
                    assert(toks[k - 1] == full[k as int]);
                }
                match parse_index(args[k].as_str()) {
                    Some(n) => {
                        if n < todo_l.len() {
                            todo_l.remove(n);
                            proof {
                                assert(views(todo_l@) =~= cur.remove(n as int));
                                assert(drop_at(cur, n as int) == cur.remove(n as int));
                            }
                        } else {
                            proof {
                                assert(drop_at(cur, n as int) == cur);
                            }
                        }
                    },
                    None => {
                        invalid.push(args[k].clone());
                        proof {
                            assert(strs_view(invalid@) =~= bad_tokens(toks.take(k - 1)).push(
                                full[k as int],
                            ));
                        }
                    },
                }
                k += 1;
            }
            proof {
                assert(full.skip(args@.len() as int) =~= Seq::<Seq<char>>::empty());
                assert(toks.take(args@.len() - 1) =~= toks);
            }
        },
        Operation::Reset => {
            todo_l.clear();
            proof {
                assert(views(todo_l@) =~= Seq::<TodoView>::empty());
            }
        },
        Operation::Sort => {
            let mut unfinished: Vec<Todo> = Vec::new();
            let mut finished: Vec<Todo> = Vec::new();
            proof {
                assert(orig.take(0) =~= Seq::<TodoView>::empty());
                assert(orig.skip(0) =~= orig);
                assert(views(unfinished@) =~= Seq::<TodoView>::empty());
                assert(views(finished@) =~= Seq::<TodoView>::empty());
            }
            while todo_l.len() > 0
                invariant
                    todo_l@.len() <= orig.len(),
                    views(todo_l@) == orig.skip(orig.len() - todo_l@.len()),
                    views(unfinished@) == keep(orig.take(orig.len() - todo_l@.len()), false),
                    views(finished@) == keep(orig.take(orig.len() - todo_l@.len()), true),
                decreases todo_l@.len(),
            {
                let ghost k = orig.len() - todo_l@.len();
                proof {
                    assert(views(todo_l@)[0] == orig.skip(k as int)[0]);
                    assert(orig.skip(k as int)[0] == orig[k as int]);
                }
                let ghost prev = todo_l@;
                let t = todo_l.remove(0);
                proof {
                    assert(t@ == orig[k as int]);
                    assert forall|j: int| 0 <= j < views(todo_l@).len() implies views(todo_l@)[j]
                        == orig.skip(k + 1)[j] by {
                        assert(todo_l@[j] == prev[j + 1]);
                        assert(views(todo_l@)[j] == todo_l@[j]@);
                        assert(views(prev)[j + 1] == prev[j + 1]@);
                        assert(orig.skip(k as int)[j + 1] == orig[k + 1 + j]);
                        assert(orig.skip(k + 1)[j] == orig[k + 1 + j]);
                    }
                    assert(views(todo_l@) =~= orig.skip(k + 1));
                    assert(orig.take(k + 1).drop_last() =~= orig.take(k as int));
                    assert(orig.take(k + 1).last() == orig[k as int]);
                }
                if t.done {
                    finished.push(t);
                    proof {
                        assert(views(finished@) =~= keep(orig.take(k + 1), true));
                        assert(views(unfinished@) == keep(orig.take(k + 1), false));
                    }
                } else {
                    unfinished.push(t);
                    proof {
                        assert(views(unfinished@) =~= keep(orig.take(k + 1), false));
                        assert(views(finished@) == keep(orig.take(k + 1), true));
                    }
                }
            }
            proof {
                assert(orig.take(orig.len() as int) =~= orig);
            }
            todo_l.append(&mut unfinished);
            todo_l.append(&mut finished);
            proof {
                assert(views(todo_l@) =~= keep(orig, false) + keep(orig, true));
            }
        },
        Operation::Exit => {},
        Operation::Help => {
            lines.push(Line { text: help_message(), struck: false });
            proof {
                assert(lines_view(lines@) =~= seq![LineView { text: help_text(), struck: false }]);
            }
        },
    }
    OpOutput { lines, invalid }
}

/// The four tasks the list starts with.
pub open spec fn seeded_tasks() -> Seq<TodoView> {
    seq![
        TodoView { task: "first task"@, done: false },
        TodoView { task: "second task"@, done: true },
        TodoView { task: "third task"@, done: false },
        TodoView { task: "fourth task"@, done: true },
    ]
}

/// The initial task list: four sample tasks, the second and fourth
/// already completed.
pub fn populate_todo() -> (r: Vec<Todo>)
    ensures
        views(r@) == seeded_tasks(),
{
    let mut r: Vec<Todo> = Vec::new();
    r.push(Todo { task: "first task".to_owned(), done: false });
    r.push(Todo { task: "second task".to_owned(), done: true });
    r.push(Todo { task: "third task".to_owned(), done: false });
    r.push(Todo { task: "fourth task".to_owned(), done: true });
    proof {
        assert(views(r@) =~= seeded_tasks());
    }
    r
}

/// What one input line led to: nothing (no token), an unrecognized
/// command token, the end of the session, or an executed command with
/// its output.
pub enum LineOutcome {
    Empty,
    Invalid(String),
    Exit,
    Ran(OpOutput),
}

/// Apply one raw input line to the task list.
///
/// The line is split into whitespace-separated tokens; the first selects
/// the command and the rest are its arguments. A line with no tokens, an
/// unrecognized first token, and an exit command all leave the list
/// untouched; any other command is applied through `process_operation`.
pub fn process_line(todo_l: &mut Vec<Todo>, line: &str) -> (out: LineOutcome)
    ensures
        ({
            let toks = spec_tokens(line@);
            if toks.len() == 0 {
                out is Empty && views(final(todo_l)@) == views(old(todo_l)@)
            } else {
                match spec_from_str(toks[0]) {
                    Result::Err(_) => (match out {
                        LineOutcome::Invalid(t) => t@ == toks[0],
                        _ => false,
                    }) && views(final(todo_l)@) == views(old(todo_l)@),
                    Result::Ok(op) => if op is Exit {
                        out is Exit && views(final(todo_l)@) == views(old(todo_l)@)
                    } else {
                        match out {
                            LineOutcome::Ran(o) => {
                                &&& views(final(todo_l)@) == apply_op(
                                    op,
                                    toks.skip(1),
                                    views(old(todo_l)@),
                                )
                                &&& lines_view(o.lines@) == op_lines(op, views(old(todo_l)@))
                                &&& strs_view(o.invalid@) == op_invalid(op, toks.skip(1))
                            },
                            _ => false,
                        }
                    },
                }
            }
        }),
{
    let args = tokenize(line);
    proof {
        assert(strs_view(args@).len() == args@.len());
    }
    if args.len() == 0 {
        return LineOutcome::Empty;
    }
    proof {
        assert(strs_view(args@)[0] == args@[0]@);
    }
    match Operation::from_str(args[0].as_str()) {
        Err(_) => LineOutcome::Invalid(args[0].clone()),
        Ok(Operation::Exit) => LineOutcome::Exit,
        Ok(op) => {
            let o = process_operation(todo_l, op, &args);
            LineOutcome::Ran(o)
        },
    }
}

/// Splitting off the tasks with one flag keeps only those tasks, in
/// order, and splits a concatenation groupwise.
proof fn lemma_keep_concat(a: Seq<TodoView>, b: Seq<TodoView>, d: bool)
    ensures
        keep(a + b, d) == keep(a, d) + keep(b, d),
    decreases b.len(),
{
    if b.len() == 0 {
        assert(a + b =~= a);
        assert(keep(a, d) + keep(b, d) =~= keep(a, d));
    } else {
        lemma_keep_concat(a, b.drop_last(), d);
        assert((a + b).drop_last() =~= a + b.drop_last());
        assert((a + b).last() == b.last());
        if b.last().done == d {
            assert(keep(a, d) + keep(b, d) =~= (keep(a, d) + keep(b.drop_last(), d)).push(
                b.last(),
            ));
        }
    }
}

/// A group already split off is left whole by a second split on the same
/// flag and empty by one on the other flag.
proof fn lemma_keep_of_keep(ts: Seq<TodoView>, d: bool)
    ensures
        keep(keep(ts, d), d) == keep(ts, d),
        keep(keep(ts, d), !d) == Seq::<TodoView>::empty(),
    decreases ts.len(),
{
    if ts.len() == 0 {
    } else {
        lemma_keep_of_keep(ts.drop_last(), d);
        if ts.last().done == d {
            let k = keep(ts.drop_last(), d);
            assert(keep(ts, d) == k.push(ts.last()));
            assert(k.push(ts.last()).drop_last() =~= k);
        }
    }
}

/// Sorting is idempotent: sorting twice gives the order one sort gives.
pub proof fn lemma_sort_idempotent(ts: Seq<TodoView>)
    ensures
        sort_by_done(sort_by_done(ts)) == sort_by_done(ts),
{
    let unfinished = keep(ts, false);
    let finished = keep(ts, true);
    lemma_keep_concat(unfinished, finished, false);
    lemma_keep_concat(unfinished, finished, true);
    lemma_keep_of_keep(ts, false);
    lemma_keep_of_keep(ts, true);
    assert(keep(unfinished + finished, false) =~= unfinished);
    assert(keep(unfinished + finished, true) =~= finished);
}

/// `exit` and `quit` select the same command: either one ends the
/// session.
pub proof fn lemma_exit_quit_equivalent()
    ensures
        spec_from_str("exit"@) == Ok::<Operation, ()>(Operation::Exit),
        spec_from_str("quit"@) == Ok::<Operation, ()>(Operation::Exit),
{
    broadcast use vstd::string::group_string_axioms;

    reveal_strlit("exit");
    reveal_strlit("quit");
    reveal_strlit("add");
    reveal_strlit("list");
    reveal_strlit("done");
    reveal_strlit("rm");
    reveal_strlit("reset");
    reveal_strlit("sort");
    assert("exit"@.len() == 4);
    assert("quit"@.len() == 4);
    assert("add"@.len() == 3);
    assert("rm"@.len() == 2);
    assert("reset"@.len() == 5);
    assert("exit"@[0] == 'e');
    assert("quit"@[0] == 'q');
    assert("list"@[0] == 'l');
    assert("done"@[0] == 'd');
    assert("sort"@[0] == 's');
}

} // verus!
