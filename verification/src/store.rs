//! The task store: an ordered sequence of tasks, mutated by the command
//! operations.  Identity is purely positional: a task's externally visible
//! index is one plus its current position, recomputed on every rendering.

use vstd::prelude::*;
use vstd::seq_lib::lemma_multiset_commutative;
use crate::task::{TaskView, TodoItem};
use crate::text::{
    blank, dec_chars, dec_str, digit_char, is_blank, chars_to_string, lemma_dec_str_digits,
};

verus! {

/// The ordered task list.  Order is the single source of truth for the
/// 1-based display numbering.
pub struct Todo {
    pub todo: Vec<TodoItem>,
}

impl View for Todo {
    type V = Seq<TaskView>;

    open spec fn view(&self) -> Seq<TaskView> {
        self.todo@.map_values(|t: TodoItem| t@)
    }
}

/// The errors the store and codec report.
#[derive(Clone, Copy, Debug, PartialEq, Eq, Structural)]
pub enum TodoError {
    /// A command that takes at least one argument was given none.
    MissingArguments,
    /// A command that takes exactly one argument was given more.
    ExtraArguments,
    /// The durable representation could not be decoded.
    CorruptData,
}

/// Whether one of the given argument texts equals `w`.
pub open spec fn contains_text(args: Seq<Seq<char>>, w: Seq<char>) -> bool {
    exists|i: int| 0 <= i < args.len() && args[i] == w
}

/// Whether the arguments select the task at position `pos` by its 1-based
/// decimal index.
pub open spec fn selects_index(args: Seq<Seq<char>>, pos: int) -> bool {
    contains_text(args, dec_str((pos + 1) as nat))
}

/// Whether a `rm` invocation with the given arguments deletes the task `t`
/// standing at position `pos`: either the literal selector `done` is given
/// and the task is finished, or its display index is given.
pub open spec fn marks_for_removal(args: Seq<Seq<char>>, pos: int, t: TaskView) -> bool {
    (contains_text(args, "done"@) && t.finished) || selects_index(args, pos)
}

/// The tasks an `add` invocation appends: one unfinished task per argument
/// that is not blank, with the text kept verbatim.
pub open spec fn nonblank_tasks(args: Seq<Seq<char>>) -> Seq<TaskView> {
    args.filter(|a: Seq<char>| !is_blank(a)).map_values(
        |a: Seq<char>| TaskView { content: a, finished: false },
    )
}

/// The store after a `done` invocation: every task whose display index is
/// among the arguments has its flag flipped; all other tasks, and every
/// task's text, are untouched.
pub open spec fn toggled(s: Seq<TaskView>, args: Seq<Seq<char>>) -> Seq<TaskView> {
    Seq::new(
        s.len(),
        |i: int|
            if selects_index(args, i) {
                TaskView { content: s[i].content, finished: !s[i].finished }
            } else {
                s[i]
            },
    )
}

/// The store after a `rm` invocation: the tasks not marked for removal, in
/// their original relative order.  Positions are judged against the
/// original snapshot, so one sweep deletes consistently.
pub open spec fn survivors(s: Seq<TaskView>, args: Seq<Seq<char>>, pos: int) -> Seq<TaskView>
    decreases s.len(),
{
    if s.len() == 0 {
        Seq::empty()
    } else if marks_for_removal(args, pos, s[0]) {
        survivors(s.drop_first(), args, pos + 1)
    } else {
        seq![s[0]] + survivors(s.drop_first(), args, pos + 1)
    }
}

/// The store after `sort`: a stable partition, every unfinished task before
/// every finished one, relative order kept within each group.
pub open spec fn sorted_tasks(s: Seq<TaskView>) -> Seq<TaskView> {
    s.filter(|t: TaskView| !t.finished) + s.filter(|t: TaskView| t.finished)
}

impl Todo {
    /// The store with no tasks.
    pub fn empty() -> (r: Todo)
        ensures
            r@ == Seq::<TaskView>::empty(),
    {
        let r = Todo { todo: Vec::new() };
        proof {
            assert(r@ =~= Seq::<TaskView>::empty());
        }
        r
    }

    /// Appends one unfinished task per non-blank argument, the text kept
    /// verbatim; blank arguments are silently skipped.  An empty argument
    /// list is a usage error and leaves the store unchanged.
    pub fn add(&mut self, args: &Vec<String>) -> (r: Result<(), TodoError>)
        ensures
            match r {
                Ok(()) => args@.len() > 0 && final(self)@ == old(self)@ + nonblank_tasks(
                    args.deep_view(),
                ),
                Err(e) => e == TodoError::MissingArguments && args@.len() == 0 && final(self)@
                    == old(self)@,
            },
    {
        if args.len() == 0 {
            return Err(TodoError::MissingArguments);
        }
        let ghost orig = self@;
        let ghost view_args = args.deep_view();
        let mut i: usize = 0;
        while i < args.len()
            invariant
                i <= args.len(),
                view_args == args.deep_view(),
                self@ == orig + nonblank_tasks(view_args.take(i as int)),
            decreases args.len() - i,
        {
            let ghost prev = self@;
            if !blank(args[i].as_str()) {
                self.todo.push(TodoItem::new(args[i].clone(), false));
                proof {
                    assert(self@ =~= prev.push(
                        TaskView { content: view_args[i as int], finished: false },
                    ));
                }
            }
            proof {
                lemma_nonblank_tasks_push(view_args.take(i as int), view_args[i as int]);
                assert(view_args.take(i + 1) =~= view_args.take(i as int).push(
                    view_args[i as int],
                ));
            }
            i = i + 1;
        }
        proof {
            assert(view_args.take(args@.len() as int) =~= view_args);
        }
        Ok(())
    }

    /// Flips the completion flag of every task whose 1-based display index
    /// is among the arguments; indices out of range select nothing and are
    /// silently ignored.  An empty argument list is a usage error and
    /// leaves the store unchanged.
    pub fn done(&mut self, args: &Vec<String>) -> (r: Result<(), TodoError>)
        ensures
            match r {
                Ok(()) => args@.len() > 0 && final(self)@ == toggled(
                    old(self)@,
                    args.deep_view(),
                ),
                Err(e) => e == TodoError::MissingArguments && args@.len() == 0 && final(self)@
                    == old(self)@,
            },
    {
        if args.len() == 0 {
            return Err(TodoError::MissingArguments);
        }
        let ghost orig = self@;
        let ghost view_args = args.deep_view();
        let n = self.todo.len();
        let mut result: Vec<TodoItem> = Vec::new();
        let mut i: usize = 0;
        while i < n
            invariant
                i <= n,
                n == orig.len(),
                view_args == args.deep_view(),
                self@ == orig,
                self.todo.len() == n,
                result.len() == i,
                forall|j: int| 0 <= j < i ==> result@.map_values(|t: TodoItem| t@)[j] == toggled(
                    orig,
                    view_args,
                )[j],
            decreases n - i,
        {
            let item = &self.todo[i];
            if selector_hit(args, i) {
                result.push(TodoItem::new(item.content.clone(), !item.finished));
            } else {
                result.push(item.clone());
            }
            i = i + 1;
        }
        self.todo = result;
        proof {
            assert(self@ =~= toggled(orig, view_args));
        }
        Ok(())
    }
}

impl Todo {
    /// Deletes every task marked by the arguments — by the literal selector
    /// `done` (every finished task) or by 1-based display index — judging
    /// all positions against the original snapshot; the remaining tasks
    /// keep their relative order.  An empty argument list is a usage error
    /// and leaves the store unchanged.
    pub fn remove(&mut self, args: &Vec<String>) -> (r: Result<(), TodoError>)
        ensures
            match r {
                Ok(()) => args@.len() > 0 && final(self)@ == survivors(
                    old(self)@,
                    args.deep_view(),
                    0,
                ),
                Err(e) => e == TodoError::MissingArguments && args@.len() == 0 && final(self)@
                    == old(self)@,
            },
    {
        if args.len() == 0 {
            return Err(TodoError::MissingArguments);
        }
        let ghost orig = self@;
        let ghost view_args = args.deep_view();
        let done_word: String = "done".to_owned();
        let remove_done = contains_string(args, &done_word);
        let n = self.todo.len();
        let mut result: Vec<TodoItem> = Vec::new();
        let mut i: usize = 0;
        while i < n
            invariant
                i <= n,
                n == orig.len(),
                view_args == args.deep_view(),
                self@ == orig,
                self.todo.len() == n,
                remove_done == contains_text(view_args, "done"@),
                result@.map_values(|t: TodoItem| t@) == survivors(
                    orig.take(i as int),
                    view_args,
                    0,
                ),
            decreases n - i,
        {
            let ghost prev = result@.map_values(|t: TodoItem| t@);
            let item = &self.todo[i];
            if !((remove_done && item.finished) || selector_hit(args, i)) {
                result.push(item.clone());
                proof {
                    assert(result@.map_values(|t: TodoItem| t@) =~= prev + seq![orig[i as int]]);
                }
            }
            proof {
                lemma_survivors_push(orig.take(i as int), view_args, 0, orig[i as int]);
                assert(orig.take(i + 1) =~= orig.take(i as int).push(orig[i as int]));
            }
            i = i + 1;
        }
        self.todo = result;
        proof {
            assert(orig.take(n as int) =~= orig);
        }
        Ok(())
    }

    /// Stable partition: moves every finished task after every unfinished
    /// one, keeping the relative order within each group.
    pub fn sort(&mut self)
        ensures
            final(self)@ == sorted_tasks(old(self)@),
    {
        let ghost orig = self@;
        let n = self.todo.len();
        let mut unfinished: Vec<TodoItem> = Vec::new();
        let mut finished: Vec<TodoItem> = Vec::new();
        let mut i: usize = 0;
        while i < n
            invariant
                i <= n,
                n == orig.len(),
                self@ == orig,
                self.todo.len() == n,
                unfinished@.map_values(|t: TodoItem| t@) == orig.take(i as int).filter(
                    |t: TaskView| !t.finished,
                ),
                finished@.map_values(|t: TodoItem| t@) == orig.take(i as int).filter(
                    |t: TaskView| t.finished,
                ),
            decreases n - i,
        {
            let ghost prev_u = unfinished@.map_values(|t: TodoItem| t@);
            let ghost prev_f = finished@.map_values(|t: TodoItem| t@);
            let item = &self.todo[i];
            if !item.finished {
                unfinished.push(item.clone());
                proof {
                    assert(unfinished@.map_values(|t: TodoItem| t@) =~= prev_u.push(
                        orig[i as int],
                    ));
                }
            } else {
                finished.push(item.clone());
                proof {
                    assert(finished@.map_values(|t: TodoItem| t@) =~= prev_f.push(orig[i as int]));
                }
            }
            proof {
                lemma_filter_push(orig.take(i as int), |t: TaskView| !t.finished, orig[i as int]);
                lemma_filter_push(orig.take(i as int), |t: TaskView| t.finished, orig[i as int]);
                assert(orig.take(i + 1) =~= orig.take(i as int).push(orig[i as int]));
            }
            i = i + 1;
        }
        let mut merged = unfinished;
        merged.append(&mut finished);
        self.todo = merged;
        proof {
            assert(orig.take(n as int) =~= orig);
            assert(self@ =~= sorted_tasks(orig));
        }
    }

    /// Read-only enumeration for display: for every task, its 1-based
    /// display index, its text, and its completion flag, in store order.
    pub fn list(&self) -> (r: Vec<(usize, String, bool)>)
        ensures
            r@.len() == self@.len(),
            forall|i: int|
                0 <= i < r@.len() ==> (#[trigger] r@[i]).0 == i + 1 && r@[i].1@ == self@[i].content
                    && r@[i].2 == self@[i].finished,
    {
        let n = self.todo.len();
        let mut r: Vec<(usize, String, bool)> = Vec::new();
        let mut i: usize = 0;
        while i < n
            invariant
                i <= n,
                self.todo.len() == n,
                r@.len() == i,
                forall|j: int|
                    0 <= j < i ==> (#[trigger] r@[j]).0 == j + 1 && r@[j].1@ == self@[j].content
                        && r@[j].2 == self@[j].finished,
            decreases n - i,
        {
            let item = &self.todo[i];
            r.push((i + 1, item.content.clone(), item.finished));
            i = i + 1;
        }
        r
    }

    /// Plain enumeration for scripting: the bare texts of the tasks that
    /// match the single filter argument, `todo` for unfinished tasks and
    /// `done` for finished ones; any other filter matches nothing.  It is a
    /// usage error to give no argument or more than one.
    pub fn raw(&self, args: &Vec<String>) -> (r: Result<Vec<String>, TodoError>)
        ensures
            match r {
                Ok(v) => args@.len() == 1 && v.deep_view() == raw_lines(
                    self@,
                    args.deep_view()[0],
                ),
                Err(e) => (e == TodoError::ExtraArguments && args@.len() > 1) || (e
                    == TodoError::MissingArguments && args@.len() == 0),
            },
    {
        if args.len() > 1 {
            return Err(TodoError::ExtraArguments);
        }
        if args.len() == 0 {
            return Err(TodoError::MissingArguments);
        }
        let ghost want = args.deep_view()[0];
        let todo_word: String = "todo".to_owned();
        let done_word: String = "done".to_owned();
        let yield_unfinished = args[0].eq(&todo_word);
        let yield_finished = args[0].eq(&done_word);
        let n = self.todo.len();
        let mut r: Vec<String> = Vec::new();
        let mut i: usize = 0;
        while i < n
            invariant
                i <= n,
                self.todo.len() == n,
                yield_unfinished == (want == "todo"@),
                yield_finished == (want == "done"@),
                r.deep_view() == raw_lines(self@.take(i as int), want),
            decreases n - i,
        {
            let ghost prev = r.deep_view();
            let item = &self.todo[i];
            if (!item.finished && yield_unfinished) || (item.finished && yield_finished) {
                r.push(item.content.clone());
                proof {
                    assert(r.deep_view() =~= prev.push(self@[i as int].content));
                }
            }
            proof {
                lemma_filter_push(
                    self@.take(i as int),
                    |t: TaskView| raw_filter_match(t, want),
                    self@[i as int],
                );
                assert(self@.take(i + 1) =~= self@.take(i as int).push(self@[i as int]));
                assert(r.deep_view() =~= raw_lines(self@.take(i + 1), want));
            }
            i = i + 1;
        }
        proof {
            assert(self@.take(n as int) =~= self@);
        }
        Ok(r)
    }
}

/// Whether a task matches a `raw` filter: `todo` selects unfinished tasks,
/// `done` selects finished ones.
pub open spec fn raw_filter_match(t: TaskView, f: Seq<char>) -> bool {
    (!t.finished && f == "todo"@) || (t.finished && f == "done"@)
}

/// The texts `raw` yields: the contents of the matching tasks, in order.
pub open spec fn raw_lines(s: Seq<TaskView>, f: Seq<char>) -> Seq<Seq<char>> {
    s.filter(|t: TaskView| raw_filter_match(t, f)).map_values(|t: TaskView| t.content)
}

/// Filtering a sequence extended by one element keeps the element exactly
/// when it satisfies the predicate.
pub proof fn lemma_filter_push<A>(s: Seq<A>, pred: spec_fn(A) -> bool, x: A)
    ensures
        pred(x) ==> s.push(x).filter(pred) == s.filter(pred).push(x),
        !pred(x) ==> s.push(x).filter(pred) == s.filter(pred),
{
    reveal(Seq::filter);
    assert(s.push(x).drop_last() =~= s);
    assert(s.push(x).last() == x);
}

/// Judging one more task of the snapshot extends the survivors by that
/// task exactly when it is not marked for removal.
pub proof fn lemma_survivors_push(s: Seq<TaskView>, args: Seq<Seq<char>>, pos: int, x: TaskView)
    ensures
        marks_for_removal(args, pos + s.len(), x) ==> survivors(s.push(x), args, pos) == survivors(
            s,
            args,
            pos,
        ),
        !marks_for_removal(args, pos + s.len(), x) ==> survivors(s.push(x), args, pos) == survivors(
            s,
            args,
            pos,
        ).push(x),
    decreases s.len(),
{
    if s.len() == 0 {
        assert(s.push(x)[0] == x);
        assert(s.push(x).drop_first() =~= Seq::<TaskView>::empty());
        assert(survivors(Seq::<TaskView>::empty(), args, pos + 1) == Seq::<TaskView>::empty());
        assert(survivors(s, args, pos) == Seq::<TaskView>::empty());
        if marks_for_removal(args, pos, x) {
            assert(survivors(s.push(x), args, pos) == survivors(
                s.push(x).drop_first(),
                args,
                pos + 1,
            ));
        } else {
            assert(survivors(s.push(x), args, pos) =~= survivors(s, args, pos).push(x));
        }
    } else {
        assert(s.push(x)[0] == s[0]);
        assert(s.push(x).drop_first() =~= s.drop_first().push(x));
        lemma_survivors_push(s.drop_first(), args, pos + 1, x);
        if !marks_for_removal(args, pos + s.len(), x) {
            if marks_for_removal(args, pos, s[0]) {
                assert(survivors(s.push(x), args, pos) == survivors(
                    s.drop_first().push(x),
                    args,
                    pos + 1,
                ));
            } else {
                assert(survivors(s.push(x), args, pos) =~= survivors(s, args, pos).push(x));
            }
        } else {
            if !marks_for_removal(args, pos, s[0]) {
                assert(survivors(s.push(x), args, pos) =~= survivors(s, args, pos));
            }
        }
    }
}

/// Whether the arguments name the 1-based decimal index of position `pos`.
fn selector_hit(args: &Vec<String>, pos: usize) -> (r: bool)
    requires
        pos < usize::MAX,
    ensures
        r == selects_index(args.deep_view(), pos as int),
{
    let digits = dec_chars(pos + 1);
    let wanted = chars_to_string(&digits);
    contains_string(args, &wanted)
}

/// Whether one of the argument texts equals `w`.
fn contains_string(args: &Vec<String>, w: &String) -> (r: bool)
    ensures
        r == contains_text(args.deep_view(), w@),
{
    let mut i: usize = 0;
    while i < args.len()
        invariant
            i <= args.len(),
            forall|j: int| 0 <= j < i ==> args.deep_view()[j] != w@,
        decreases args.len() - i,
    {
        if args[i].eq(w) {
            proof {
                assert(args.deep_view()[i as int] == w@);
            }
            return true;
        }
        i = i + 1;
    }
    false
}

/// Law: adding one text appends exactly one unfinished task holding that
/// text verbatim when the text is not blank, and nothing when it is blank.
pub proof fn lemma_add_one(t: Seq<char>)
    ensures
        !is_blank(t) ==> nonblank_tasks(seq![t]) == seq![
            TaskView { content: t, finished: false },
        ],
        is_blank(t) ==> nonblank_tasks(seq![t]) == Seq::<TaskView>::empty(),
{
    reveal(Seq::filter);
    assert(nonblank_tasks(Seq::<Seq<char>>::empty()) =~= Seq::<TaskView>::empty());
    assert(seq![t] =~= Seq::<Seq<char>>::empty().push(t));
    lemma_nonblank_tasks_push(Seq::<Seq<char>>::empty(), t);
    if !is_blank(t) {
        assert(nonblank_tasks(seq![t]) =~= seq![TaskView { content: t, finished: false }]);
    }
}

/// Law: adding only blank texts adds nothing.
pub proof fn lemma_add_blank_only(args: Seq<Seq<char>>)
    requires
        forall|i: int| 0 <= i < args.len() ==> is_blank(#[trigger] args[i]),
    ensures
        nonblank_tasks(args) == Seq::<TaskView>::empty(),
    decreases args.len(),
{
    reveal(Seq::filter);
    if args.len() == 0 {
        assert(nonblank_tasks(args) =~= Seq::<TaskView>::empty());
    } else {
        lemma_add_blank_only(args.drop_last());
        lemma_nonblank_tasks_push(args.drop_last(), args.last());
        assert(args =~= args.drop_last().push(args.last()));
    }
}

/// Law: toggling the same selection twice restores every completion flag,
/// and with it the whole store.
pub proof fn lemma_toggle_involution(s: Seq<TaskView>, args: Seq<Seq<char>>)
    ensures
        toggled(toggled(s, args), args) == s,
{
    assert(toggled(toggled(s, args), args) =~= s);
}

/// Every element of a sequence satisfying the predicate means filtering
/// keeps the sequence whole.
pub proof fn lemma_filter_all<A>(s: Seq<A>, pred: spec_fn(A) -> bool)
    requires
        forall|i: int| 0 <= i < s.len() ==> pred(#[trigger] s[i]),
    ensures
        s.filter(pred) == s,
    decreases s.len(),
{
    reveal(Seq::filter);
    if s.len() > 0 {
        lemma_filter_all(s.drop_last(), pred);
        assert(s.filter(pred) =~= s);
    }
}

/// No element of a sequence satisfying the predicate means filtering
/// empties it.
pub proof fn lemma_filter_none<A>(s: Seq<A>, pred: spec_fn(A) -> bool)
    requires
        forall|i: int| 0 <= i < s.len() ==> !pred(#[trigger] s[i]),
    ensures
        s.filter(pred) == Seq::<A>::empty(),
    decreases s.len(),
{
    reveal(Seq::filter);
    if s.len() == 0 {
        assert(s.filter(pred) =~= Seq::<A>::empty());
    } else {
        lemma_filter_none(s.drop_last(), pred);
    }
}

/// Law: sorting is idempotent — sorting a sorted store changes nothing.
pub proof fn lemma_sort_idempotent(s: Seq<TaskView>)
    ensures
        sorted_tasks(sorted_tasks(s)) == sorted_tasks(s),
{
    let unf = |t: TaskView| !t.finished;
    let fin = |t: TaskView| t.finished;
    let a = s.filter(unf);
    let b = s.filter(fin);
    broadcast use vstd::seq_lib::group_filter_ensures;

    Seq::filter_distributes_over_add(a, b, unf);
    Seq::filter_distributes_over_add(a, b, fin);
    lemma_filter_all(a, unf);
    lemma_filter_none(b, unf);
    lemma_filter_all(b, fin);
    lemma_filter_none(a, fin);
    assert(sorted_tasks(sorted_tasks(s)) =~= sorted_tasks(s));
}

/// Law: sorting preserves the multiset of tasks — nothing is lost,
/// duplicated or altered, only reordered.
pub proof fn lemma_sort_multiset(s: Seq<TaskView>)
    ensures
        sorted_tasks(s).to_multiset() == s.to_multiset(),
    decreases s.len(),
{
    broadcast use vstd::seq_lib::group_to_multiset_ensures;
    broadcast use vstd::multiset::group_multiset_axioms;

    let unf = |t: TaskView| !t.finished;
    let fin = |t: TaskView| t.finished;
    reveal(Seq::filter);
    if s.len() == 0 {
        assert(s.filter(unf) =~= Seq::<TaskView>::empty());
        assert(s.filter(fin) =~= Seq::<TaskView>::empty());
        assert(sorted_tasks(s) =~= Seq::<TaskView>::empty());
        assert(sorted_tasks(s).to_multiset() =~= s.to_multiset());
    } else {
        let s0 = s.drop_last();
        let x = s.last();
        lemma_sort_multiset(s0);
        lemma_filter_push(s0, unf, x);
        lemma_filter_push(s0, fin, x);
        assert(s =~= s0.push(x));
        let a = s0.filter(unf);
        let b = s0.filter(fin);
        lemma_multiset_commutative(a, b);
        if !x.finished {
            assert(sorted_tasks(s) == a.push(x) + b);
            lemma_multiset_commutative(a.push(x), b);
            assert(a.push(x).to_multiset() == a.to_multiset().insert(x));
            assert(sorted_tasks(s).to_multiset() =~= s0.to_multiset().insert(x));
        } else {
            assert(sorted_tasks(s) == a + b.push(x));
            lemma_multiset_commutative(a, b.push(x));
            assert(b.push(x).to_multiset() == b.to_multiset().insert(x));
            assert(sorted_tasks(s).to_multiset() =~= s0.to_multiset().insert(x));
        }
        assert(s.to_multiset() == s0.push(x).to_multiset());
    }
}

/// A decimal index rendering never equals the selector keyword `done`.
pub proof fn lemma_dec_str_not_done(n: nat)
    ensures
        dec_str(n) != "done"@,
{
    reveal_strlit("done");
    lemma_dec_str_digits(n);
    if dec_str(n) == "done"@ {
        assert(dec_str(n)[0] == 'd');
        let d = choose|d: nat| d < 10 && dec_str(n)[0] == digit_char(d);
        assert(digit_char(d) != 'd');
        assert(false);
    }
}

proof fn lemma_survivors_done_only(s: Seq<TaskView>, args: Seq<Seq<char>>, pos: int)
    requires
        args == seq!["done"@],
    ensures
        survivors(s, args, pos) == s.filter(|t: TaskView| !t.finished),
    decreases s.len(),
{
    reveal(Seq::filter);
    if s.len() == 0 {
        assert(s.filter(|t: TaskView| !t.finished) =~= Seq::<TaskView>::empty());
    } else {
        let s0 = s.drop_last();
        let x = s.last();
        lemma_survivors_done_only(s0, args, pos);
        lemma_survivors_push(s0, args, pos, x);
        lemma_filter_push(s0, |t: TaskView| !t.finished, x);
        assert(s =~= s0.push(x));
        assert(args[0] == "done"@);
        assert(contains_text(args, "done"@));
        let p = pos + s0.len();
        if selects_index(args, p) {
            let i = choose|i: int| 0 <= i < args.len() && args[i] == dec_str((p + 1) as nat);
            lemma_dec_str_not_done((p + 1) as nat);
            assert(false);
        }
        assert(marks_for_removal(args, p, x) == x.finished);
    }
}

/// Law: removing with the single selector `done` deletes exactly the
/// finished tasks and keeps all others in their original relative order.
pub proof fn lemma_remove_done(s: Seq<TaskView>)
    ensures
        survivors(s, seq!["done"@], 0) == s.filter(|t: TaskView| !t.finished),
{
    lemma_survivors_done_only(s, seq!["done"@], 0);
}

/// The store invariant: no stored task has blank text.  The constructors
/// establish it and every mutation preserves it.
pub open spec fn all_nonblank(s: Seq<TaskView>) -> bool {
    forall|i: int| 0 <= i < s.len() ==> !is_blank((#[trigger] s[i]).content)
}

/// Law: every mutation preserves the store invariant — `add` skips blank
/// entries, and the other operations only flip flags, drop tasks or
/// reorder them.
pub proof fn lemma_operations_preserve_nonblank(s: Seq<TaskView>, args: Seq<Seq<char>>, pos: int)
    requires
        all_nonblank(s),
    ensures
        all_nonblank(s + nonblank_tasks(args)),
        all_nonblank(toggled(s, args)),
        all_nonblank(survivors(s, args, pos)),
        all_nonblank(sorted_tasks(s)),
    decreases s.len(),
{
    let added = nonblank_tasks(args);
    let pred = |a: Seq<char>| !is_blank(a);
    assert forall|i: int| 0 <= i < (s + added).len() implies !is_blank(
        ((s + added)[i]).content,
    ) by {
        if i >= s.len() {
            Seq::lemma_filter_pred(args, pred, i - s.len());
            assert((s + added)[i] == added[i - s.len()]);
            assert(added[i - s.len()].content == args.filter(pred)[i - s.len()]);
        }
    }
    assert forall|i: int| 0 <= i < toggled(s, args).len() implies !is_blank(
        (toggled(s, args)[i]).content,
    ) by {
        assert(toggled(s, args)[i].content == s[i].content);
    }
    if s.len() == 0 {
    } else {
        assert(all_nonblank(s.drop_first())) by {
            assert(forall|i: int|
                0 <= i < s.drop_first().len() ==> (#[trigger] s.drop_first()[i]) == s[i + 1]);
        }
        lemma_operations_preserve_nonblank(s.drop_first(), args, pos + 1);
        if !marks_for_removal(args, pos, s[0]) {
            assert forall|i: int| 0 <= i < survivors(s, args, pos).len() implies !is_blank(
                (survivors(s, args, pos)[i]).content,
            ) by {
                if i > 0 {
                    assert(survivors(s, args, pos)[i] == survivors(
                        s.drop_first(),
                        args,
                        pos + 1,
                    )[i - 1]);
                }
            }
        }
    }
    lemma_filter_elements(s, |t: TaskView| !t.finished);
    lemma_filter_elements(s, |t: TaskView| t.finished);
    assert forall|i: int| 0 <= i < sorted_tasks(s).len() implies !is_blank(
        (sorted_tasks(s)[i]).content,
    ) by {
        let unf = s.filter(|t: TaskView| !t.finished);
        let fin = s.filter(|t: TaskView| t.finished);
        if i < unf.len() {
            assert(sorted_tasks(s)[i] == unf[i]);
            assert(s.contains(unf[i]));
            let j = choose|j: int| 0 <= j < s.len() && s[j] == unf[i];
            assert(!is_blank(s[j].content));
        } else {
            assert(sorted_tasks(s)[i] == fin[i - unf.len()]);
            assert(s.contains(fin[i - unf.len()]));
            let j = choose|j: int| 0 <= j < s.len() && s[j] == fin[i - unf.len()];
            assert(!is_blank(s[j].content));
        }
    }
}

/// Every element of a filtered sequence is an element of the sequence.
pub proof fn lemma_filter_elements<A>(s: Seq<A>, pred: spec_fn(A) -> bool)
    ensures
        forall|i: int|
            0 <= i < s.filter(pred).len() ==> s.contains(#[trigger] s.filter(pred)[i]),
    decreases s.len(),
{
    reveal(Seq::filter);
    if s.len() > 0 {
        lemma_filter_elements(s.drop_last(), pred);
        assert forall|i: int| 0 <= i < s.filter(pred).len() implies s.contains(
            #[trigger] s.filter(pred)[i],
        ) by {
            let f = s.filter(pred);
            let f0 = s.drop_last().filter(pred);
            if pred(s.last()) && i == f.len() - 1 {
                assert(s[s.len() - 1] == f[i]);
            } else {
                assert(f[i] == f0[i]);
                assert(s.drop_last().contains(f0[i]));
                let j = choose|j: int| 0 <= j < s.drop_last().len() && s.drop_last()[j] == f0[i];
                assert(s[j] == f0[i]);
            }
        }
    }
}

/// Appending one more argument extends the added tasks by that argument's
/// task when it is not blank, and by nothing when it is blank.
pub proof fn lemma_nonblank_tasks_push(args: Seq<Seq<char>>, a: Seq<char>)
    ensures
        !is_blank(a) ==> nonblank_tasks(args.push(a)) == nonblank_tasks(args).push(
            TaskView { content: a, finished: false },
        ),
        is_blank(a) ==> nonblank_tasks(args.push(a)) == nonblank_tasks(args),
{
    reveal(Seq::filter);
    let pred = |x: Seq<char>| !is_blank(x);
    assert(args.push(a).drop_last() =~= args);
    assert(args.push(a).last() == a);
    if !is_blank(a) {
        assert(args.push(a).filter(pred) == args.filter(pred).push(a));
        assert(args.filter(pred).push(a).map_values(
            |x: Seq<char>| TaskView { content: x, finished: false },
        ) =~= nonblank_tasks(args).push(TaskView { content: a, finished: false }));
    } else {
        assert(args.push(a).filter(pred) == args.filter(pred));
    }
}

/// The usage text shown for an unrecognized command.
pub fn help() -> (r: String)
    ensures
        r@
            == "Usage: todo [COMMAND] [ARGUMENTS]\nTodo is a super fast and simple tasks organizer written in rust\nExample: todo list\nAvailable commands:\n    - add [TASK/s]\n        adds new task/s\n        Example: todo add \"buy carrots\"\n    - list\n        lists all tasks\n        Example: todo list\n    - done [INDEX]\n        marks task as done\n        Example: todo done 2 3 (marks second and third tasks as completed)\n    - rm [INDEX]\n        removes a task\n        Example: todo rm 4\n    - sort\n        sorts completed and uncompleted tasks\n        Example: todo sort\n    - raw [todo/done]\n        prints nothing but done/incompleted tasks in plain text, useful for scripting\n        Example: todo raw done\n"@,
{
    "Usage: todo [COMMAND] [ARGUMENTS]\nTodo is a super fast and simple tasks organizer written in rust\nExample: todo list\nAvailable commands:\n    - add [TASK/s]\n        adds new task/s\n        Example: todo add \"buy carrots\"\n    - list\n        lists all tasks\n        Example: todo list\n    - done [INDEX]\n        marks task as done\n        Example: todo done 2 3 (marks second and third tasks as completed)\n    - rm [INDEX]\n        removes a task\n        Example: todo rm 4\n    - sort\n        sorts completed and uncompleted tasks\n        Example: todo sort\n    - raw [todo/done]\n        prints nothing but done/incompleted tasks in plain text, useful for scripting\n        Example: todo raw done\n".to_owned()
}

} // verus!
