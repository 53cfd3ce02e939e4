//! The human-readable export: a markdown rendering with a header line and
//! one numbered line per task, finished tasks wrapped in double tildes.
//! Numbering is a presentation-time computation from the current order;
//! nothing of it is baked into the durable format.

use vstd::prelude::*;
use crate::task::{TaskView, TodoItem};
use crate::store::Todo;
use crate::codec::{
    first_newline, lemma_first_newline_at, lemma_first_newline_bounds, lemma_first_newline_concat,
};
use crate::text::{
    copy_range, dec_chars, dec_str, digit_char, digit_run, digit_test, is_digit_char,
    lemma_dec_str_digits, lemma_digit_run_at, string_to_chars, chars_to_string,
};

verus! {

/// One export line: the 1-based ordinal, a dot and a space, then the text,
/// wrapped in double tildes when the task is finished.
pub open spec fn content_line(t: TaskView, n: nat) -> Seq<char> {
    dec_str(n) + seq!['.', ' '] + (if t.finished {
        seq!['~', '~'] + t.content + seq!['~', '~']
    } else {
        t.content
    }) + seq!['\n']
}

/// The export lines of a store, numbering the tasks upward from `n`.
pub open spec fn content_lines(s: Seq<TaskView>, n: nat) -> Seq<char>
    decreases s.len(),
{
    if s.len() == 0 {
        Seq::empty()
    } else {
        content_line(s[0], n) + content_lines(s.drop_first(), n + 1)
    }
}

/// The export header: a global title, or one naming the project directory.
pub open spec fn header(global: bool, project: Seq<char>) -> Seq<char> {
    if global {
        "# TODO: Global\n"@
    } else {
        "# TODO for project: "@ + project + "\n"@
    }
}

/// The task an export-style line carries in its text after the ordinal
/// and separator: finished exactly when the text both starts and ends
/// with the double-tilde marker — the trailing marker anchored at the end
/// of the line, and the two markers disjoint — with the content strictly
/// between the markers; any other text is an unfinished task, kept whole.
pub open spec fn rest_task(rest: Seq<char>) -> TaskView {
    if rest.len() >= 4 && rest[0] == '~' && rest[1] == '~' && rest[rest.len() - 2] == '~'
        && rest[rest.len() - 1] == '~' {
        TaskView { content: rest.subrange(2, rest.len() - 2), finished: true }
    } else {
        TaskView { content: rest, finished: false }
    }
}

/// The task one line describes, when the line matches the pattern —
/// digits, a dot, a space, then the text.  The ordinal's value is not
/// trusted: only its presence marks a valid line.  A line that does not
/// match is not a task.
pub open spec fn line_task(line: Seq<char>) -> Option<TaskView> {
    let d = digit_run(line);
    if d >= 1 && line.len() >= d + 2 && line[d] == '.' && line[d + 1] == ' ' {
        Some(rest_task(line.skip(d + 2)))
    } else {
        None
    }
}

/// The tasks a whole export-style text describes: one per matching line,
/// in text order; lines that do not match — such as a heading — are
/// skipped.  A final line without a newline still counts.
pub open spec fn parse_lines(text: Seq<char>) -> Seq<TaskView>
    decreases text.len(),
    via parse_lines_decreases
{
    if text.len() == 0 {
        Seq::empty()
    } else {
        let nl = first_newline(text);
        let line = text.take(nl);
        let rest = if nl >= text.len() {
            Seq::<char>::empty()
        } else {
            text.skip(nl + 1)
        };
        (match line_task(line) {
            Some(t) => seq![t],
            None => Seq::<TaskView>::empty(),
        }) + parse_lines(rest)
    }
}

#[via_fn]
proof fn parse_lines_decreases(text: Seq<char>) {
    lemma_first_newline_bounds(text);
}

/// A task whose text survives the export rendering unambiguously: it fits
/// on one line, and an unfinished text cannot be mistaken for one wrapped
/// in the finished marker.
pub open spec fn markdown_safe(t: TaskView) -> bool {
    &&& forall|i: int| 0 <= i < t.content.len() ==> t.content[i] != '\n'
    &&& !t.finished ==> !(t.content.len() >= 4 && t.content[0] == '~' && t.content[1] == '~'
        && t.content[t.content.len() - 2] == '~' && t.content[t.content.len() - 1] == '~')
}

/// Every character of a decimal rendering is a decimal digit.
proof fn lemma_dec_str_is_digits(n: nat)
    ensures
        forall|i: int| 0 <= i < dec_str(n).len() ==> is_digit_char(#[trigger] dec_str(n)[i]),
{
    lemma_dec_str_digits(n);
    assert forall|i: int| 0 <= i < dec_str(n).len() implies is_digit_char(
        #[trigger] dec_str(n)[i],
    ) by {
        let d = choose|d: nat| d < 10 && dec_str(n)[i] == digit_char(d);
        assert(is_digit_char(digit_char(d)));
    }
}

/// One export line parses back to the task it renders, for a
/// markdown-safe task.
proof fn lemma_line_task_of_rendered(t: TaskView, n: nat)
    requires
        markdown_safe(t),
    ensures
        ({
            let line = dec_str(n) + seq!['.', ' '] + (if t.finished {
                seq!['~', '~'] + t.content + seq!['~', '~']
            } else {
                t.content
            });
            line_task(line) == Some(t)
        }),
{
    let body = if t.finished {
        seq!['~', '~'] + t.content + seq!['~', '~']
    } else {
        t.content
    };
    let digits = dec_str(n);
    let line = digits + seq!['.', ' '] + body;
    let run = digits.len() as int;
    lemma_dec_str_digits(n);
    lemma_dec_str_is_digits(n);
    assert(line[run] == '.');
    assert(!is_digit_char('.'));
    assert(forall|j: int| 0 <= j < run ==> line[j] == digits[j]);
    lemma_digit_run_at(line, run);
    assert(run >= 1);
    assert(line.len() == run + 2 + body.len());
    assert(line[run + 1] == ' ');
    assert(line.skip(run + 2) =~= body);
    if t.finished {
        let c = t.content;
        assert(body.len() == c.len() + 4);
        assert(body[0] == '~');
        assert(body[1] == '~');
        assert(body[body.len() - 2] == '~');
        assert(body[body.len() - 1] == '~');
        assert(body.subrange(2, body.len() - 2) =~= c);
        assert(rest_task(body) == t);
    } else {
        assert(rest_task(body) == t);
    }
}

/// Law (export round trip): reading an export back yields the same
/// store, for stores of markdown-safe tasks; numbering starts anywhere.
proof fn lemma_parse_content_lines(s: Seq<TaskView>, n: nat)
    requires
        forall|i: int| 0 <= i < s.len() ==> markdown_safe(#[trigger] s[i]),
    ensures
        parse_lines(content_lines(s, n)) == s,
    decreases s.len(),
{
    if s.len() == 0 {
    } else {
        let t = s[0];
        let body = if t.finished {
            seq!['~', '~'] + t.content + seq!['~', '~']
        } else {
            t.content
        };
        let line = dec_str(n) + seq!['.', ' '] + body;
        let tail = content_lines(s.drop_first(), n + 1);
        let text = content_lines(s, n);
        assert(text =~= line + seq!['\n'] + tail);
        // the rendered line holds no newline
        lemma_dec_str_is_digits(n);
        assert forall|i: int| 0 <= i < line.len() implies line[i] != '\n' by {
            let run = dec_str(n).len() as int;
            if i < run {
                assert(is_digit_char(line[i]));
            } else if i >= run + 2 {
                assert(line[i] == body[i - run - 2]);
                if t.finished {
                    if 2 <= i - run - 2 < body.len() - 2 {
                        assert(body[i - run - 2] == t.content[i - run - 4]);
                    }
                }
            }
        }
        lemma_first_newline_concat(line, tail);
        let nl = first_newline(text);
        assert(nl == line.len());
        assert(nl < text.len());
        assert(text.take(nl) =~= line);
        assert(text.skip(nl + 1) =~= tail);
        lemma_line_task_of_rendered(t, n);
        assert(forall|i: int|
            0 <= i < s.drop_first().len() ==> (#[trigger] s.drop_first()[i]) == s[i + 1]);
        lemma_parse_content_lines(s.drop_first(), n + 1);
        assert(parse_lines(text) == seq![t] + s.drop_first());
        assert(seq![t] + s.drop_first() =~= s);
    }
}

/// Law: the export is faithful — reading the rendered lines back yields
/// the same store, task for task, whenever every task is markdown-safe:
/// its text fits on one line and, if unfinished, cannot be mistaken for
/// one wrapped in the finished marker.
pub proof fn lemma_import_export(s: Seq<TaskView>)
    requires
        forall|i: int| 0 <= i < s.len() ==> markdown_safe(#[trigger] s[i]),
    ensures
        parse_lines(content_lines(s, 1)) == s,
{
    lemma_parse_content_lines(s, 1);
}

/// Parses the line standing between two positions as one export-style
/// task line, or decides that it matches no task.
fn parse_line(chars: &Vec<char>, pos: usize, k: usize) -> (r: Option<TodoItem>)
    requires
        pos <= k <= chars@.len(),
    ensures
        match r {
            Some(item) => line_task(chars@.subrange(pos as int, k as int)) == Some(item@),
            None => line_task(chars@.subrange(pos as int, k as int)) is None,
        },
{
    let ghost line = chars@.subrange(pos as int, k as int);
    let n = chars.len();
    // leading digit run
    let mut d: usize = pos;
    while d < k && digit_test(chars[d])
        invariant
            pos <= d <= k <= n,
            chars.len() == n,
            forall|j: int| pos <= j < d ==> crate::text::is_digit_char(chars@[j]),
        decreases k - d,
    {
        d = d + 1;
    }
    proof {
        assert(forall|j: int| 0 <= j < line.len() ==> line[j] == chars@[pos + j]);
        lemma_digit_run_at(line, d - pos);
    }
    if d > pos && k - d >= 2 && chars[d] == '.' && chars[d + 1] == ' ' {
        let ghost rest = chars@.subrange(d + 2, k as int);
        proof {
            assert(line[d - pos] == chars@[d as int]);
            assert(line[d - pos + 1] == chars@[d + 1]);
            assert(line.skip(d - pos + 2) =~= rest);
            assert(rest.len() == k - d - 2);
            assert(forall|j: int| 0 <= j < rest.len() ==> rest[j] == chars@[d + 2 + j]);
        }
        let finished = k - (d + 2) >= 4 && chars[d + 2] == '~' && chars[d + 3] == '~' && chars[k
            - 2] == '~' && chars[k - 1] == '~';
        let content: Vec<char> = if finished {
            copy_range(chars, d + 4, k - 2)
        } else {
            copy_range(chars, d + 2, k)
        };
        proof {
            if finished {
                assert(rest[0] == chars@[d + 2]);
                assert(rest[1] == chars@[d + 3]);
                assert(rest[rest.len() - 2] == chars@[k - 2]);
                assert(rest[rest.len() - 1] == chars@[k - 1]);
                assert(rest.subrange(2, rest.len() - 2) =~= chars@.subrange(d + 4, k - 2));
                assert(rest_task(rest) == (TaskView { content: content@, finished: true }));
            } else {
                assert(rest_task(rest) == (TaskView { content: rest, finished: false }));
                assert(content@ =~= rest);
            }
            assert(line_task(line) == Some(TaskView { content: content@, finished }));
        }
        Some(TodoItem::new(chars_to_string(&content), finished))
    } else {
        proof {
            if d == pos {
                assert(digit_run(line) == 0);
            } else if k - d < 2 {
                assert(line.len() < digit_run(line) + 2);
            }
            assert(line_task(line) is None);
        }
        None
    }
}

/// Rendering one more task appends its line, numbered after the others.
pub proof fn lemma_content_lines_push(s: Seq<TaskView>, t: TaskView, n: nat)
    ensures
        content_lines(s.push(t), n) == content_lines(s, n) + content_line(t, n + s.len()),
    decreases s.len(),
{
    if s.len() == 0 {
        assert(s.push(t)[0] == t);
        assert(s.push(t).drop_first() =~= Seq::<TaskView>::empty());
        assert(s =~= Seq::<TaskView>::empty());
        assert(content_lines(Seq::<TaskView>::empty(), n) == Seq::<char>::empty());
        assert(content_lines(Seq::<TaskView>::empty(), (n + 1) as nat) == Seq::<char>::empty());
        assert(content_lines(s.push(t), n) =~= content_lines(s, n) + content_line(t, n));
    } else {
        assert(s.push(t)[0] == s[0]);
        assert(s.push(t).drop_first() =~= s.drop_first().push(t));
        lemma_content_lines_push(s.drop_first(), t, (n + 1) as nat);
        assert(content_line(s[0], n) + (content_lines(s.drop_first(), (n + 1) as nat)
            + content_line(t, (n + s.len()) as nat)) =~= (content_line(s[0], n) + content_lines(
            s.drop_first(),
            (n + 1) as nat,
        )) + content_line(t, (n + s.len()) as nat));
    }
}

impl Todo {
    /// Renders the numbered task lines of the export, in store order.
    pub fn get_content_string(&self) -> (r: String)
        ensures
            r@ == content_lines(self@, 1),
    {
        let n = self.todo.len();
        let mut out: Vec<char> = Vec::new();
        let mut i: usize = 0;
        while i < n
            invariant
                i <= n,
                self.todo.len() == n,
                out@ == content_lines(self@.take(i as int), 1),
            decreases n - i,
        {
            let ghost prefix = out@;
            let item = &self.todo[i];
            let mut digits = dec_chars(i + 1);
            out.append(&mut digits);
            out.push('.');
            out.push(' ');
            let mut body = string_to_chars(item.content.as_str());
            if item.finished {
                out.push('~');
                out.push('~');
                out.append(&mut body);
                out.push('~');
                out.push('~');
            } else {
                out.append(&mut body);
            }
            out.push('\n');
            proof {
                assert(out@ =~= prefix + content_line(self@[i as int], (i + 1) as nat));
                lemma_content_lines_push(self@.take(i as int), self@[i as int], 1);
                assert(self@.take(i + 1) =~= self@.take(i as int).push(self@[i as int]));
            }
            i = i + 1;
        }
        proof {
            assert(self@.take(n as int) =~= self@);
        }
        chars_to_string(&out)
    }

    /// Reads a store back from a line-oriented export-style text,
    /// skipping every line that does not match the task pattern; the real
    /// indices are recomputed from position, never from the ordinals.
    pub fn from_markdown(text: &str) -> (r: Todo)
        ensures
            r@ == parse_lines(text@),
    {
        let chars = string_to_chars(text);
        let n = chars.len();
        let mut tasks: Vec<TodoItem> = Vec::new();
        let mut pos: usize = 0;
        proof {
            assert(chars@.skip(0) =~= chars@);
            assert(tasks@.map_values(|t: TodoItem| t@) =~= Seq::<TaskView>::empty());
            assert(Seq::<TaskView>::empty() + parse_lines(chars@) =~= parse_lines(chars@));
        }
        while pos < n
            invariant
                pos <= n,
                chars.len() == n,
                chars@ == text@,
                parse_lines(chars@) == tasks@.map_values(|t: TodoItem| t@) + parse_lines(
                    chars@.skip(pos as int),
                ),
            decreases n - pos,
        {
            let ghost suffix = chars@.skip(pos as int);
            let ghost acc = tasks@.map_values(|t: TodoItem| t@);
            // find the end of the current line
            let mut k: usize = pos;
            while k < n && chars[k] != '\n'
                invariant
                    pos <= k <= n,
                    chars.len() == n,
                    forall|j: int| pos <= j < k ==> chars@[j] != '\n',
                decreases n - k,
            {
                k = k + 1;
            }
            proof {
                assert(suffix.len() == n - pos);
                assert(forall|j: int| 0 <= j < suffix.len() ==> suffix[j] == chars@[pos + j]);
                if k < n {
                    lemma_first_newline_at(suffix, k - pos);
                } else {
                    lemma_first_newline_bounds(suffix);
                    assert(first_newline(suffix) == suffix.len());
                }
            }
            let ghost line = chars@.subrange(pos as int, k as int);
            proof {
                assert(line =~= suffix.take(first_newline(suffix)));
                assert(line.len() == k - pos);
            }
            let parsed = parse_line(&chars, pos, k);
            match parsed {
                Some(item) => {
                    let ghost t = item@;
                    tasks.push(item);
                    proof {
                        assert(tasks@.map_values(|it: TodoItem| it@) =~= acc.push(t));
                    }
                },
                None => {},
            }
            proof {
                // one parsing step on the suffix
                let stepped = (match line_task(line) {
                    Some(t) => seq![t],
                    None => Seq::<TaskView>::empty(),
                });
                let next: int = if k < n {
                    k + 1
                } else {
                    n as int
                };
                if k < n {
                    assert(suffix.skip(k - pos + 1) =~= chars@.skip(next));
                    assert(parse_lines(suffix) == stepped + parse_lines(chars@.skip(next)));
                } else {
                    assert(first_newline(suffix) >= suffix.len());
                    assert(chars@.skip(next) =~= Seq::<char>::empty());
                    assert(parse_lines(Seq::<char>::empty()) == Seq::<TaskView>::empty());
                    assert(parse_lines(suffix) == stepped + parse_lines(chars@.skip(next)));
                }
                match line_task(line) {
                    Some(t) => {
                        assert(acc + (seq![t] + parse_lines(chars@.skip(next))) =~= acc.push(t)
                            + parse_lines(chars@.skip(next)));
                    },
                    None => {
                        assert(acc + (Seq::<TaskView>::empty() + parse_lines(chars@.skip(next)))
                            =~= acc + parse_lines(chars@.skip(next)));
                    },
                }
            }
            if k < n {
                pos = k + 1;
            } else {
                pos = n;
            }
        }
        proof {
            assert(chars@.skip(n as int) =~= Seq::<char>::empty());
            assert(parse_lines(Seq::<char>::empty()) == Seq::<TaskView>::empty());
            assert(tasks@.map_values(|t: TodoItem| t@) + Seq::<TaskView>::empty() =~= tasks@
                .map_values(|t: TodoItem| t@));
        }
        Todo { todo: tasks }
    }

    /// Renders the whole export: the header for the given title mode —
    /// global, or named after the project directory — then the numbered
    /// task lines.
    pub fn export_markdown(&self, project_name: &str, global: bool) -> (r: String)
        ensures
            r@ == header(global, project_name@) + content_lines(self@, 1),
    {
        let mut out: String;
        if global {
            out = "# TODO: Global\n".to_owned();
        } else {
            out = "# TODO for project: ".to_owned();
            out.append(project_name);
            out.append("\n");
        }
        let body = self.get_content_string();
        out.append(body.as_str());
        out
    }
}

} // verus!
