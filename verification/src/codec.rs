//! The persistence codec: a structural durable text representation of the
//! store.  One task occupies exactly one line — a completion mark, the
//! task text with backslash and newline escaped, and a terminating
//! newline.  No numbering is baked in, and decoding an encoded store
//! yields the store back exactly.

use vstd::prelude::*;
use crate::task::{TaskView, TodoItem};
use crate::store::{Todo, TodoError};
use crate::text::{chars_to_string, string_to_chars};

verus! {

/// The durable rendering of one character of task text: backslash and
/// newline are escaped so that one task occupies exactly one line.
pub open spec fn escape_char(c: char) -> Seq<char> {
    if c == '\\' {
        seq!['\\', '\\']
    } else if c == '\n' {
        seq!['\\', 'n']
    } else {
        seq![c]
    }
}

/// The durable rendering of a task text.
pub open spec fn escape(s: Seq<char>) -> Seq<char>
    decreases s.len(),
{
    if s.len() == 0 {
        Seq::empty()
    } else {
        escape_char(s[0]) + escape(s.drop_first())
    }
}

/// One line of the durable format: the completion mark, the escaped text,
/// and a terminating newline.
pub open spec fn encode_task(t: TaskView) -> Seq<char> {
    seq![if t.finished { 'x' } else { '-' }] + escape(t.content) + seq!['\n']
}

/// The durable rendering of a whole store: the lines of its tasks, in
/// store order.
pub open spec fn encode_store(s: Seq<TaskView>) -> Seq<char>
    decreases s.len(),
{
    if s.len() == 0 {
        Seq::empty()
    } else {
        encode_task(s[0]) + encode_store(s.drop_first())
    }
}

/// The position of the first newline, or the length when there is none.
pub open spec fn first_newline(s: Seq<char>) -> int
    decreases s.len(),
{
    if s.len() == 0 {
        0
    } else if s[0] == '\n' {
        0
    } else {
        1 + first_newline(s.drop_first())
    }
}

/// The first newline position lies within the text, everything before it
/// is no newline, and it points at a newline when one exists.
pub proof fn lemma_first_newline_bounds(s: Seq<char>)
    ensures
        0 <= first_newline(s) <= s.len(),
        first_newline(s) < s.len() ==> s[first_newline(s)] == '\n',
        forall|j: int| 0 <= j < first_newline(s) ==> s[j] != '\n',
    decreases s.len(),
{
    if s.len() == 0 {
    } else if s[0] == '\n' {
    } else {
        lemma_first_newline_bounds(s.drop_first());
        assert forall|j: int| 0 <= j < first_newline(s) implies s[j] != '\n' by {
            if j > 0 {
                assert(s.drop_first()[j - 1] != '\n');
            }
        }
    }
}

/// Undoes `escape`: `None` when the text is not a valid escaping.
pub open spec fn unescape(s: Seq<char>) -> Option<Seq<char>>
    decreases s.len(),
{
    if s.len() == 0 {
        Some(Seq::empty())
    } else if s[0] == '\\' {
        if s.len() == 1 {
            None
        } else {
            let c = if s[1] == '\\' {
                Some('\\')
            } else if s[1] == 'n' {
                Some('\n')
            } else {
                None::<char>
            };
            match (c, unescape(s.skip(2))) {
                (Some(c0), Some(rest)) => Some(seq![c0] + rest),
                _ => None,
            }
        }
    } else {
        match unescape(s.drop_first()) {
            Some(rest) => Some(seq![s[0]] + rest),
            None => None,
        }
    }
}

/// The store a durable text describes: `None` when the text is corrupt —
/// an unterminated line, an unknown completion mark, or a bad escape.
pub open spec fn decode_store(text: Seq<char>) -> Option<Seq<TaskView>>
    decreases text.len(),
    via decode_store_decreases
{
    if text.len() == 0 {
        Some(Seq::empty())
    } else {
        let nl = first_newline(text);
        if nl == text.len() {
            None
        } else {
            let line = text.take(nl);
            let rest = text.skip(nl + 1);
            if line.len() == 0 {
                None
            } else if line[0] != 'x' && line[0] != '-' {
                None
            } else {
                match (unescape(line.drop_first()), decode_store(rest)) {
                    (Some(content), Some(tasks)) => Some(
                        seq![TaskView { content, finished: line[0] == 'x' }] + tasks,
                    ),
                    _ => None,
                }
            }
        }
    }
}

#[via_fn]
proof fn decode_store_decreases(text: Seq<char>) {
    lemma_first_newline_bounds(text);
}

/// Escaping one more character appends that character's rendering.
pub proof fn lemma_escape_push(s: Seq<char>, c: char)
    ensures
        escape(s.push(c)) == escape(s) + escape_char(c),
    decreases s.len(),
{
    if s.len() == 0 {
        assert(s.push(c)[0] == c);
        assert(s.push(c).drop_first() =~= Seq::<char>::empty());
        assert(s =~= Seq::<char>::empty());
        assert(escape(Seq::<char>::empty()) == Seq::<char>::empty());
        assert(escape(s.push(c)) =~= escape(s) + escape_char(c));
    } else {
        assert(s.push(c)[0] == s[0]);
        assert(s.push(c).drop_first() =~= s.drop_first().push(c));
        lemma_escape_push(s.drop_first(), c);
        assert(escape_char(s[0]) + (escape(s.drop_first()) + escape_char(c)) =~= (escape_char(s[0])
            + escape(s.drop_first())) + escape_char(c));
    }
}

/// Encoding one more task appends that task's line.
pub proof fn lemma_encode_store_push(s: Seq<TaskView>, t: TaskView)
    ensures
        encode_store(s.push(t)) == encode_store(s) + encode_task(t),
    decreases s.len(),
{
    if s.len() == 0 {
        assert(s.push(t)[0] == t);
        assert(s.push(t).drop_first() =~= Seq::<TaskView>::empty());
        assert(s =~= Seq::<TaskView>::empty());
        assert(encode_store(Seq::<TaskView>::empty()) == Seq::<char>::empty());
        assert(encode_store(s.push(t)) =~= encode_store(s) + encode_task(t));
    } else {
        assert(s.push(t)[0] == s[0]);
        assert(s.push(t).drop_first() =~= s.drop_first().push(t));
        lemma_encode_store_push(s.drop_first(), t);
        assert(encode_task(s[0]) + (encode_store(s.drop_first()) + encode_task(t)) =~= (encode_task(
            s[0],
        ) + encode_store(s.drop_first())) + encode_task(t));
    }
}

/// The first newline stands exactly where a newline first occurs.
pub proof fn lemma_first_newline_at(s: Seq<char>, k: int)
    requires
        0 <= k < s.len(),
        s[k] == '\n',
        forall|j: int| 0 <= j < k ==> s[j] != '\n',
    ensures
        first_newline(s) == k,
{
    lemma_first_newline_bounds(s);
    let nl = first_newline(s);
    if nl < k {
        assert(s[nl] == '\n');
        assert(false);
    }
    if nl > k {
        assert(s[k] != '\n');
        assert(false);
    }
}

/// An escaped text contains no newline: every task occupies one line.
pub proof fn lemma_escape_no_newline(s: Seq<char>)
    ensures
        forall|i: int| 0 <= i < escape(s).len() ==> escape(s)[i] != '\n',
    decreases s.len(),
{
    if s.len() > 0 {
        lemma_escape_no_newline(s.drop_first());
        assert forall|i: int| 0 <= i < escape(s).len() implies escape(s)[i] != '\n' by {
            let head = escape_char(s[0]);
            if i >= head.len() {
                assert(escape(s)[i] == escape(s.drop_first())[i - head.len()]);
            }
        }
    }
}

/// Unescaping an escaped text yields the text back.
pub proof fn lemma_unescape_escape(s: Seq<char>)
    ensures
        unescape(escape(s)) == Some(s),
    decreases s.len(),
{
    if s.len() == 0 {
    } else {
        lemma_unescape_escape(s.drop_first());
        let e = escape(s);
        let head = escape_char(s[0]);
        let tail = escape(s.drop_first());
        if s[0] == '\\' || s[0] == '\n' {
            assert(e[0] == '\\');
            assert(e[1] == head[1]);
            assert(e.skip(2) =~= tail);
            assert(unescape(e) == Some(seq![s[0]] + s.drop_first()));
        } else {
            assert(e[0] == s[0]);
            assert(e[0] != '\\');
            assert(e.drop_first() =~= tail);
            assert(unescape(e) == Some(seq![s[0]] + s.drop_first()));
        }
        assert(seq![s[0]] + s.drop_first() =~= s);
    }
}

/// The first newline of `a + ['\n'] + b` stands right after `a` when `a`
/// holds no newline.
pub proof fn lemma_first_newline_concat(a: Seq<char>, b: Seq<char>)
    requires
        forall|i: int| 0 <= i < a.len() ==> a[i] != '\n',
    ensures
        first_newline(a + seq!['\n'] + b) == a.len(),
    decreases a.len(),
{
    let s = a + seq!['\n'] + b;
    if a.len() == 0 {
        assert(s[0] == '\n');
    } else {
        assert(s[0] == a[0]);
        assert(s[0] != '\n');
        lemma_first_newline_concat(a.drop_first(), b);
        assert(s.drop_first() =~= a.drop_first() + seq!['\n'] + b);
    }
}

/// Law: the durable round trip is exact — decoding an encoded store gives
/// back the same texts, the same flags, in the same order, for any store.
pub proof fn lemma_round_trip(s: Seq<TaskView>)
    ensures
        decode_store(encode_store(s)) == Some(s),
    decreases s.len(),
{
    if s.len() == 0 {
    } else {
        lemma_round_trip(s.drop_first());
        let t = s[0];
        let mark = if t.finished { 'x' } else { '-' };
        let line = seq![mark] + escape(t.content);
        let text = encode_store(s);
        let tail = encode_store(s.drop_first());
        lemma_escape_no_newline(t.content);
        assert forall|i: int| 0 <= i < line.len() implies line[i] != '\n' by {
            if i > 0 {
                assert(line[i] == escape(t.content)[i - 1]);
            }
        }
        assert(text =~= line + seq!['\n'] + tail);
        lemma_first_newline_concat(line, tail);
        let nl = first_newline(text);
        assert(nl == line.len());
        assert(text.len() == line.len() + 1 + tail.len());
        assert(text.take(nl) =~= line);
        assert(text.skip(nl + 1) =~= tail);
        assert(line[0] == mark);
        assert(line.drop_first() =~= escape(t.content));
        lemma_unescape_escape(t.content);
        assert(decode_store(text) == Some(
            seq![TaskView { content: t.content, finished: line[0] == 'x' }] + s.drop_first(),
        ));
        assert(TaskView { content: t.content, finished: line[0] == 'x' } == t);
        assert(seq![t] + s.drop_first() =~= s);
    }
}

impl Todo {
    /// Renders the store in its durable text representation.
    pub fn save_data(&self) -> (r: String)
        ensures
            r@ == encode_store(self@),
    {
        let n = self.todo.len();
        let mut out: Vec<char> = Vec::new();
        let mut i: usize = 0;
        while i < n
            invariant
                i <= n,
                self.todo.len() == n,
                out@ == encode_store(self@.take(i as int)),
            decreases n - i,
        {
            let ghost prefix = out@;
            let item = &self.todo[i];
            let mark = if item.finished {
                'x'
            } else {
                '-'
            };
            out.push(mark);
            let content_chars = string_to_chars(item.content.as_str());
            let m = content_chars.len();
            let mut j: usize = 0;
            while j < m
                invariant
                    j <= m,
                    content_chars.len() == m,
                    out@ == prefix + seq![mark] + escape(content_chars@.take(j as int)),
                decreases m - j,
            {
                let ghost done_part = content_chars@.take(j as int);
                let c = content_chars[j];
                if c == '\\' {
                    out.push('\\');
                    out.push('\\');
                } else if c == '\n' {
                    out.push('\\');
                    out.push('n');
                } else {
                    out.push(c);
                }
                proof {
                    lemma_escape_push(done_part, c);
                    assert(content_chars@.take(j + 1) =~= done_part.push(c));
                    assert(out@ =~= prefix + seq![mark] + escape(content_chars@.take(j + 1)));
                }
                j = j + 1;
            }
            out.push('\n');
            proof {
                assert(content_chars@.take(m as int) =~= self@[i as int].content);
                lemma_encode_store_push(self@.take(i as int), self@[i as int]);
                assert(out@ =~= encode_store(self@.take(i as int)) + encode_task(self@[i as int]));
                assert(self@.take(i + 1) =~= self@.take(i as int).push(self@[i as int]));
            }
            i = i + 1;
        }
        proof {
            assert(self@.take(n as int) =~= self@);
        }
        chars_to_string(&out)
    }

    /// Builds the store from the durable text, or the empty store when no
    /// durable file existed yet.  A text that is not a valid encoding is
    /// corruption and is reported as an error, never silently dropped.
    pub fn new(data: Option<&str>) -> (r: Result<Todo, TodoError>)
        ensures
            data is None ==> (r matches Ok(t) && t@ == Seq::<TaskView>::empty()),
            data matches Some(s) ==> match decode_store(s@) {
                Some(tasks) => r matches Ok(t) && t@ == tasks,
                None => r == Result::<Todo, TodoError>::Err(TodoError::CorruptData),
            },
    {
        if data.is_none() {
            return Ok(Todo::empty());
        }
        let s = data.unwrap();
        let chars = string_to_chars(s);
        let n = chars.len();
        let mut tasks: Vec<TodoItem> = Vec::new();
        let mut pos: usize = 0;
        proof {
            assert(chars@.skip(0) =~= chars@);
            assert(tasks@.map_values(|t: TodoItem| t@) =~= Seq::<TaskView>::empty());
            match decode_store(chars@) {
                Some(rest) => {
                    assert(Seq::<TaskView>::empty() + rest =~= rest);
                },
                None => {},
            }
        }
        while pos < n
            invariant
                pos <= n,
                chars.len() == n,
                chars@ == s@,
                data == Some(s),
                match decode_store(chars@.skip(pos as int)) {
                    Some(rest) => decode_store(chars@) == Some(
                        tasks@.map_values(|t: TodoItem| t@) + rest,
                    ),
                    None => decode_store(chars@) is None,
                },
            decreases n - pos,
        {
            let ghost suffix = chars@.skip(pos as int);
            let ghost acc = tasks@.map_values(|t: TodoItem| t@);
            // find the end of the current line
            let mut k: usize = pos;
            while k < n && chars[k] != '\n'
                invariant
                    pos <= k <= n,
                    chars.len() == n,
                    forall|j: int| pos <= j < k ==> chars@[j] != '\n',
                decreases n - k,
            {
                k = k + 1;
            }
            proof {
                assert(suffix.len() == n - pos);
                assert(forall|j: int| 0 <= j < suffix.len() ==> suffix[j] == chars@[pos + j]);
            }
            if k == n {
                // unterminated line
                proof {
                    lemma_first_newline_bounds(suffix);
                    assert(first_newline(suffix) == suffix.len());
                    assert(decode_store(suffix) is None);
                }
                return Err(TodoError::CorruptData);
            }
            proof {
                lemma_first_newline_at(suffix, k - pos);
            }
            if k == pos {
                // empty line: no completion mark
                proof {
                    assert(suffix.take(0) =~= Seq::<char>::empty());
                    assert(decode_store(suffix) is None);
                }
                return Err(TodoError::CorruptData);
            }
            let ghost line = suffix.take(k - pos);
            proof {
                assert(line.len() == k - pos);
                assert(line[0] == chars@[pos as int]);
            }
            let mark = chars[pos];
            if mark != 'x' && mark != '-' {
                proof {
                    assert(decode_store(suffix) is None);
                }
                return Err(TodoError::CorruptData);
            }
            // unescape the text between the mark and the newline
            let ghost esc = chars@.subrange(pos + 1, k as int);
            proof {
                assert(line.drop_first() =~= esc);
                if unescape(esc) is None {
                    assert(decode_store(suffix) is None);
                }
            }
            let mut content: Vec<char> = Vec::new();
            let mut j: usize = pos + 1;
            while j < k
                invariant
                    pos + 1 <= j <= k <= n,
                    pos < n,
                    chars.len() == n,
                    chars@ == s@,
                    data == Some(s),
                    esc == chars@.subrange(pos + 1, k as int),
                    unescape(esc) is None ==> decode_store(chars@.skip(pos as int)) is None,
                    decode_store(chars@.skip(pos as int)) is None ==> decode_store(chars@) is None,
                    match unescape(chars@.subrange(j as int, k as int)) {
                        Some(r) => unescape(esc) == Some(content@ + r),
                        None => unescape(esc) is None,
                    },
                decreases k - j,
            {
                let ghost part = chars@.subrange(j as int, k as int);
                let ghost prev = content@;
                let c = chars[j];
                if c == '\\' {
                    if j + 1 == k {
                        proof {
                            assert(part.len() == 1);
                            assert(part[0] == '\\');
                            assert(unescape(part) is None);
                        }
                        return Err(TodoError::CorruptData);
                    }
                    let c2 = chars[j + 1];
                    proof {
                        assert(part.len() >= 2);
                        assert(part[0] == '\\');
                        assert(part[1] == c2);
                        assert(part.skip(2) =~= chars@.subrange(j + 2, k as int));
                    }
                    if c2 == '\\' {
                        content.push('\\');
                    } else if c2 == 'n' {
                        content.push('\n');
                    } else {
                        proof {
                            assert(unescape(part) is None);
                        }
                        return Err(TodoError::CorruptData);
                    }
                    proof {
                        let ch: char = if c2 == '\\' {
                            '\\'
                        } else {
                            '\n'
                        };
                        assert(content@ =~= prev.push(ch));
                        match unescape(chars@.subrange(j + 2, k as int)) {
                            Some(r) => {
                                assert(unescape(part) == Some(seq![ch] + r));
                                assert(prev + (seq![ch] + r) =~= content@ + r);
                            },
                            None => {
                                assert(unescape(part) is None);
                            },
                        }
                    }
                    j = j + 2;
                } else {
                    content.push(c);
                    proof {
                        assert(part[0] == c);
                        assert(part.drop_first() =~= chars@.subrange(j + 1, k as int));
                        assert(content@ =~= prev.push(c));
                        match unescape(chars@.subrange(j + 1, k as int)) {
                            Some(r) => {
                                assert(unescape(part) == Some(seq![c] + r));
                                assert(prev + (seq![c] + r) =~= content@ + r);
                            },
                            None => {
                                assert(unescape(part) is None);
                            },
                        }
                    }
                    j = j + 1;
                }
            }
            proof {
                assert(chars@.subrange(k as int, k as int) =~= Seq::<char>::empty());
                assert(unescape(chars@.subrange(k as int, k as int)) == Some(Seq::<char>::empty()));
                assert(content@ + Seq::<char>::empty() =~= content@);
                assert(unescape(esc) == Some(content@));
            }
            let text = chars_to_string(&content);
            let finished = mark == 'x';
            let ghost new_task = TaskView { content: content@, finished: mark == 'x' };
            proof {
                // one decoding step on the suffix
                assert(suffix.len() > 0);
                assert(first_newline(suffix) == k - pos);
                assert(k - pos < suffix.len());
                assert(suffix.skip(k - pos + 1) =~= chars@.skip(k + 1));
                assert(line[0] == mark);
                match decode_store(chars@.skip(k + 1)) {
                    Some(ts) => {
                        assert(decode_store(suffix) == Some(seq![new_task] + ts));
                    },
                    None => {
                        assert(decode_store(suffix) is None);
                    },
                }
            }
            tasks.push(TodoItem::new(text, finished));
            proof {
                assert(tasks@.map_values(|t: TodoItem| t@) =~= acc.push(new_task));
                if decode_store(chars@.skip(k + 1)) is Some {
                    let ts = decode_store(chars@.skip(k + 1))->Some_0;
                    assert(acc + (seq![new_task] + ts) =~= acc.push(new_task) + ts);
                }
            }
            pos = k + 1;
        }
        proof {
            assert(chars@.skip(n as int) =~= Seq::<char>::empty());
            assert(decode_store(chars@.skip(n as int)) == Some(Seq::<TaskView>::empty()));
            assert(tasks@.map_values(|t: TodoItem| t@) + Seq::<TaskView>::empty() =~= tasks@
                .map_values(|t: TodoItem| t@));
        }
        Ok(Todo { todo: tasks })
    }
}

} // verus!
