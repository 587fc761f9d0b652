//! The task store: whole-file content and operations on a task collection.

use vstd::prelude::*;

use crate::codec::FormatErrorKind;
use crate::codec::all_digits;
use crate::codec::digit_value;
use crate::codec::encode_task_line;
use crate::codec::is_digit;
use crate::codec::parse_task_line_chars;
use crate::codec::to_chars;
use crate::task::Task;
use crate::task::unique_ids;
use vstd::multiset::Multiset;
use vstd::string::StrSliceExecFns;
use vstd::string::StringExecFns;
use crate::codec::encode_line;
use crate::codec::find_char;
use crate::codec::lemma_encode_line_no_newline;
use crate::codec::lemma_find_char_app;
use crate::codec::lemma_find_char_bounds;
use crate::codec::lemma_find_char_none;
use crate::codec::lemma_parse_encode_line;
use crate::codec::parse_line;
use crate::task::TaskView;
use crate::task::wf_task;
use crate::task::wf_tasks;

verus! {

/// The largest id among the tasks; zero when there are none.
pub open spec fn max_id(ts: Seq<TaskView>) -> nat
    decreases ts.len(),
{
    if ts.len() == 0 {
        0
    } else if ts.last().id as nat > max_id(ts.drop_last()) {
        ts.last().id as nat
    } else {
        max_id(ts.drop_last())
    }
}

/// The id a newly added task receives: one more than the largest in use,
/// or one for an empty store.
pub open spec fn spec_next_id(ts: Seq<TaskView>) -> nat {
    max_id(ts) + 1
}

/// The tasks with the given completion status, in store order.
pub open spec fn with_status(ts: Seq<TaskView>, completed: bool) -> Seq<TaskView>
    decreases ts.len(),
{
    if ts.len() == 0 {
        Seq::empty()
    } else if ts.last().completed == completed {
        with_status(ts.drop_last(), completed).push(ts.last())
    } else {
        with_status(ts.drop_last(), completed)
    }
}

// ---------------------------------------------------------------------------
// File content
// ---------------------------------------------------------------------------

/// The header line that opens every store file.
pub open spec fn header_chars() -> Seq<char> {
    seq![
        'i',
        'd',
        ',',
        'd',
        'e',
        's',
        'c',
        'r',
        'i',
        'p',
        't',
        'i',
        'o',
        'n',
        ',',
        'c',
        'o',
        'm',
        'p',
        'l',
        'e',
        't',
        'e',
        'd',
    ]
}

/// The opening of a cached-maximum metadata line, as an older layout of this
/// format wrote before the header.
pub open spec fn max_hint_prefix() -> Seq<char> {
    seq!['M', 'A', 'X', ',']
}

/// A metadata line carrying a cached maximum id. The store tolerates such a
/// line before the header and derives ids from the records instead.
pub open spec fn is_max_hint(l: Seq<char>) -> bool {
    l.len() > 4 && l.subrange(0, 4) == max_hint_prefix() && all_digits(
        l.subrange(4, l.len() as int),
    )
}

/// Splits content into lines at every newline. Any content has at least one
/// line; a trailing newline yields a final empty line.
pub open spec fn split_lines(s: Seq<char>) -> Seq<Seq<char>>
    decreases s.len(),
{
    match find_char(s, '\n') {
        Option::None => seq![s],
        Option::Some(i) => {
            proof {
                lemma_find_char_bounds(s, '\n');
            }
            seq![s.subrange(0, i)] + split_lines(s.subrange(i + 1, s.len() as int))
        },
    }
}

/// The record lines for a collection of tasks, in order.
pub open spec fn encoded_lines(ts: Seq<TaskView>) -> Seq<Seq<char>> {
    ts.map_values(|t: TaskView| encode_line(t))
}

/// The record part of the file: one newline-prefixed line per task.
pub open spec fn render_tasks(ts: Seq<TaskView>) -> Seq<char>
    decreases ts.len(),
{
    if ts.len() == 0 {
        Seq::empty()
    } else {
        render_tasks(ts.drop_last()) + seq!['\n'] + encode_line(ts.last())
    }
}

/// The full file content for a collection of tasks: the header, then one
/// line per task. An empty collection renders as the header alone.
pub open spec fn render_store(ts: Seq<TaskView>) -> Seq<char> {
    header_chars() + render_tasks(ts)
}

/// Decodes a sequence of record lines. An error carries the offset of the
/// offending line within the sequence.
pub open spec fn parse_records(lines: Seq<Seq<char>>) -> Result<
    Seq<TaskView>,
    (int, FormatErrorKind),
>
    decreases lines.len(),
{
    if lines.len() == 0 {
        Result::Ok(Seq::empty())
    } else {
        match parse_line(lines[0]) {
            Result::Err(k) => Result::Err((0, k)),
            Result::Ok(t) => match parse_records(lines.drop_first()) {
                Result::Ok(ts) => Result::Ok(seq![t] + ts),
                Result::Err(p) => Result::Err((p.0 + 1, p.1)),
            },
        }
    }
}

/// Decodes full file content: an optional cached-maximum line, the header,
/// then one record per line. An error carries the one-based number of the
/// offending line.
pub open spec fn spec_parse_store(content: Seq<char>) -> Result<
    Seq<TaskView>,
    (int, FormatErrorKind),
> {
    let lines = split_lines(content);
    let start: int = if is_max_hint(lines[0]) {
        1
    } else {
        0
    };
    if start >= lines.len() || lines[start] != header_chars() {
        Result::Err((start + 1, FormatErrorKind::BadHeader))
    } else {
        match parse_records(lines.subrange(start + 1, lines.len() as int)) {
            Result::Ok(ts) => Result::Ok(ts),
            Result::Err(p) => Result::Err((p.0 + start + 2, p.1)),
        }
    }
}

// ---------------------------------------------------------------------------
// The round trip for whole file content
// ---------------------------------------------------------------------------

/// Appending a newline and one newline-free line to any content adds exactly
/// one line to the split.
pub proof fn lemma_split_append(a: Seq<char>, l: Seq<char>)
    requires
        forall|i: int| 0 <= i < l.len() ==> l[i] != '\n',
    ensures
        split_lines(a + seq!['\n'] + l) == split_lines(a).push(l),
    decreases a.len(),
{
    let whole = a + seq!['\n'] + l;
    lemma_find_char_bounds(a, '\n');
    lemma_find_char_app(a, seq!['\n'] + l, '\n');
    assert(whole =~= a + (seq!['\n'] + l));
    assert((seq!['\n'] + l)[0] == '\n');
    match find_char(a, '\n') {
        Option::None => {
            assert(find_char(whole, '\n') == Option::Some(a.len() as int));
            assert(whole.subrange(0, a.len() as int) =~= a);
            let suf = whole.subrange(a.len() as int + 1, whole.len() as int);
            assert(suf =~= l);
            lemma_find_char_none(l, '\n');
            assert(split_lines(l) == seq![l]);
            assert(split_lines(whole) == seq![a] + split_lines(suf));
            assert(split_lines(whole) == seq![a] + seq![l]);
            assert(seq![a] + seq![l] =~= split_lines(a).push(l));
        },
        Option::Some(i) => {
            assert(find_char(whole, '\n') == Option::Some(i));
            assert(whole.subrange(0, i) =~= a.subrange(0, i));
            let asuf = a.subrange(i + 1, a.len() as int);
            assert(whole.subrange(i + 1, whole.len() as int) =~= asuf + seq!['\n'] + l);
            lemma_split_append(asuf, l);
            assert(split_lines(whole) == seq![a.subrange(0, i)] + split_lines(asuf).push(l));
            assert(seq![a.subrange(0, i)] + split_lines(asuf).push(l) =~= (seq![a.subrange(0, i)]
                + split_lines(asuf)).push(l));
        },
    }
}

/// The header contains no newline.
pub proof fn lemma_header_no_newline()
    ensures
        forall|i: int| 0 <= i < header_chars().len() ==> header_chars()[i] != '\n',
{
}

/// Rendered file content splits back into the header line followed by one
/// record line per task.
pub proof fn lemma_split_render(ts: Seq<TaskView>)
    requires
        wf_tasks(ts),
    ensures
        split_lines(render_store(ts)) == seq![header_chars()] + encoded_lines(ts),
    decreases ts.len(),
{
    lemma_header_no_newline();
    if ts.len() == 0 {
        assert(render_store(ts) =~= header_chars());
        lemma_find_char_none(header_chars(), '\n');
        assert(split_lines(render_store(ts)) == seq![header_chars()]);
        assert(seq![header_chars()] =~= seq![header_chars()] + encoded_lines(ts));
    } else {
        let prefix = ts.drop_last();
        let last = ts.last();
        assert(wf_tasks(prefix)) by {
            assert(forall|i: int| 0 <= i < prefix.len() ==> prefix[i] == ts[i]);
        }
        lemma_split_render(prefix);
        lemma_encode_line_no_newline(last);
        assert(render_store(ts) =~= render_store(prefix) + seq!['\n'] + encode_line(last));
        lemma_split_append(render_store(prefix), encode_line(last));
        assert(split_lines(render_store(ts)) == (seq![header_chars()] + encoded_lines(
            prefix,
        )).push(encode_line(last)));
        assert((seq![header_chars()] + encoded_lines(prefix)).push(encode_line(last))
            =~= seq![header_chars()] + encoded_lines(ts));
    }
}

/// Decoding the record lines of any task collection gives the collection
/// back.
pub proof fn lemma_parse_records_encoded(ts: Seq<TaskView>)
    ensures
        parse_records(encoded_lines(ts)) == Result::<Seq<TaskView>, (int, FormatErrorKind)>::Ok(
            ts,
        ),
    decreases ts.len(),
{
    let lines = encoded_lines(ts);
    assert(lines.len() == ts.len());
    if ts.len() == 0 {
        assert(ts =~= Seq::<TaskView>::empty());
    } else {
        assert(lines[0] == encode_line(ts[0]));
        lemma_parse_encode_line(ts[0]);
        assert(lines.drop_first() =~= encoded_lines(ts.drop_first()));
        lemma_parse_records_encoded(ts.drop_first());
        assert(seq![ts[0]] + ts.drop_first() =~= ts);
    }
}

/// The header line is no cached-maximum line.
pub proof fn lemma_header_not_hint()
    ensures
        !is_max_hint(header_chars()),
{
    assert(header_chars().subrange(0, 4)[0] == 'i');
    assert(max_hint_prefix()[0] == 'M');
}

/// Saving any persistable collection of tasks and loading the result gives
/// the same tasks back: the same ids, descriptions and completion flags, in
/// the same order.
pub proof fn lemma_store_round_trip(ts: Seq<TaskView>)
    requires
        wf_tasks(ts),
    ensures
        spec_parse_store(render_store(ts)) == Result::<Seq<TaskView>, (int, FormatErrorKind)>::Ok(
            ts,
        ),
{
    lemma_split_render(ts);
    let lines = split_lines(render_store(ts));
    assert(lines[0] == header_chars());
    lemma_header_not_hint();
    assert(lines.subrange(1, lines.len() as int) =~= encoded_lines(ts));
    lemma_parse_records_encoded(ts);
}

/// No line of a split holds a newline.
pub proof fn lemma_split_lines_no_newline(s: Seq<char>)
    ensures
        forall|i: int, j: int|
            0 <= i < split_lines(s).len() && 0 <= j < split_lines(s)[i].len()
                ==> #[trigger] split_lines(s)[i][j] != '\n',
    decreases s.len(),
{
    lemma_find_char_bounds(s, '\n');
    match find_char(s, '\n') {
        Option::None => {
            assert(split_lines(s) == seq![s]);
            assert(forall|j: int| 0 <= j < s.len() ==> s[j] != '\n');
            assert forall|i: int, j: int|
                0 <= i < split_lines(s).len() && 0 <= j < split_lines(s)[i].len() implies #[trigger] split_lines(
                s,
            )[i][j] != '\n' by {
                assert(split_lines(s)[i] == s);
            }
        },
        Option::Some(c) => {
            let head = s.subrange(0, c);
            let rest = s.subrange(c + 1, s.len() as int);
            lemma_split_lines_no_newline(rest);
            assert(split_lines(s) == seq![head] + split_lines(rest));
            assert forall|i: int, j: int|
                0 <= i < split_lines(s).len() && 0 <= j < split_lines(s)[i].len() implies #[trigger] split_lines(
                s,
            )[i][j] != '\n' by {
                if i == 0 {
                    assert(split_lines(s)[0] == head);
                    assert(head[j] == s[j]);
                } else {
                    assert(split_lines(s)[i] == split_lines(rest)[i - 1]);
                }
            }
        },
    }
}

/// Every task decoded from newline-free lines is persistable.
pub proof fn lemma_parse_records_wf(lines: Seq<Seq<char>>)
    requires
        forall|i: int, j: int|
            0 <= i < lines.len() && 0 <= j < lines[i].len() ==> #[trigger] lines[i][j] != '\n',
    ensures
        parse_records(lines) matches Result::Ok(ts) ==> wf_tasks(ts),
    decreases lines.len(),
{
    if lines.len() > 0 {
        assert(forall|j: int| 0 <= j < lines[0].len() ==> lines[0][j] != '\n');
        crate::codec::lemma_parse_line_wf(lines[0]);
        let rest = lines.drop_first();
        assert forall|i: int, j: int|
            0 <= i < rest.len() && 0 <= j < rest[i].len() implies #[trigger] rest[i][j] != '\n' by {
            assert(rest[i] == lines[i + 1]);
        }
        lemma_parse_records_wf(rest);
        match parse_line(lines[0]) {
            Result::Err(k) => {},
            Result::Ok(t) => {
                match parse_records(rest) {
                    Result::Err(p) => {},
                    Result::Ok(ts1) => {
                        let ts = seq![t] + ts1;
                        assert forall|i: int| 0 <= i < ts.len() implies wf_task(ts[i]) by {
                            if i > 0 {
                                assert(ts[i] == ts1[i - 1]);
                            } else {
                                assert(ts[0] == t);
                            }
                        }
                    },
                }
            },
        }
    }
}

/// Whatever loading accepts is persistable: loaded tasks can always be saved
/// again.
pub proof fn lemma_parse_store_wf(content: Seq<char>)
    ensures
        spec_parse_store(content) matches Result::Ok(ts) ==> wf_tasks(ts),
{
    lemma_split_lines_no_newline(content);
    let lines = split_lines(content);
    let start: int = if is_max_hint(lines[0]) {
        1
    } else {
        0
    };
    if start < lines.len() && lines[start] == header_chars() {
        let records = lines.subrange(start + 1, lines.len() as int);
        assert forall|i: int, j: int|
            0 <= i < records.len() && 0 <= j < records[i].len() implies #[trigger] records[i][j]
            != '\n' by {
            assert(records[i] == lines[i + start + 1]);
        }
        lemma_parse_records_wf(records);
    }
}

/// Loading, saving what was loaded, and loading again gives the same tasks:
/// a store file can be rewritten in place without loss.
pub proof fn lemma_load_save_load(content: Seq<char>, ts: Seq<TaskView>)
    requires
        spec_parse_store(content) == Result::<Seq<TaskView>, (int, FormatErrorKind)>::Ok(ts),
    ensures
        spec_parse_store(render_store(ts)) == Result::<Seq<TaskView>, (int, FormatErrorKind)>::Ok(
            ts,
        ),
{
    lemma_parse_store_wf(content);
    lemma_store_round_trip(ts);
}

// ---------------------------------------------------------------------------
// Errors
// ---------------------------------------------------------------------------

/// A decode failure: the one-based number of the offending line, and why it
/// does not decode.
#[derive(Clone, Copy, Debug, PartialEq, Eq, Structural)]
pub struct FormatError {
    pub line: usize,
    pub kind: FormatErrorKind,
}

/// The task a toggle was asked for does not exist.
#[derive(Clone, Copy, Debug, PartialEq, Eq, Structural)]
pub struct TaskNotFound {
    pub id: u64,
}

// ---------------------------------------------------------------------------
// Loading
// ---------------------------------------------------------------------------

/// Any content splits into at least one line.
pub proof fn lemma_split_lines_nonempty(s: Seq<char>)
    ensures
        split_lines(s).len() >= 1,
{
    match find_char(s, '\n') {
        Option::None => {},
        Option::Some(i) => {},
    }
}

/// Splitting off the first line: content that starts with a newline-free
/// line and a newline splits into that line followed by the split of the
/// remainder.
pub proof fn lemma_split_lines_step(cur: Seq<char>, rest: Seq<char>)
    requires
        forall|k: int| 0 <= k < cur.len() ==> cur[k] != '\n',
    ensures
        split_lines(cur + seq!['\n'] + rest) == seq![cur] + split_lines(rest),
{
    let whole = cur + seq!['\n'] + rest;
    lemma_find_char_none(cur, '\n');
    lemma_find_char_app(cur, seq!['\n'] + rest, '\n');
    assert(whole =~= cur + (seq!['\n'] + rest));
    assert((seq!['\n'] + rest)[0] == '\n');
    assert(find_char(whole, '\n') == Option::Some(cur.len() as int));
    assert(whole.subrange(0, cur.len() as int) =~= cur);
    assert(whole.subrange(cur.len() as int + 1, whole.len() as int) =~= rest);
}

/// The lines of the given characters, in order.
fn split_to_lines(v: &Vec<char>) -> (r: Vec<Vec<char>>)
    ensures
        r.deep_view() == split_lines(v@),
{
    let mut lines: Vec<Vec<char>> = Vec::new();
    let mut cur: Vec<char> = Vec::new();
    let mut i: usize = 0;
    proof {
        assert(cur@ + v@.skip(0) =~= v@);
        assert(lines.deep_view() =~= Seq::<Seq<char>>::empty());
        assert(Seq::<Seq<char>>::empty() + split_lines(v@) =~= split_lines(v@));
    }
    while i < v.len()
        invariant
            i <= v.len(),
            forall|k: int| 0 <= k < cur@.len() ==> cur@[k] != '\n',
            split_lines(v@) == lines.deep_view() + split_lines(cur@ + v@.skip(i as int)),
        decreases v.len() - i,
    {
        let c = v[i];
        if c == '\n' {
            proof {
                assert(cur@ + v@.skip(i as int) =~= cur@ + seq!['\n'] + v@.skip(i as int + 1));
                lemma_split_lines_step(cur@, v@.skip(i as int + 1));
            }
            let ghost lines0 = lines.deep_view();
            let ghost cur0 = cur@;
            lines.push(cur);
            cur = Vec::new();
            proof {
                assert(lines.deep_view() =~~= lines0.push(cur0));
                assert(cur@ + v@.skip(i as int + 1) =~= v@.skip(i as int + 1));
                assert(lines0 + (seq![cur0] + split_lines(v@.skip(i as int + 1))) =~= lines0.push(
                    cur0,
                ) + split_lines(v@.skip(i as int + 1)));
            }
        } else {
            let ghost cur0 = cur@;
            cur.push(c);
            proof {
                assert(cur@ + v@.skip(i as int + 1) =~= cur0 + v@.skip(i as int));
            }
        }
        i += 1;
    }
    proof {
        assert(cur@ + v@.skip(v@.len() as int) =~= cur@);
        lemma_find_char_none(cur@, '\n');
        assert(split_lines(cur@) == seq![cur@]);
    }
    let ghost lines0 = lines.deep_view();
    let ghost cur0 = cur@;
    lines.push(cur);
    proof {
        assert(lines.deep_view() =~~= lines0.push(cur0));
        assert(lines0 + seq![cur0] =~= lines0.push(cur0));
    }
    lines
}

/// Whether this line is a cached-maximum metadata line.
fn line_is_max_hint(l: &Vec<char>) -> (r: bool)
    ensures
        r == is_max_hint(l@),
{
    if l.len() <= 4 {
        return false;
    }
    if !(l[0] == 'M' && l[1] == 'A' && l[2] == 'X' && l[3] == ',') {
        proof {
            if l@.subrange(0, 4) == max_hint_prefix() {
                assert(l@[0] == l@.subrange(0, 4)[0]);
                assert(l@[1] == l@.subrange(0, 4)[1]);
                assert(l@[2] == l@.subrange(0, 4)[2]);
                assert(l@[3] == l@.subrange(0, 4)[3]);
            }
        }
        return false;
    }
    let mut j: usize = 4;
    while j < l.len()
        invariant
            4 <= j <= l@.len(),
            forall|k: int| 4 <= k < j ==> is_digit(l@[k]),
        decreases l.len() - j,
    {
        match digit_value(l[j]) {
            Option::None => {
                proof {
                    let tail = l@.subrange(4, l@.len() as int);
                    assert(tail[j - 4] == l@[j as int]);
                    assert(!all_digits(tail));
                }
                return false;
            },
            Option::Some(_) => {
                j += 1;
            },
        }
    }
    proof {
        assert(l@.subrange(0, 4) =~= max_hint_prefix());
        let tail = l@.subrange(4, l@.len() as int);
        assert forall|k: int| 0 <= k < tail.len() implies is_digit(tail[k]) by {
            assert(tail[k] == l@[k + 4]);
        }
    }
    true
}

/// The header line as a string.
pub fn header_string() -> (r: String)
    ensures
        r@ == header_chars(),
{
    let s = String::from_str("id,description,completed");
    proof {
        reveal_strlit("id,description,completed");
        assert(s@ =~= header_chars());
    }
    s
}

/// Whether two character vectors hold the same characters.
fn chars_eq(a: &Vec<char>, b: &Vec<char>) -> (r: bool)
    ensures
        r == (a@ == b@),
{
    if a.len() != b.len() {
        return false;
    }
    let mut j: usize = 0;
    while j < a.len()
        invariant
            j <= a@.len(),
            a@.len() == b@.len(),
            forall|k: int| 0 <= k < j ==> a@[k] == b@[k],
        decreases a.len() - j,
    {
        if a[j] != b[j] {
            return false;
        }
        j += 1;
    }
    proof {
        assert(a@ =~= b@);
    }
    true
}

/// Whether this line is the header line.
fn line_is_header(l: &Vec<char>) -> (r: bool)
    ensures
        r == (l@ == header_chars()),
{
    let h = header_string();
    let hc = to_chars(h.as_str());
    chars_eq(l, &hc)
}

/// Decodes full file content into tasks. On failure, names the one-based
/// number of the offending line and the reason, exactly as the content-level
/// decoding relation does.
pub fn parse_store(content: &str) -> (r: Result<Vec<Task>, FormatError>)
    ensures
        match r {
            Result::Ok(ts) => spec_parse_store(content@) == Result::<
                Seq<TaskView>,
                (int, FormatErrorKind),
            >::Ok(ts.deep_view()),
            Result::Err(e) => spec_parse_store(content@) == Result::<
                Seq<TaskView>,
                (int, FormatErrorKind),
            >::Err(((e.line as int, e.kind))),
        },
{
    let chars = to_chars(content);
    let lines = split_to_lines(&chars);
    let ghost lv = lines.deep_view();
    proof {
        lemma_split_lines_nonempty(content@);
        assert(lv.len() == lines@.len());
        assert(lines@[0].deep_view() =~= lines@[0]@);
        assert(lv[0] == lines@[0]@);
    }
    let start: usize = if line_is_max_hint(&lines[0]) {
        1
    } else {
        0
    };
    if start >= lines.len() {
        return Result::Err(FormatError { line: start + 1, kind: FormatErrorKind::BadHeader });
    }
    proof {
        assert(lines@[start as int].deep_view() =~= lines@[start as int]@);
        assert(lv[start as int] == lines@[start as int]@);
    }
    if !line_is_header(&lines[start]) {
        return Result::Err(FormatError { line: start + 1, kind: FormatErrorKind::BadHeader });
    }
    let ghost records = lv.subrange(start as int + 1, lv.len() as int);
    let mut tasks: Vec<Task> = Vec::new();
    let mut idx: usize = start + 1;
    proof {
        assert(tasks.deep_view() =~= Seq::<TaskView>::empty());
        match parse_records(records) {
            Result::Ok(ts2) => {
                assert(Seq::<TaskView>::empty() + ts2 =~= ts2);
            },
            Result::Err(p) => {},
        }
    }
    while idx < lines.len()
        invariant
            start + 1 <= idx <= lines@.len(),
            lv == lines.deep_view(),
            lv.len() == lines@.len(),
            lv == split_lines(content@),
            records == lv.subrange(start as int + 1, lv.len() as int),
            start < lv.len(),
            start == 0 || start == 1,
            (start == 1) == is_max_hint(lv[0]),
            lv[start as int] == header_chars(),
            match parse_records(lv.subrange(idx as int, lv.len() as int)) {
                Result::Ok(ts2) => parse_records(records) == Result::<
                    Seq<TaskView>,
                    (int, FormatErrorKind),
                >::Ok(tasks.deep_view() + ts2),
                Result::Err(p) => parse_records(records) == Result::<
                    Seq<TaskView>,
                    (int, FormatErrorKind),
                >::Err((p.0 + idx - start - 1, p.1)),
            },
        decreases lines@.len() - idx,
    {
        let ghost seg = lv.subrange(idx as int, lv.len() as int);
        proof {
            assert(seg.len() > 0);
            assert(seg[0] == lv[idx as int]);
            assert(lines@[idx as int].deep_view() =~= lines@[idx as int]@);
            assert(lv[idx as int] == lines@[idx as int]@);
            assert(seg.drop_first() =~= lv.subrange(idx as int + 1, lv.len() as int));
        }
        match parse_task_line_chars(&lines[idx]) {
            Result::Err(k) => {
                proof {
                    assert(parse_records(seg) == Result::<
                        Seq<TaskView>,
                        (int, FormatErrorKind),
                    >::Err((0int, k)));
                }
                return Result::Err(FormatError { line: idx + 1, kind: k });
            },
            Result::Ok(t) => {
                let ghost tasks0 = tasks.deep_view();
                let ghost tv = t@;
                tasks.push(t);
                proof {
                    assert(tasks.deep_view() =~= tasks0.push(tv));
                    match parse_records(seg.drop_first()) {
                        Result::Ok(ts2) => {
                            assert(parse_records(seg) == Result::<
                                Seq<TaskView>,
                                (int, FormatErrorKind),
                            >::Ok(seq![tv] + ts2));
                            assert(tasks0 + (seq![tv] + ts2) =~= tasks0.push(tv) + ts2);
                        },
                        Result::Err(p) => {},
                    }
                }
                idx += 1;
            },
        }
    }
    proof {
        assert(lv.subrange(lv.len() as int, lv.len() as int) =~= Seq::<Seq<char>>::empty());
        assert(parse_records(Seq::<Seq<char>>::empty()) == Result::<
            Seq<TaskView>,
            (int, FormatErrorKind),
        >::Ok(Seq::<TaskView>::empty()));
        assert(tasks.deep_view() + Seq::<TaskView>::empty() =~= tasks.deep_view());
    }
    Result::Ok(tasks)
}

// ---------------------------------------------------------------------------
// Saving
// ---------------------------------------------------------------------------

/// The file content for an empty store: the header alone.
pub fn empty_store_content() -> (r: String)
    ensures
        r@ == render_store(Seq::<TaskView>::empty()),
{
    let r = header_string();
    proof {
        assert(render_tasks(Seq::<TaskView>::empty()) == Seq::<char>::empty());
        assert(header_chars() + Seq::<char>::empty() =~= header_chars());
    }
    r
}

/// Encodes a whole collection of tasks as file content: the header, then one
/// record line per task, in order.
pub fn render_store_content(tasks: &Vec<Task>) -> (r: String)
    ensures
        r@ == render_store(tasks.deep_view()),
{
    let ghost tsv = tasks.deep_view();
    let mut out = header_string();
    let mut i: usize = 0;
    proof {
        assert(tsv.take(0) =~= Seq::<TaskView>::empty());
        assert(out@ =~= header_chars() + render_tasks(tsv.take(0)));
    }
    while i < tasks.len()
        invariant
            i <= tasks@.len(),
            tsv == tasks.deep_view(),
            tsv.len() == tasks@.len(),
            out@ == header_chars() + render_tasks(tsv.take(i as int)),
        decreases tasks@.len() - i,
    {
        out.append("\n");
        let line = encode_task_line(&tasks[i]);
        out.append(line.as_str());
        proof {
            reveal_strlit("\n");
            assert("\n"@ =~= seq!['\n']);
            assert(tasks@[i as int]@ == tsv[i as int]);
            assert(tsv.take(i as int + 1).drop_last() =~= tsv.take(i as int));
            assert(tsv.take(i as int + 1).last() == tsv[i as int]);
            assert(render_tasks(tsv.take(i as int + 1)) == render_tasks(tsv.take(i as int))
                + seq!['\n'] + encode_line(tsv[i as int]));
            assert(out@ =~= header_chars() + render_tasks(tsv.take(i as int + 1)));
        }
        i += 1;
    }
    proof {
        assert(tsv.take(tsv.len() as int) =~= tsv);
    }
    out
}

/// Extends existing file content with one more record line, leaving every
/// earlier byte as it was.
pub fn append_content(content: &str, t: &Task) -> (r: String)
    ensures
        r@ == content@ + seq!['\n'] + encode_line(t@),
{
    let mut out = content.to_owned();
    out.append("\n");
    let line = encode_task_line(t);
    out.append(line.as_str());
    proof {
        reveal_strlit("\n");
        assert("\n"@ =~= seq!['\n']);
        assert(out@ =~= content@ + seq!['\n'] + encode_line(t@));
    }
    out
}

/// Decoding one more well-formed record line after content that decodes
/// leaves the earlier tasks as they were and adds the new one at the end:
/// appending a record is as good as rewriting the whole store.
pub proof fn lemma_parse_records_push(
    lines: Seq<Seq<char>>,
    l: Seq<char>,
    ts: Seq<TaskView>,
    t: TaskView,
)
    requires
        parse_records(lines) == Result::<Seq<TaskView>, (int, FormatErrorKind)>::Ok(ts),
        parse_line(l) == Result::<TaskView, FormatErrorKind>::Ok(t),
    ensures
        parse_records(lines.push(l)) == Result::<Seq<TaskView>, (int, FormatErrorKind)>::Ok(
            ts.push(t),
        ),
    decreases lines.len(),
{
    if lines.len() == 0 {
        assert(lines.push(l)[0] == l);
        assert(lines.push(l).drop_first() =~= Seq::<Seq<char>>::empty());
        assert(parse_records(Seq::<Seq<char>>::empty()) == Result::<
            Seq<TaskView>,
            (int, FormatErrorKind),
        >::Ok(Seq::<TaskView>::empty()));
        assert(parse_records(lines.push(l)) == Result::<
            Seq<TaskView>,
            (int, FormatErrorKind),
        >::Ok(seq![t] + Seq::<TaskView>::empty()));
        assert(ts =~= Seq::<TaskView>::empty());
        assert(seq![t] + Seq::<TaskView>::empty() =~= ts.push(t));
    } else {
        match parse_line(lines[0]) {
            Result::Err(k) => {
                assert(false);
            },
            Result::Ok(t0) => {
                match parse_records(lines.drop_first()) {
                    Result::Err(p) => {
                        assert(false);
                    },
                    Result::Ok(ts1) => {
                        assert(ts == seq![t0] + ts1);
                        lemma_parse_records_push(lines.drop_first(), l, ts1, t);
                        assert(lines.push(l)[0] == lines[0]);
                        assert(lines.push(l).drop_first() =~= lines.drop_first().push(l));
                        assert(lines.push(l).len() > 0);
                        assert(parse_records(lines.push(l)) == Result::<
                            Seq<TaskView>,
                            (int, FormatErrorKind),
                        >::Ok(seq![t0] + ts1.push(t)));
                        assert(seq![t0] + ts1.push(t) =~= (seq![t0] + ts1).push(t));
                    },
                }
            },
        }
    }
}

/// Appending a newline and the record line of a persistable task to content
/// that decodes gives content that decodes to the same tasks plus the new
/// one.
pub proof fn lemma_append_round_trip(c: Seq<char>, ts: Seq<TaskView>, t: TaskView)
    requires
        spec_parse_store(c) == Result::<Seq<TaskView>, (int, FormatErrorKind)>::Ok(ts),
        wf_task(t),
    ensures
        spec_parse_store(c + seq!['\n'] + encode_line(t)) == Result::<
            Seq<TaskView>,
            (int, FormatErrorKind),
        >::Ok(ts.push(t)),
{
    lemma_encode_line_no_newline(t);
    lemma_split_append(c, encode_line(t));
    lemma_split_lines_nonempty(c);
    let lines = split_lines(c);
    let lines2 = split_lines(c + seq!['\n'] + encode_line(t));
    assert(lines2 == lines.push(encode_line(t)));
    assert(lines2[0] == lines[0]);
    let start: int = if is_max_hint(lines[0]) {
        1
    } else {
        0
    };
    assert(start < lines.len() && lines[start] == header_chars());
    assert(lines2[start] == lines[start]);
    let records = lines.subrange(start + 1, lines.len() as int);
    let records2 = lines2.subrange(start + 1, lines2.len() as int);
    assert(records2 =~= records.push(encode_line(t)));
    assert(parse_records(records) == Result::<Seq<TaskView>, (int, FormatErrorKind)>::Ok(ts));
    lemma_parse_encode_line(t);
    lemma_parse_records_push(records, encode_line(t), ts, t);
}

// ---------------------------------------------------------------------------
// Operations on a task collection
// ---------------------------------------------------------------------------

/// Every id in the collection is bounded by the maximum.
pub proof fn lemma_max_id_ge(ts: Seq<TaskView>, i: int)
    requires
        0 <= i < ts.len(),
    ensures
        ts[i].id as nat <= max_id(ts),
    decreases ts.len(),
{
    if i < ts.len() - 1 {
        lemma_max_id_ge(ts.drop_last(), i);
        assert(ts.drop_last()[i] == ts[i]);
    }
}

/// The id a new task receives is strictly larger than every id in use.
pub proof fn lemma_next_id_fresh(ts: Seq<TaskView>)
    ensures
        forall|i: int| 0 <= i < ts.len() ==> (ts[i].id as nat) < spec_next_id(ts),
{
    assert forall|i: int| 0 <= i < ts.len() implies (ts[i].id as nat) < spec_next_id(ts) by {
        lemma_max_id_ge(ts, i);
    }
}

/// Adding a task under the next fresh id keeps ids unique.
pub proof fn lemma_add_keeps_unique(ts: Seq<TaskView>, t: TaskView)
    requires
        unique_ids(ts),
        t.id as nat == spec_next_id(ts),
    ensures
        unique_ids(ts.push(t)),
{
    lemma_next_id_fresh(ts);
    assert forall|i: int, j: int| 0 <= i < j < ts.push(t).len() implies ts.push(t)[i].id
        != ts.push(t)[j].id by {
        if j < ts.len() {
            assert(ts.push(t)[i] == ts[i]);
            assert(ts.push(t)[j] == ts[j]);
        } else {
            assert(ts.push(t)[i] == ts[i]);
            assert(ts.push(t)[j] == t);
        }
    }
}

/// The id the store hands to the next task: one more than the largest in
/// use, or one for an empty store.
pub fn next_id(tasks: &Vec<Task>) -> (r: u64)
    requires
        max_id(tasks.deep_view()) < u64::MAX,
    ensures
        r as nat == spec_next_id(tasks.deep_view()),
{
    let ghost tsv = tasks.deep_view();
    let mut m: u64 = 0;
    let mut i: usize = 0;
    proof {
        assert(tsv.take(0) =~= Seq::<TaskView>::empty());
    }
    while i < tasks.len()
        invariant
            i <= tasks@.len(),
            tsv == tasks.deep_view(),
            tsv.len() == tasks@.len(),
            max_id(tsv) < u64::MAX,
            m as nat == max_id(tsv.take(i as int)),
        decreases tasks@.len() - i,
    {
        let id = tasks[i].id;
        proof {
            assert(tasks@[i as int]@ == tsv[i as int]);
            assert(tsv.take(i as int + 1).drop_last() =~= tsv.take(i as int));
            assert(tsv.take(i as int + 1).last() == tsv[i as int]);
        }
        if id > m {
            m = id;
        }
        i += 1;
    }
    proof {
        assert(tsv.take(tsv.len() as int) =~= tsv);
    }
    m + 1
}

/// Creates a task under the next fresh id, not yet completed, and appends it
/// to the collection.
pub fn add_task(tasks: &mut Vec<Task>, description: String) -> (r: u64)
    requires
        max_id(old(tasks).deep_view()) < u64::MAX,
    ensures
        r as nat == spec_next_id(old(tasks).deep_view()),
        final(tasks).deep_view() == old(tasks).deep_view().push(
            TaskView { id: r, description: description@, completed: false },
        ),
{
    let id = next_id(tasks);
    let ghost t0 = tasks.deep_view();
    let t = Task::new(id, description);
    let ghost tv = t@;
    tasks.push(t);
    proof {
        assert(tasks.deep_view() =~= t0.push(tv));
    }
    id
}

// ---------------------------------------------------------------------------
// Toggling
// ---------------------------------------------------------------------------

/// The position of the first task with the given id, if any.
pub open spec fn find_task(ts: Seq<TaskView>, id: u64) -> Option<int>
    decreases ts.len(),
{
    if ts.len() == 0 {
        Option::None
    } else if ts[0].id == id {
        Option::Some(0)
    } else {
        match find_task(ts.drop_first(), id) {
            Option::Some(i) => Option::Some(i + 1),
            Option::None => Option::None,
        }
    }
}

/// The same task with its completion flag flipped.
pub open spec fn toggled(t: TaskView) -> TaskView {
    TaskView { id: t.id, description: t.description, completed: !t.completed }
}

/// What toggling an id does to a collection: flips the first task with that
/// id, or leaves the collection unchanged when no task has it.
pub open spec fn toggle_result(ts: Seq<TaskView>, id: u64) -> Seq<TaskView> {
    match find_task(ts, id) {
        Option::Some(i) => ts.update(i, toggled(ts[i])),
        Option::None => ts,
    }
}

/// What a successful or failed task search means, position by position.
pub proof fn lemma_find_task_bounds(ts: Seq<TaskView>, id: u64)
    ensures
        match find_task(ts, id) {
            Option::Some(i) => 0 <= i < ts.len() && ts[i].id == id && forall|j: int|
                0 <= j < i ==> ts[j].id != id,
            Option::None => forall|j: int| 0 <= j < ts.len() ==> ts[j].id != id,
        },
    decreases ts.len(),
{
    if ts.len() > 0 && ts[0].id != id {
        lemma_find_task_bounds(ts.drop_first(), id);
        match find_task(ts.drop_first(), id) {
            Option::Some(i) => {
                assert(ts[i + 1] == ts.drop_first()[i]);
                assert forall|j: int| 0 <= j < i + 1 implies ts[j].id != id by {
                    if j > 0 {
                        assert(ts[j] == ts.drop_first()[j - 1]);
                    }
                }
            },
            Option::None => {
                assert forall|j: int| 0 <= j < ts.len() implies ts[j].id != id by {
                    if j > 0 {
                        assert(ts[j] == ts.drop_first()[j - 1]);
                    }
                }
            },
        }
    }
}

/// A position whose task has the id, with no earlier one, is exactly what
/// the search finds.
pub proof fn lemma_find_task_is(ts: Seq<TaskView>, id: u64, i: int)
    requires
        0 <= i < ts.len(),
        ts[i].id == id,
        forall|j: int| 0 <= j < i ==> ts[j].id != id,
    ensures
        find_task(ts, id) == Option::Some(i),
    decreases ts.len(),
{
    if i > 0 {
        assert(ts[0].id != id);
        assert(ts.drop_first()[i - 1] == ts[i]);
        assert forall|j: int| 0 <= j < i - 1 implies ts.drop_first()[j].id != id by {
            assert(ts.drop_first()[j] == ts[j + 1]);
        }
        lemma_find_task_is(ts.drop_first(), id, i - 1);
    }
}

/// Flips the completion flag of the first task with the given id; leaves the
/// collection unchanged and says so when no task has it.
pub fn toggle(tasks: &mut Vec<Task>, id: u64) -> (r: Result<(), TaskNotFound>)
    ensures
        final(tasks).deep_view() == toggle_result(old(tasks).deep_view(), id),
        r is Ok <==> find_task(old(tasks).deep_view(), id) is Some,
        r matches Result::Err(e) ==> e.id == id && final(tasks).deep_view() == old(tasks).deep_view(),
{
    let ghost tsv = old(tasks).deep_view();
    let mut i: usize = 0;
    while i < tasks.len()
        invariant
            i <= tasks@.len(),
            tasks@ == old(tasks)@,
            tsv == tasks.deep_view(),
            tsv.len() == tasks@.len(),
            forall|k: int| 0 <= k < i ==> tsv[k].id != id,
        decreases tasks@.len() - i,
    {
        proof {
            assert(tasks@[i as int]@ == tsv[i as int]);
        }
        if tasks[i].id == id {
            let t = tasks.remove(i);
            let flipped = Task { id: t.id, description: t.description, completed: !t.completed };
            let ghost fv = flipped@;
            tasks.insert(i, flipped);
            proof {
                lemma_find_task_is(tsv, id, i as int);
                assert(fv == toggled(tsv[i as int]));
                assert(tasks.deep_view() =~= tsv.update(i as int, toggled(tsv[i as int])));
            }
            return Result::Ok(());
        }
        i += 1;
    }
    proof {
        assert(find_task(tsv, id) is None) by {
            lemma_find_task_bounds(tsv, id);
            match find_task(tsv, id) {
                Option::Some(j) => {
                    assert(tsv[j].id != id);
                },
                Option::None => {},
            }
        }
    }
    Result::Err(TaskNotFound { id })
}

/// Toggling the same id twice restores the collection exactly: every task
/// keeps its id, description, and original completion flag.
pub proof fn lemma_toggle_twice(ts: Seq<TaskView>, id: u64)
    ensures
        toggle_result(toggle_result(ts, id), id) == ts,
{
    lemma_find_task_bounds(ts, id);
    match find_task(ts, id) {
        Option::None => {},
        Option::Some(i) => {
            let ts2 = ts.update(i, toggled(ts[i]));
            assert(ts2[i].id == id);
            assert forall|j: int| 0 <= j < i implies ts2[j].id != id by {
                assert(ts2[j] == ts[j]);
            }
            lemma_find_task_is(ts2, id, i);
            assert(toggled(toggled(ts[i])) == ts[i]);
            assert(ts2.update(i, toggled(ts2[i])) =~= ts);
        },
    }
}

// ---------------------------------------------------------------------------
// Listing
// ---------------------------------------------------------------------------

/// Splitting by status loses nothing and duplicates nothing: the two parts
/// together are exactly as many tasks as the whole.
pub proof fn lemma_partition_complete(ts: Seq<TaskView>)
    ensures
        with_status(ts, false).len() + with_status(ts, true).len() == ts.len(),
    decreases ts.len(),
{
    if ts.len() > 0 {
        lemma_partition_complete(ts.drop_last());
    }
}

/// Splitting by status also moves every task into exactly one part: the two
/// parts together hold exactly the tasks of the whole, multiplicity included.
pub proof fn lemma_partition_multiset(ts: Seq<TaskView>)
    ensures
        with_status(ts, false).to_multiset().add(with_status(ts, true).to_multiset())
            =~= ts.to_multiset(),
    decreases ts.len(),
{
    broadcast use vstd::seq_lib::group_to_multiset_ensures;
    broadcast use vstd::multiset::group_multiset_axioms;

    if ts.len() == 0 {
        assert(ts.to_multiset() =~= Multiset::<TaskView>::empty());
    } else {
        let prefix = ts.drop_last();
        let last = ts.last();
        lemma_partition_multiset(prefix);
        assert(ts =~= prefix.push(last));
        assert(ts.to_multiset() =~= prefix.to_multiset().insert(last));
        if last.completed {
            assert(with_status(ts, true).to_multiset() =~= with_status(
                prefix,
                true,
            ).to_multiset().insert(last));
            assert(with_status(ts, false).to_multiset().add(with_status(ts, true).to_multiset())
                =~= ts.to_multiset());
        } else {
            assert(with_status(ts, false).to_multiset() =~= with_status(
                prefix,
                false,
            ).to_multiset().insert(last));
            assert(with_status(ts, false).to_multiset().add(with_status(ts, true).to_multiset())
                =~= ts.to_multiset());
        }
    }
}

/// Splits the collection into the tasks still to do and the tasks done, each
/// in store order.
pub fn list(tasks: &Vec<Task>) -> (r: (Vec<Task>, Vec<Task>))
    ensures
        r.0.deep_view() == with_status(tasks.deep_view(), false),
        r.1.deep_view() == with_status(tasks.deep_view(), true),
{
    let ghost tsv = tasks.deep_view();
    let mut incomplete: Vec<Task> = Vec::new();
    let mut complete: Vec<Task> = Vec::new();
    let mut i: usize = 0;
    proof {
        assert(tsv.take(0) =~= Seq::<TaskView>::empty());
        assert(incomplete.deep_view() =~= Seq::<TaskView>::empty());
        assert(complete.deep_view() =~= Seq::<TaskView>::empty());
    }
    while i < tasks.len()
        invariant
            i <= tasks@.len(),
            tsv == tasks.deep_view(),
            tsv.len() == tasks@.len(),
            incomplete.deep_view() == with_status(tsv.take(i as int), false),
            complete.deep_view() == with_status(tsv.take(i as int), true),
        decreases tasks@.len() - i,
    {
        let t = tasks[i].duplicate();
        proof {
            assert(tasks@[i as int]@ == tsv[i as int]);
            assert(tsv.take(i as int + 1).drop_last() =~= tsv.take(i as int));
            assert(tsv.take(i as int + 1).last() == tsv[i as int]);
        }
        if t.completed {
            let ghost c0 = complete.deep_view();
            complete.push(t);
            proof {
                assert(complete.deep_view() =~= c0.push(tsv[i as int]));
            }
        } else {
            let ghost c0 = incomplete.deep_view();
            incomplete.push(t);
            proof {
                assert(incomplete.deep_view() =~= c0.push(tsv[i as int]));
            }
        }
        i += 1;
    }
    proof {
        assert(tsv.take(tsv.len() as int) =~= tsv);
    }
    (incomplete, complete)
}

} // verus!
