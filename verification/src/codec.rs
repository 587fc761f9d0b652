//! Encoding and decoding of one task record as a delimited text line.
//!
//! A record line is `<id>,<description>,<completed>`: the id in canonical
//! decimal, the completion flag as the literal token `true` or `false`, and
//! the description quoted when it contains the delimiter or a quote, with
//! quotes inside a quoted field doubled.

use vstd::prelude::*;

use crate::task::TaskView;
use vstd::string::StrSliceExecFns;
use vstd::string::StringExecFns;

verus! {

/// Why a piece of file content does not decode.
#[derive(Clone, Copy, Debug, PartialEq, Eq, Structural)]
pub enum FormatErrorKind {
    /// A line does not split into the three expected fields.
    WrongFieldCount,
    /// The id field is empty, not all digits, or too large for an id.
    BadId,
    /// The completion field is neither `true` nor `false`.
    BadCompleted,
    /// The file does not begin with the expected header line.
    BadHeader,
}

// ---------------------------------------------------------------------------
// Decimal digits
// ---------------------------------------------------------------------------

/// The character for one decimal digit; any value ten or above is no digit.
pub open spec fn digit_char(d: nat) -> char {
    if d == 0 {
        '0'
    } else if d == 1 {
        '1'
    } else if d == 2 {
        '2'
    } else if d == 3 {
        '3'
    } else if d == 4 {
        '4'
    } else if d == 5 {
        '5'
    } else if d == 6 {
        '6'
    } else if d == 7 {
        '7'
    } else if d == 8 {
        '8'
    } else {
        '9'
    }
}

/// The value of one digit character; ten for anything else.
pub open spec fn digit_val(c: char) -> nat {
    if c == '0' {
        0
    } else if c == '1' {
        1
    } else if c == '2' {
        2
    } else if c == '3' {
        3
    } else if c == '4' {
        4
    } else if c == '5' {
        5
    } else if c == '6' {
        6
    } else if c == '7' {
        7
    } else if c == '8' {
        8
    } else if c == '9' {
        9
    } else {
        10
    }
}

pub open spec fn is_digit(c: char) -> bool {
    digit_val(c) < 10
}

/// The canonical decimal rendering of a number: no sign, no leading zeros
/// (except for the single digit of zero itself).
pub open spec fn spec_digits(n: nat) -> Seq<char>
    decreases n,
{
    if n < 10 {
        seq![digit_char(n)]
    } else {
        spec_digits(n / 10).push(digit_char(n % 10))
    }
}

/// The numeric value of a digit string.
pub open spec fn dec_val(s: Seq<char>) -> nat
    decreases s.len(),
{
    if s.len() == 0 {
        0
    } else {
        dec_val(s.drop_last()) * 10 + digit_val(s.last())
    }
}

pub open spec fn all_digits(s: Seq<char>) -> bool {
    forall|i: int| 0 <= i < s.len() ==> is_digit(s[i])
}

// ---------------------------------------------------------------------------
// Searching within a line
// ---------------------------------------------------------------------------

/// The index of the first occurrence of `c` in `s`, if any.
pub open spec fn find_char(s: Seq<char>, c: char) -> Option<int>
    decreases s.len(),
{
    if s.len() == 0 {
        Option::None
    } else if s[0] == c {
        Option::Some(0)
    } else {
        match find_char(s.drop_first(), c) {
            Option::Some(i) => Option::Some(i + 1),
            Option::None => Option::None,
        }
    }
}

// ---------------------------------------------------------------------------
// Field quoting
// ---------------------------------------------------------------------------

/// A field must be quoted when it contains the delimiter or a quote.
pub open spec fn needs_quoting(s: Seq<char>) -> bool {
    exists|i: int| 0 <= i < s.len() && (s[i] == ',' || s[i] == '"')
}

/// The body of a quoted field: every quote doubled, all else unchanged.
pub open spec fn escape_quotes(s: Seq<char>) -> Seq<char>
    decreases s.len(),
{
    if s.len() == 0 {
        Seq::empty()
    } else if s[0] == '"' {
        seq!['"', '"'] + escape_quotes(s.drop_first())
    } else {
        seq![s[0]] + escape_quotes(s.drop_first())
    }
}

/// A description as it stands in a record line: quoted only when necessary.
pub open spec fn encode_field(s: Seq<char>) -> Seq<char> {
    if needs_quoting(s) {
        seq!['"'] + escape_quotes(s) + seq!['"']
    } else {
        s
    }
}

// ---------------------------------------------------------------------------
// Whole lines
// ---------------------------------------------------------------------------

pub open spec fn true_chars() -> Seq<char> {
    seq!['t', 'r', 'u', 'e']
}

pub open spec fn false_chars() -> Seq<char> {
    seq!['f', 'a', 'l', 's', 'e']
}

pub open spec fn bool_chars(b: bool) -> Seq<char> {
    if b {
        true_chars()
    } else {
        false_chars()
    }
}

/// The record line for one task.
pub open spec fn encode_line(t: TaskView) -> Seq<char> {
    spec_digits(t.id as nat) + seq![','] + encode_field(t.description) + seq![','] + bool_chars(
        t.completed,
    )
}

/// Reads a quoted field body: `s` is everything after the opening quote.
/// Returns the field content and whatever follows the closing quote, or
/// nothing when the quote is never closed.
pub open spec fn parse_quoted(s: Seq<char>) -> Option<(Seq<char>, Seq<char>)>
    decreases s.len(),
{
    if s.len() == 0 {
        Option::None
    } else if s[0] == '"' {
        if s.len() >= 2 && s[1] == '"' {
            match parse_quoted(s.subrange(2, s.len() as int)) {
                Option::Some(p) => Option::Some((seq!['"'] + p.0, p.1)),
                Option::None => Option::None,
            }
        } else {
            Option::Some((Seq::empty(), s.drop_first()))
        }
    } else {
        match parse_quoted(s.drop_first()) {
            Option::Some(p) => Option::Some((seq![s[0]] + p.0, p.1)),
            Option::None => Option::None,
        }
    }
}

/// Reads the description field and the delimiter after it: `s` is everything
/// after the first delimiter of the line. Returns the description and the
/// remainder of the line after the second delimiter.
pub open spec fn parse_desc(s: Seq<char>) -> Result<(Seq<char>, Seq<char>), FormatErrorKind> {
    if s.len() > 0 && s[0] == '"' {
        match parse_quoted(s.drop_first()) {
            Option::None => Result::Err(FormatErrorKind::WrongFieldCount),
            Option::Some(p) => {
                if p.1.len() > 0 && p.1[0] == ',' {
                    Result::Ok((p.0, p.1.drop_first()))
                } else {
                    Result::Err(FormatErrorKind::WrongFieldCount)
                }
            },
        }
    } else {
        match find_char(s, ',') {
            Option::None => Result::Err(FormatErrorKind::WrongFieldCount),
            Option::Some(i) => Result::Ok((s.subrange(0, i), s.subrange(i + 1, s.len() as int))),
        }
    }
}

/// Decodes one record line into a task, or says why it does not decode.
pub open spec fn parse_line(line: Seq<char>) -> Result<TaskView, FormatErrorKind> {
    match find_char(line, ',') {
        Option::None => Result::Err(FormatErrorKind::WrongFieldCount),
        Option::Some(i) => {
            let id_field = line.subrange(0, i);
            let rest = line.subrange(i + 1, line.len() as int);
            if id_field.len() == 0 || !all_digits(id_field) || dec_val(id_field) > u64::MAX {
                Result::Err(FormatErrorKind::BadId)
            } else {
                match parse_desc(rest) {
                    Result::Err(k) => Result::Err(k),
                    Result::Ok(p) => {
                        if p.1 == true_chars() {
                            Result::Ok(
                                TaskView {
                                    id: dec_val(id_field) as u64,
                                    description: p.0,
                                    completed: true,
                                },
                            )
                        } else if p.1 == false_chars() {
                            Result::Ok(
                                TaskView {
                                    id: dec_val(id_field) as u64,
                                    description: p.0,
                                    completed: false,
                                },
                            )
                        } else if find_char(p.1, ',') is Some {
                            Result::Err(FormatErrorKind::WrongFieldCount)
                        } else {
                            Result::Err(FormatErrorKind::BadCompleted)
                        }
                    },
                }
            }
        },
    }
}

// ---------------------------------------------------------------------------
// Facts about digits
// ---------------------------------------------------------------------------

/// The canonical decimal rendering is nonempty and consists of digits only.
pub proof fn lemma_digits_wf(n: nat)
    ensures
        spec_digits(n).len() >= 1,
        all_digits(spec_digits(n)),
    decreases n,
{
    if n >= 10 {
        lemma_digits_wf(n / 10);
        let prefix = spec_digits(n / 10);
        let whole = spec_digits(n);
        assert(whole == prefix.push(digit_char(n % 10)));
        assert forall|i: int| 0 <= i < whole.len() implies is_digit(whole[i]) by {
            if i < prefix.len() {
                assert(whole[i] == prefix[i]);
            }
        }
    }
}

/// A digit character is none of the structural characters of the format.
pub proof fn lemma_digit_plain(c: char)
    requires
        is_digit(c),
    ensures
        c != ',' && c != '"' && c != '\n',
{
}

/// Decoding the canonical decimal rendering gives the number back.
pub proof fn lemma_dec_val_digits(n: nat)
    ensures
        dec_val(spec_digits(n)) == n,
    decreases n,
{
    if n < 10 {
        let s = spec_digits(n);
        assert(s.len() == 1);
        assert(s.last() == digit_char(n));
        assert(s.drop_last() =~= Seq::<char>::empty());
        assert(dec_val(s.drop_last()) == 0);
        assert(dec_val(s) == digit_val(digit_char(n)));
    } else {
        lemma_dec_val_digits(n / 10);
        let prefix = spec_digits(n / 10);
        let s = spec_digits(n);
        assert(s == prefix.push(digit_char(n % 10)));
        assert(s.drop_last() =~= prefix);
        assert(s.last() == digit_char(n % 10));
        assert(digit_val(digit_char(n % 10)) == n % 10);
        assert(dec_val(s) == (n / 10) * 10 + n % 10);
        assert((n / 10) * 10 + n % 10 == n) by {
            vstd::arithmetic::div_mod::lemma_fundamental_div_mod(n as int, 10);
        }
    }
}

// ---------------------------------------------------------------------------
// Facts about searching
// ---------------------------------------------------------------------------

/// Searching never finds `c` in a sequence free of it.
pub proof fn lemma_find_char_none(s: Seq<char>, c: char)
    requires
        forall|i: int| 0 <= i < s.len() ==> s[i] != c,
    ensures
        find_char(s, c) is None,
    decreases s.len(),
{
    if s.len() > 0 {
        lemma_find_char_none(s.drop_first(), c);
    }
}

/// What a successful or failed search means, position by position.
pub proof fn lemma_find_char_bounds(s: Seq<char>, c: char)
    ensures
        match find_char(s, c) {
            Option::Some(i) => 0 <= i < s.len() && s[i] == c && forall|j: int|
                0 <= j < i ==> s[j] != c,
            Option::None => forall|j: int| 0 <= j < s.len() ==> s[j] != c,
        },
    decreases s.len(),
{
    if s.len() > 0 && s[0] != c {
        lemma_find_char_bounds(s.drop_first(), c);
        match find_char(s.drop_first(), c) {
            Option::Some(i) => {
                assert(find_char(s, c) == Option::Some(i + 1));
                assert(s[i + 1] == s.drop_first()[i]);
                assert forall|j: int| 0 <= j < i + 1 implies s[j] != c by {
                    if j > 0 {
                        assert(s[j] == s.drop_first()[j - 1]);
                    }
                }
            },
            Option::None => {
                assert forall|j: int| 0 <= j < s.len() implies s[j] != c by {
                    if j > 0 {
                        assert(s[j] == s.drop_first()[j - 1]);
                    }
                }
            },
        }
    }
}

/// Searching a concatenation: a hit in the first part wins; otherwise the
/// search continues in the second part, shifted by the first part's length.
pub proof fn lemma_find_char_app(a: Seq<char>, b: Seq<char>, c: char)
    ensures
        find_char(a + b, c) == (match find_char(a, c) {
            Option::Some(i) => Option::Some(i),
            Option::None => match find_char(b, c) {
                Option::Some(j) => Option::Some(a.len() + j),
                Option::None => Option::None::<int>,
            },
        }),
    decreases a.len(),
{
    if a.len() == 0 {
        assert(a + b =~= b);
    } else if (a + b)[0] == c {
    } else {
        assert((a + b).drop_first() =~= a.drop_first() + b);
        lemma_find_char_app(a.drop_first(), b, c);
    }
}

// ---------------------------------------------------------------------------
// Facts about quoting
// ---------------------------------------------------------------------------

/// Escaping introduces no character that was not a quote or already present.
pub proof fn lemma_escape_chars(s: Seq<char>, c: char)
    requires
        c != '"',
        forall|i: int| 0 <= i < s.len() ==> s[i] != c,
    ensures
        forall|i: int| 0 <= i < escape_quotes(s).len() ==> escape_quotes(s)[i] != c,
    decreases s.len(),
{
    if s.len() > 0 {
        lemma_escape_chars(s.drop_first(), c);
        let head: Seq<char> = if s[0] == '"' {
            seq!['"', '"']
        } else {
            seq![s[0]]
        };
        let tail = escape_quotes(s.drop_first());
        assert(escape_quotes(s) == head + tail);
        assert forall|i: int| 0 <= i < escape_quotes(s).len() implies escape_quotes(s)[i] != c by {
            if i >= head.len() {
                assert(escape_quotes(s)[i] == tail[i - head.len()]);
            }
        }
    }
}

/// Reading a quoted field body undoes the escaping: the content comes back
/// exactly, and the remainder is whatever followed the closing quote.
pub proof fn lemma_parse_quoted_escape(d: Seq<char>, rest: Seq<char>)
    requires
        rest.len() == 0 || rest[0] != '"',
    ensures
        parse_quoted(escape_quotes(d) + seq!['"'] + rest) == Option::Some((d, rest)),
    decreases d.len(),
{
    let s = escape_quotes(d) + seq!['"'] + rest;
    if d.len() == 0 {
        assert(s =~= seq!['"'] + rest);
        assert(s[0] == '"');
        assert(s.len() < 2 || s[1] != '"');
        assert(s.drop_first() =~= rest);
        assert(parse_quoted(s) == Option::Some((Seq::<char>::empty(), rest)));
        assert(Seq::<char>::empty() =~= d);
    } else if d[0] == '"' {
        lemma_parse_quoted_escape(d.drop_first(), rest);
        assert(escape_quotes(d) == seq!['"', '"'] + escape_quotes(d.drop_first()));
        assert(s[0] == '"');
        assert(s[1] == '"');
        assert(s.len() >= 2);
        assert(s.subrange(2, s.len() as int) =~= escape_quotes(d.drop_first()) + seq!['"'] + rest);
        assert(parse_quoted(s) == Option::Some((seq!['"'] + d.drop_first(), rest)));
        assert(seq!['"'] + d.drop_first() =~= d);
    } else {
        lemma_parse_quoted_escape(d.drop_first(), rest);
        assert(escape_quotes(d) == seq![d[0]] + escape_quotes(d.drop_first()));
        assert(s[0] == d[0]);
        assert(s.drop_first() =~= escape_quotes(d.drop_first()) + seq!['"'] + rest);
        assert(parse_quoted(s) == Option::Some((seq![d[0]] + d.drop_first(), rest)));
        assert(seq![d[0]] + d.drop_first() =~= d);
    }
}

/// The encoding of a persistable task stays on one line.
pub proof fn lemma_encode_line_no_newline(t: TaskView)
    requires
        crate::task::wf_task(t),
    ensures
        forall|i: int| 0 <= i < encode_line(t).len() ==> encode_line(t)[i] != '\n',
{
    let digits = spec_digits(t.id as nat);
    let field = encode_field(t.description);
    let tok = bool_chars(t.completed);
    lemma_digits_wf(t.id as nat);
    assert forall|i: int| 0 <= i < digits.len() implies digits[i] != '\n' by {
        lemma_digit_plain(digits[i]);
    }
    if needs_quoting(t.description) {
        lemma_escape_chars(t.description, '\n');
        let esc = escape_quotes(t.description);
        assert forall|i: int| 0 <= i < field.len() implies field[i] != '\n' by {
            assert(field == seq!['"'] + esc + seq!['"']);
            if 1 <= i < 1 + esc.len() {
                assert(field[i] == esc[i - 1]);
            }
        }
    }
    assert forall|i: int| 0 <= i < tok.len() implies tok[i] != '\n' by {}
    assert forall|i: int| 0 <= i < encode_line(t).len() implies encode_line(t)[i] != '\n' by {
        let line = encode_line(t);
        if i < digits.len() {
            assert(line[i] == digits[i]);
        } else if i == digits.len() {
            assert(line[i] == ',');
        } else if i < digits.len() + 1 + field.len() {
            assert(line[i] == field[i - digits.len() - 1]);
        } else if i == digits.len() + 1 + field.len() {
            assert(line[i] == ',');
        } else {
            assert(line[i] == tok[i - digits.len() - field.len() - 2]);
        }
    }
}

// ---------------------------------------------------------------------------
// The round trip for one line
// ---------------------------------------------------------------------------

/// Decoding the encoding of any task gives the task back, whatever its
/// description holds.
pub proof fn lemma_parse_encode_line(t: TaskView)
    ensures
        parse_line(encode_line(t)) == Result::<TaskView, FormatErrorKind>::Ok(t),
{
    let digits = spec_digits(t.id as nat);
    let field = encode_field(t.description);
    let tail0 = seq![','] + field + seq![','] + bool_chars(t.completed);
    let line = encode_line(t);
    lemma_digits_wf(t.id as nat);
    lemma_dec_val_digits(t.id as nat);
    assert(line =~= digits + tail0);
    assert forall|i: int| 0 <= i < digits.len() implies digits[i] != ',' by {
        lemma_digit_plain(digits[i]);
    }
    lemma_find_char_none(digits, ',');
    lemma_find_char_app(digits, tail0, ',');
    assert(tail0[0] == ',');
    assert(find_char(line, ',') == Option::Some(digits.len() as int));
    let i = digits.len() as int;
    assert(line.subrange(0, i) =~= digits);
    let rest = line.subrange(i + 1, line.len() as int);
    assert(rest =~= field + seq![','] + bool_chars(t.completed));
    lemma_parse_desc_encoded(t.description, bool_chars(t.completed));
    assert(parse_desc(rest) == Result::<(Seq<char>, Seq<char>), FormatErrorKind>::Ok(
        (t.description, bool_chars(t.completed)),
    ));
    if t.completed {
        assert(bool_chars(t.completed) == true_chars());
    } else {
        assert(bool_chars(t.completed) != true_chars()) by {
            assert(false_chars().len() != true_chars().len());
        }
        assert(bool_chars(t.completed) == false_chars());
    }
    assert(dec_val(digits) == t.id as nat);
    let parsed = parse_line(line);
    assert(parsed is Ok);
    assert(parsed->Ok_0 == t);
}

/// Reading the description field back from its encoding, for any tail that
/// starts with the second delimiter.
pub proof fn lemma_parse_desc_encoded(d: Seq<char>, tail: Seq<char>)
    ensures
        parse_desc(encode_field(d) + seq![','] + tail) == Result::<
            (Seq<char>, Seq<char>),
            FormatErrorKind,
        >::Ok((d, tail)),
{
    let s = encode_field(d) + seq![','] + tail;
    if needs_quoting(d) {
        assert(encode_field(d) == seq!['"'] + escape_quotes(d) + seq!['"']);
        assert(s[0] == '"');
        assert(s.len() > 0);
        assert(s.drop_first() =~= escape_quotes(d) + seq!['"'] + (seq![','] + tail));
        lemma_parse_quoted_escape(d, seq![','] + tail);
        assert(parse_quoted(s.drop_first()) == Option::Some((d, seq![','] + tail)));
        assert((seq![','] + tail)[0] == ',');
        assert((seq![','] + tail).drop_first() =~= tail);
    } else {
        assert(s =~= d + (seq![','] + tail));
        assert forall|i: int| 0 <= i < d.len() implies d[i] != ',' && d[i] != '"' by {
            assert(!(d[i] == ',' || d[i] == '"'));
        }
        if s.len() > 0 && s[0] == '"' {
            if d.len() > 0 {
                assert(s[0] == d[0]);
                assert(false);
            } else {
                assert(s[0] == (seq![','] + tail)[0]);
                assert(false);
            }
        }
        lemma_find_char_none(d, ',');
        lemma_find_char_app(d, seq![','] + tail, ',');
        assert((seq![','] + tail)[0] == ',');
        assert(find_char(s, ',') == Option::Some(d.len() as int));
        assert(s.subrange(0, d.len() as int) =~= d);
        assert(s.subrange(d.len() as int + 1, s.len() as int) =~= tail);
    }
}

/// A position that holds `c`, with no occurrence before it, is exactly what
/// the search finds.
pub proof fn lemma_find_char_is(s: Seq<char>, c: char, i: int)
    requires
        0 <= i < s.len(),
        s[i] == c,
        forall|j: int| 0 <= j < i ==> s[j] != c,
    ensures
        find_char(s, c) == Option::Some(i),
    decreases s.len(),
{
    if i > 0 {
        assert(s[0] != c);
        assert(s.drop_first()[i - 1] == s[i]);
        assert forall|j: int| 0 <= j < i - 1 implies s.drop_first()[j] != c by {
            assert(s.drop_first()[j] == s[j + 1]);
        }
        lemma_find_char_is(s.drop_first(), c, i - 1);
    }
}

/// The value of a digit string only grows as the string extends.
pub proof fn lemma_dec_val_prefix_le(s: Seq<char>, k: int)
    requires
        0 <= k <= s.len(),
    ensures
        dec_val(s.take(k)) <= dec_val(s),
    decreases s.len(),
{
    if k == s.len() {
        assert(s.take(k) =~= s);
    } else {
        assert(s.take(k) =~= s.drop_last().take(k));
        lemma_dec_val_prefix_le(s.drop_last(), k);
        assert(dec_val(s) == dec_val(s.drop_last()) * 10 + digit_val(s.last()));
        assert(dec_val(s.drop_last()) * 10 >= dec_val(s.drop_last()));
    }
}

/// Reading a quoted field body introduces no character that the raw text did
/// not hold.
pub proof fn lemma_parse_quoted_chars(s: Seq<char>, x: char)
    requires
        forall|k: int| 0 <= k < s.len() ==> s[k] != x,
    ensures
        parse_quoted(s) matches Option::Some(p) ==> forall|k: int|
            0 <= k < p.0.len() ==> p.0[k] != x,
    decreases s.len(),
{
    if s.len() == 0 {
    } else if s[0] == '"' {
        if s.len() >= 2 && s[1] == '"' {
            let tail = s.subrange(2, s.len() as int);
            assert(forall|k: int| 0 <= k < tail.len() ==> tail[k] == s[k + 2]);
            lemma_parse_quoted_chars(tail, x);
            match parse_quoted(tail) {
                Option::Some(p) => {
                    let c = seq!['"'] + p.0;
                    assert forall|k: int| 0 <= k < c.len() implies c[k] != x by {
                        if k == 0 {
                            assert(c[k] == s[0]);
                        } else {
                            assert(c[k] == p.0[k - 1]);
                        }
                    }
                },
                Option::None => {},
            }
        }
    } else {
        let tail = s.drop_first();
        lemma_parse_quoted_chars(tail, x);
        match parse_quoted(tail) {
            Option::Some(p) => {
                let c = seq![s[0]] + p.0;
                assert forall|k: int| 0 <= k < c.len() implies c[k] != x by {
                    if k == 0 {
                        assert(c[k] == s[0]);
                    } else {
                        assert(c[k] == p.0[k - 1]);
                    }
                }
            },
            Option::None => {},
        }
    }
}

/// Reading the description field introduces no character that the raw text
/// did not hold.
pub proof fn lemma_parse_desc_chars(s: Seq<char>, x: char)
    requires
        forall|k: int| 0 <= k < s.len() ==> s[k] != x,
    ensures
        parse_desc(s) matches Result::Ok(p) ==> forall|k: int|
            0 <= k < p.0.len() ==> p.0[k] != x,
{
    if s.len() > 0 && s[0] == '"' {
        let tail = s.drop_first();
        assert(forall|k: int| 0 <= k < tail.len() ==> tail[k] == s[k + 1]);
        lemma_parse_quoted_chars(tail, x);
    } else {
        match find_char(s, ',') {
            Option::None => {},
            Option::Some(i) => {
                lemma_find_char_bounds(s, ',');
                let f = s.subrange(0, i);
                assert(forall|k: int| 0 <= k < f.len() ==> f[k] == s[k]);
            },
        }
    }
}

/// A task decoded from a single line is persistable: its description spans a
/// single line too.
pub proof fn lemma_parse_line_wf(line: Seq<char>)
    requires
        forall|k: int| 0 <= k < line.len() ==> line[k] != '\n',
    ensures
        parse_line(line) matches Result::Ok(t) ==> crate::task::wf_task(t),
{
    match find_char(line, ',') {
        Option::None => {},
        Option::Some(i) => {
            lemma_find_char_bounds(line, ',');
            let rest = line.subrange(i + 1, line.len() as int);
            assert(forall|k: int| 0 <= k < rest.len() ==> rest[k] == line[k + i + 1]);
            lemma_parse_desc_chars(rest, '\n');
        },
    }
}

// ---------------------------------------------------------------------------
// Characters and strings
// ---------------------------------------------------------------------------

/// Relies on String::push: appends exactly the given character.
#[verifier::external_body]
fn push_char(s: &mut String, c: char)
    ensures
        final(s)@ == old(s)@.push(c),
{
    s.push(c);
}

/// The characters of a string, in order, as a vector.
pub fn to_chars(s: &str) -> (v: Vec<char>)
    ensures
        v@ == s@,
{
    let n = s.unicode_len();
    let mut v: Vec<char> = Vec::new();
    let mut i: usize = 0;
    while i < n
        invariant
            i <= n,
            n == s@.len(),
            v@ == s@.take(i as int),
        decreases n - i,
    {
        let c = s.get_char(i);
        v.push(c);
        proof {
            assert(s@.take(i as int).push(s@[i as int]) =~= s@.take(i as int + 1));
        }
        i += 1;
    }
    proof {
        assert(s@.take(n as int) =~= s@);
    }
    v
}

/// A string holding exactly the given characters, in order.
pub fn chars_to_string(v: &Vec<char>) -> (s: String)
    ensures
        s@ == v@,
{
    let mut s = String::new();
    let mut i: usize = 0;
    while i < v.len()
        invariant
            i <= v.len(),
            s@ == v@.take(i as int),
        decreases v.len() - i,
    {
        push_char(&mut s, v[i]);
        proof {
            assert(v@.take(i as int).push(v@[i as int]) =~= v@.take(i as int + 1));
        }
        i += 1;
    }
    proof {
        assert(v@.take(v@.len() as int) =~= v@);
    }
    s
}

// ---------------------------------------------------------------------------
// Encoding
// ---------------------------------------------------------------------------

fn push_digit(out: &mut String, d: u64)
    requires
        d < 10,
    ensures
        final(out)@ == old(out)@.push(digit_char(d as nat)),
{
    let c: char = if d == 0 {
        '0'
    } else if d == 1 {
        '1'
    } else if d == 2 {
        '2'
    } else if d == 3 {
        '3'
    } else if d == 4 {
        '4'
    } else if d == 5 {
        '5'
    } else if d == 6 {
        '6'
    } else if d == 7 {
        '7'
    } else if d == 8 {
        '8'
    } else {
        '9'
    };
    proof {
        assert(c == digit_char(d as nat));
    }
    push_char(out, c);
}

pub(crate) fn push_digits(out: &mut String, n: u64)
    ensures
        final(out)@ == old(out)@ + spec_digits(n as nat),
    decreases n,
{
    if n < 10 {
        push_digit(out, n);
        proof {
            assert(old(out)@.push(digit_char(n as nat)) =~= old(out)@ + spec_digits(n as nat));
        }
    } else {
        assert(n / 10 < n);
        push_digits(out, n / 10);
        push_digit(out, n % 10);
        proof {
            assert(spec_digits(n as nat) == spec_digits(n as nat / 10).push(
                digit_char(n as nat % 10),
            ));
            assert(n as nat / 10 == (n / 10) as nat);
            assert(n as nat % 10 == (n % 10) as nat);
            assert((old(out)@ + spec_digits((n / 10) as nat)).push(digit_char((n % 10) as nat))
                =~= old(out)@ + spec_digits(n as nat));
        }
    }
}

/// Whether the field must be quoted to survive the line format.
fn field_needs_quoting(d: &Vec<char>) -> (r: bool)
    ensures
        r == needs_quoting(d@),
{
    let mut i: usize = 0;
    while i < d.len()
        invariant
            i <= d.len(),
            forall|j: int| 0 <= j < i ==> !(d@[j] == ',' || d@[j] == '"'),
        decreases d.len() - i,
    {
        if d[i] == ',' || d[i] == '"' {
            return true;
        }
        i += 1;
    }
    false
}

/// Escaping splits over concatenation.
pub proof fn lemma_escape_append(a: Seq<char>, b: Seq<char>)
    ensures
        escape_quotes(a + b) == escape_quotes(a) + escape_quotes(b),
    decreases a.len(),
{
    if a.len() == 0 {
        assert(a + b =~= b);
        assert(escape_quotes(a) == Seq::<char>::empty());
        assert(escape_quotes(a) + escape_quotes(b) =~= escape_quotes(b));
    } else {
        assert((a + b)[0] == a[0]);
        assert((a + b).drop_first() =~= a.drop_first() + b);
        lemma_escape_append(a.drop_first(), b);
        if a[0] == '"' {
            assert(seq!['"', '"'] + (escape_quotes(a.drop_first()) + escape_quotes(b))
                =~= (seq!['"', '"'] + escape_quotes(a.drop_first())) + escape_quotes(b));
        } else {
            assert(seq![a[0]] + (escape_quotes(a.drop_first()) + escape_quotes(b)) =~= (seq![a[0]]
                + escape_quotes(a.drop_first())) + escape_quotes(b));
        }
    }
}

/// Escaping a single character.
pub proof fn lemma_escape_single(c: char)
    ensures
        escape_quotes(seq![c]) == (if c == '"' {
            seq!['"', '"']
        } else {
            seq![c]
        }),
{
    let s = seq![c];
    assert(s.len() == 1);
    assert(s[0] == c);
    assert(s.drop_first() =~= Seq::<char>::empty());
    assert(escape_quotes(s.drop_first()) == Seq::<char>::empty());
    if c == '"' {
        assert(escape_quotes(s) == seq!['"', '"'] + Seq::<char>::empty());
        assert(seq!['"', '"'] + Seq::<char>::empty() =~= seq!['"', '"']);
    } else {
        assert(escape_quotes(s) == seq![c] + Seq::<char>::empty());
        assert(seq![c] + Seq::<char>::empty() =~= seq![c]);
    }
}

fn push_escaped(out: &mut String, d: &Vec<char>)
    ensures
        final(out)@ == old(out)@ + escape_quotes(d@),
{
    let mut i: usize = 0;
    while i < d.len()
        invariant
            i <= d.len(),
            out@ == old(out)@ + escape_quotes(d@.take(i as int)),
        decreases d.len() - i,
    {
        let c = d[i];
        proof {
            assert(d@.take(i as int + 1) =~= d@.take(i as int) + seq![d@[i as int]]);
            lemma_escape_append(d@.take(i as int), seq![d@[i as int]]);
            lemma_escape_single(d@[i as int]);
        }
        if c == '"' {
            push_char(out, '"');
            push_char(out, '"');
            proof {
                assert((out@) =~= old(out)@ + escape_quotes(d@.take(i as int + 1)));
            }
        } else {
            push_char(out, c);
            proof {
                assert((out@) =~= old(out)@ + escape_quotes(d@.take(i as int + 1)));
            }
        }
        i += 1;
    }
    proof {
        assert(d@.take(d@.len() as int) =~= d@);
    }
}

fn push_plain(out: &mut String, d: &Vec<char>)
    ensures
        final(out)@ == old(out)@ + d@,
{
    let mut i: usize = 0;
    while i < d.len()
        invariant
            i <= d.len(),
            out@ == old(out)@ + d@.take(i as int),
        decreases d.len() - i,
    {
        push_char(out, d[i]);
        proof {
            assert((old(out)@ + d@.take(i as int)).push(d@[i as int]) =~= old(out)@ + d@.take(
                i as int + 1,
            ));
        }
        i += 1;
    }
    proof {
        assert(d@.take(d@.len() as int) =~= d@);
    }
}

/// Writes a description as it stands in a record line, quoted only when
/// necessary.
fn push_field(out: &mut String, d: &Vec<char>)
    ensures
        final(out)@ == old(out)@ + encode_field(d@),
{
    if field_needs_quoting(d) {
        push_char(out, '"');
        push_escaped(out, d);
        push_char(out, '"');
        proof {
            assert(out@ =~= old(out)@ + (seq!['"'] + escape_quotes(d@) + seq!['"']));
        }
    } else {
        push_plain(out, d);
    }
}

/// Encodes one task as its record line.
pub fn encode_task_line(t: &crate::task::Task) -> (r: String)
    ensures
        r@ == encode_line(t@),
{
    let mut out = String::new();
    push_digits(&mut out, t.id);
    push_char(&mut out, ',');
    let dchars = to_chars(t.description.as_str());
    push_field(&mut out, &dchars);
    push_char(&mut out, ',');
    if t.completed {
        out.append("true");
        proof {
            reveal_strlit("true");
            assert("true"@ =~= true_chars());
        }
    } else {
        out.append("false");
        proof {
            reveal_strlit("false");
            assert("false"@ =~= false_chars());
        }
    }
    proof {
        assert(out@ =~= encode_line(t@));
    }
    out
}

// ---------------------------------------------------------------------------
// Decoding
// ---------------------------------------------------------------------------

/// The position of the first occurrence of `c` at or after `from`, stated as
/// a search over the characters from `from` on.
fn find_from(v: &Vec<char>, from: usize, c: char) -> (r: Option<usize>)
    requires
        from <= v.len(),
    ensures
        match r {
            Option::Some(j) => from <= j < v@.len() && find_char(v@.skip(from as int), c)
                == Option::Some(j - from as int),
            Option::None => find_char(v@.skip(from as int), c) is None,
        },
{
    let ghost s = v@.skip(from as int);
    let mut j: usize = from;
    while j < v.len()
        invariant
            from <= j <= v.len(),
            s == v@.skip(from as int),
            forall|k: int| from <= k < j ==> v@[k] != c,
        decreases v.len() - j,
    {
        if v[j] == c {
            proof {
                assert(s[j - from as int] == v@[j as int]);
                assert forall|k: int| 0 <= k < j - from as int implies s[k] != c by {
                    assert(s[k] == v@[k + from]);
                }
                lemma_find_char_is(s, c, j - from as int);
            }
            return Option::Some(j);
        }
        j += 1;
    }
    proof {
        assert forall|k: int| 0 <= k < s.len() implies s[k] != c by {
            assert(s[k] == v@[k + from]);
        }
        lemma_find_char_none(s, c);
    }
    Option::None
}

/// The characters of `v` from `from` (inclusive) to `to` (exclusive).
fn copy_range(v: &Vec<char>, from: usize, to: usize) -> (r: Vec<char>)
    requires
        from <= to <= v.len(),
    ensures
        r@ == v@.subrange(from as int, to as int),
{
    let mut r: Vec<char> = Vec::new();
    let mut j: usize = from;
    while j < to
        invariant
            from <= j <= to <= v.len(),
            r@ == v@.subrange(from as int, j as int),
        decreases to - j,
    {
        r.push(v[j]);
        proof {
            assert(v@.subrange(from as int, j as int).push(v@[j as int]) =~= v@.subrange(
                from as int,
                j as int + 1,
            ));
        }
        j += 1;
    }
    r
}

/// The numeric value of one digit character.
pub(crate) fn digit_value(c: char) -> (r: Option<u64>)
    ensures
        match r {
            Option::Some(d) => d < 10 && digit_val(c) == d as nat,
            Option::None => digit_val(c) == 10,
        },
{
    match c {
        '0' => Option::Some(0),
        '1' => Option::Some(1),
        '2' => Option::Some(2),
        '3' => Option::Some(3),
        '4' => Option::Some(4),
        '5' => Option::Some(5),
        '6' => Option::Some(6),
        '7' => Option::Some(7),
        '8' => Option::Some(8),
        '9' => Option::Some(9),
        _ => Option::None,
    }
}

/// Reads the id field, the characters before `end`, as a number.
fn parse_id_field(v: &Vec<char>, end: usize) -> (r: Result<u64, FormatErrorKind>)
    requires
        end <= v.len(),
    ensures
        ({
            let f = v@.take(end as int);
            match r {
                Result::Ok(x) => f.len() > 0 && all_digits(f) && dec_val(f) <= u64::MAX && x as nat
                    == dec_val(f),
                Result::Err(k) => k == FormatErrorKind::BadId && (f.len() == 0 || !all_digits(f)
                    || dec_val(f) > u64::MAX),
            }
        }),
{
    let ghost f = v@.take(end as int);
    if end == 0 {
        return Result::Err(FormatErrorKind::BadId);
    }
    let mut acc: u64 = 0;
    let mut j: usize = 0;
    while j < end
        invariant
            j <= end,
            end <= v.len(),
            f == v@.take(end as int),
            all_digits(v@.take(j as int)),
            acc as nat == dec_val(v@.take(j as int)),
        decreases end - j,
    {
        let c = v[j];
        proof {
            assert(v@.take(j as int + 1) =~= v@.take(j as int).push(v@[j as int]));
            assert(v@.take(j as int + 1).drop_last() =~= v@.take(j as int));
            assert(dec_val(v@.take(j as int + 1)) == dec_val(v@.take(j as int)) * 10 + digit_val(
                v@[j as int],
            ));
        }
        match digit_value(c) {
            Option::None => {
                proof {
                    assert(!is_digit(f[j as int]));
                    assert(!all_digits(f));
                }
                return Result::Err(FormatErrorKind::BadId);
            },
            Option::Some(d) => {
                if acc > (u64::MAX - d) / 10 {
                    proof {
                        vstd::arithmetic::div_mod::lemma_fundamental_div_mod(
                            (u64::MAX - d) as int,
                            10,
                        );
                        assert(acc as nat * 10 + d as nat > u64::MAX as nat);
                        assert(dec_val(v@.take(j as int + 1)) > u64::MAX as nat);
                        assert(f.take(j as int + 1) =~= v@.take(j as int + 1));
                        lemma_dec_val_prefix_le(f, j as int + 1);
                        assert(dec_val(f) > u64::MAX);
                    }
                    return Result::Err(FormatErrorKind::BadId);
                }
                proof {
                    vstd::arithmetic::div_mod::lemma_fundamental_div_mod((u64::MAX - d) as int, 10);
                    assert(acc as nat * 10 + d as nat <= u64::MAX as nat);
                }
                acc = acc * 10 + d;
                proof {
                    assert forall|k: int| 0 <= k < j + 1 implies #[trigger] is_digit(
                        v@.take(j as int + 1)[k],
                    ) by {
                        if k < j {
                            assert(v@.take(j as int + 1)[k] == v@.take(j as int)[k]);
                        }
                    }
                }
                j += 1;
            },
        }
    }
    proof {
        assert(f =~= v@.take(end as int));
    }
    Result::Ok(acc)
}

/// Reads a quoted field body: `start` points just past the opening quote.
/// Returns the field content and the position just past the closing quote,
/// or nothing when the quote is never closed.
fn scan_quoted(v: &Vec<char>, start: usize) -> (r: Option<(Vec<char>, usize)>)
    requires
        start <= v.len(),
    ensures
        match r {
            Option::Some(p) => p.1 <= v@.len() && parse_quoted(v@.skip(start as int))
                == Option::Some((p.0@, v@.skip(p.1 as int))),
            Option::None => parse_quoted(v@.skip(start as int)) is None,
        },
{
    let ghost s = v@.skip(start as int);
    let mut content: Vec<char> = Vec::new();
    let mut j: usize = start;
    while j < v.len()
        invariant
            start <= j <= v.len(),
            s == v@.skip(start as int),
            match parse_quoted(v@.skip(j as int)) {
                Option::Some(p) => parse_quoted(s) == Option::Some((content@ + p.0, p.1)),
                Option::None => parse_quoted(s) is None,
            },
        decreases v.len() - j,
    {
        let ghost sj = v@.skip(j as int);
        proof {
            assert(sj.len() == v@.len() - j);
            assert(sj[0] == v@[j as int]);
        }
        if v[j] == '"' {
            if j + 1 < v.len() && v[j + 1] == '"' {
                let ghost content0 = content@;
                content.push('"');
                proof {
                    assert(sj[1] == v@[j as int + 1]);
                    assert(sj.subrange(2, sj.len() as int) =~= v@.skip(j as int + 2));
                    match parse_quoted(v@.skip(j as int + 2)) {
                        Option::Some(p2) => {
                            assert(parse_quoted(sj) == Option::Some((seq!['"'] + p2.0, p2.1)));
                            assert(content0 + (seq!['"'] + p2.0) =~= content@ + p2.0);
                        },
                        Option::None => {
                            assert(parse_quoted(sj) is None);
                        },
                    }
                }
                j += 2;
            } else {
                proof {
                    assert(sj.len() < 2 || sj[1] != '"') by {
                        if j + 1 < v.len() {
                            assert(sj[1] == v@[j as int + 1]);
                        }
                    }
                    assert(parse_quoted(sj) == Option::Some(
                        (Seq::<char>::empty(), sj.drop_first()),
                    ));
                    assert(sj.drop_first() =~= v@.skip(j as int + 1));
                    assert(content@ + Seq::<char>::empty() =~= content@);
                }
                return Option::Some((content, j + 1));
            }
        } else {
            let ghost content0 = content@;
            content.push(v[j]);
            proof {
                assert(sj.drop_first() =~= v@.skip(j as int + 1));
                match parse_quoted(v@.skip(j as int + 1)) {
                    Option::Some(p2) => {
                        assert(parse_quoted(sj) == Option::Some((seq![sj[0]] + p2.0, p2.1)));
                        assert(content0 + (seq![sj[0]] + p2.0) =~= content@ + p2.0);
                    },
                    Option::None => {
                        assert(parse_quoted(sj) is None);
                    },
                }
            }
            j += 1;
        }
    }
    proof {
        assert(v@.skip(j as int) =~= Seq::<char>::empty());
        assert(parse_quoted(v@.skip(j as int)) is None);
    }
    Option::None
}

/// Reads the description field starting at `start`, just past the first
/// delimiter. Returns the field content and the position just past the
/// second delimiter.
fn parse_desc_field(v: &Vec<char>, start: usize) -> (r: Result<
    (Vec<char>, usize),
    FormatErrorKind,
>)
    requires
        start <= v.len(),
    ensures
        match r {
            Result::Ok(p) => p.1 <= v@.len() && parse_desc(v@.skip(start as int)) == Result::<
                (Seq<char>, Seq<char>),
                FormatErrorKind,
            >::Ok((p.0@, v@.skip(p.1 as int))),
            Result::Err(k) => parse_desc(v@.skip(start as int)) == Result::<
                (Seq<char>, Seq<char>),
                FormatErrorKind,
            >::Err(k),
        },
{
    let ghost s = v@.skip(start as int);
    if start < v.len() && v[start] == '"' {
        proof {
            assert(s.len() > 0);
            assert(s[0] == v@[start as int]);
            assert(s.drop_first() =~= v@.skip(start as int + 1));
        }
        match scan_quoted(v, start + 1) {
            Option::None => Result::Err(FormatErrorKind::WrongFieldCount),
            Option::Some(p) => {
                let (content, k) = p;
                let ghost rest = v@.skip(k as int);
                if k < v.len() && v[k] == ',' {
                    proof {
                        assert(rest.len() > 0);
                        assert(rest[0] == v@[k as int]);
                        assert(rest.drop_first() =~= v@.skip(k as int + 1));
                    }
                    Result::Ok((content, k + 1))
                } else {
                    proof {
                        if k < v.len() {
                            assert(rest[0] == v@[k as int]);
                        } else {
                            assert(rest.len() == 0);
                        }
                    }
                    Result::Err(FormatErrorKind::WrongFieldCount)
                }
            },
        }
    } else {
        proof {
            if start < v.len() {
                assert(s[0] == v@[start as int]);
            } else {
                assert(s.len() == 0);
            }
        }
        match find_from(v, start, ',') {
            Option::None => Result::Err(FormatErrorKind::WrongFieldCount),
            Option::Some(j) => {
                let content = copy_range(v, start, j);
                proof {
                    let i = j - start as int;
                    assert(s.subrange(0, i) =~= v@.subrange(start as int, j as int));
                    assert(s.subrange(i + 1, s.len() as int) =~= v@.skip(j as int + 1));
                }
                Result::Ok((content, j + 1))
            },
        }
    }
}

/// Reads the completion field: the whole remainder of the line from `start`.
fn parse_bool_field(v: &Vec<char>, start: usize) -> (r: Result<bool, FormatErrorKind>)
    requires
        start <= v.len(),
    ensures
        ({
            let tail = v@.skip(start as int);
            match r {
                Result::Ok(b) => tail == bool_chars(b),
                Result::Err(k) => tail != true_chars() && tail != false_chars() && k == (
                if find_char(tail, ',') is Some {
                    FormatErrorKind::WrongFieldCount
                } else {
                    FormatErrorKind::BadCompleted
                }),
            }
        }),
{
    let ghost tail = v@.skip(start as int);
    let n = v.len() - start;
    if n == 4 && v[start] == 't' && v[start + 1] == 'r' && v[start + 2] == 'u' && v[start + 3]
        == 'e' {
        proof {
            assert(tail =~= true_chars());
        }
        return Result::Ok(true);
    }
    if n == 5 && v[start] == 'f' && v[start + 1] == 'a' && v[start + 2] == 'l' && v[start + 3]
        == 's' && v[start + 4] == 'e' {
        proof {
            assert(tail =~= false_chars());
        }
        return Result::Ok(false);
    }
    proof {
        assert(tail != true_chars()) by {
            if tail == true_chars() {
                assert(tail.len() == 4);
                assert(v@[start as int] == tail[0]);
                assert(v@[start as int + 1] == tail[1]);
                assert(v@[start as int + 2] == tail[2]);
                assert(v@[start as int + 3] == tail[3]);
            }
        }
        assert(tail != false_chars()) by {
            if tail == false_chars() {
                assert(tail.len() == 5);
                assert(v@[start as int] == tail[0]);
                assert(v@[start as int + 1] == tail[1]);
                assert(v@[start as int + 2] == tail[2]);
                assert(v@[start as int + 3] == tail[3]);
                assert(v@[start as int + 4] == tail[4]);
            }
        }
    }
    match find_from(v, start, ',') {
        Option::Some(_) => Result::Err(FormatErrorKind::WrongFieldCount),
        Option::None => Result::Err(FormatErrorKind::BadCompleted),
    }
}

/// Decodes one record line, given as characters, into a task.
pub fn parse_task_line_chars(line: &Vec<char>) -> (r: Result<crate::task::Task, FormatErrorKind>)
    ensures
        match r {
            Result::Ok(t) => parse_line(line@) == Result::<TaskView, FormatErrorKind>::Ok(t@),
            Result::Err(k) => parse_line(line@) == Result::<TaskView, FormatErrorKind>::Err(k),
        },
{
    proof {
        assert(line@.skip(0) =~= line@);
    }
    let n = line.len();
    match find_from(line, 0, ',') {
        Option::None => Result::Err(FormatErrorKind::WrongFieldCount),
        Option::Some(i) => {
            proof {
                assert(i < n);
                assert(line@.subrange(0, i as int) =~= line@.take(i as int));
                assert(line@.subrange(i as int + 1, line@.len() as int) =~= line@.skip(
                    i as int + 1,
                ));
            }
            match parse_id_field(line, i) {
                Result::Err(k) => Result::Err(k),
                Result::Ok(id) => {
                    match parse_desc_field(line, i + 1) {
                        Result::Err(k) => Result::Err(k),
                        Result::Ok(p) => {
                            let (desc_chars, tail_start) = p;
                            match parse_bool_field(line, tail_start) {
                                Result::Err(k) => Result::Err(k),
                                Result::Ok(b) => {
                                    let description = chars_to_string(&desc_chars);
                                    let t = crate::task::Task { id, description, completed: b };
                                    Result::Ok(t)
                                },
                            }
                        },
                    }
                },
            }
        },
    }
}

/// Decodes one record line into a task, or says why it does not decode.
pub fn parse_task_line(line: &str) -> (r: Result<crate::task::Task, FormatErrorKind>)
    ensures
        match r {
            Result::Ok(t) => parse_line(line@) == Result::<TaskView, FormatErrorKind>::Ok(t@),
            Result::Err(k) => parse_line(line@) == Result::<TaskView, FormatErrorKind>::Err(k),
        },
{
    let chars = to_chars(line);
    parse_task_line_chars(&chars)
}

} // verus!
