//! Reading one command from one line of text: `buy|sell ID PRICE QTY` or `cancel ID`,
//! with `#` starting a comment.
use vstd::prelude::*;

use crate::model::{Command, Order, Side};

verus! {

/// Why a line is not a command.
#[derive(Debug, PartialEq, Eq)]
pub enum ParseError {
    /// A field that should be a number is not one; it holds the field's characters.
    InvalidNumber(Vec<char>),
    /// The fields are not `buy ID PRICE QTY`, `sell ID PRICE QTY` or `cancel ID`.
    Malformed,
}

/// Unicode white space, as `char::is_whitespace` defines it.
pub open spec fn is_space(c: char) -> bool {
    let u = c as u32;
    ||| 9 <= u <= 13
    ||| u == 32
    ||| u == 0x85
    ||| u == 0xA0
    ||| u == 0x1680
    ||| 0x2000 <= u <= 0x200A
    ||| u == 0x2028
    ||| u == 0x2029
    ||| u == 0x202F
    ||| u == 0x205F
    ||| u == 0x3000
}

/// The part of a line before its first `#`.
pub open spec fn before_comment(line: Seq<char>) -> Seq<char>
    decreases line.len(),
{
    if line.len() == 0 || line[0] == '#' {
        Seq::empty()
    } else {
        seq![line[0]] + before_comment(line.drop_first())
    }
}

/// Length of the run of non-space characters a text starts with.
pub open spec fn word_len(s: Seq<char>) -> int
    decreases s.len(),
{
    if s.len() == 0 || is_space(s[0]) {
        0
    } else {
        1 + word_len(s.drop_first())
    }
}

/// The maximal runs of non-space characters, in order.
pub open spec fn tokens(s: Seq<char>) -> Seq<Seq<char>>
    decreases s.len(),
{
    if s.len() == 0 {
        Seq::empty()
    } else if is_space(s[0]) {
        tokens(s.drop_first())
    } else {
        let n = word_len(s);
        if 0 < n <= s.len() {
            seq![s.take(n)] + tokens(s.skip(n))
        } else {
            Seq::empty()
        }
    }
}

pub open spec fn is_digit(c: char) -> bool {
    '0' <= c && c <= '9'
}

/// The value of a run of decimal digits.
pub open spec fn digits_value(d: Seq<char>) -> int
    decreases d.len(),
{
    if d.len() == 0 {
        0
    } else {
        digits_value(d.drop_last()) * 10 + (d.last() as int - '0' as int)
    }
}

/// A field without its leading `+`, if it has one.
pub open spec fn unsigned_digits(field: Seq<char>) -> Seq<char> {
    if field.len() > 0 && field[0] == '+' {
        field.drop_first()
    } else {
        field
    }
}

/// A field as `u64::from_str` reads it: an optional `+`, then one or more decimal digits,
/// with a value that fits in 64 bits.
pub open spec fn number(field: Seq<char>) -> Option<u64> {
    let d = unsigned_digits(field);
    if d.len() > 0 && (forall|i: int| 0 <= i < d.len() ==> is_digit(#[trigger] d[i]))
        && digits_value(d) <= u64::MAX {
        Some(digits_value(d) as u64)
    } else {
        None
    }
}

/// What a line says.
pub enum Reading {
    Blank,
    Parsed(Command),
    InvalidNumber(Seq<char>),
    Malformed,
}

/// Read the fields of a line.
pub open spec fn read(fields: Seq<Seq<char>>) -> Reading {
    if fields.len() == 0 {
        Reading::Blank
    } else if fields.len() == 4 && (fields[0] == seq!['b', 'u', 'y'] || fields[0] == seq![
        's',
        'e',
        'l',
        'l',
    ]) {
        let side = if fields[0] == seq!['b', 'u', 'y'] {
            Side::Buy
        } else {
            Side::Sell
        };
        match (number(fields[1]), number(fields[2]), number(fields[3])) {
            (None, _, _) => Reading::InvalidNumber(fields[1]),
            (Some(_), None, _) => Reading::InvalidNumber(fields[2]),
            (Some(_), Some(_), None) => Reading::InvalidNumber(fields[3]),
            (Some(id), Some(price), Some(quantity)) => Reading::Parsed(
                Command::Place(Order { id, side, price, quantity }),
            ),
        }
    } else if fields.len() == 2 && fields[0] == seq!['c', 'a', 'n', 'c', 'e', 'l'] {
        match number(fields[1]) {
            None => Reading::InvalidNumber(fields[1]),
            Some(id) => Reading::Parsed(Command::Cancel(id)),
        }
    } else {
        Reading::Malformed
    }
}

/// The result of `parse` says what the line says.
pub open spec fn reports(r: Result<Option<Command>, ParseError>, reading: Reading) -> bool {
    match reading {
        Reading::Blank => r == Ok::<Option<Command>, ParseError>(None),
        Reading::Parsed(c) => r == Ok::<Option<Command>, ParseError>(Some(c)),
        Reading::InvalidNumber(field) => r matches Err(ParseError::InvalidNumber(v)) && v@ == field,
        Reading::Malformed => r matches Err(ParseError::Malformed),
    }
}

// ---------------------------------------------------------------- lemmas

proof fn lemma_before_comment(line: Seq<char>, end: int)
    requires
        0 <= end <= line.len(),
        forall|k: int| 0 <= k < end ==> line[k] != '#',
        end == line.len() || line[end] == '#',
    ensures
        before_comment(line) == line.take(end),
    decreases line.len(),
{
    if line.len() == 0 || line[0] == '#' {
        assert(line.take(end) =~= Seq::<char>::empty());
    } else {
        lemma_before_comment(line.drop_first(), end - 1);
        assert(seq![line[0]] + line.drop_first().take(end - 1) =~= line.take(end));
    }
}

proof fn lemma_word_len(s: Seq<char>, i: int, j: int)
    requires
        0 <= i <= j <= s.len(),
        forall|k: int| i <= k < j ==> !is_space(s[k]),
        j == s.len() || is_space(s[j]),
    ensures
        word_len(s.skip(i)) == j - i,
    decreases j - i,
{
    if i < j {
        lemma_word_len(s, i + 1, j);
        assert(s.skip(i).drop_first() =~= s.skip(i + 1));
    }
}

proof fn lemma_tokens_space(s: Seq<char>, i: int)
    requires
        0 <= i < s.len(),
        is_space(s[i]),
    ensures
        tokens(s.skip(i)) == tokens(s.skip(i + 1)),
{
    assert(s.skip(i).drop_first() =~= s.skip(i + 1));
}

proof fn lemma_tokens_word(s: Seq<char>, i: int, j: int)
    requires
        0 <= i < j <= s.len(),
        forall|k: int| i <= k < j ==> !is_space(s[k]),
        j == s.len() || is_space(s[j]),
    ensures
        tokens(s.skip(i)) == seq![s.subrange(i, j)] + tokens(s.skip(j)),
{
    lemma_word_len(s, i, j);
    assert(s.skip(i).take(j - i) =~= s.subrange(i, j));
    assert(s.skip(i).skip(j - i) =~= s.skip(j));
}

proof fn lemma_digits_value_take(d: Seq<char>, k: int)
    requires
        0 <= k <= d.len(),
        forall|i: int| 0 <= i < d.len() ==> is_digit(#[trigger] d[i]),
    ensures
        0 <= digits_value(d.take(k)) <= digits_value(d),
    decreases d.len(),
{
    if k == d.len() {
        assert(d.take(k) =~= d);
        if d.len() > 0 {
            lemma_digits_value_take(d.drop_last(), k - 1);
            assert(d.drop_last().take(k - 1) =~= d.drop_last());
        }
    } else {
        lemma_digits_value_take(d.drop_last(), k);
        assert(d.drop_last().take(k) =~= d.take(k));
        assert(d.drop_last() =~= d.drop_last().take(d.len() - 1));
        lemma_digits_value_take(d.drop_last(), d.len() - 1);
    }
}

// ---------------------------------------------------------------- only the trimmed text before `#` counts

/// A text without its leading white space.
pub open spec fn trim_start(s: Seq<char>) -> Seq<char>
    decreases s.len(),
{
    if s.len() > 0 && is_space(s[0]) {
        trim_start(s.drop_first())
    } else {
        s
    }
}

/// A text without its trailing white space.
pub open spec fn trim_end(s: Seq<char>) -> Seq<char>
    decreases s.len(),
{
    if s.len() > 0 && is_space(s.last()) {
        trim_end(s.drop_last())
    } else {
        s
    }
}

/// A text without its leading and trailing white space, as `str::trim` gives it.
pub open spec fn trim(s: Seq<char>) -> Seq<char> {
    trim_end(trim_start(s))
}

proof fn lemma_word_len_bounds(t: Seq<char>)
    ensures
        0 <= word_len(t) <= t.len(),
    decreases t.len(),
{
    if t.len() > 0 && !is_space(t[0]) {
        lemma_word_len_bounds(t.drop_first());
    }
}

proof fn lemma_word_len_push_space(t: Seq<char>, c: char)
    requires
        is_space(c),
    ensures
        word_len(t.push(c)) == word_len(t),
    decreases t.len(),
{
    if t.len() > 0 && !is_space(t[0]) {
        lemma_word_len_push_space(t.drop_first(), c);
        assert(t.push(c).drop_first() =~= t.drop_first().push(c));
    }
}

/// White space at the end adds no field.
proof fn lemma_tokens_push_space(t: Seq<char>, c: char)
    requires
        is_space(c),
    ensures
        tokens(t.push(c)) == tokens(t),
    decreases t.len(),
{
    if t.len() == 0 {
        assert(t.push(c).drop_first() =~= t);
    } else if is_space(t[0]) {
        lemma_tokens_push_space(t.drop_first(), c);
        assert(t.push(c).drop_first() =~= t.drop_first().push(c));
    } else {
        lemma_word_len_push_space(t, c);
        lemma_word_len_bounds(t);
        lemma_word_len_bounds(t.drop_first());
        let n = word_len(t);
        assert(n > 0);
        lemma_tokens_push_space(t.skip(n), c);
        assert(t.push(c).take(n) =~= t.take(n));
        assert(t.push(c).skip(n) =~= t.skip(n).push(c));
    }
}

proof fn lemma_tokens_trim_start(s: Seq<char>)
    ensures
        tokens(trim_start(s)) == tokens(s),
    decreases s.len(),
{
    if s.len() > 0 && is_space(s[0]) {
        lemma_tokens_trim_start(s.drop_first());
    }
}

proof fn lemma_tokens_trim_end(s: Seq<char>)
    ensures
        tokens(trim_end(s)) == tokens(s),
    decreases s.len(),
{
    if s.len() > 0 && is_space(s.last()) {
        lemma_tokens_trim_end(s.drop_last());
        lemma_tokens_push_space(s.drop_last(), s.last());
        assert(s.drop_last().push(s.last()) =~= s);
    }
}

/// A line says what the text before its first `#`, trimmed of white space, says:
/// two lines with the same such text read alike, and a line whose such text is empty
/// (a blank line or a comment) is no command.
pub proof fn law_parse_reads_trimmed_text_before_comment(line: Seq<char>, other: Seq<char>)
    ensures
        read(tokens(before_comment(line))) == read(tokens(trim(before_comment(line)))),
        trim(before_comment(line)) == trim(before_comment(other)) ==> read(
            tokens(before_comment(line)),
        ) == read(tokens(before_comment(other))),
        trim(before_comment(line)).len() == 0 ==> read(tokens(before_comment(line)))
            == Reading::Blank,
{
    let a = before_comment(line);
    let b = before_comment(other);
    lemma_tokens_trim_start(a);
    lemma_tokens_trim_end(trim_start(a));
    lemma_tokens_trim_start(b);
    lemma_tokens_trim_end(trim_start(b));
}

// ---------------------------------------------------------------- how a line splits into fields

proof fn lemma_word_len_append(s: Seq<char>, u: Seq<char>)
    requires
        word_len(s) < s.len() || (u.len() > 0 && is_space(u[0])),
    ensures
        word_len(s + u) == word_len(s),
    decreases s.len(),
{
    if s.len() == 0 {
        assert(s + u =~= u);
    } else if !is_space(s[0]) {
        lemma_word_len_append(s.drop_first(), u);
        assert((s + u).drop_first() =~= s.drop_first() + u);
    }
}

/// A run of non-space characters is one field.
pub proof fn law_word_is_one_field(w: Seq<char>)
    requires
        w.len() > 0,
        forall|i: int| 0 <= i < w.len() ==> !is_space(#[trigger] w[i]),
    ensures
        tokens(w) == seq![w],
{
    lemma_word_len(w, 0, w.len() as int);
    assert(w.skip(0) =~= w);
    assert(w.take(w.len() as int) =~= w);
    assert(w.skip(w.len() as int) =~= Seq::<char>::empty());
    assert(word_len(w) == w.len());
    assert(tokens(w.skip(w.len() as int)) =~= Seq::<Seq<char>>::empty());
    assert(seq![w] + Seq::<Seq<char>>::empty() =~= seq![w]);
}

/// White space separates fields: the fields of two texts joined by a white-space character
/// are the fields of the first, then those of the second.
pub proof fn law_space_separates_fields(s: Seq<char>, c: char, t: Seq<char>)
    requires
        is_space(c),
    ensures
        tokens(s + seq![c] + t) == tokens(s) + tokens(t),
    decreases s.len(),
{
    let u = seq![c] + t;
    assert(s + seq![c] + t =~= s + u);
    if s.len() == 0 {
        assert(s + u =~= u);
        assert(u.drop_first() =~= t);
        assert(tokens(s) =~= Seq::<Seq<char>>::empty());
        assert(tokens(s) + tokens(t) =~= tokens(t));
    } else if is_space(s[0]) {
        law_space_separates_fields(s.drop_first(), c, t);
        assert((s + u).drop_first() =~= s.drop_first() + seq![c] + t);
    } else {
        lemma_word_len_bounds(s);
        lemma_word_len_bounds(s.drop_first());
        let n = word_len(s);
        assert(n > 0);
        lemma_word_len_append(s, u);
        assert((s + u).take(n) =~= s.take(n));
        assert((s + u).skip(n) =~= s.skip(n) + seq![c] + t);
        law_space_separates_fields(s.skip(n), c, t);
        assert(seq![s.take(n)] + (tokens(s.skip(n)) + tokens(t)) =~= (seq![s.take(n)] + tokens(
            s.skip(n),
        )) + tokens(t));
    }
}

// ---------------------------------------------------------------- parsing

/// The characters of a text.
fn chars_of(line: &str) -> (out: Vec<char>)
    ensures
        out@ == line@,
{
    let mut out: Vec<char> = Vec::new();
    for c in it: line.chars()
        invariant
            out@ == it.seq().take(it.index() as int),
            it.seq() == line@,
    {
        out.push(c);
    }
    out
}

/// Unicode white space, as `char::is_whitespace` defines it.
fn is_whitespace(c: char) -> (b: bool)
    ensures
        b == is_space(c),
{
    let u = c as u32;
    (9 <= u && u <= 13) || u == 32 || u == 0x85 || u == 0xA0 || u == 0x1680 || (0x2000 <= u && u
        <= 0x200A) || u == 0x2028 || u == 0x2029 || u == 0x202F || u == 0x205F || u == 0x3000
}

/// The fields of the first `end` characters.
fn split_fields(chars: &Vec<char>, end: usize) -> (out: Vec<Vec<char>>)
    requires
        end <= chars.len(),
    ensures
        out@.map_values(|f: Vec<char>| f@) == tokens(chars@.take(end as int)),
{
    let ghost s = chars@.take(end as int);
    let mut out: Vec<Vec<char>> = Vec::new();
    let mut i: usize = 0;
    assert(s.skip(0) =~= s);
    while i < end
        invariant
            s == chars@.take(end as int),
            end <= chars.len(),
            i <= end,
            out@.map_values(|f: Vec<char>| f@) + tokens(s.skip(i as int)) == tokens(s),
        decreases end - i,
    {
        if is_whitespace(chars[i]) {
            proof {
                lemma_tokens_space(s, i as int);
            }
            i = i + 1;
        } else {
            let mut field: Vec<char> = Vec::new();
            let mut j = i;
            while j < end && !is_whitespace(chars[j])
                invariant
                    s == chars@.take(end as int),
                    end <= chars.len(),
                    i <= j <= end,
                    field@ == s.subrange(i as int, j as int),
                    forall|k: int| i <= k < j ==> !is_space(s[k]),
                decreases end - j,
            {
                field.push(chars[j]);
                j = j + 1;
            }
            proof {
                lemma_tokens_word(s, i as int, j as int);
                assert(out@.map_values(|f: Vec<char>| f@).push(field@) + tokens(s.skip(j as int))
                    =~= out@.map_values(|f: Vec<char>| f@) + tokens(s.skip(i as int)));
            }
            let ghost before = out@;
            out.push(field);
            proof {
                assert(out@.map_values(|f: Vec<char>| f@) =~= before.map_values(|f: Vec<char>| f@).push(
                    field@,
                ));
            }
            i = j;
        }
    }
    proof {
        assert(s.skip(end as int) =~= Seq::<char>::empty());
        assert(out@.map_values(|f: Vec<char>| f@) + tokens(s.skip(i as int)) =~= out@.map_values(
            |f: Vec<char>| f@,
        ));
    }
    out
}

/// A field as `u64::from_str` reads it.
fn parse_number(field: &Vec<char>) -> (r: Option<u64>)
    ensures
        r == number(field@),
{
    let ghost f = field@;
    let start: usize = if field.len() > 0 && field[0] == '+' {
        1
    } else {
        0
    };
    let ghost d = unsigned_digits(f);
    assert(d =~= f.skip(start as int));
    if start == field.len() {
        return None;
    }
    let mut value: u64 = 0;
    let mut i = start;
    assert(d.take(0) =~= Seq::<char>::empty());
    while i < field.len()
        invariant
            f == field@,
            d == f.skip(start as int),
            d == unsigned_digits(f),
            start <= i <= field.len(),
            start < field.len(),
            value == digits_value(d.take(i - start)),
            forall|k: int| 0 <= k < i - start ==> is_digit(#[trigger] d[k]),
        decreases field.len() - i,
    {
        let c = field[i];
        assert(d[i - start] == c);
        if !('0' <= c && c <= '9') {
            assert(!is_digit(d[i - start]));
            return None;
        }
        let digit = (c as u32 - '0' as u32) as u64;
        assert(d.take(i - start + 1).drop_last() =~= d.take(i - start));
        assert(digits_value(d.take(i - start + 1)) == value * 10 + digit);
        let tens = match value.checked_mul(10) {
            Some(t) => t,
            None => {
                proof {
                    if forall|k: int| 0 <= k < d.len() ==> is_digit(#[trigger] d[k]) {
                        lemma_digits_value_take(d, i - start + 1);
                    }
                }
                return None;
            },
        };
        value = match tens.checked_add(digit) {
            Some(v) => v,
            None => {
                proof {
                    if forall|k: int| 0 <= k < d.len() ==> is_digit(#[trigger] d[k]) {
                        lemma_digits_value_take(d, i - start + 1);
                    }
                }
                return None;
            },
        };
        i = i + 1;
    }
    assert(d.take(d.len() as int) =~= d);
    Some(value)
}

fn is_word(field: &Vec<char>, word: &str) -> (b: bool)
    ensures
        b == (field@ == word@),
{
    let w = chars_of(word);
    if field.len() != w.len() {
        return false;
    }
    let mut i: usize = 0;
    while i < w.len()
        invariant
            field.len() == w.len(),
            w@ == word@,
            i <= w.len(),
            forall|k: int| 0 <= k < i ==> field@[k] == w@[k],
        decreases w.len() - i,
    {
        if field[i] != w[i] {
            return false;
        }
        i = i + 1;
    }
    assert(field@ =~= w@);
    true
}

/// Read one command from a line: `buy ID PRICE QTY`, `sell ID PRICE QTY` or `cancel ID`,
/// fields separated by white space; everything from `#` on is a comment; a blank line is no command.
pub fn parse(line: &str) -> (r: Result<Option<Command>, ParseError>)
    ensures
        reports(r, read(tokens(before_comment(line@)))),
{
    let chars = chars_of(line);
    let mut end: usize = 0;
    while end < chars.len() && chars[end] != '#'
        invariant
            end <= chars.len(),
            forall|k: int| 0 <= k < end ==> chars@[k] != '#',
        decreases chars.len() - end,
    {
        end = end + 1;
    }
    proof {
        lemma_before_comment(chars@, end as int);
    }
    let mut fields = split_fields(&chars, end);
    let ghost fs = fields@.map_values(|f: Vec<char>| f@);
    assert(fs == tokens(before_comment(line@)));
    if fields.len() == 0 {
        return Ok(None);
    }
    proof {
        reveal_strlit("buy");
        reveal_strlit("sell");
        reveal_strlit("cancel");
    }
    assert(fs[0] == fields@[0]@);
    let buy = is_word(&fields[0], "buy");
    let sell = is_word(&fields[0], "sell");
    if fields.len() == 4 && (buy || sell) {
        assert("buy"@ =~= seq!['b', 'u', 'y']);
        assert("sell"@ =~= seq!['s', 'e', 'l', 'l']);
        let side = if buy {
            Side::Buy
        } else {
            Side::Sell
        };
        assert(fs[1] == fields@[1]@ && fs[2] == fields@[2]@ && fs[3] == fields@[3]@);
        let id = match parse_number(&fields[1]) {
            Some(n) => n,
            None => return Err(ParseError::InvalidNumber(fields.remove(1))),
        };
        let price = match parse_number(&fields[2]) {
            Some(n) => n,
            None => return Err(ParseError::InvalidNumber(fields.remove(2))),
        };
        let quantity = match parse_number(&fields[3]) {
            Some(n) => n,
            None => return Err(ParseError::InvalidNumber(fields.remove(3))),
        };
        return Ok(Some(Command::Place(Order { id, side, price, quantity })));
    }
    assert("buy"@ =~= seq!['b', 'u', 'y']);
    assert("sell"@ =~= seq!['s', 'e', 'l', 'l']);
    assert("cancel"@ =~= seq!['c', 'a', 'n', 'c', 'e', 'l']);
    if fields.len() == 2 && is_word(&fields[0], "cancel") {
        assert(fs[1] == fields@[1]@);
        let id = match parse_number(&fields[1]) {
            Some(n) => n,
            None => return Err(ParseError::InvalidNumber(fields.remove(1))),
        };
        return Ok(Some(Command::Cancel(id)));
    }
    Err(ParseError::Malformed)
}

} // verus!
