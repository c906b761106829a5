use crate::all_types::{Cnf, Lit};
use vstd::prelude::*;

verus! {

/// Why a text is no formula.
#[derive(Debug, Clone, Copy, PartialEq, Eq, Structural)]
pub enum ParseError {
    /// The text has no line that starts with `p`.
    MissingHeader,
    /// A `p` line gives a count that is no number or is too large.
    BadHeader,
}

/// Whether the byte is white space: a blank, a tab, a line feed, a vertical
/// tab, a form feed or a carriage return.
pub open spec fn is_space(b: u8) -> bool {
    b == 32 || (9 <= b <= 13)
}

/// Whether the byte is a decimal digit.
pub open spec fn is_digit(b: u8) -> bool {
    48 <= b <= 57
}

/// The end of the line that starts at `i`: the position of the next line
/// feed, or the end of the text.
pub open spec fn line_end(s: Seq<u8>, i: int) -> int
    decreases s.len() - i,
{
    if i >= s.len() || s[i] == 10 {
        i
    } else {
        line_end(s, i + 1)
    }
}

/// The lines of the text from position `i` on, each as the positions of its
/// first byte and of the line feed that ends it.
pub open spec fn line_ranges(s: Seq<u8>, i: int) -> Seq<(int, int)>
    decreases s.len() - i,
{
    if i >= s.len() {
        Seq::empty()
    } else {
        let e = line_end(s, i);
        if i <= e < s.len() {
            seq![(i, e)] + line_ranges(s, e + 1)
        } else {
            seq![(i, e)]
        }
    }
}

/// The first position from `i` on, before `end`, that holds no white space.
pub open spec fn skip_spaces(s: Seq<u8>, i: int, end: int) -> int
    decreases end - i,
{
    if i >= end || !is_space(s[i]) {
        i
    } else {
        skip_spaces(s, i + 1, end)
    }
}

/// The first position from `i` on, before `end`, that holds white space.
pub open spec fn token_end(s: Seq<u8>, i: int, end: int) -> int
    decreases end - i,
{
    if i >= end || is_space(s[i]) {
        i
    } else {
        token_end(s, i + 1, end)
    }
}

/// The words between positions `i` and `end`: the longest runs of bytes
/// that are no white space, each as the positions of its first byte and of
/// the byte after its last.
pub open spec fn token_ranges(s: Seq<u8>, i: int, end: int) -> Seq<(int, int)>
    decreases end - i,
{
    let a = skip_spaces(s, i, end);
    if a >= end || a < i {
        Seq::empty()
    } else {
        let b = token_end(s, a, end);
        if a < b <= end {
            seq![(a, b)] + token_ranges(s, b, end)
        } else {
            Seq::empty()
        }
    }
}

/// The number that a run of digits stands for.
pub open spec fn digits_value(s: Seq<u8>) -> nat
    decreases s.len(),
{
    if s.len() == 0 {
        0
    } else {
        (digits_value(s.drop_last()) * 10 + (s.last() - 48)) as nat
    }
}

/// Whether the word is made of digits, at least one.
pub open spec fn is_digits(s: Seq<u8>) -> bool {
    s.len() > 0 && forall|i: int| 0 <= i < s.len() ==> is_digit(#[trigger] s[i])
}

/// The number that a word stands for: digits, with `+` or, if `signed`, `-`
/// before them if any; `None` if the word is not of that form.
pub open spec fn number_of(s: Seq<u8>, signed: bool) -> Option<int> {
    if s.len() > 0 && s[0] == 43 {
        if is_digits(s.subrange(1, s.len() as int)) {
            Some(digits_value(s.subrange(1, s.len() as int)) as int)
        } else {
            None
        }
    } else if signed && s.len() > 0 && s[0] == 45 {
        if is_digits(s.subrange(1, s.len() as int)) {
            Some(-(digits_value(s.subrange(1, s.len() as int)) as int))
        } else {
            None
        }
    } else if is_digits(s) {
        Some(digits_value(s) as int)
    } else {
        None
    }
}

/// The count that a word of a `p` line stands for, if it is one that fits.
pub open spec fn count_of(s: Seq<u8>) -> Option<int> {
    match number_of(s, false) {
        Some(v) => if v <= usize::MAX {
            Some(v)
        } else {
            None
        },
        None => None,
    }
}

/// The literal number that a word of a clause line stands for, if it is one
/// that fits in 32 bits.
pub open spec fn literal_number_of(s: Seq<u8>) -> Option<int> {
    match number_of(s, true) {
        Some(v) => if -0x8000_0000 <= v <= 0x7fff_ffff {
            Some(v)
        } else {
            None
        },
        None => None,
    }
}

/// The numbers of a clause line: those of its words that are numbers, up to
/// the first zero.
pub open spec fn clause_numbers(s: Seq<u8>, toks: Seq<(int, int)>) -> Seq<int>
    decreases toks.len(),
{
    if toks.len() == 0 {
        Seq::empty()
    } else {
        match literal_number_of(s.subrange(toks[0].0, toks[0].1)) {
            None => clause_numbers(s, toks.drop_first()),
            Some(x) => if x == 0 {
                Seq::empty()
            } else {
                seq![x] + clause_numbers(s, toks.drop_first())
            },
        }
    }
}

/// The literal that a number stands for: `x` for variable `|x| - 1`, negated
/// if `x` is negative.
pub open spec fn literal_of(x: int) -> Lit {
    Lit::make(
        if x > 0 {
            x - 1
        } else {
            -x - 1
        },
        x < 0,
    )
}

/// What has been read of a text.
pub struct ParseState {
    pub seen_p: bool,
    pub bad: bool,
    pub var_num: int,
    pub cl_num: int,
    pub clauses: Seq<Seq<Lit>>,
}

/// What a `p` line with the given words makes of what has been read: the
/// third word is the number of variables, the fourth the number of clauses.
pub open spec fn read_header(s: Seq<u8>, st: ParseState, toks: Seq<(int, int)>) -> ParseState {
    let vars = if toks.len() > 2 {
        count_of(s.subrange(toks[2].0, toks[2].1))
    } else {
        Some(st.var_num)
    };
    let clauses = if toks.len() > 3 {
        count_of(s.subrange(toks[3].0, toks[3].1))
    } else {
        Some(st.cl_num)
    };
    match (vars, clauses) {
        (Some(v), Some(c)) => ParseState { seen_p: true, var_num: v, cl_num: c, ..st },
        _ => ParseState { seen_p: true, bad: true, ..st },
    }
}

/// What the line between positions `line.0` and `line.1` makes of what has
/// been read. A line without words or whose first word starts with `c` makes
/// nothing of it; a line whose first word is `p` is read as a header; any
/// other line is a clause unless it holds no number before its first zero.
pub open spec fn read_line(s: Seq<u8>, st: ParseState, line: (int, int)) -> ParseState {
    let toks = token_ranges(s, line.0, line.1);
    if st.bad || toks.len() == 0 || s[toks[0].0] == 99 {
        st
    } else if toks[0].1 == toks[0].0 + 1 && s[toks[0].0] == 112 {
        read_header(s, st, toks)
    } else {
        let numbers = clause_numbers(s, toks);
        if numbers.len() == 0 {
            st
        } else {
            ParseState { clauses: st.clauses.push(numbers.map_values(|x: int| literal_of(x))), ..st }
        }
    }
}

/// What reading the given lines in turn gives.
pub open spec fn read_lines(s: Seq<u8>, lines: Seq<(int, int)>) -> ParseState
    decreases lines.len(),
{
    if lines.len() == 0 {
        ParseState { seen_p: false, bad: false, var_num: 0, cl_num: 0, clauses: Seq::empty() }
    } else {
        read_line(s, read_lines(s, lines.drop_last()), lines.last())
    }
}

/// The formula that a text stands for, as its number of variables, the
/// number of clauses that it declares, and its clauses. A text whose number
/// of clauses is not the number that it declares stands for the formula of
/// one empty clause.
pub open spec fn parsed(s: Seq<u8>) -> Result<(int, int, Seq<Seq<Lit>>), ParseError> {
    let st = read_lines(s, line_ranges(s, 0));
    if st.bad {
        Err(ParseError::BadHeader)
    } else if !st.seen_p {
        Err(ParseError::MissingHeader)
    } else if st.cl_num != st.clauses.len() {
        Ok((st.var_num, st.cl_num, seq![Seq::<Lit>::empty()]))
    } else {
        Ok((st.var_num, st.cl_num, st.clauses))
    }
}

/// The ranges as pairs of mathematical integers.
pub open spec fn ranges_view(v: Seq<(usize, usize)>) -> Seq<(int, int)> {
    Seq::new(v.len(), |i: int| (v[i].0 as int, v[i].1 as int))
}

/// Whether the byte is white space.
fn byte_is_space(b: u8) -> (r: bool)
    ensures
        r == is_space(b),
{
    b == 32 || (9 <= b && b <= 13)
}

/// A line ends at or after its start, within the text.
proof fn lemma_line_end(s: Seq<u8>, i: int)
    requires
        0 <= i <= s.len(),
    ensures
        i <= line_end(s, i) <= s.len(),
    decreases s.len() - i,
{
    if i >= s.len() || s[i] == 10 {
    } else {
        lemma_line_end(s, i + 1);
    }
}

/// A word that starts at a byte that is no white space is not empty.
proof fn lemma_token_end(s: Seq<u8>, i: int, end: int)
    requires
        0 <= i <= end <= s.len(),
    ensures
        i <= token_end(s, i, end) <= end,
        i < end && !is_space(s[i]) ==> token_end(s, i, end) > i,
    decreases end - i,
{
    if i >= end || is_space(s[i]) {
    } else {
        lemma_token_end(s, i + 1, end);
    }
}

/// The lines of a text, each as the positions of its first byte and of the
/// line feed that ends it.
pub fn split_lines(text: &[u8]) -> (lines: Vec<(usize, usize)>)
    ensures
        ranges_view(lines@) == line_ranges(text@, 0),
        forall|k: int|
            0 <= k < lines@.len() ==> (#[trigger] lines@[k]).0 <= lines@[k].1 <= text@.len(),
{
    let ghost s = text@;
    let mut lines: Vec<(usize, usize)> = Vec::new();
    let mut i: usize = 0;
    while i < text.len()
        invariant
            i <= text@.len(),
            s == text@,
            line_ranges(s, 0) == ranges_view(lines@) + line_ranges(s, i as int),
            forall|k: int|
                0 <= k < lines@.len() ==> (#[trigger] lines@[k]).0 <= lines@[k].1 <= s.len(),
        decreases s.len() - i,
    {
        let start = i;
        while i < text.len() && text[i] != 10
            invariant
                start <= i <= text@.len(),
                s == text@,
                line_end(s, start as int) == line_end(s, i as int),
            decreases s.len() - i,
        {
            i += 1;
        }
        proof {
            lemma_line_end(s, start as int);
            assert(line_end(s, start as int) == i);
            assert(ranges_view(lines@.push((start, i))) =~= ranges_view(lines@) + seq![
                (start as int, i as int),
            ]);
        }
        lines.push((start, i));
        if i < text.len() {
            i += 1;
        } else {
            assert(line_ranges(s, start as int) =~= seq![(start as int, i as int)]
                + line_ranges(s, i as int));
        }
    }
    proof {
        assert(line_ranges(s, i as int) =~= Seq::<(int, int)>::empty());
        assert(ranges_view(lines@) + Seq::<(int, int)>::empty() =~= ranges_view(lines@));
    }
    lines
}

/// The words between positions `start` and `end` of a text, each as the
/// positions of its first byte and of the byte after its last.
pub fn split_tokens(text: &[u8], start: usize, end: usize) -> (toks: Vec<(usize, usize)>)
    requires
        start <= end <= text@.len(),
    ensures
        ranges_view(toks@) == token_ranges(text@, start as int, end as int),
        forall|k: int|
            0 <= k < toks@.len() ==> start <= (#[trigger] toks@[k]).0 < toks@[k].1 <= end,
{
    let ghost s = text@;
    let mut toks: Vec<(usize, usize)> = Vec::new();
    let mut i: usize = start;
    loop
        invariant
            start <= i <= end <= text@.len(),
            s == text@,
            token_ranges(s, start as int, end as int) == ranges_view(toks@) + token_ranges(
                s,
                i as int,
                end as int,
            ),
            forall|k: int|
                0 <= k < toks@.len() ==> start <= (#[trigger] toks@[k]).0 < toks@[k].1 <= end,
        ensures
            token_ranges(s, start as int, end as int) == ranges_view(toks@),
        decreases end - i,
    {
        let from = i;
        while i < end && byte_is_space(text[i])
            invariant
                from <= i <= end <= text@.len(),
                s == text@,
                skip_spaces(s, from as int, end as int) == skip_spaces(s, i as int, end as int),
            decreases end - i,
        {
            i += 1;
        }
        proof {
            assert(skip_spaces(s, from as int, end as int) == i);
        }
        if i >= end {
            proof {
                assert(token_ranges(s, from as int, end as int) =~= Seq::<(int, int)>::empty());
                assert(ranges_view(toks@) + Seq::<(int, int)>::empty() =~= ranges_view(toks@));
            }
            break ;
        }
        let a = i;
        while i < end && !byte_is_space(text[i])
            invariant
                a <= i <= end <= text@.len(),
                s == text@,
                token_end(s, a as int, end as int) == token_end(s, i as int, end as int),
            decreases end - i,
        {
            i += 1;
        }
        proof {
            lemma_token_end(s, a as int, end as int);
            assert(token_end(s, a as int, end as int) == i);
            assert(token_ranges(s, from as int, end as int) == seq![(a as int, i as int)]
                + token_ranges(s, i as int, end as int));
            assert(ranges_view(toks@.push((a, i))) =~= ranges_view(toks@) + seq![
                (a as int, i as int),
            ]);
        }
        toks.push((a, i));
    }
    toks
}

/// The first digits of a run of digits stand for no greater number than the run.
proof fn lemma_digits_grow(s: Seq<u8>, k: int)
    requires
        0 <= k <= s.len(),
        forall|i: int| 0 <= i < s.len() ==> is_digit(#[trigger] s[i]),
    ensures
        digits_value(s.take(k)) <= digits_value(s),
    decreases s.len() - k,
{
    if k == s.len() {
        assert(s.take(k) =~= s);
    } else {
        assert(s.take(k + 1).drop_last() =~= s.take(k));
        assert(is_digit(s[k]));
        lemma_digits_grow(s, k + 1);
    }
}

/// Reads the digits between positions `a` and `b`. Returns their value, or
/// `None` if there is no digit, a byte is no digit, or the value is above `limit`.
fn read_digits(text: &[u8], a: usize, b: usize, limit: u128) -> (r: Option<u128>)
    requires
        a <= b <= text@.len(),
        limit <= 0x1_0000_0000_0000_0000,
    ensures
        r == if is_digits(text@.subrange(a as int, b as int)) && digits_value(
            text@.subrange(a as int, b as int),
        ) <= limit {
            Some(digits_value(text@.subrange(a as int, b as int)) as u128)
        } else {
            None
        },
{
    let ghost body = text@.subrange(a as int, b as int);
    if a == b {
        return None;
    }
    let mut acc: u128 = 0;
    let mut i: usize = a;
    while i < b
        invariant
            a <= i <= b <= text@.len(),
            body == text@.subrange(a as int, b as int),
            limit <= 0x1_0000_0000_0000_0000,
            forall|k: int| 0 <= k < i - a ==> is_digit(#[trigger] body[k]),
            acc == digits_value(body.take(i - a)),
            acc <= limit,
        decreases b - i,
    {
        let byte = text[i];
        assert(byte == body[i - a]);
        if byte < 48 || byte > 57 {
            assert(!is_digits(body));
            return None;
        }
        proof {
            assert(body.take(i - a + 1).drop_last() =~= body.take(i - a));
        }
        let next: u128 = acc * 10 + (byte - 48) as u128;
        if next > limit {
            proof {
                if is_digits(body) {
                    lemma_digits_grow(body, i - a + 1);
                }
            }
            return None;
        }
        acc = next;
        i += 1;
    }
    assert(body.take(b - a) =~= body);
    Some(acc)
}

/// Reads the word between positions `a` and `b` as a count.
fn read_count(text: &[u8], a: usize, b: usize) -> (r: Option<usize>)
    requires
        a <= b <= text@.len(),
    ensures
        match r {
            Some(v) => count_of(text@.subrange(a as int, b as int)) == Some(v as int),
            None => count_of(text@.subrange(a as int, b as int)) is None,
        },
{
    let ghost word = text@.subrange(a as int, b as int);
    let from = if a < b && text[a] == 43 {
        a + 1
    } else {
        a
    };
    proof {
        if from > a {
            assert(word[0] == 43);
            assert(word.subrange(1, word.len() as int) =~= text@.subrange(from as int, b as int));
        } else {
            assert(word =~= text@.subrange(from as int, b as int));
            if word.len() > 0 {
                assert(word[0] == text@[a as int]);
            }
        }
    }
    match read_digits(text, from, b, usize::MAX as u128) {
        Some(v) => Some(v as usize),
        None => None,
    }
}

/// Reads the word between positions `a` and `b` as a literal number.
fn read_literal_number(text: &[u8], a: usize, b: usize) -> (r: Option<i32>)
    requires
        a <= b <= text@.len(),
    ensures
        match r {
            Some(v) => literal_number_of(text@.subrange(a as int, b as int)) == Some(v as int),
            None => literal_number_of(text@.subrange(a as int, b as int)) is None,
        },
{
    let ghost word = text@.subrange(a as int, b as int);
    let negative = a < b && text[a] == 45;
    let from = if a < b && (text[a] == 43 || text[a] == 45) {
        a + 1
    } else {
        a
    };
    proof {
        if from > a {
            assert(word[0] == text@[a as int]);
            assert(word.subrange(1, word.len() as int) =~= text@.subrange(from as int, b as int));
        } else {
            assert(word =~= text@.subrange(from as int, b as int));
            if word.len() > 0 {
                assert(word[0] == text@[a as int]);
            }
        }
    }
    let limit: u128 = if negative {
        0x8000_0000
    } else {
        0x7fff_ffff
    };
    match read_digits(text, from, b, limit) {
        Some(v) => {
            if negative {
                Some((-(v as i64)) as i32)
            } else {
                Some(v as i32)
            }
        },
        None => None,
    }
}

/// Reads the words of a clause line as literals: the numbers among them,
/// up to the first zero.
fn read_clause(text: &[u8], toks: &Vec<(usize, usize)>) -> (clause: Vec<Lit>)
    requires
        forall|k: int|
            0 <= k < toks@.len() ==> (#[trigger] toks@[k]).0 <= toks@[k].1 <= text@.len(),
    ensures
        clause@ == clause_numbers(text@, ranges_view(toks@)).map_values(|x: int| literal_of(x)),
{
    let ghost s = text@;
    let ghost all = ranges_view(toks@);
    let mut clause: Vec<Lit> = Vec::new();
    let ghost mut numbers: Seq<int> = Seq::empty();
    let mut k: usize = 0;
    proof {
        assert(all.skip(0) =~= all);
        assert(numbers + clause_numbers(s, all) =~= clause_numbers(s, all));
    }
    loop
        invariant
            k <= toks@.len(),
            s == text@,
            all == ranges_view(toks@),
            forall|j: int|
                0 <= j < toks@.len() ==> (#[trigger] toks@[j]).0 <= toks@[j].1 <= text@.len(),
            clause_numbers(s, all) == numbers + clause_numbers(s, all.skip(k as int)),
            clause@ == numbers.map_values(|x: int| literal_of(x)),
        ensures
            clause_numbers(s, all) == numbers,
            clause@ == numbers.map_values(|x: int| literal_of(x)),
        decreases toks@.len() - k,
    {
        if k >= toks.len() {
            proof {
                assert(all.skip(k as int) =~= Seq::<(int, int)>::empty());
                assert(numbers + Seq::<int>::empty() =~= numbers);
            }
            break ;
        }
        let (a, b) = toks[k];
        proof {
            assert(all.skip(k as int)[0] == (a as int, b as int));
            assert(all.skip(k as int).drop_first() =~= all.skip(k + 1));
        }
        match read_literal_number(text, a, b) {
            None => {},
            Some(x) => {
                if x == 0 {
                    proof {
                        assert(numbers + Seq::<int>::empty() =~= numbers);
                    }
                    break ;
                }
                clause.push(Lit::from(x));
                proof {
                    let rest = clause_numbers(s, all.skip(k + 1));
                    assert(numbers + (seq![x as int] + rest) =~= numbers.push(x as int) + rest);
                    assert(numbers.push(x as int).map_values(|x: int| literal_of(x))
                        =~= numbers.map_values(|x: int| literal_of(x)).push(literal_of(x as int)));
                    numbers = numbers.push(x as int);
                }
            },
        }
        k += 1;
    }
    clause
}

/// Reads a formula from a text in the format of DIMACS, with one clause to
/// a line. A line that starts with `c` is a comment. The line
/// `p cnf <variables> <clauses>` gives the counts. Any other line is a
/// clause: numbers apart by white space, `i` for variable `i`, `-i` for its
/// negation, up to a zero or the end of the line. Words that are no numbers
/// are passed over, and so is a line without a number. If the clauses are
/// not as many as the `p` line says, the formula is that of one empty clause.
pub fn parse_cnf(text: &[u8]) -> (r: Result<Cnf, ParseError>)
    ensures
        match r {
            Ok(cnf) => parsed(text@) == Ok::<(int, int, Seq<Seq<Lit>>), ParseError>(
                (cnf.var_num as int, cnf.cl_num as int, cnf.formula()),
            ),
            Err(e) => parsed(text@) == Err::<(int, int, Seq<Seq<Lit>>), ParseError>(e),
        },
{
    let ghost s = text@;
    let lines = split_lines(text);
    let ghost all = ranges_view(lines@);
    let mut var_num: usize = 0;
    let mut cl_num: usize = 0;
    let mut clauses: Vec<Vec<Lit>> = Vec::new();
    let mut seen_p = false;
    let mut k: usize = 0;
    proof {
        assert(all.take(0) =~= Seq::<(int, int)>::empty());
        assert(crate::all_types::clauses_view(clauses@) =~= Seq::<Seq<Lit>>::empty());
    }
    while k < lines.len()
        invariant
            k <= lines@.len(),
            s == text@,
            all == ranges_view(lines@),
            all == line_ranges(s, 0),
            forall|j: int|
                0 <= j < lines@.len() ==> (#[trigger] lines@[j]).0 <= lines@[j].1 <= text@.len(),
            read_lines(s, all.take(k as int)) == (ParseState {
                seen_p,
                bad: false,
                var_num: var_num as int,
                cl_num: cl_num as int,
                clauses: crate::all_types::clauses_view(clauses@),
            }),
        decreases lines@.len() - k,
    {
        let (start, end) = lines[k];
        let ghost before = read_lines(s, all.take(k as int));
        proof {
            assert(all.take(k + 1).drop_last() =~= all.take(k as int));
            assert(all.take(k + 1).last() == (start as int, end as int));
        }
        let toks = split_tokens(text, start, end);
        if toks.len() == 0 {
        } else if text[toks[0].0] == 99 {
            assert(ranges_view(toks@)[0].0 == toks@[0].0);
        } else if toks[0].1 == toks[0].0 + 1 && text[toks[0].0] == 112 {
            assert(ranges_view(toks@)[0] == (toks@[0].0 as int, toks@[0].1 as int));
            seen_p = true;
            if toks.len() > 2 {
                assert(ranges_view(toks@)[2] == (toks@[2].0 as int, toks@[2].1 as int));
                match read_count(text, toks[2].0, toks[2].1) {
                    Some(v) => {
                        var_num = v;
                    },
                    None => {
                        proof {
                            lemma_bad_stays(s, all, k + 1);
                        }
                        return Err(ParseError::BadHeader);
                    },
                }
            }
            if toks.len() > 3 {
                assert(ranges_view(toks@)[3] == (toks@[3].0 as int, toks@[3].1 as int));
                match read_count(text, toks[3].0, toks[3].1) {
                    Some(v) => {
                        cl_num = v;
                    },
                    None => {
                        proof {
                            lemma_bad_stays(s, all, k + 1);
                        }
                        return Err(ParseError::BadHeader);
                    },
                }
            }
        } else {
            assert(ranges_view(toks@)[0] == (toks@[0].0 as int, toks@[0].1 as int));
            let clause = read_clause(text, &toks);
            if clause.len() > 0 {
                let ghost old_clauses = crate::all_types::clauses_view(clauses@);
                clauses.push(clause);
                assert(crate::all_types::clauses_view(clauses@) =~= old_clauses.push(clause@));
            }
        }
        k += 1;
    }
    assert(all.take(lines@.len() as int) =~= all);
    if !seen_p {
        return Err(ParseError::MissingHeader);
    }
    if cl_num != clauses.len() {
        let mut only: Vec<Vec<Lit>> = Vec::new();
        only.push(Vec::new());
        let cnf = Cnf { var_num, cl_num, clauses: only };
        assert(cnf.formula() =~= seq![Seq::<Lit>::empty()]);
        Ok(cnf)
    } else {
        Ok(Cnf { var_num, cl_num, clauses })
    }
}

/// Once a header is found bad, reading on changes nothing.
proof fn lemma_bad_stays(s: Seq<u8>, lines: Seq<(int, int)>, k: int)
    requires
        0 <= k <= lines.len(),
        read_lines(s, lines.take(k)).bad,
    ensures
        read_lines(s, lines).bad,
    decreases lines.len() - k,
{
    if k == lines.len() {
        assert(lines.take(k) =~= lines);
    } else {
        assert(lines.take(k + 1).drop_last() =~= lines.take(k));
        lemma_bad_stays(s, lines, k + 1);
    }
}

/// The line between positions `line.0` and `line.1` is a `p` line with no
/// more than `words` words.
pub open spec fn short_header(s: Seq<u8>, line: (int, int), words: int) -> bool {
    let toks = token_ranges(s, line.0, line.1);
    &&& 0 < toks.len() <= words
    &&& toks[0].1 == toks[0].0 + 1
    &&& s[toks[0].0] == 112
}

/// Among the first `upto` lines there is a `p` line with no more than
/// `words` words.
pub open spec fn has_short_header(s: Seq<u8>, lines: Seq<(int, int)>, words: int, upto: int) -> bool {
    exists|k: int| 0 <= k < upto && k < lines.len() && short_header(s, #[trigger] lines[k], words)
}

/// Tells which counts some `p` line of the text leaves out: first whether
/// one gives no number of variables, then whether one gives no number of
/// clauses. Such a line leaves the count as it was.
pub fn missing_counts(text: &[u8]) -> (r: (bool, bool))
    ensures
        r.0 == has_short_header(
            text@,
            line_ranges(text@, 0),
            2,
            line_ranges(text@, 0).len() as int,
        ),
        r.1 == has_short_header(
            text@,
            line_ranges(text@, 0),
            3,
            line_ranges(text@, 0).len() as int,
        ),
{
    let ghost s = text@;
    let lines = split_lines(text);
    let ghost all = ranges_view(lines@);
    let mut no_vars = false;
    let mut no_clauses = false;
    let mut k: usize = 0;
    while k < lines.len()
        invariant
            k <= lines@.len(),
            s == text@,
            all == ranges_view(lines@),
            all == line_ranges(s, 0),
            forall|j: int|
                0 <= j < lines@.len() ==> (#[trigger] lines@[j]).0 <= lines@[j].1 <= text@.len(),
            no_vars == has_short_header(s, all, 2, k as int),
            no_clauses == has_short_header(s, all, 3, k as int),
        decreases lines@.len() - k,
    {
        let (start, end) = lines[k];
        assert(all[k as int] == (start as int, end as int));
        let toks = split_tokens(text, start, end);
        let mut short_vars = false;
        let mut short_clauses = false;
        if toks.len() > 0 {
            assert(ranges_view(toks@)[0] == (toks@[0].0 as int, toks@[0].1 as int));
            if toks[0].1 == toks[0].0 + 1 && text[toks[0].0] == 112 {
                short_vars = toks.len() <= 2;
                short_clauses = toks.len() <= 3;
            }
        }
        proof {
            assert(short_vars == short_header(s, all[k as int], 2));
            assert(short_clauses == short_header(s, all[k as int], 3));
            if has_short_header(s, all, 2, k + 1) && !short_vars {
                let j = choose|j: int|
                    0 <= j < k + 1 && j < all.len() && short_header(s, #[trigger] all[j], 2);
                assert(has_short_header(s, all, 2, k as int));
            }
            if has_short_header(s, all, 3, k + 1) && !short_clauses {
                let j = choose|j: int|
                    0 <= j < k + 1 && j < all.len() && short_header(s, #[trigger] all[j], 3);
                assert(has_short_header(s, all, 3, k as int));
            }
            if no_vars {
                let j = choose|j: int|
                    0 <= j < k && j < all.len() && short_header(s, #[trigger] all[j], 2);
                assert(has_short_header(s, all, 2, k + 1));
            }
            if no_clauses {
                let j = choose|j: int|
                    0 <= j < k && j < all.len() && short_header(s, #[trigger] all[j], 3);
                assert(has_short_header(s, all, 3, k + 1));
            }
        }
        no_vars = no_vars || short_vars;
        no_clauses = no_clauses || short_clauses;
        k += 1;
    }
    (no_vars, no_clauses)
}

} // verus!
