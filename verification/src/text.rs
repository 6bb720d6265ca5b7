//! The text form of a formula: a header line, then one clause a line.

use vstd::prelude::*;

verus! {

/// The byte that ends a line.
pub const NEWLINE: u8 = 10;

/// The byte that parts the numbers of a line.
pub const SPACE: u8 = 32;

/// The pieces of `s` between the occurrences of `sep`; one more than there
/// are occurrences.
pub open spec fn split(s: Seq<u8>, sep: u8) -> Seq<Seq<u8>>
    decreases s.len(),
{
    if s.len() == 0 {
        seq![Seq::empty()]
    } else {
        let before = split(s.drop_last(), sep);
        if s.last() == sep {
            before.push(Seq::empty())
        } else {
            before.drop_last().push(before.last().push(s.last()))
        }
    }
}

/// A decimal digit.
pub open spec fn is_digit(b: u8) -> bool {
    48 <= b <= 57
}

/// The number that a string of digits stands for.
pub open spec fn decimal(s: Seq<u8>) -> nat
    decreases s.len(),
{
    if s.len() == 0 {
        0
    } else {
        decimal(s.drop_last()) * 10 + (s.last() - 48) as nat
    }
}

/// The digits of a token: what follows its sign, or all of it.
pub open spec fn token_digits(t: Seq<u8>) -> Seq<u8> {
    if t.len() > 0 && (t[0] == 45 || t[0] == 43) {
        t.skip(1)
    } else {
        t
    }
}

/// The integer that a token stands for: an optional sign and at least one
/// digit, and the number fits a machine word.
pub open spec fn token_value(t: Seq<u8>) -> Option<isize> {
    let digits = token_digits(t);
    let value = if t.len() > 0 && t[0] == 45 {
        -(decimal(digits) as int)
    } else {
        decimal(digits) as int
    };
    if digits.len() > 0 && (forall|i: int| 0 <= i < digits.len() ==> is_digit(#[trigger] digits[i])) && isize::MIN
        <= value <= isize::MAX {
        Some(value as isize)
    } else {
        None
    }
}

/// The integers that the tokens stand for, if each stands for one.
pub open spec fn line_values(tokens: Seq<Seq<u8>>) -> Option<Seq<isize>>
    decreases tokens.len(),
{
    if tokens.len() == 0 {
        Some(Seq::empty())
    } else {
        match (line_values(tokens.drop_last()), token_value(tokens.last())) {
            (Some(values), Some(v)) => Some(values.push(v)),
            _ => None,
        }
    }
}

/// The rows of integers that the lines hold; empty lines hold none.
pub open spec fn text_rows(lines: Seq<Seq<u8>>) -> Option<Seq<Seq<isize>>>
    decreases lines.len(),
{
    if lines.len() == 0 {
        Some(Seq::empty())
    } else {
        match text_rows(lines.drop_last()) {
            None => None,
            Some(rows) => if lines.last().len() == 0 {
                Some(rows)
            } else {
                match line_values(split(lines.last(), SPACE)) {
                    Some(values) => Some(rows.push(values)),
                    None => None,
                }
            },
        }
    }
}

/// The rows of integers that a text holds: the first line is a header and is
/// passed over; each other line that is not empty holds integers parted by
/// single spaces.
pub open spec fn parse_formula(text: Seq<u8>) -> Option<Seq<Seq<isize>>> {
    text_rows(split(text, NEWLINE).skip(1))
}

/// There is always a first piece.
pub proof fn lemma_split_len(s: Seq<u8>, sep: u8)
    ensures
        split(s, sep).len() >= 1,
    decreases s.len(),
{
    if s.len() > 0 {
        lemma_split_len(s.drop_last(), sep);
    }
}

/// More digits do not make the number smaller.
proof fn lemma_decimal_grows(s: Seq<u8>, k: int)
    requires
        0 <= k <= s.len(),
    ensures
        decimal(s.take(k)) <= decimal(s),
    decreases s.len() - k,
{
    if k < s.len() {
        lemma_decimal_grows(s, k + 1);
        assert(s.take(k + 1).drop_last() =~= s.take(k));
    } else {
        assert(s.take(k) =~= s);
    }
}

/// The views of the vectors in `v`.
pub open spec fn views<T>(v: Seq<Vec<T>>) -> Seq<Seq<T>> {
    Seq::new(v.len(), |i: int| v[i]@)
}

/// The pieces of `s` between the occurrences of `sep`.
pub fn split_bytes(s: &[u8], sep: u8) -> (pieces: Vec<Vec<u8>>)
    ensures
        views(pieces@) == split(s@, sep),
{
    let mut pieces: Vec<Vec<u8>> = Vec::new();
    let mut current: Vec<u8> = Vec::new();
    let mut i: usize = 0;
    while i < s.len()
        invariant
            i <= s@.len(),
            views(pieces@).push(current@) == split(s@.take(i as int), sep),
        decreases s@.len() - i,
    {
        let b = s[i];
        proof {
            assert(s@.take(i + 1).drop_last() =~= s@.take(i as int));
            assert(s@.take(i + 1).last() == b);
        }
        let ghost before = views(pieces@).push(current@);
        if b == sep {
            pieces.push(current);
            current = Vec::new();
            proof {
                assert(views(pieces@) =~= before);
                assert(views(pieces@).push(current@) =~= before.push(Seq::empty()));
            }
        } else {
            current.push(b);
            proof {
                assert(views(pieces@).push(current@) =~= before.drop_last().push(before.last().push(b)));
            }
        }
        i += 1;
    }
    proof {
        assert(s@.take(i as int) =~= s@);
    }
    let ghost before = views(pieces@).push(current@);
    pieces.push(current);
    proof {
        assert(views(pieces@) =~= before);
    }
    pieces
}

/// The integer that a token stands for.
#[verifier::loop_isolation(false)]
fn parse_token(t: &Vec<u8>) -> (value: Option<isize>)
    ensures
        value == token_value(t@),
{
    let negative = t.len() > 0 && t[0] == 45;
    let start: usize = if t.len() > 0 && (t[0] == 45 || t[0] == 43) {
        1
    } else {
        0
    };
    let ghost digits = token_digits(t@);
    if start == t.len() {
        return None;
    }
    let limit: u128 = isize::MAX as u128 + 1;
    let mut acc: u128 = 0;
    let mut i: usize = start;
    while i < t.len()
        invariant
            start <= i <= t@.len(),
            digits == t@.skip(start as int),
            limit == isize::MAX + 1,
            acc == decimal(digits.take(i - start)),
            acc <= limit,
            forall|j: int| 0 <= j < i - start ==> is_digit(#[trigger] digits[j]),
        decreases t@.len() - i,
    {
        let b = t[i];
        proof {
            assert(digits[i - start] == b);
            assert(digits.take(i - start + 1).drop_last() =~= digits.take(i - start));
            assert(digits.take(i - start + 1).last() == b);
        }
        if b < 48 || b > 57 {
            return None;
        }
        acc = acc * 10 + (b - 48) as u128;
        if acc > limit {
            proof {
                lemma_decimal_grows(digits, i - start + 1);
            }
            return None;
        }
        i += 1;
    }
    proof {
        assert(digits.take(i - start) =~= digits);
    }
    if negative {
        if acc == limit {
            Some(isize::MIN)
        } else {
            Some(-(acc as isize))
        }
    } else if acc == limit {
        None
    } else {
        Some(acc as isize)
    }
}

/// The integers of a line.
#[verifier::loop_isolation(false)]
fn parse_line(line: &Vec<u8>) -> (values: Option<Vec<isize>>)
    ensures
        match line_values(split(line@, SPACE)) {
            Some(v) => values is Some && values->0@ == v,
            None => values is None,
        },
{
    let tokens = split_bytes(line.as_slice(), SPACE);
    let ghost all = views(tokens@);
    let mut values: Vec<isize> = Vec::new();
    let mut i: usize = 0;
    while i < tokens.len()
        invariant
            i <= tokens@.len(),
            all == views(tokens@),
            line_values(all.take(i as int)) == Some(values@),
        decreases tokens@.len() - i,
    {
        proof {
            assert(all.take(i + 1).drop_last() =~= all.take(i as int));
            assert(all.take(i + 1).last() == tokens@[i as int]@);
        }
        match parse_token(&tokens[i]) {
            None => {
                proof {
                    lemma_line_fails(all, i + 1);
                }
                return None;
            },
            Some(v) => {
                values.push(v);
            },
        }
        i += 1;
    }
    proof {
        assert(all.take(i as int) =~= all);
    }
    Some(values)
}

/// A line whose first tokens do not all stand for integers stands for none.
proof fn lemma_line_fails(tokens: Seq<Seq<u8>>, k: int)
    requires
        0 <= k <= tokens.len(),
        line_values(tokens.take(k)) is None,
    ensures
        line_values(tokens) is None,
    decreases tokens.len() - k,
{
    if k < tokens.len() {
        assert(tokens.take(k + 1).drop_last() =~= tokens.take(k));
        lemma_line_fails(tokens, k + 1);
    } else {
        assert(tokens.take(k) =~= tokens);
    }
}

/// A text whose first lines do not all hold integers holds no rows.
proof fn lemma_rows_fail(lines: Seq<Seq<u8>>, k: int)
    requires
        0 <= k <= lines.len(),
        text_rows(lines.take(k)) is None,
    ensures
        text_rows(lines) is None,
    decreases lines.len() - k,
{
    if k < lines.len() {
        assert(lines.take(k + 1).drop_last() =~= lines.take(k));
        lemma_rows_fail(lines, k + 1);
    } else {
        assert(lines.take(k) =~= lines);
    }
}

/// The rows of integers that a text holds, or `None` where some line that is
/// not empty holds anything but integers parted by single spaces.
#[verifier::loop_isolation(false)]
pub fn parse_rows(text: &[u8]) -> (rows: Option<Vec<Vec<isize>>>)
    ensures
        match parse_formula(text@) {
            Some(r) => rows is Some && views(rows->0@) == r,
            None => rows is None,
        },
{
    let lines = split_bytes(text, NEWLINE);
    proof {
        lemma_split_len(text@, NEWLINE);
    }
    let ghost body = views(lines@).skip(1);
    let mut rows: Vec<Vec<isize>> = Vec::new();
    let mut i: usize = 1;
    while i < lines.len()
        invariant
            1 <= i <= lines@.len(),
            body == views(lines@).skip(1),
            text_rows(body.take(i - 1)) == Some(views(rows@)),
        decreases lines@.len() - i,
    {
        proof {
            assert(body.take(i as int).drop_last() =~= body.take(i - 1));
            assert(body.take(i as int).last() == lines@[i as int]@);
        }
        if lines[i].len() != 0 {
            let ghost before = views(rows@);
            match parse_line(&lines[i]) {
                None => {
                    proof {
                        lemma_rows_fail(body, i as int);
                    }
                    return None;
                },
                Some(values) => {
                    rows.push(values);
                    proof {
                        assert(views(rows@) =~= before.push(rows@[rows@.len() - 1]@));
                    }
                },
            }
        }
        i += 1;
    }
    proof {
        assert(body.take(i - 1) =~= body);
    }
    Some(rows)
}

} // verus!
