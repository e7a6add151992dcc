//! The reference resolver: from `N` and `N.R` to column and row numbers.

use crate::text::{
    chars_of, find_char, first_of, parse_signed, parse_unsigned, signed_decimal, trim, trim_range,
    unsigned_decimal, within,
};
use vstd::prelude::*;
use vstd::string::{StrSliceExecFns, StringExecFns};

verus! {

/// Why a reference was not understood. Each variant holds the offending
/// token, without the whitespace around it.
#[derive(Debug, Clone, PartialEq, Eq)]
pub enum RefError {
    /// What stands before the first dot, or the whole reference where it
    /// has no dot, is no column number.
    Column(String),
    /// What stands after the first dot is no row number.
    Row(String),
}

/// Mathematical content of a [`RefError`].
pub ghost enum RefErrorView {
    Column(Seq<char>),
    Row(Seq<char>),
}

impl View for RefError {
    type V = RefErrorView;

    open spec fn view(&self) -> RefErrorView {
        match self {
            RefError::Column(t) => RefErrorView::Column(t@),
            RefError::Row(t) => RefErrorView::Row(t@),
        }
    }
}

/// What a reference error says, in words.
pub open spec fn ref_message(e: RefErrorView) -> Seq<char> {
    match e {
        RefErrorView::Column(t) => "invalid column reference: "@ + t,
        RefErrorView::Row(t) => "invalid row reference: "@ + t,
    }
}

impl RefError {
    /// The error in words: which half failed, and the offending token.
    pub fn message(&self) -> (r: String)
        ensures
            r@ == ref_message(self@),
    {
        match self {
            RefError::Column(t) => {
                let mut m = "invalid column reference: ".to_owned();
                m.append(t.as_str());
                m
            },
            RefError::Row(t) => {
                let mut m = "invalid row reference: ".to_owned();
                m.append(t.as_str());
                m
            },
        }
    }
}

/// The token before the first dot of `s`, trimmed; all of `s` where it has no dot.
pub open spec fn column_token(s: Seq<char>) -> Seq<char> {
    trim(s.take(first_of(s, '.')))
}

/// The token after the first dot of `s`, trimmed; `None` where `s` has no dot.
pub open spec fn row_token(s: Seq<char>) -> Option<Seq<char>> {
    let k = first_of(s, '.');
    if k < s.len() {
        Some(trim(s.skip(k + 1)))
    } else {
        None
    }
}

/// The number that a token writes: decimal digits, after `+` where
/// `signed` is false and after `+` or `-` where it is true, no smaller
/// than 0 and no larger than `max`.
pub open spec fn token_number(t: Seq<char>, signed: bool, max: int) -> Option<int> {
    if signed {
        within(signed_decimal(t), 0, max)
    } else {
        within(
            match unsigned_decimal(t) {
                Some(v) => Some(v as int),
                None => None,
            },
            0,
            max,
        )
    }
}

/// What the reference `s` stands for: the number before the first dot and
/// the number behind it, 0 where there is no dot. The first number is no
/// larger than `max`. A first token that is no such number is reported
/// before a second one is looked at.
pub open spec fn reference(s: Seq<char>, signed: bool, max: int) -> Result<
    (int, int),
    RefErrorView,
> {
    match token_number(column_token(s), signed, max) {
        None => Err(RefErrorView::Column(column_token(s))),
        Some(col) => match row_token(s) {
            None => Ok((col, 0)),
            Some(t) => match token_number(t, false, usize::MAX as int) {
                None => Err(RefErrorView::Row(t)),
                Some(row) => Ok((col, row)),
            },
        },
    }
}

/// Reads a reference; see [`reference`].
fn read_reference(s: &str, signed: bool, max: u64) -> (r: Result<(u64, usize), RefError>)
    requires
        signed ==> max <= i64::MAX,
    ensures
        match r {
            Ok((col, row)) => reference(s@, signed, max as int) == Ok::<_, RefErrorView>(
                (col as int, row as int),
            ),
            Err(e) => reference(s@, signed, max as int) == Err::<(int, int), _>(e@),
        },
{
    let chars = chars_of(s);
    let n = chars.len();
    proof {
        assert(chars@.subrange(0, n as int) == chars@);
    }
    let k = find_char(&chars, 0, n, '.');
    proof {
        assert(chars@.subrange(0, k as int) == s@.take(k as int));
    }
    let (a, b) = trim_range(&chars, 0, k);
    let col: Option<u64> = if signed {
        match parse_signed(&chars, a, b) {
            Some(v) => if 0 <= v && v as u64 <= max {
                Some(v as u64)
            } else {
                None
            },
            None => None,
        }
    } else {
        parse_unsigned(&chars, a, b, max)
    };
    let col: u64 = match col {
        Some(c) => c,
        None => {
            return Err(RefError::Column(s.substring_char(a, b).to_owned()));
        },
    };
    if k == n {
        return Ok((col, 0));
    }
    proof {
        assert(chars@.subrange(k + 1, n as int) == s@.skip(k + 1));
    }
    let (c, d) = trim_range(&chars, k + 1, n);
    match parse_unsigned(&chars, c, d, usize::MAX as u64) {
        Some(row) => Ok((col, row as usize)),
        None => Err(RefError::Row(s.substring_char(c, d).to_owned())),
    }
}

/// Reads `N` or `N.R`: a column counted from 1 and a row counted from 0,
/// row 0 where none is given. Both are decimal numbers that are not
/// negative; whitespace around either is ignored.
pub fn parse_abs_row(s: &str) -> (r: Result<(i32, usize), RefError>)
    ensures
        match r {
            Ok((abs, row)) => reference(s@, true, i32::MAX as int) == Ok::<_, RefErrorView>(
                (abs as int, row as int),
            ),
            Err(e) => reference(s@, true, i32::MAX as int) == Err::<(int, int), _>(e@),
        },
{
    match read_reference(s, true, 0x7fff_ffff) {
        Ok((col, row)) => Ok((col as i32, row)),
        Err(e) => Err(e),
    }
}

/// Reads `C` or `C.R`: a column and a row, both counted from 0, row 0
/// where none is given.
pub fn parse_col_row(s: &str) -> (r: Result<(usize, usize), RefError>)
    ensures
        match r {
            Ok((col, row)) => reference(s@, false, usize::MAX as int) == Ok::<_, RefErrorView>(
                (col as int, row as int),
            ),
            Err(e) => reference(s@, false, usize::MAX as int) == Err::<(int, int), _>(e@),
        },
{
    match read_reference(s, false, usize::MAX as u64) {
        Ok((col, row)) => Ok((col as usize, row)),
        Err(e) => Err(e),
    }
}

/// The column counted from 0 that the column `abs`, counted from 1, stands
/// for among `ncols` columns: `abs - 1`, raised to 0 and lowered to
/// `ncols - 1`. Without any column it is 0.
pub open spec fn clamp_index(abs: int, ncols: int) -> int {
    if ncols <= 0 || abs - 1 < 0 {
        0
    } else if abs - 1 > ncols - 1 {
        ncols - 1
    } else {
        abs - 1
    }
}

/// Resolves a column counted from 1 to an existing column counted from 0.
pub fn clamp_abs_to_col_index(abs: i32, ncols: usize) -> (r: usize)
    ensures
        r == clamp_index(abs as int, ncols as int),
        ncols > 0 ==> r < ncols,
{
    if ncols == 0 || abs <= 1 {
        0
    } else {
        let base: usize = (abs - 1) as usize;
        if base > ncols - 1 {
            ncols - 1
        } else {
            base
        }
    }
}

/// Resolving is total and idempotent: what a column resolves to is a
/// column that exists, and resolving the reference to that column again
/// gives the same column.
pub proof fn lemma_clamp_total_idempotent(abs: int, ncols: int)
    requires
        ncols > 0,
    ensures
        0 <= clamp_index(abs, ncols) <= ncols - 1,
        clamp_index(clamp_index(abs, ncols) + 1, ncols) == clamp_index(abs, ncols),
{
}

} // verus!
