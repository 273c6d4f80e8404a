//! Reading a program from text: comma separated fractions `n/d`, then the
//! initial state, each with optional surrounding whitespace.

use vstd::prelude::*;
use crate::program::Program;
use crate::rational::{Rational, fits_i64};

verus! {

/// Characters with the Unicode `White_Space` property.
pub open spec fn is_whitespace(c: char) -> bool {
    let u = c as u32;
    (9 <= u && u <= 13) || u == 32 || u == 0x85 || u == 0xA0 || u == 0x1680 || (0x2000 <= u
        && u <= 0x200A) || u == 0x2028 || u == 0x2029 || u == 0x202F || u == 0x205F || u
        == 0x3000
}

/// `s` without its leading whitespace.
pub open spec fn trim_start(s: Seq<char>) -> Seq<char>
    decreases s.len(),
{
    if s.len() > 0 && is_whitespace(s[0]) {
        trim_start(s.drop_first())
    } else {
        s
    }
}

/// `s` without its trailing whitespace.
pub open spec fn trim_end(s: Seq<char>) -> Seq<char>
    decreases s.len(),
{
    if s.len() > 0 && is_whitespace(s.last()) {
        trim_end(s.drop_last())
    } else {
        s
    }
}

/// `s` without leading and trailing whitespace.
pub open spec fn trim(s: Seq<char>) -> Seq<char> {
    trim_end(trim_start(s))
}

/// The pieces of `s` between occurrences of `sep`: one more piece than
/// there are separators, empty pieces included.
pub open spec fn split(s: Seq<char>, sep: char) -> Seq<Seq<char>>
    decreases s.len(),
{
    if s.len() == 0 {
        seq![Seq::empty()]
    } else {
        let p = split(s.drop_last(), sep);
        if s.last() == sep {
            p.push(Seq::empty())
        } else {
            p.update(p.len() - 1, p.last().push(s.last()))
        }
    }
}

proof fn lemma_split_nonempty(s: Seq<char>, sep: char)
    ensures
        split(s, sep).len() >= 1,
    decreases s.len(),
{
    if s.len() > 0 {
        lemma_split_nonempty(s.drop_last(), sep);
    }
}

/// An ASCII decimal digit.
pub open spec fn is_digit(c: char) -> bool {
    '0' as u32 <= c as u32 && c as u32 <= '9' as u32
}

/// The value of a decimal digit.
pub open spec fn digit_value(c: char) -> int {
    c as u32 - '0' as u32
}

/// One or more decimal digits.
pub open spec fn all_digits(d: Seq<char>) -> bool {
    d.len() > 0 && forall|i: int| 0 <= i < d.len() ==> is_digit(#[trigger] d[i])
}

/// The number that a string of decimal digits denotes.
pub open spec fn digits_value(d: Seq<char>) -> int
    decreases d.len(),
{
    if d.len() == 0 {
        0
    } else {
        digits_value(d.drop_last()) * 10 + digit_value(d.last())
    }
}

/// The integer that `s` denotes: an optional sign `+` or `-`, then one or
/// more decimal digits, nothing else.
pub open spec fn int_literal(s: Seq<char>) -> Option<int> {
    if s.len() > 0 && s[0] == '-' {
        if all_digits(s.drop_first()) {
            Some(-digits_value(s.drop_first()))
        } else {
            None
        }
    } else if s.len() > 0 && s[0] == '+' {
        if all_digits(s.drop_first()) {
            Some(digits_value(s.drop_first()))
        } else {
            None
        }
    } else if all_digits(s) {
        Some(digits_value(s))
    } else {
        None
    }
}

/// The `i64` that `s` denotes, if it denotes one in range.
pub open spec fn int_value(s: Seq<char>) -> Option<int> {
    match int_literal(s) {
        Some(v) => if fits_i64(v) {
            Some(v)
        } else {
            None
        },
        None => None,
    }
}

proof fn lemma_digits_prefix(d: Seq<char>, k: int)
    requires
        0 <= k <= d.len(),
        forall|i: int| 0 <= i < d.len() ==> is_digit(#[trigger] d[i]),
    ensures
        0 <= digits_value(d.subrange(0, k)) <= digits_value(d),
    decreases d.len(),
{
    if k == d.len() {
        assert(d.subrange(0, k) =~= d);
        if d.len() > 0 {
            lemma_digits_prefix(d.drop_last(), 0);
        }
    } else {
        let p = d.drop_last();
        assert(p.subrange(0, k) =~= d.subrange(0, k));
        lemma_digits_prefix(p, k);
        lemma_digits_prefix(p, p.len() as int);
        assert(p.subrange(0, p.len() as int) =~= p);
    }
}

/// Whether `c` is whitespace in the sense of `is_whitespace`.
pub fn is_whitespace_char(c: char) -> (r: bool)
    ensures
        r == is_whitespace(c),
{
    let u = c as u32;
    (9 <= u && u <= 13) || u == 32 || u == 0x85 || u == 0xA0 || u == 0x1680 || (0x2000 <= u
        && u <= 0x200A) || u == 0x2028 || u == 0x2029 || u == 0x202F || u == 0x205F || u
        == 0x3000
}

/// `s` without leading and trailing whitespace.
pub fn trim_str(s: &str) -> (r: &str)
    ensures
        r@ == trim(s@),
{
    let n = s.unicode_len();
    let mut lo: usize = 0;
    assert(s@.subrange(0, n as int) =~= s@);
    while lo < n && is_whitespace_char(s.get_char(lo))
        invariant
            n == s@.len(),
            lo <= n,
            trim_start(s@) == trim_start(s@.subrange(lo as int, n as int)),
        decreases n - lo,
    {
        assert(s@.subrange(lo as int, n as int).drop_first() =~= s@.subrange(
            lo as int + 1,
            n as int,
        ));
        lo += 1;
    }
    let ghost t = s@.subrange(lo as int, n as int);
    assert(trim_start(s@) == t);
    let mut hi: usize = n;
    while hi > lo && is_whitespace_char(s.get_char(hi - 1))
        invariant
            n == s@.len(),
            lo <= hi <= n,
            t == s@.subrange(lo as int, n as int),
            trim_end(t) == trim_end(s@.subrange(lo as int, hi as int)),
        decreases hi,
    {
        assert(s@.subrange(lo as int, hi as int).drop_last() =~= s@.subrange(
            lo as int,
            hi as int - 1,
        ));
        hi -= 1;
    }
    s.substring_char(lo, hi)
}

/// The pieces of `s` between occurrences of `sep`, as `split` gives them.
pub fn split_str(s: &str, sep: char) -> (r: Vec<&str>)
    ensures
        r@.map_values(|p: &str| p@) == split(s@, sep),
{
    let n = s.unicode_len();
    let mut pieces: Vec<&str> = Vec::new();
    let mut start: usize = 0;
    let mut i: usize = 0;
    assert(s@.subrange(0, 0) =~= Seq::<char>::empty());
    assert(pieces@.map_values(|p: &str| p@).push(s@.subrange(0, 0)) =~= seq![Seq::empty()]);
    while i < n
        invariant
            n == s@.len(),
            start <= i <= n,
            split(s@.subrange(0, i as int), sep) == pieces@.map_values(|p: &str| p@).push(
                s@.subrange(start as int, i as int),
            ),
        decreases n - i,
    {
        let c = s.get_char(i);
        let ghost before = pieces@.map_values(|p: &str| p@);
        assert(s@.subrange(0, i as int + 1).drop_last() =~= s@.subrange(0, i as int));
        if c == sep {
            let piece = s.substring_char(start, i);
            pieces.push(piece);
            assert(pieces@.map_values(|p: &str| p@) =~= before.push(piece@));
            start = i + 1;
            assert(s@.subrange(start as int, start as int) =~= Seq::<char>::empty());
        } else {
            assert(s@.subrange(start as int, i as int).push(c) =~= s@.subrange(
                start as int,
                i as int + 1,
            ));
            assert(before.push(s@.subrange(start as int, i as int)).update(
                before.len() as int,
                s@.subrange(start as int, i as int + 1),
            ) =~= before.push(s@.subrange(start as int, i as int + 1)));
        }
        i += 1;
    }
    assert(s@.subrange(0, n as int) =~= s@);
    pieces.push(s.substring_char(start, n));
    assert(pieces@.map_values(|p: &str| p@) =~= split(s@, sep));
    pieces
}

/// The `i64` that `s` denotes: an optional sign, then decimal digits, with
/// no whitespace. `None` when `s` has another form or its value does not fit.
pub fn parse_int(s: &str) -> (r: Option<i64>)
    ensures
        r is Some <==> int_value(s@) is Some,
        r matches Some(v) ==> int_value(s@) == Some(v as int),
{
    let n = s.unicode_len();
    if n == 0 {
        return None;
    }
    let c0 = s.get_char(0);
    let start: usize = if c0 == '-' || c0 == '+' {
        1
    } else {
        0
    };
    let ghost d = s@.subrange(start as int, n as int);
    if start == n {
        assert(!all_digits(d));
        if start == 1 { assert(s@.drop_first() =~= d); } else { assert(s@ =~= d); }
        return None;
    }
    let mut acc: u64 = 0;
    let mut i: usize = start;
    assert(d.subrange(0, 0) =~= Seq::<char>::empty());
    while i < n
        invariant
            n == s@.len(),
            start <= i <= n,
            d == s@.subrange(start as int, n as int),
            c0 == s@[0],
            start == 1 <==> (c0 == '-' || c0 == '+'),
            start == 0 || start == 1,
            acc as int == digits_value(d.subrange(0, i - start)),
            acc <= 0x8000_0000_0000_0000u64,
            forall|j: int| 0 <= j < i - start ==> is_digit(#[trigger] d[j]),
        decreases n - i,
    {
        let c = s.get_char(i);
        if !('0' <= c && c <= '9') {
            assert(!is_digit(d[i - start]));
            if start == 1 { assert(s@.drop_first() =~= d); } else { assert(s@ =~= d); }
            assert(!all_digits(d));
            return None;
        }
        let next = (acc as u128) * 10 + (c as u32 - '0' as u32) as u128;
        assert(d.subrange(0, i - start + 1).drop_last() =~= d.subrange(0, i - start));
        if next > 0x8000_0000_0000_0000u128 {
            proof {
                if start == 1 { assert(s@.drop_first() =~= d); } else { assert(s@ =~= d); }
                if all_digits(d) {
                    lemma_digits_prefix(d, i - start + 1);
                }
            }
            return None;
        }
        acc = next as u64;
        i += 1;
    }
    assert(d.subrange(0, n - start) =~= d);
    if start == 1 { assert(s@.drop_first() =~= d); } else { assert(s@ =~= d); }
    if c0 == '-' {
        Some((-(acc as i128)) as i64)
    } else if acc <= 0x7fff_ffff_ffff_ffffu64 {
        Some(acc as i64)
    } else {
        None
    }
}

/// Why a text was refused, with the offending text.
#[derive(Debug, PartialEq, Eq)]
pub enum ParseError {
    /// A fraction is not two integers around one `/`; holds the fraction's text.
    MalformedFraction(String),
    /// Fewer than two comma separated items, or a last item that is not an
    /// integer; holds the whole text or that item.
    MalformedProgram(String),
    /// A fraction with denominator zero; holds the fraction's text.
    ZeroDenominator(String),
}

/// A `ParseError` with its text as characters.
pub enum ParseFault {
    MalformedFraction(Seq<char>),
    MalformedProgram(Seq<char>),
    ZeroDenominator(Seq<char>),
}

impl View for ParseError {
    type V = ParseFault;

    open spec fn view(&self) -> ParseFault {
        match self {
            ParseError::MalformedFraction(t) => ParseFault::MalformedFraction(t@),
            ParseError::MalformedProgram(t) => ParseFault::MalformedProgram(t@),
            ParseError::ZeroDenominator(t) => ParseFault::ZeroDenominator(t@),
        }
    }
}

/// The fraction that `t` denotes: after trimming, two integers split by one
/// `/`, the second nonzero.
pub open spec fn parse_rational(t: Seq<char>) -> Result<(int, int), ParseFault> {
    let parts = split(trim(t), '/');
    if parts.len() != 2 {
        Err(ParseFault::MalformedFraction(t))
    } else {
        match (int_value(parts[0]), int_value(parts[1])) {
            (Some(n), Some(d)) => if d == 0 {
                Err(ParseFault::ZeroDenominator(t))
            } else {
                Ok((n, d))
            },
            _ => Err(ParseFault::MalformedFraction(t)),
        }
    }
}

/// The fractions that `ts` denote, or the error of the first that denotes none.
pub open spec fn parse_fracs(ts: Seq<Seq<char>>) -> Result<Seq<(int, int)>, ParseFault>
    decreases ts.len(),
{
    if ts.len() == 0 {
        Ok(Seq::empty())
    } else {
        match parse_fracs(ts.drop_last()) {
            Err(e) => Err(e),
            Ok(fs) => match parse_rational(ts.last()) {
                Err(e) => Err(e),
                Ok(f) => Ok(fs.push(f)),
            },
        }
    }
}

/// The comma separated items of `s`, each trimmed.
pub open spec fn program_items(s: Seq<char>) -> Seq<Seq<char>> {
    split(s, ',').map_values(|p: Seq<char>| trim(p))
}

/// The instructions and initial state that `s` denotes: at least two comma
/// separated items, every item but the last a fraction, the last an integer.
pub open spec fn parse_program(s: Seq<char>) -> Result<(Seq<(int, int)>, int), ParseFault> {
    let items = program_items(s);
    if items.len() < 2 {
        Err(ParseFault::MalformedProgram(s))
    } else {
        match parse_fracs(items.drop_last()) {
            Err(e) => Err(e),
            Ok(fs) => match int_value(items.last()) {
                None => Err(ParseFault::MalformedProgram(items.last())),
                Some(v) => Ok((fs, v)),
            },
        }
    }
}

proof fn lemma_fracs_error_stays(ts: Seq<Seq<char>>, k: int, j: int)
    requires
        0 <= k <= j <= ts.len(),
        parse_fracs(ts.take(k)) is Err,
    ensures
        parse_fracs(ts.take(j)) == parse_fracs(ts.take(k)),
    decreases j,
{
    if j > k {
        assert(ts.take(j).drop_last() =~= ts.take(j - 1));
        lemma_fracs_error_stays(ts, k, j - 1);
    }
}

impl Rational {
    /// The fraction that `s` denotes, as `parse_rational` says.
    pub fn parse(s: &str) -> (r: Result<Rational, ParseError>)
        ensures
            match r {
                Ok(f) => parse_rational(s@) == Ok::<(int, int), ParseFault>(f@),
                Err(e) => parse_rational(s@) == Err::<(int, int), ParseFault>(e@),
            },
    {
        let parts = split_str(trim_str(s), '/');
        proof {
            assert(parts@.map_values(|p: &str| p@).len() == parts@.len());
        }
        if parts.len() != 2 {
            return Err(ParseError::MalformedFraction(String::from_str(s)));
        }
        proof {
            assert(parts@.map_values(|p: &str| p@)[0] == parts@[0]@);
            assert(parts@.map_values(|p: &str| p@)[1] == parts@[1]@);
        }
        match (parse_int(parts[0]), parse_int(parts[1])) {
            (Some(n), Some(d)) => {
                match Rational::new(n, d) {
                    Some(f) => Ok(f),
                    None => Err(ParseError::ZeroDenominator(String::from_str(s))),
                }
            },
            _ => Err(ParseError::MalformedFraction(String::from_str(s))),
        }
    }
}

impl Program {
    /// The program that `s` denotes, as `parse_program` says.
    pub fn parse(s: &str) -> (r: Result<Program, ParseError>)
        ensures
            match r {
                Ok(p) => parse_program(s@) == Ok::<(Seq<(int, int)>, int), ParseFault>(
                    (p@.0, p@.1 as int),
                ),
                Err(e) => parse_program(s@) == Err::<(Seq<(int, int)>, int), ParseFault>(e@),
            },
    {
        let raw = split_str(s, ',');
        let ghost all = program_items(s@);
        let mut items: Vec<&str> = Vec::new();
        let mut k: usize = 0;
        while k < raw.len()
            invariant
                k <= raw.len(),
                raw@.map_values(|p: &str| p@) == split(s@, ','),
                all == program_items(s@),
                items@.map_values(|p: &str| p@) == all.take(k as int),
            decreases raw.len() - k,
        {
            let t = trim_str(raw[k]);
            proof {
                assert(raw@.map_values(|p: &str| p@)[k as int] == raw@[k as int]@);
            }
            let ghost before = items@.map_values(|p: &str| p@);
            items.push(t);
            assert(items@.map_values(|p: &str| p@) =~= before.push(t@));
            assert(all.take(k as int + 1) =~= all.take(k as int).push(all[k as int]));
            k += 1;
        }
        assert(all.take(raw.len() as int) =~= all);
        let ghost views = items@.map_values(|p: &str| p@);
        if items.len() < 2 {
            return Err(ParseError::MalformedProgram(String::from_str(s)));
        }
        let m = items.len() - 1;
        let ghost heads = all.drop_last();
        let mut fracs: Vec<Rational> = Vec::new();
        let mut j: usize = 0;
        assert(heads.take(0) =~= Seq::<Seq<char>>::empty());
        assert(fracs@.map_values(|f: Rational| f@) =~= Seq::<(int, int)>::empty());
        while j < m
            invariant
                m == items.len() - 1,
                j <= m,
                views == items@.map_values(|p: &str| p@),
                views == all,
                all == program_items(s@),
                heads == all.drop_last(),
                parse_fracs(heads.take(j as int)) == Ok::<Seq<(int, int)>, ParseFault>(
                    fracs@.map_values(|f: Rational| f@),
                ),
            decreases m - j,
        {
            assert(views[j as int] == items@[j as int]@);
            assert(heads.take(j as int + 1).drop_last() =~= heads.take(j as int));
            assert(heads.take(j as int + 1).last() == views[j as int]);
            match Rational::parse(items[j]) {
                Err(e) => {
                    proof {
                        assert(parse_fracs(heads.take(j as int + 1)) == Err::<
                            Seq<(int, int)>,
                            ParseFault,
                        >(e@));
                        lemma_fracs_error_stays(heads, j as int + 1, m as int);
                        assert(heads.take(m as int) =~= heads);
                    }
                    return Err(e);
                },
                Ok(f) => {
                    let ghost before = fracs@.map_values(|f: Rational| f@);
                    fracs.push(f);
                    assert(fracs@.map_values(|f: Rational| f@) =~= before.push(f@));
                },
            }
            j += 1;
        }
        assert(heads.take(m as int) =~= heads);
        assert(views[m as int] == items@[m as int]@);
        match parse_int(items[m]) {
            None => Err(ParseError::MalformedProgram(String::from_str(items[m]))),
            Some(state) => Ok(Program::new(fracs, state)),
        }
    }
}

impl std::str::FromStr for Rational {
    type Err = ParseError;

    fn from_str(s: &str) -> Result<Rational, ParseError> {
        Rational::parse(s)
    }
}

impl std::str::FromStr for Program {
    type Err = ParseError;

    fn from_str(s: &str) -> Result<Program, ParseError> {
        Program::parse(s)
    }
}

} // verus!
