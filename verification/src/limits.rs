//! Repetition counts: parsing them from the regular expression and checking path lengths against them.
use vstd::prelude::*;

use crate::error::{same_result, Error};
use crate::peekable::{after_next, first_of, keeps_last, lemma_keeps_skip, lemma_keeps_trans, Peekable};
use crate::text::{chars_to_string, decimal_chars, spec_decimal};

verus! {

/// big number to serve as a cap for repetition count
pub const EFFECTIVELY_INFINITE: usize = 99999999;

/// Whether **c** is a decimal digit.
pub open spec fn is_digit(c: char) -> bool {
    '0' <= c && c <= '9'
}

/// The number of leading decimal digits of **s**.
pub open spec fn digit_run(s: Seq<char>) -> nat
    decreases s.len(),
{
    if s.len() > 0 && is_digit(s[0]) {
        1 + digit_run(s.drop_first())
    } else {
        0
    }
}

/// The number written by the decimal digits **s**.
pub open spec fn digits_value(s: Seq<char>) -> nat
    decreases s.len(),
{
    if s.len() == 0 {
        0
    } else {
        digits_value(s.drop_last()) * 10 + ((s.last() as int) - ('0' as int)) as nat
    }
}

/// What **read_int** gives on the stream **s**: the number written by its leading digits (None if
/// there are none, or if it does not fit in **usize**), and the stream after the digits.
pub open spec fn spec_read_int(s: Seq<char>) -> (Option<usize>, Seq<char>) {
    let k = digit_run(s);
    let v = digits_value(s.take(k as int));
    (if k == 0 || v > usize::MAX { None } else { Some(v as usize) }, s.skip(k as int))
}

/// What **Limits::parse_ints** gives on the stream **s** (the part of a repetition count after '{'):
/// the minimum and maximum, or an error code, and the stream after the count.
pub open spec fn spec_parse_ints(s: Seq<char>) -> (Result<(usize, usize), usize>, Seq<char>) {
    let (num, r1) = spec_read_int(s);
    if num is None || r1.len() == 0 {
        (Err(7), after_next(r1))
    } else if r1[0] == '}' {
        (Ok((num->0, num->0)), r1.drop_first())
    } else if r1[0] == ',' {
        let (n2, r3) = spec_read_int(r1.drop_first());
        let max = if n2 is Some { n2->0 } else { EFFECTIVELY_INFINITE };
        if first_of(r3) != Some('}') {
            (Err(8), after_next(r3))
        } else {
            (Ok((num->0, max)), r3.drop_first())
        }
    } else {
        (Err(7), r1.drop_first())
    }
}

/// Limits with the given bounds, lazy if the stream **r** starts with '?', with the stream after that mark.
pub open spec fn spec_lazy_mark(min: usize, max: usize, r: Seq<char>) -> (Result<Limits, usize>, Seq<char>) {
    if r.len() > 0 && r[0] == '?' {
        (Ok(Limits { min, max, options: 1 }), r.drop_first())
    } else {
        (Ok(Limits { min, max, options: 0 }), r)
    }
}

/// What **Limits::parse** gives on the stream **s**: the repetition count at its front (the default
/// single repetition if there is none), or an error code, and the stream after it.
pub open spec fn spec_parse_limits(s: Seq<char>) -> (Result<Limits, usize>, Seq<char>) {
    if s.len() == 0 {
        (Ok(Limits::spec_default()), s)
    } else if s[0] == '*' {
        spec_lazy_mark(0, EFFECTIVELY_INFINITE, s.drop_first())
    } else if s[0] == '+' {
        spec_lazy_mark(1, EFFECTIVELY_INFINITE, s.drop_first())
    } else if s[0] == '?' {
        spec_lazy_mark(0, 1, s.drop_first())
    } else if s[0] == '{' {
        let (r, rest) = spec_parse_ints(s.drop_first());
        match r {
            Ok((min, max)) => spec_lazy_mark(min, max, rest),
            Err(c) => (Err(c), rest),
        }
    } else {
        (Ok(Limits::spec_default()), s)
    }
}

/// Holds and handles the limit information for a Node: the min and max repetitions allowed, and whether
/// it is lazy or not.
/// **IMPORTANT**: MIN and MAX are the actual sizes allowed (that is, ? is min 0, max 1). But the check()
/// method takes as input the number of Steps in the Path. Since there is an entry for 0 steps the number
/// passed to check() is actually one higher than the actual repetition count.
#[derive(Debug, Clone, Copy, PartialEq, Eq, Structural)]
pub struct Limits {
    /// Minimum number of occurences to allow
    pub min: usize,
    /// Maximum number of occurences to allow
    pub max: usize,
    /// Holds bits for caseless search and lazy evaluation
    pub options: usize,
}

impl Default for Limits {
    fn default() -> (l: Limits)
        ensures
            l == Limits::spec_default(),
    {
        Limits { min: 1, max: 1, options: 0 }
    }
}

impl Limits {
    /// the option bit for lazy evaluation
    pub const LAZY: usize = 0x1;
    /// the option bit for caseless matching
    pub const NO_CASE: usize = 0x2;

    /// A single, greedy, case-sensitive repetition.
    pub open spec fn spec_default() -> Limits {
        Limits { min: 1, max: 1, options: 0 }
    }

    /// whether the lazy bit is set
    pub open spec fn spec_lazy(self) -> bool {
        self.options & 1 == 1
    }

    /// whether the caseless bit is set
    pub open spec fn spec_no_case(self) -> bool {
        self.options & 2 == 2
    }

    /// The value of **check(num)**: -1 below the range, 0 inside it, 1 above it, where **num** is
    /// one more than the number of repetitions.
    pub open spec fn spec_check(self, num: int) -> int {
        if num <= self.min {
            -1
        } else if num <= self.max + 1 {
            0
        } else {
            1
        }
    }

    /// The number of repetitions the first walk tries: MAX for greedy, MIN for lazy.
    pub open spec fn spec_initial_walk_limit(self) -> usize {
        if self.spec_lazy() {
            self.min
        } else {
            self.max
        }
    }

    /// returns boolean determining if the node should be evaluated lazily or not
    pub fn lazy(&self) -> (r: bool)
        ensures
            r == self.spec_lazy(),
    {
        self.options & Limits::LAZY == Limits::LAZY
    }

    /// returns boolean determining if the node should ignore case on the match or not
    pub fn no_case(&self) -> (r: bool)
        ensures
            r == self.spec_no_case(),
    {
        self.options & Limits::NO_CASE == Limits::NO_CASE
    }

    /// Display every Limit in a *{min,max}* format for debugging, followed by '?' if it is lazy
    pub fn simple_display(&self) -> (s: String)
        ensures
            s@ == seq!['{'] + spec_decimal(self.min as nat) + seq![','] + spec_decimal(self.max as nat)
                + seq!['}'] + (if self.spec_lazy() { seq!['?'] } else { Seq::empty() }),
    {
        let mut v: Vec<char> = Vec::new();
        v.push('{');
        let a = decimal_chars(self.min);
        crate::error::append_chars(&mut v, &a);
        v.push(',');
        let b = decimal_chars(self.max);
        crate::error::append_chars(&mut v, &b);
        v.push('}');
        if self.lazy() {
            v.push('?');
        }
        proof {
            if self.spec_lazy() {
                assert(v@ =~= seq!['{'] + spec_decimal(self.min as nat) + seq![','] + spec_decimal(self.max as nat)
                    + seq!['}'] + seq!['?']);
            } else {
                assert(v@ =~= seq!['{'] + spec_decimal(self.min as nat) + seq![','] + spec_decimal(self.max as nat)
                    + seq!['}'] + Seq::<char>::empty());
            }
        }
        chars_to_string(v.as_slice())
    }

    /// returns a Limit struct parsed out from point. If none is there returns the default
    pub fn parse(chars: &mut Peekable) -> (r: Result<Limits, Error>)
        ensures
            same_result(r, spec_parse_limits(old(chars)@).0),
            r matches Err(e) ==> e.code == 7 || e.code == 8,
            r is Ok ==> final(chars)@ == spec_parse_limits(old(chars)@).1,
            r is Ok ==> final(chars)@.len() <= old(chars)@.len(),
    {
        let ghost s = chars@;
        let next = chars.next();
        if next.is_none() {
            return Ok(Limits::default());
        }
        let next = next.unwrap();
        let (min, max): (usize, usize) = match next {
            '*' => (0, EFFECTIVELY_INFINITE),
            '+' => (1, EFFECTIVELY_INFINITE),
            '?' => (0, 1),
            '{' => Limits::parse_ints(chars)?,
            _ => {
                chars.put_back(next);
                proof {
                    assert(chars@ =~= s);
                }
                return Ok(Limits::default());
            },
        };
        let options = if chars.peek().unwrap_or('x') == '?' {
            Limits::LAZY
        } else {
            0
        };
        if options > 0 {
            let _ = chars.next();
        }
        Ok(Limits { min, max, options })
    }

    /// helper function to parse an int at the current position of the RE being parsed
    fn parse_ints(chars: &mut Peekable) -> (r: Result<(usize, usize), Error>)
        ensures
            same_result(r, spec_parse_ints(old(chars)@).0),
            r is Ok ==> final(chars)@ == spec_parse_ints(old(chars)@).1,
            r is Ok ==> final(chars)@.len() < old(chars)@.len(),
    {
        let num = read_int(chars);
        let peek = chars.next();
        if num.is_none() || peek.is_none() {
            return Err(Error::make(7, "malformed repetition block"));
        }
        let num = num.unwrap();
        match peek.unwrap() {
            '}' => Ok((num, num)),
            ',' => {
                let n2 = if let Some(n) = read_int(chars) {
                    n
                } else {
                    EFFECTIVELY_INFINITE
                };
                let terminate = chars.next();
                if terminate.unwrap_or('x') != '}' {
                    Err(Error::make(8, "bad character in repeat count"))
                } else {
                    Ok((num, n2))
                }
            },
            _ => Err(Error::make(7, "Malformed repetition block")),
        }
    }

    /// Checks if the size falls in the range.
    /// Returns: <0 if NUM is < min; 0 if NUM is in the range min <= NUM <= max (but NUM needs
    /// to be adjusted to account for the 0-match possibility: it is one more than the repetition count).
    pub fn check(&self, num: usize) -> (r: isize)
        ensures
            r == self.spec_check(num as int),
    {
        if num <= self.min {
            -1
        } else if num - 1 <= self.max {
            0
        } else {
            1
        }
    }

    /// gives the length of the initial walk: MAX for greedy, MIN for lazy
    pub fn initial_walk_limit(&self) -> (n: usize)
        ensures
            n == self.spec_initial_walk_limit(),
    {
        if self.lazy() {
            self.min
        } else {
            self.max
        }
    }
}

/// reads an int from input, consuming characters if one is there, otherwise not changing anything
pub fn read_int(chars: &mut Peekable) -> (r: Option<usize>)
    ensures
        r == spec_read_int(old(chars)@).0,
        final(chars)@ == spec_read_int(old(chars)@).1,
        final(chars)@.len() <= old(chars)@.len(),
{
    let ghost s = chars@;
    let mut num: usize = 0;
    let mut any = false;
    let mut overflow = false;
    let ghost mut i: int = 0;
    proof {
        assert(s.skip(0) =~= s);
        assert(s.take(0) =~= Seq::<char>::empty());
    }
    loop
        invariant
            0 <= i <= digit_run(s),
            i <= s.len(),
            chars@ == s.skip(i),
            digit_run(s) == i + digit_run(s.skip(i)),
            any == (i > 0),
            overflow ==> digits_value(s.take(i)) > usize::MAX,
            !overflow ==> num == digits_value(s.take(i)),
        ensures
            i == digit_run(s),
            chars@ == s.skip(i),
            any == (i > 0),
            overflow ==> digits_value(s.take(i)) > usize::MAX,
            !overflow ==> num == digits_value(s.take(i)),
        decreases s.len() - i,
    {
        let ghost before = chars@;
        let digit = chars.next();
        if digit.is_none() {
            proof {
                assert(digit_run(before) == 0);
            }
            break;
        }
        let digit = digit.unwrap();
        if !('0' <= digit && digit <= '9') {
            chars.put_back(digit);
            proof {
                assert(chars@ =~= before);
                assert(digit_run(before) == 0);
            }
            break;
        }
        proof {
            assert(digit_run(before) == 1 + digit_run(before.drop_first()));
            assert(before.drop_first() =~= s.skip(i + 1));
            assert(s.take(i + 1).drop_last() =~= s.take(i));
            assert(s.take(i + 1).last() == digit);
        }
        any = true;
        let d = (digit as u32 - '0' as u32) as usize;
        if !overflow {
            if num > (usize::MAX - d) / 10 {
                overflow = true;
                proof {
                    assert(num * 10 + d > usize::MAX) by (nonlinear_arith)
                        requires num > (usize::MAX - d) / 10, d <= 9;
                }
            } else {
                proof {
                    assert(num * 10 + d <= usize::MAX) by (nonlinear_arith)
                        requires num <= (usize::MAX - d) / 10, d <= 9;
                }
                num = num * 10 + d;
            }
        } else {
            proof {
                assert(digits_value(s.take(i)) * 10 + d >= digits_value(s.take(i))) by (nonlinear_arith);
            }
        }
        proof {
            i = i + 1;
        }
    }
    proof {
        assert(spec_read_int(s).1 == s.skip(i));
    }
    if any && !overflow {
        Some(num)
    } else {
        None
    }
}

/// The check takes the number of steps of a walk, one more than the number of repetitions: a
/// number of repetitions is accepted exactly when it lies between the minimum and the maximum.
pub proof fn law_check_counts_repetitions(l: Limits, reps: nat)
    ensures
        (l.spec_check(reps + 1int) == 0) <==> (l.min <= reps && reps <= l.max),
        (l.spec_check(reps + 1int) < 0) <==> reps < l.min,
{
}

/// A lazy walk first tries the fewest repetitions allowed, a greedy one the most.
pub proof fn law_initial_walk(l: Limits)
    ensures
        l.spec_lazy() ==> l.spec_initial_walk_limit() == l.min,
        !l.spec_lazy() ==> l.spec_initial_walk_limit() == l.max,
{
}

/// A run of leading digits is no longer than the sequence, and shorter if it does not end
/// with a digit.
pub proof fn lemma_digit_run(s: Seq<char>)
    ensures
        digit_run(s) <= s.len(),
        s.len() > 0 && !is_digit(s.last()) ==> digit_run(s) < s.len(),
    decreases s.len(),
{
    if s.len() > 0 && is_digit(s[0]) {
        lemma_digit_run(s.drop_first());
        if s.len() > 1 {
            assert(s.drop_first().last() == s.last());
        }
    }
}

/// Reading a number keeps the last character of the stream, and stops before a last character
/// that is not a digit.
pub proof fn lemma_read_int_keeps(s: Seq<char>)
    ensures
        keeps_last(spec_read_int(s).1, s),
        s.len() > 0 && !is_digit(s.last()) ==> spec_read_int(s).1.len() > 0 && spec_read_int(s).1.last() == s.last(),
{
    lemma_digit_run(s);
    lemma_keeps_skip(s, digit_run(s) as int);
}

/// Reading a repetition count keeps the last character of the stream; and when that character
/// is ')', a count that is read leaves it in the stream.
pub proof fn lemma_limits_keeps(s: Seq<char>)
    ensures
        keeps_last(spec_parse_limits(s).1, s),
        s.len() > 0 && s.last() == ')' && spec_parse_limits(s).0 is Ok ==> spec_parse_limits(s).1.len() > 0,
{
    if s.len() == 0 {
    } else if s[0] == '*' || s[0] == '+' || s[0] == '?' {
        let r = s.drop_first();
        lemma_keeps_skip(s, 1);
        if r.len() > 0 && r[0] == '?' {
            lemma_keeps_skip(r, 1);
            lemma_keeps_trans(r.drop_first(), r, s);
        }
    } else if s[0] == '{' {
        let t = s.drop_first();
        lemma_keeps_skip(s, 1);
        let (num, r1) = spec_read_int(t);
        lemma_read_int_keeps(t);
        lemma_keeps_trans(r1, t, s);
        lemma_keeps_skip(r1, if r1.len() > 0 { 1 } else { 0 });
        lemma_keeps_trans(r1.skip(if r1.len() > 0 { 1 } else { 0 }), r1, s);
        assert(after_next(r1) == r1.skip(if r1.len() > 0 { 1 } else { 0 }));
        if r1.len() > 0 {
            assert(r1.drop_first() == r1.skip(1));
        }
        if !(num is None || r1.len() == 0) && r1[0] == ',' {
            let u = r1.drop_first();
            let (n2, r3) = spec_read_int(u);
            lemma_read_int_keeps(u);
            lemma_keeps_trans(r3, u, s);
            lemma_keeps_skip(r3, if r3.len() > 0 { 1 } else { 0 });
            lemma_keeps_trans(r3.skip(if r3.len() > 0 { 1 } else { 0 }), r3, s);
            assert(after_next(r3) == r3.skip(if r3.len() > 0 { 1 } else { 0 }));
            if r3.len() > 0 {
                assert(r3.drop_first() == r3.skip(1));
            }
        }
        let (r, rest) = spec_parse_ints(t);
        if r is Ok {
            lemma_keeps_skip(rest, if rest.len() > 0 && rest[0] == '?' { 1 } else { 0 });
            lemma_keeps_trans(rest.skip(if rest.len() > 0 && rest[0] == '?' { 1 } else { 0 }), rest, s);
            if rest.len() > 0 && rest[0] == '?' {
                assert(rest.drop_first() == rest.skip(1));
            } else {
                assert(rest == rest.skip(0));
            }
        }
    }
}

} // verus!
