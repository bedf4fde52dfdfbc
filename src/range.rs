use vstd::prelude::*;
use crate::error::PatternError;
use crate::text::{chars_of, digits_end, is_digit, is_number, number_in, number_value};

verus! {

/// How a stepped range picks its frames.
#[derive(Debug, Clone, Copy, PartialEq, Eq, Structural)]
pub enum Body {
    /// Every `step`-th frame, counting from the start.
    Fill,
    /// Every frame but the `step`-th ones, counting from the start.
    Inverse,
}

/// `p` reads `N-M`, with the `-` at `i`.
pub open spec fn is_span(p: Seq<char>, i: int) -> bool {
    &&& 0 <= i < p.len()
    &&& p[i] == '-'
    &&& is_number(p.take(i))
    &&& is_number(p.skip(i + 1))
}

/// `p` reads `N-MxS` or `N-MyS`, with the `-` at `i` and the letter at `j`.
pub open spec fn is_stepped_span(p: Seq<char>, i: int, j: int) -> bool {
    &&& 0 <= i < j < p.len()
    &&& p[i] == '-'
    &&& (p[j] == 'x' || p[j] == 'y')
    &&& is_number(p.take(i))
    &&& is_number(p.subrange(i + 1, j))
    &&& is_number(p.skip(j + 1))
}

/// A range descriptor: start, stop, step and body.
pub type RangeSpec = (nat, nat, nat, Body);

/// What a range token says, read by the first of its three forms that fits.
pub open spec fn range_form(p: Seq<char>) -> Option<RangeSpec> {
    if is_number(p) {
        Some((number_value(p), number_value(p), 1, Body::Fill))
    } else if exists|i: int| is_span(p, i) {
        let i = choose|i: int| is_span(p, i);
        Some((number_value(p.take(i)), number_value(p.skip(i + 1)), 1, Body::Fill))
    } else if exists|i: int, j: int| is_stepped_span(p, i, j) {
        let (i, j) = choose|i: int, j: int| is_stepped_span(p, i, j);
        Some(
            (
                number_value(p.take(i)),
                number_value(p.subrange(i + 1, j)),
                number_value(p.skip(j + 1)),
                if p[j] == 'x' {
                    Body::Fill
                } else {
                    Body::Inverse
                },
            ),
        )
    } else {
        None
    }
}

/// Which descriptor values are refused, and with what error.
pub open spec fn check_range(start: nat, stop: nat, step: nat, body: Body) -> Result<
    RangeSpec,
    PatternError,
> {
    if start > stop {
        Err(PatternError::InvertedRange)
    } else if step == 0 {
        Err(PatternError::InvalidStep)
    } else {
        Ok((start, stop, step, body))
    }
}

/// The descriptor a range token decodes to. A number too large for a
/// `u32` makes the token malformed.
pub open spec fn decode_range(p: Seq<char>) -> Result<RangeSpec, PatternError> {
    match range_form(p) {
        None => Err(PatternError::MalformedPattern),
        Some((start, stop, step, body)) => if start > u32::MAX || stop > u32::MAX || step
            > u32::MAX {
            Err(PatternError::MalformedPattern)
        } else {
            check_range(start, stop, step, body)
        },
    }
}

/// The first non-digit of `p` sits at `a`; a digit run that starts at 0 and
/// is followed by a non-digit at `i` ends there too.
proof fn lemma_run_end(p: Seq<char>, from: int, a: int, i: int)
    requires
        0 <= from <= a <= p.len(),
        forall|k: int| from <= k < a ==> is_digit(#[trigger] p[k]),
        a == p.len() || !is_digit(p[a]),
        from <= i < p.len(),
        !is_digit(p[i]),
        forall|k: int| from <= k < i ==> is_digit(#[trigger] p[k]),
    ensures
        i == a,
{
    if i < a {
        assert(is_digit(p[i]));
    } else if a < i {
        assert(is_digit(p[a]));
    }
}

/// Decodes a range token held in `p`.
pub fn parse_range(p: &Vec<char>) -> (r: Result<(u32, u32, u32, Body), PatternError>)
    ensures
        match r {
            Ok((a, b, c, body)) => decode_range(p@) == Ok::<RangeSpec, PatternError>(
                (a as nat, b as nat, c as nat, body),
            ),
            Err(e) => decode_range(p@) == Err::<RangeSpec, PatternError>(e),
        },
{
    let ghost s = p@;
    let n = p.len();
    let a = digits_end(p, 0);
    proof {
        assert forall|i: int| is_span(s, i) implies i == a by {
            assert forall|k: int| 0 <= k < i implies is_digit(#[trigger] s[k]) by {
                assert(s.take(i)[k] == s[k]);
            }
            lemma_run_end(s, 0, a as int, i);
        }
        assert forall|i: int, j: int| is_stepped_span(s, i, j) implies i == a by {
            assert forall|k: int| 0 <= k < i implies is_digit(#[trigger] s[k]) by {
                assert(s.take(i)[k] == s[k]);
            }
            lemma_run_end(s, 0, a as int, i);
        }
    }
    if a == 0 {
        assert(!is_number(s));
        return Err(PatternError::MalformedPattern);
    }
    if a == n {
        assert(is_number(s));
        assert(s.subrange(0, n as int) =~= s);
        return match number_in(p, 0, n) {
            Some(v) => Ok((v, v, 1, Body::Fill)),
            None => Err(PatternError::MalformedPattern),
        };
    }
    assert(!is_number(s));
    if p[a] != '-' {
        return Err(PatternError::MalformedPattern);
    }
    let b = digits_end(p, a + 1);
    proof {
        assert forall|i: int, j: int| is_stepped_span(s, i, j) implies j == b by {
            assert forall|k: int| a + 1 <= k < j implies is_digit(#[trigger] s[k]) by {
                assert(s.subrange(a + 1, j)[k - a - 1] == s[k]);
            }
            lemma_run_end(s, a + 1, b as int, j);
        }
    }
    if b == a + 1 {
        proof {
            if b < n {
                assert(!is_digit(s.skip(a + 1)[0]));
            }
            assert(s.subrange(a + 1, b as int).len() == 0);
        }
        return Err(PatternError::MalformedPattern);
    }
    assert(is_number(s.take(a as int))) by {
        assert forall|k: int| 0 <= k < a implies is_digit(#[trigger] s.take(a as int)[k]) by {
            assert(s.take(a as int)[k] == s[k]);
        }
    }
    assert(s.take(a as int) =~= s.subrange(0, a as int));
    if b == n {
        assert(s.skip(a + 1) =~= s.subrange(a + 1, n as int));
        assert(is_span(s, a as int));
        let start = number_in(p, 0, a);
        let stop = number_in(p, a + 1, n);
        return match (start, stop) {
            (Some(x), Some(y)) => if x > y {
                Err(PatternError::InvertedRange)
            } else {
                Ok((x, y, 1, Body::Fill))
            },
            _ => Err(PatternError::MalformedPattern),
        };
    }
    assert(!is_digit(s.skip(a + 1)[b - a - 1]));
    assert(!is_span(s, a as int));
    if p[b] != 'x' && p[b] != 'y' {
        return Err(PatternError::MalformedPattern);
    }
    let e = digits_end(p, b + 1);
    if e == b + 1 || e != n {
        proof {
            if e < n {
                assert(!is_digit(s.skip(b + 1)[e - b - 1]));
            } else {
                assert(s.skip(b + 1).len() == 0);
            }
            assert forall|i: int, j: int| !is_stepped_span(s, i, j) by {
                if is_stepped_span(s, i, j) {
                    assert(i == a && j == b);
                }
            }
        }
        return Err(PatternError::MalformedPattern);
    }
    assert(s.skip(b + 1) =~= s.subrange(b + 1, n as int));
    assert(is_stepped_span(s, a as int, b as int));
    let start = number_in(p, 0, a);
    let stop = number_in(p, a + 1, b);
    let step = number_in(p, b + 1, n);
    let body = if p[b] == 'x' {
        Body::Fill
    } else {
        Body::Inverse
    };
    match (start, stop, step) {
        (Some(x), Some(y), Some(z)) => if x > y {
            Err(PatternError::InvertedRange)
        } else if z == 0 {
            Err(PatternError::InvalidStep)
        } else {
            Ok((x, y, z, body))
        },
        _ => Err(PatternError::MalformedPattern),
    }
}

/// A decoded range of frames.
#[derive(Debug, PartialEq, Eq, Structural)]
pub struct Range {
    start: u32,
    stop: u32,
    step: usize,
    body: Body,
}

impl View for Range {
    type V = RangeSpec;

    closed spec fn view(&self) -> RangeSpec {
        (self.start as nat, self.stop as nat, self.step as nat, self.body)
    }
}

impl Range {
    #[verifier::type_invariant]
    spec fn inv(&self) -> bool {
        self.start <= self.stop && self.step >= 1
    }

    /// Decodes a range token (without padding).
    pub fn from_pattern(pattern: &String) -> (r: Result<Range, PatternError>)
        ensures
            match r {
                Ok(range) => decode_range(pattern@) == Ok::<RangeSpec, PatternError>(range@),
                Err(e) => decode_range(pattern@) == Err::<RangeSpec, PatternError>(e),
            },
    {
        let cs = chars_of(pattern.as_str());
        match parse_range(&cs) {
            Ok((start, stop, step, body)) => Ok(Range { start, stop, step: step as usize, body }),
            Err(e) => Err(e),
        }
    }

    /// A range from its parts; `start` after `stop`, or a zero step, is refused.
    pub fn new(start: u32, stop: u32, step: usize, body: Body) -> (r: Result<Range, PatternError>)
        ensures
            match r {
                Ok(range) => check_range(start as nat, stop as nat, step as nat, body) == Ok::<
                    RangeSpec,
                    PatternError,
                >(range@),
                Err(e) => check_range(start as nat, stop as nat, step as nat, body) == Err::<
                    RangeSpec,
                    PatternError,
                >(e),
            },
    {
        if start > stop {
            Err(PatternError::InvertedRange)
        } else if step == 0 {
            Err(PatternError::InvalidStep)
        } else {
            Ok(Range { start, stop, step, body })
        }
    }

    pub fn start(&self) -> (r: &u32)
        ensures
            *r as nat == self@.0,
    {
        &self.start
    }

    pub fn stop(&self) -> (r: &u32)
        ensures
            *r as nat == self@.1,
    {
        &self.stop
    }

    pub fn body(&self) -> (r: &Body)
        ensures
            *r == self@.3,
    {
        &self.body
    }

    pub fn step(&self) -> (r: &usize)
        ensures
            *r as nat == self@.2,
            *r >= 1,
    {
        proof {
            use_type_invariant(self);
        }
        &self.step
    }

    /// How far the stop lies past the start.
    pub fn distance(&self) -> (r: u32)
        ensures
            r == self@.1 - self@.0,
    {
        proof {
            use_type_invariant(self);
        }
        self.stop - self.start
    }
}

} // verus!
