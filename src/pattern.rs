use vstd::prelude::*;
use crate::error::PatternError;
use crate::padding::is_marker;
use crate::range::{check_range, decode_range, parse_range, Body, RangeSpec};
use crate::text::chars_of;

verus! {

/// `s` with every padding marker taken out.
pub open spec fn strip_markers(s: Seq<char>) -> Seq<char>
    decreases s.len(),
{
    if s.len() == 0 {
        seq![]
    } else if is_marker(s.last()) {
        strip_markers(s.drop_last())
    } else {
        strip_markers(s.drop_last()).push(s.last())
    }
}

/// Strip '@' and '#' characters
pub fn strip_padding(pattern: &mut String)
    ensures
        final(pattern)@ == strip_markers(old(pattern)@),
{
    let n = pattern.as_str().unicode_len();
    let ghost s = pattern@;
    let mut out = String::new();
    let mut i: usize = 0;
    while i < n
        invariant
            n == s.len(),
            s == pattern@,
            i <= n,
            out@ == strip_markers(s.take(i as int)),
        decreases n - i,
    {
        let c = pattern.as_str().get_char(i);
        assert(s.take(i + 1).drop_last() =~= s.take(i as int));
        if c != '#' && c != '@' {
            let one = pattern.as_str().substring_char(i, i + 1);
            assert(one@ =~= seq![c]);
            out.append(one);
        }
        i += 1;
    }
    assert(s.take(n as int) =~= s);
    *pattern = out;
}

/// A frame range read from a full pattern, padding markers included.
#[derive(Debug, PartialEq, Eq, Structural)]
pub struct PatternRange {
    start: u32,
    stop: u32,
    step: u32,
    body: Body,
}

impl View for PatternRange {
    type V = RangeSpec;

    closed spec fn view(&self) -> RangeSpec {
        (self.start as nat, self.stop as nat, self.step as nat, self.body)
    }
}

impl PatternRange {
    #[verifier::type_invariant]
    spec fn inv(&self) -> bool {
        self.start <= self.stop && self.step >= 1
    }

    /// Expects '#1-10' pattern: the markers are dropped, the rest decoded.
    pub fn from_pattern(pattern: &String) -> (r: Result<PatternRange, PatternError>)
        ensures
            match r {
                Ok(range) => decode_range(strip_markers(pattern@)) == Ok::<RangeSpec, PatternError>(
                    range@,
                ),
                Err(e) => decode_range(strip_markers(pattern@)) == Err::<RangeSpec, PatternError>(
                    e,
                ),
            },
    {
        let mut range = pattern.clone();
        strip_padding(&mut range);
        let cs = chars_of(range.as_str());
        match parse_range(&cs) {
            Ok((start, stop, step, body)) => Ok(PatternRange { start, stop, step, body }),
            Err(e) => Err(e),
        }
    }

    /// A range from its parts; `start` after `stop`, or a zero step, is refused.
    pub fn new(start: u32, stop: u32, skip: u32, surface: Body) -> (r: Result<
        PatternRange,
        PatternError,
    >)
        ensures
            match r {
                Ok(range) => check_range(start as nat, stop as nat, skip as nat, surface) == Ok::<
                    RangeSpec,
                    PatternError,
                >(range@),
                Err(e) => check_range(start as nat, stop as nat, skip as nat, surface) == Err::<
                    RangeSpec,
                    PatternError,
                >(e),
            },
    {
        if start > stop {
            Err(PatternError::InvertedRange)
        } else if skip == 0 {
            Err(PatternError::InvalidStep)
        } else {
            Ok(PatternRange { start, stop, step: skip, body: surface })
        }
    }

    pub fn start(&self) -> (r: &u32)
        ensures
            *r as nat == self@.0,
    {
        &self.start
    }

    pub fn stop(&self) -> (r: &u32)
        ensures
            *r as nat == self@.1,
    {
        &self.stop
    }

    pub fn body(&self) -> (r: &Body)
        ensures
            *r == self@.3,
    {
        &self.body
    }

    pub fn step(&self) -> (r: &u32)
        ensures
            *r as nat == self@.2,
            *r >= 1,
    {
        proof {
            use_type_invariant(self);
        }
        &self.step
    }
}

} // verus!
