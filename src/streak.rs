use vstd::prelude::*;
use crate::error::PatternError;
use crate::frames::{
    ascending, body_of, comma_list, frames_token, lemma_comma_list_chars, lemma_comma_list_front,
    Body as Shape, Frames,
};
use crate::padding::{
    is_marker, lemma_padding_token_width, lemma_token_width_prefix, padding_token, token_width,
    token_width_in, Padding,
};
use crate::range::{decode_range, is_span, is_stepped_span, parse_range, Body, Range};
use crate::text::{
    chars_of, decimal, digit_run, digits_end, is_digit, is_number, lemma_decimal_is_number,
    lemma_digit_run, number_in, number_value,
};

verus! {

/// The length of the run of padding markers that `p` starts with.
pub open spec fn marker_run(p: Seq<char>) -> nat
    decreases p.len(),
{
    if p.len() > 0 && is_marker(p[0]) {
        1 + marker_run(p.drop_first())
    } else {
        0
    }
}

proof fn lemma_marker_run(p: Seq<char>, e: int)
    requires
        0 <= e <= p.len(),
        forall|k: int| 0 <= k < e ==> is_marker(#[trigger] p[k]),
        e == p.len() || !is_marker(p[e]),
    ensures
        marker_run(p) == e,
    decreases e,
{
    if e > 0 {
        let q = p.drop_first();
        assert forall|k: int| 0 <= k < e - 1 implies is_marker(#[trigger] q[k]) by {
            assert(q[k] == p[k + 1]);
        }
        if e < p.len() {
            assert(q[e - 1] == p[e]);
        }
        lemma_marker_run(q, e - 1);
    }
}

/// A comma list `N,N,...,N`: the numbers it holds, if each fits in a `u32`.
pub open spec fn list_values(p: Seq<char>) -> Option<Seq<u32>>
    decreases p.len(),
{
    let e = digit_run(p) as int;
    if e == 0 || e > p.len() || number_value(p.take(e)) > u32::MAX {
        None
    } else if e == p.len() {
        Some(seq![number_value(p.take(e)) as u32])
    } else if p[e] == ',' {
        match list_values(p.skip(e + 1)) {
            Some(rest) => Some(seq![number_value(p.take(e)) as u32] + rest),
            None => None,
        }
    } else {
        None
    }
}

/// The frames a range descriptor stands for. Where start and stop differ,
/// the stop is left out.
pub open spec fn range_frames(start: nat, stop: nat, step: nat, body: Body) -> Set<u32> {
    if start == stop {
        set![start as u32]
    } else {
        Set::new(
            |n: u32|
                start <= n < stop && ((n - start) % (step as int) == 0 <==> body == Body::Fill),
        )
    }
}

/// What a full pattern decodes to: the width of its leading padding token,
/// and the frames of what follows (nothing, a range token, or a comma list).
pub open spec fn decode_pattern(p: Seq<char>) -> Result<(nat, Set<u32>), PatternError> {
    let k = marker_run(p) as int;
    let width = token_width(p.take(k));
    let rest = p.skip(k);
    if rest.len() == 0 {
        Ok((width, Set::empty()))
    } else {
        match decode_range(rest) {
            Ok((start, stop, step, body)) => Ok((width, range_frames(start, stop, step, body))),
            Err(PatternError::MalformedPattern) => match list_values(rest) {
                Some(values) => Ok((width, values.to_set())),
                None => Err(PatternError::MalformedPattern),
            },
            Err(e) => Err(e),
        }
    }
}

/// A comma list reads back as the numbers it was written from.
proof fn lemma_list_values_comma_list(s: Seq<u32>)
    requires
        s.len() >= 1,
    ensures
        list_values(comma_list(s)) == Some(s),
    decreases s.len(),
{
    let d = decimal(s[0] as nat);
    lemma_decimal_is_number(s[0] as nat);
    let p = comma_list(s);
    if s.len() == 1 {
        lemma_digit_run(p, p.len() as int);
        assert(p.take(p.len() as int) =~= p);
        assert(seq![s[0]] =~= s);
    } else {
        lemma_comma_list_front(s);
        let e = d.len() as int;
        assert forall|k: int| 0 <= k < e implies is_digit(#[trigger] p[k]) by {
            assert(p[k] == d[k]);
        }
        assert(p[e] == ',');
        lemma_digit_run(p, e);
        assert(p.take(e) =~= d);
        assert(p.skip(e + 1) =~= comma_list(s.drop_first()));
        lemma_list_values_comma_list(s.drop_first());
        assert(seq![s[0]] + s.drop_first() =~= s);
    }
}

/// Encoding a width and frames as a pattern and decoding it gives both back,
/// where the width is at least one and the frames are a single frame or are
/// unevenly spaced. (Width 0 is written `@` and reads back as 1; and a range
/// `first-last` reads back without its last frame.)
pub proof fn lemma_round_trip(width: u32, frames: Seq<u32>)
    requires
        width >= 1,
        ascending(frames),
        frames.len() == 1 || (frames.len() >= 1 && body_of(frames) == Shape::Indirect),
    ensures
        decode_pattern(padding_token(width as nat) + frames_token(frames)) == Ok::<
            (nat, Set<u32>),
            PatternError,
        >((width as nat, frames.to_set())),
{
    let pad = padding_token(width as nat);
    let tok = frames_token(frames);
    let p = pad + tok;
    lemma_padding_token_width(width as nat);
    lemma_decimal_is_number(frames[0] as nat);
    let l = pad.len() as int;
    if frames.len() >= 2 {
        lemma_comma_list_front(frames);
        assert(tok == comma_list(frames));
        assert(tok[0] == decimal(frames[0] as nat)[0]);
    }
    assert(is_digit(tok[0]));
    assert forall|k: int| 0 <= k < l implies is_marker(#[trigger] p[k]) by {
        assert(p[k] == pad[k]);
    }
    assert(p[l] == tok[0]);
    lemma_marker_run(p, l);
    assert(p.take(l) =~= pad);
    assert(p.skip(l) =~= tok);
    if frames.len() == 1 {
        assert(is_number(tok));
        assert(frames.to_set() =~= set![frames[0]]) by {
            assert(frames.to_set().contains(frames[0]));
        }
    } else {
        let d = decimal(frames[0] as nat);
        lemma_comma_list_chars(frames);
        assert(tok[d.len() as int] == ',');
        assert(!is_number(tok));
        assert forall|i: int| !is_span(tok, i) by {
            if 0 <= i < tok.len() {
                assert(is_digit(tok[i]) || tok[i] == ',');
            }
        }
        assert forall|i: int, j: int| !is_stepped_span(tok, i, j) by {
            if 0 <= i < tok.len() {
                assert(is_digit(tok[i]) || tok[i] == ',');
            }
        }
        assert(decode_range(tok) == Err::<crate::range::RangeSpec, PatternError>(
            PatternError::MalformedPattern,
        ));
        lemma_list_values_comma_list(frames);
    }
}

/// Index just past the padding markers that `cs` starts with.
fn padding_end(cs: &Vec<char>) -> (k: usize)
    ensures
        k == marker_run(cs@),
        k <= cs@.len(),
{
    let mut k: usize = 0;
    while k < cs.len() && (cs[k] == '#' || cs[k] == '@')
        invariant
            k <= cs@.len(),
            forall|i: int| 0 <= i < k ==> is_marker(#[trigger] cs@[i]),
        decreases cs@.len() - k,
    {
        k += 1;
    }
    proof {
        lemma_marker_run(cs@, k as int);
    }
    k
}

/// Read pattern and extract padding: each `#` anywhere in it counts four,
/// each `@` one, and any other character nothing.
pub fn parse_padding(pattern: &String) -> (r: u32)
    requires
        token_width(pattern@) <= u32::MAX,
    ensures
        r as nat == token_width(pattern@),
{
    let cs = chars_of(pattern.as_str());
    let ghost s = pattern@;
    let mut w: u32 = 0;
    let mut i: usize = 0;
    while i < cs.len()
        invariant
            i <= cs@.len(),
            cs@ == s,
            token_width(s) <= u32::MAX,
            w as nat == token_width(s.take(i as int)),
        decreases cs@.len() - i,
    {
        proof {
            assert(s.take(i + 1).drop_last() =~= s.take(i as int));
            lemma_token_width_prefix(s, i + 1);
        }
        if cs[i] == '#' {
            w = w + 4;
        } else if cs[i] == '@' {
            w = w + 1;
        }
        i += 1;
    }
    assert(s.take(i as int) =~= s);
    w
}

proof fn lemma_marker_prefix(p: Seq<char>, i: int)
    requires
        0 <= i < marker_run(p),
    ensures
        i < p.len(),
        is_marker(p[i]),
    decreases i,
{
    if i > 0 {
        lemma_marker_prefix(p.drop_first(), i - 1);
    }
}

/// The comma list that `cs[from..]` holds.
fn parse_list(cs: &Vec<char>, from: usize) -> (r: Option<Vec<u32>>)
    requires
        from <= cs@.len(),
    ensures
        match r {
            Some(v) => list_values(cs@.skip(from as int)) == Some(v@),
            None => list_values(cs@.skip(from as int)) is None,
        },
{
    let n = cs.len();
    let ghost whole = cs@.skip(from as int);
    let mut vals: Vec<u32> = Vec::new();
    let mut pos = from;
    assert(list_values(whole) == match list_values(cs@.skip(pos as int)) {
        Some(x) => Some(vals@ + x),
        None => None::<Seq<u32>>,
    }) by {
        if let Some(x) = list_values(cs@.skip(pos as int)) {
            assert(vals@ + x =~= x);
        }
    }
    loop
        invariant
            from <= pos <= n == cs@.len(),
            whole == cs@.skip(from as int),
            list_values(whole) == match list_values(cs@.skip(pos as int)) {
                Some(x) => Some(vals@ + x),
                None => None::<Seq<u32>>,
            },
        decreases n - pos,
    {
        let ghost p = cs@.skip(pos as int);
        let e = digits_end(cs, pos);
        proof {
            assert forall|k: int| 0 <= k < e - pos implies is_digit(#[trigger] p[k]) by {
                assert(p[k] == cs@[pos + k]);
            }
            if e < n {
                assert(p[e - pos] == cs@[e as int]);
            }
            lemma_digit_run(p, e - pos);
            assert(p.take(e - pos) =~= cs@.subrange(pos as int, e as int));
        }
        if e == pos {
            return None;
        }
        let v = match number_in(cs, pos, e) {
            Some(v) => v,
            None => {
                return None;
            },
        };
        let ghost before = vals@;
        vals.push(v);
        if e == n {
            assert(before + seq![v] =~= vals@);
            return Some(vals);
        }
        if cs[e] != ',' {
            return None;
        }
        proof {
            assert(p.skip(e - pos + 1) =~= cs@.skip(e + 1));
            if let Some(x) = list_values(cs@.skip(e + 1)) {
                assert(before + (seq![v] + x) =~= vals@ + x);
            }
        }
        pos = e + 1;
    }
}

/// Convert Range object to set of frames.
pub fn consume(range: &Range) -> (r: Frames)
    ensures
        ascending(r@),
        r@.to_set() == range_frames(range@.0, range@.1, range@.2, range@.3),
{
    let start = *range.start();
    let stop = *range.stop();
    let step = *range.step();
    let fill = match range.body() {
        Body::Fill => true,
        Body::Inverse => false,
    };
    let mut frames: Vec<u32> = Vec::new();
    if range.distance() == 0 {
        frames.push(start);
        assert(frames@.to_set() =~= set![start]) by {
            assert(frames@[0] == start);
        }
        return Frames::from_ascending(frames);
    }
    let ghost want = range_frames(range@.0, range@.1, range@.2, range@.3);
    let mut n = start;
    while n < stop
        invariant
            start <= n <= stop,
            start < stop,
            step >= 1,
            fill == (range@.3 == Body::Fill),
            start as nat == range@.0 && stop as nat == range@.1 && step as nat == range@.2,
            want == range_frames(range@.0, range@.1, range@.2, range@.3),
            ascending(frames@),
            forall|k: int| 0 <= k < frames@.len() ==> frames@[k] < n,
            frames@.to_set() == want.filter(|m: u32| m < n),
        decreases stop - n,
    {
        let keep = ((n - start) as usize % step == 0) == fill;
        let ghost old_frames = frames@;
        if keep {
            frames.push(n);
        }
        proof {
            assert(frames@.to_set() =~= want.filter(|m: u32| m < n + 1)) by {
                assert forall|m: u32| want.filter(|m: u32| m < n + 1).contains(m) implies frames@.to_set().contains(m) by {
                    if m < n {
                        assert(old_frames.to_set().contains(m));
                        let k = choose|k: int| 0 <= k < old_frames.len() && old_frames[k] == m;
                        assert(frames@[k] == m);
                    } else {
                        assert(frames@[frames@.len() - 1] == m);
                    }
                }
                assert forall|m: u32| frames@.to_set().contains(m) implies want.filter(|m: u32| m < n + 1).contains(m) by {
                    let k = choose|k: int| 0 <= k < frames@.len() && frames@[k] == m;
                    if k < old_frames.len() {
                        assert(old_frames[k] == m);
                        assert(old_frames.to_set().contains(m));
                    }
                }
            }
        }
        n += 1;
    }
    assert(want.filter(|m: u32| m < n) =~= want);
    Frames::from_ascending(frames)
}

/// A sequence of files that share a name, an extension and a padding width.
pub struct StreakView {
    pub name: Seq<char>,
    pub ext: Seq<char>,
    pub padding: u32,
    pub frames: Seq<u32>,
}

pub struct Streak {
    name: String,
    ext: String,
    padding: u32,
    frames: Frames,
}

impl View for Streak {
    type V = StreakView;

    closed spec fn view(&self) -> StreakView {
        StreakView {
            name: self.name@,
            ext: self.ext@,
            padding: self.padding,
            frames: self.frames@,
        }
    }
}

impl Streak {
    pub fn new(name: String, ext: String, padding: u32, frames: Frames) -> (r: Self)
        ensures
            r@ == (StreakView { name: name@, ext: ext@, padding, frames: frames@ }),
    {
        Streak { name, ext, padding, frames }
    }

    /// Decodes a full pattern such as `#1-10`: a streak with no name or
    /// extension, the width of the padding token and the frames it names.
    pub fn from_pattern(pattern: &String) -> (r: Result<Self, PatternError>)
        requires
            token_width(pattern@.take(marker_run(pattern@) as int)) <= u32::MAX,
        ensures
            match r {
                Ok(s) => {
                    &&& decode_pattern(pattern@) == Ok::<(nat, Set<u32>), PatternError>(
                        (s@.padding as nat, s@.frames.to_set()),
                    )
                    &&& s@.name.len() == 0
                    &&& s@.ext.len() == 0
                    &&& ascending(s@.frames)
                },
                Err(e) => decode_pattern(pattern@) == Err::<(nat, Set<u32>), PatternError>(e),
            },
    {
        let cs = chars_of(pattern.as_str());
        let n = cs.len();
        let k = padding_end(&cs);
        proof {
            assert(cs@.subrange(0, k as int) =~= cs@.take(k as int));
            assert forall|i: int| 0 <= i < k implies is_marker(#[trigger] cs@.subrange(0, k as int)[i]) by {
                lemma_marker_prefix(cs@, i);
            }
        }
        let width = token_width_in(&cs, 0, k).unwrap();
        let mut rest: Vec<char> = Vec::new();
        let mut i = k;
        while i < n
            invariant
                k <= i <= n == cs@.len(),
                rest@ == cs@.subrange(k as int, i as int),
            decreases n - i,
        {
            rest.push(cs[i]);
            i += 1;
            assert(rest@ =~= cs@.subrange(k as int, i as int));
        }
        assert(rest@ =~= cs@.skip(k as int));
        if n == k {
            let empty = Frames::empty();
            assert(empty@.to_set() =~= Set::<u32>::empty());
            return Ok(Streak::from_frames(empty, width));
        }
        match parse_range(&rest) {
            Ok((start, stop, step, body)) => match Range::new(start, stop, step as usize, body) {
                Ok(range) => Ok(Streak::from_frames(consume(&range), width)),
                Err(e) => Err(e),
            },
            Err(PatternError::MalformedPattern) => {
                assert(rest@.skip(0) =~= rest@);
                match parse_list(&rest, 0) {
                    Some(values) => Ok(Streak::from_frames(Frames::new(values.as_slice()), width)),
                    None => Err(PatternError::MalformedPattern),
                }
            },
            Err(e) => Err(e),
        }
    }

    /// A streak with no name or extension.
    pub fn from_frames(frames: Frames, padding: u32) -> (r: Self)
        ensures
            r@ == (StreakView { name: Seq::empty(), ext: Seq::empty(), padding, frames: frames@ }),
    {
        Streak::new(String::new(), String::new(), padding, frames)
    }

    /// Whether a file of this name and extension, with `padding` digits,
    /// belongs to the streak: the streak's width is a floor.
    pub fn is_match(&self, name: &String, ext: &String, padding: u32) -> (r: bool)
        ensures
            r == (self@.name == name@ && self@.ext == ext@ && self@.padding <= padding),
    {
        self.name == *name && self.ext == *ext && self.padding <= padding
    }

    /// The rendered pattern: the padding token, then the frames' token.
    pub fn pattern(&self) -> (r: String)
        ensures
            r@ == padding_token(self@.padding as nat) + frames_token(self@.frames),
    {
        let mut out = Padding::new(self.padding).token();
        let frames = self.frames.token();
        out.append(frames.as_str());
        out
    }

    /// `name.pattern.ext`
    pub fn full_name(&self) -> (r: String)
        ensures
            r@ == self@.name + seq!['.'] + padding_token(self@.padding as nat) + frames_token(
                self@.frames,
            ) + seq!['.'] + self@.ext,
    {
        proof {
            reveal_strlit(".");
        }
        let mut out = self.name.clone();
        out.append(".");
        let pattern = self.pattern();
        out.append(pattern.as_str());
        out.append(".");
        out.append(self.ext.as_str());
        out
    }

    pub fn set_padding(&mut self, padding: u32)
        ensures
            final(self)@ == (StreakView { padding, ..old(self)@ }),
    {
        self.padding = padding;
    }

    pub fn padding(&self) -> (r: u32)
        ensures
            r == self@.padding,
    {
        self.padding
    }

    pub fn frames(&self) -> (r: &Frames)
        ensures
            r@ == self@.frames,
    {
        &self.frames
    }

    pub fn frames_mut(&mut self) -> (r: &mut Frames)
        ensures
            r@ == old(self)@.frames,
            final(self)@ == (StreakView { frames: final(r)@, ..old(self)@ }),
    {
        &mut self.frames
    }

    pub fn name(&self) -> (r: &String)
        ensures
            r@ == self@.name,
    {
        &self.name
    }

    pub fn ext(&self) -> (r: &String)
        ensures
            r@ == self@.ext,
    {
        &self.ext
    }
}

/// Two streaks are alike when name and extension agree and the first one's
/// width does not exceed the second's. This follows the matching rule, so it
/// is not symmetric.
impl PartialEq for Streak {
    fn eq(&self, other: &Streak) -> (r: bool) {
        self.name == other.name && self.ext == other.ext && self.padding <= other.padding
    }
}

impl vstd::std_specs::cmp::PartialEqSpecImpl for Streak {
    open spec fn obeys_eq_spec() -> bool {
        true
    }

    open spec fn eq_spec(&self, other: &Streak) -> bool {
        self@.name == other@.name && self@.ext == other@.ext && self@.padding <= other@.padding
    }
}

/// The canonical token of a frame set, without padding.
pub fn to_pattern(frames: &Frames) -> (r: String)
    ensures
        r@ == frames_token(frames@),
{
    frames.token()
}

} // verus!
