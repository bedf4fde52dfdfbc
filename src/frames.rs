use vstd::prelude::*;
use crate::text::{decimal, is_digit, lemma_decimal_is_number, push_decimal};

verus! {

/// Strictly increasing: sorted, with no value twice.
pub open spec fn ascending(s: Seq<u32>) -> bool {
    forall|i: int, j: int| 0 <= i < j < s.len() ==> s[i] < s[j]
}

/// Every two neighbours lie `d` apart.
pub open spec fn evenly_spaced(s: Seq<u32>, d: int) -> bool {
    forall|i: int| 0 <= i < s.len() - 1 ==> #[trigger] s[i + 1] - s[i] == d
}

/// The common distance of neighbours: `Some(1)` for a single frame, `None`
/// for no frames or for uneven spacing.
pub open spec fn skip_of(s: Seq<u32>) -> Option<u32> {
    if s.len() == 0 {
        None
    } else if s.len() == 1 {
        Some(1)
    } else if evenly_spaced(s, s[1] - s[0]) {
        Some((s[1] - s[0]) as u32)
    } else {
        None
    }
}

/// The shape of a frame sequence.
#[derive(Debug, Clone, Copy, PartialEq, Eq, Structural)]
pub enum Body {
    /// Frame sequence can be defined as an expression
    Contiguous,
    /// Frame sequence is unique
    Indirect,
}

pub open spec fn body_of(s: Seq<u32>) -> Body {
    if s.len() == 0 || skip_of(s) is Some {
        Body::Contiguous
    } else {
        Body::Indirect
    }
}

/// The decimal texts of `s`, joined by commas.
pub open spec fn comma_list(s: Seq<u32>) -> Seq<char>
    decreases s.len(),
{
    if s.len() == 0 {
        seq![]
    } else if s.len() == 1 {
        decimal(s[0] as nat)
    } else {
        comma_list(s.drop_last()) + seq![','] + decimal(s.last() as nat)
    }
}

/// The canonical token of an ascending frame sequence: nothing, one frame,
/// `first-last`, `first-lastxstep`, or a comma list.
pub open spec fn frames_token(s: Seq<u32>) -> Seq<char> {
    if s.len() == 0 {
        seq![]
    } else if s.len() == 1 {
        decimal(s[0] as nat)
    } else {
        match skip_of(s) {
            Some(d) => if d == 1 {
                decimal(s[0] as nat) + seq!['-'] + decimal(s.last() as nat)
            } else {
                decimal(s[0] as nat) + seq!['-'] + decimal(s.last() as nat) + seq!['x'] + decimal(
                    d as nat,
                )
            },
            None => comma_list(s),
        }
    }
}

/// A comma list of two or more numbers, read from the front.
pub proof fn lemma_comma_list_front(s: Seq<u32>)
    requires
        s.len() >= 2,
    ensures
        comma_list(s) == decimal(s[0] as nat) + seq![','] + comma_list(s.drop_first()),
    decreases s.len(),
{
    if s.len() == 2 {
        assert(s.drop_last() =~= seq![s[0]]);
        assert(s.drop_first() =~= seq![s[1]]);
        assert(comma_list(s.drop_last()) == decimal(s[0] as nat));
        assert(comma_list(s.drop_first()) == decimal(s[1] as nat));
    } else {
        lemma_comma_list_front(s.drop_last());
        assert(s.drop_last().drop_first() =~= s.drop_first().drop_last());
        assert(s.drop_first().last() == s.last());
        assert(comma_list(s) =~= decimal(s[0] as nat) + seq![','] + comma_list(s.drop_first()));
    }
}

/// Every character of a comma list is a digit or a comma.
pub proof fn lemma_comma_list_chars(s: Seq<u32>)
    ensures
        forall|k: int|
            0 <= k < comma_list(s).len() ==> is_digit(#[trigger] comma_list(s)[k])
                || comma_list(s)[k] == ',',
    decreases s.len(),
{
    if s.len() == 1 {
        lemma_decimal_is_number(s[0] as nat);
    } else if s.len() > 1 {
        lemma_comma_list_chars(s.drop_last());
        lemma_decimal_is_number(s.last() as nat);
        let a = comma_list(s.drop_last());
        let d = decimal(s.last() as nat);
        assert forall|k: int| 0 <= k < comma_list(s).len() implies is_digit(#[trigger] comma_list(s)[k])
            || comma_list(s)[k] == ',' by {
            if k < a.len() {
                assert(comma_list(s)[k] == a[k]);
            } else if k > a.len() {
                assert(comma_list(s)[k] == d[k - a.len() - 1]);
            }
        }
    }
}

/// Two ascending sequences with the same elements are the same sequence.
pub proof fn lemma_ascending_unique(a: Seq<u32>, b: Seq<u32>)
    requires
        ascending(a),
        ascending(b),
        a.to_set() == b.to_set(),
    ensures
        a == b,
    decreases a.len(),
{
    if a.len() == 0 {
        if b.len() > 0 {
            assert(b.to_set().contains(b[0]));
        }
        assert(a =~= b);
    } else if b.len() == 0 {
        assert(a.to_set().contains(a[0]));
    } else {
        let x = a.last();
        let y = b.last();
        assert(a.to_set().contains(x));
        assert(b.to_set().contains(y));
        assert(b.to_set().contains(x));
        assert(a.to_set().contains(y));
        let i = choose|i: int| 0 <= i < b.len() && b[i] == x;
        let j = choose|j: int| 0 <= j < a.len() && a[j] == y;
        assert(x == y) by {
            if x < y {
                assert(a[j] <= x);
            } else if y < x {
                assert(b[i] <= y);
            }
        }
        let a2 = a.drop_last();
        let b2 = b.drop_last();
        assert(a2.to_set() =~= b2.to_set()) by {
            assert forall|v: u32| a2.to_set().contains(v) implies b2.to_set().contains(v) by {
                let k = choose|k: int| 0 <= k < a2.len() && a2[k] == v;
                assert(a.to_set().contains(v));
                let m = choose|m: int| 0 <= m < b.len() && b[m] == v;
                assert(m != b.len() - 1);
                assert(b2[m] == v);
            }
            assert forall|v: u32| b2.to_set().contains(v) implies a2.to_set().contains(v) by {
                let k = choose|k: int| 0 <= k < b2.len() && b2[k] == v;
                assert(b.to_set().contains(v));
                let m = choose|m: int| 0 <= m < a.len() && a[m] == v;
                assert(m != a.len() - 1);
                assert(a2[m] == v);
            }
        }
        lemma_ascending_unique(a2, b2);
        assert(a =~= b2.push(y));
        assert(b =~= b2.push(y));
    }
}

/// Adding a frame a second time changes nothing: the second result has the
/// size of the first, and is in fact the same sequence.
pub proof fn lemma_insert_twice(s: Seq<u32>, v: u32, once: Seq<u32>, twice: Seq<u32>)
    requires
        ascending(s),
        ascending(once),
        once.to_set() == s.to_set().insert(v),
        ascending(twice),
        twice.to_set() == once.to_set().insert(v),
    ensures
        twice.len() == once.len(),
        twice == once,
{
    assert(once.to_set().insert(v) =~= once.to_set());
    lemma_ascending_unique(twice, once);
}

/// The frame numbers of one streak, kept in ascending order without repeats.
pub struct Frames {
    frames: Vec<u32>,
}

impl View for Frames {
    type V = Seq<u32>;

    closed spec fn view(&self) -> Seq<u32> {
        self.frames@
    }
}

impl Frames {
    #[verifier::type_invariant]
    spec fn inv(&self) -> bool {
        ascending(self.frames@)
    }

    /// The empty frame set.
    pub fn empty() -> (r: Frames)
        ensures
            r@ == Seq::<u32>::empty(),
    {
        Frames { frames: Vec::new() }
    }

    /// The frame set of an already ascending vector.
    pub(crate) fn from_ascending(frames: Vec<u32>) -> (r: Frames)
        requires
            ascending(frames@),
        ensures
            r@ == frames@,
    {
        Frames { frames }
    }

    /// The frame set holding the given numbers.
    pub fn new(frames: &[u32]) -> (r: Frames)
        ensures
            ascending(r@),
            r@.to_set() == frames@.to_set(),
    {
        let mut r = Frames::empty();
        let mut i: usize = 0;
        while i < frames.len()
            invariant
                i <= frames@.len(),
                ascending(r@),
                r@.to_set() == frames@.take(i as int).to_set(),
            decreases frames@.len() - i,
        {
            r.insert(frames[i]);
            proof {
                assert(frames@.take(i + 1) =~= frames@.take(i as int).push(frames@[i as int]));
                frames@.take(i as int).lemma_push_to_set_commute(frames@[i as int]);
            }
            i += 1;
        }
        assert(frames@.take(i as int) =~= frames@);
        r
    }

    /// Adds `v`; a number already present leaves the set as it is.
    pub fn insert(&mut self, v: u32)
        ensures
            ascending(final(self)@),
            final(self)@.to_set() == old(self)@.to_set().insert(v),
            old(self)@.contains(v) ==> final(self)@ == old(self)@,
            !old(self)@.contains(v) ==> final(self)@.len() == old(self)@.len() + 1,
    {
        proof {
            use_type_invariant(&*self);
        }
        let n = self.frames.len();
        let mut pos: usize = 0;
        while pos < n && self.frames[pos] < v
            invariant
                pos <= n == self.frames@.len(),
                forall|k: int| 0 <= k < pos ==> self.frames@[k] < v,
            decreases n - pos,
        {
            pos += 1;
        }
        if pos < n && self.frames[pos] == v {
            return;
        }
        let ghost s = self.frames@;
        proof {
            assert(!s.contains(v)) by {
                if s.contains(v) {
                    let k = choose|k: int| 0 <= k < s.len() && s[k] == v;
                    if k >= pos {
                        assert(s[pos as int] <= s[k]);
                    }
                }
            }
        }
        let mut frames = Vec::new();
        std::mem::swap(&mut frames, &mut self.frames);
        frames.insert(pos, v);
        let ghost t = frames@;
        proof {
            assert(t =~= s.insert(pos as int, v));
            assert forall|i: int, j: int| 0 <= i < j < t.len() implies t[i] < t[j] by {
                if j < pos {
                } else if j == pos {
                } else if i < pos {
                    assert(t[j] == s[j - 1]);
                } else if i == pos {
                    assert(t[j] == s[j - 1]);
                } else {
                    assert(t[j] == s[j - 1] && t[i] == s[i - 1]);
                }
            }
            assert(t.to_set() =~= s.to_set().insert(v)) by {
                assert forall|x: u32| t.to_set().contains(x) implies s.to_set().insert(v).contains(x) by {
                    let k = choose|k: int| 0 <= k < t.len() && t[k] == x;
                    if k < pos {
                        assert(s[k] == x);
                    } else if k > pos {
                        assert(s[k - 1] == x);
                    }
                }
                assert forall|x: u32| s.to_set().insert(v).contains(x) implies t.to_set().contains(x) by {
                    if x == v {
                        assert(t[pos as int] == v);
                    } else {
                        let k = choose|k: int| 0 <= k < s.len() && s[k] == x;
                        if k < pos {
                            assert(t[k] == x);
                        } else {
                            assert(t[k + 1] == x);
                        }
                    }
                }
            }
        }
        self.frames = frames;
    }

    /// Whether `v` is one of the frames.
    pub fn contains(&self, v: u32) -> (r: bool)
        ensures
            r == self@.contains(v),
    {
        let mut i: usize = 0;
        while i < self.frames.len()
            invariant
                i <= self.frames@.len(),
                forall|k: int| 0 <= k < i ==> self.frames@[k] != v,
            decreases self.frames@.len() - i,
        {
            if self.frames[i] == v {
                return true;
            }
            i += 1;
        }
        false
    }

    /// The common distance between neighbouring frames.
    pub fn skip(&self) -> (r: Option<u32>)
        ensures
            r == skip_of(self@),
    {
        proof {
            use_type_invariant(self);
        }
        let n = self.frames.len();
        if n == 0 {
            return None;
        }
        if n == 1 {
            return Some(1);
        }
        let d = self.frames[1] - self.frames[0];
        let mut i: usize = 1;
        while i + 1 < n
            invariant
                1 <= i < n == self.frames@.len(),
                ascending(self.frames@),
                d == self.frames@[1] - self.frames@[0],
                forall|k: int| 0 <= k < i ==> #[trigger] self.frames@[k + 1] - self.frames@[k] == d,
            decreases n - i,
        {
            if self.frames[i + 1] - self.frames[i] != d {
                return None;
            }
            i += 1;
        }
        Some(d)
    }

    /// The smallest frame.
    pub fn first(&self) -> (r: Option<u32>)
        ensures
            r == (if self@.len() == 0 {
                None
            } else {
                Some(self@[0])
            }),
    {
        if self.frames.len() > 0 {
            Some(self.frames[0])
        } else {
            None
        }
    }

    /// The largest frame.
    pub fn last(&self) -> (r: Option<u32>)
        ensures
            r == (if self@.len() == 0 {
                None
            } else {
                Some(self@.last())
            }),
    {
        if self.frames.len() > 0 {
            Some(self.frames[self.frames.len() - 1])
        } else {
            None
        }
    }

    pub fn body(&self) -> (r: Body)
        ensures
            r == body_of(self@),
    {
        if self.frames.len() == 0 {
            Body::Contiguous
        } else {
            match self.skip() {
                Some(_) => Body::Contiguous,
                None => Body::Indirect,
            }
        }
    }

    /// The frames, in ascending order.
    pub fn frames(&self) -> (r: &Vec<u32>)
        ensures
            r@ == self@,
            ascending(r@),
    {
        proof {
            use_type_invariant(self);
        }
        &self.frames
    }

    pub fn count(&self) -> (r: usize)
        ensures
            r == self@.len(),
    {
        self.frames.len()
    }

    /// The canonical token of the frames (without padding).
    pub fn token(&self) -> (r: String)
        ensures
            r@ == frames_token(self@),
    {
        let n = self.frames.len();
        let mut out = String::new();
        if n == 0 {
            return out;
        }
        if n == 1 {
            push_decimal(&mut out, self.frames[0]);
            return out;
        }
        match self.skip() {
            Some(d) => {
                proof {
                    reveal_strlit("-");
                    reveal_strlit("x");
                }
                push_decimal(&mut out, self.frames[0]);
                out.append("-");
                push_decimal(&mut out, self.frames[n - 1]);
                if d != 1 {
                    out.append("x");
                    push_decimal(&mut out, d);
                }
                out
            },
            None => {
                let ghost s = self.frames@;
                let mut i: usize = 0;
                while i < n
                    invariant
                        i <= n == s.len(),
                        s == self.frames@,
                        out@ == comma_list(s.take(i as int)),
                    decreases n - i,
                {
                    proof {
                        reveal_strlit(",");
                        assert(s.take(i + 1).drop_last() =~= s.take(i as int));
                    }
                    if i > 0 {
                        out.append(",");
                    }
                    push_decimal(&mut out, self.frames[i]);
                    i += 1;
                }
                assert(s.take(n as int) =~= s);
                out
            },
        }
    }
}

} // verus!
