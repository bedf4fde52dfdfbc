use vstd::prelude::*;
use crate::error::PatternError;
use crate::text::chars_of;

verus! {

/// `#` and `@` are the two padding markers.
pub open spec fn is_marker(c: char) -> bool {
    c == '#' || c == '@'
}

/// A `#` stands for four digits of padding, an `@` for one.
pub open spec fn marker_value(c: char) -> nat {
    if c == '#' {
        4
    } else if c == '@' {
        1
    } else {
        0
    }
}

/// A padding token: any run of markers, the empty one included.
pub open spec fn is_padding_token(s: Seq<char>) -> bool {
    forall|i: int| 0 <= i < s.len() ==> is_marker(#[trigger] s[i])
}

/// The width a padding token stands for: the sum of its markers' values.
pub open spec fn token_width(s: Seq<char>) -> nat
    decreases s.len(),
{
    if s.len() == 0 {
        0
    } else {
        token_width(s.drop_last()) + marker_value(s.last())
    }
}

/// The canonical token of `width`: the remainder as `@`s, then the fours as
/// `#`s, and a single `@` where both would be empty.
pub open spec fn padding_token(width: nat) -> Seq<char> {
    let fours = width / 4;
    let ones = if fours == 0 && width % 4 == 0 {
        1
    } else {
        width % 4
    };
    Seq::new(ones, |_i: int| '@') + Seq::new(fours, |_i: int| '#')
}

pub proof fn lemma_token_width_append(a: Seq<char>, b: Seq<char>)
    ensures
        token_width(a + b) == token_width(a) + token_width(b),
    decreases b.len(),
{
    if b.len() == 0 {
        assert(a + b =~= a);
    } else {
        lemma_token_width_append(a, b.drop_last());
        assert((a + b).drop_last() =~= a + b.drop_last());
    }
}

proof fn lemma_token_width_repeat(k: nat, c: char)
    ensures
        token_width(Seq::new(k, |_i: int| c)) == k * marker_value(c),
    decreases k,
{
    if k > 0 {
        lemma_token_width_repeat((k - 1) as nat, c);
        assert(Seq::new(k, |_i: int| c).drop_last() =~= Seq::new((k - 1) as nat, |_i: int| c));
        let m = marker_value(c);
        assert(((k - 1) as nat) * m + m == k * m) by (nonlinear_arith)
            requires
                k > 0,
        ;
    }
}

/// A prefix of a token is worth no more than the whole.
pub proof fn lemma_token_width_prefix(s: Seq<char>, k: int)
    requires
        0 <= k <= s.len(),
    ensures
        token_width(s.take(k)) <= token_width(s),
{
    lemma_token_width_append(s.take(k), s.skip(k));
    assert(s.take(k) + s.skip(k) =~= s);
}

/// The canonical token of a non-zero width is a padding token of that width.
pub proof fn lemma_padding_token_width(width: nat)
    requires
        width >= 1,
    ensures
        is_padding_token(padding_token(width)),
        token_width(padding_token(width)) == width,
        padding_token(width).len() >= 1,
{
    let fours = width / 4;
    let ones = width % 4;
    assert(ones >= 1 || fours >= 1);
    lemma_token_width_repeat(ones, '@');
    lemma_token_width_repeat(fours, '#');
    lemma_token_width_append(Seq::new(ones, |_i: int| '@'), Seq::new(fours, |_i: int| '#'));
    assert(padding_token(width) == Seq::new(ones, |_i: int| '@') + Seq::new(fours, |_i: int| '#'));
}

/// The width of the token `cs[from..to]`, or `None` where it holds a
/// character that is no marker.
pub fn token_width_in(cs: &Vec<char>, from: usize, to: usize) -> (r: Option<u32>)
    requires
        from <= to <= cs@.len(),
        token_width(cs@.subrange(from as int, to as int)) <= u32::MAX,
    ensures
        match r {
            Some(w) => is_padding_token(cs@.subrange(from as int, to as int)) && w as nat
                == token_width(cs@.subrange(from as int, to as int)),
            None => !is_padding_token(cs@.subrange(from as int, to as int)),
        },
{
    let ghost s = cs@.subrange(from as int, to as int);
    let mut w: u32 = 0;
    let mut i = from;
    while i < to
        invariant
            from <= i <= to <= cs@.len(),
            token_width(s) <= u32::MAX,
            s == cs@.subrange(from as int, to as int),
            is_padding_token(s.take(i - from)),
            w as nat == token_width(s.take(i - from)),
        decreases to - i,
    {
        let c = cs[i];
        if c != '#' && c != '@' {
            assert(!is_marker(s[i - from]));
            return None;
        }
        proof {
            assert(s.take(i + 1 - from).drop_last() =~= s.take(i - from));
            lemma_token_width_prefix(s, i + 1 - from);
        }
        if c == '#' {
            w = w + 4;
        } else {
            w = w + 1;
        }
        i += 1;
        assert(is_padding_token(s.take(i - from))) by {
            assert forall|k: int| 0 <= k < i - from implies is_marker(
                #[trigger] s.take(i - from)[k],
            ) by {
                if k < i - 1 - from {
                    assert(s.take(i - from)[k] == s.take(i - 1 - from)[k]);
                }
            }
        }
    }
    assert(s.take(to - from) =~= s);
    Some(w)
}

/// A zero-padding width, rendered as a token of `#` and `@` markers.
pub struct Padding {
    value: u32,
}

impl View for Padding {
    type V = u32;

    closed spec fn view(&self) -> u32 {
        self.value
    }
}

impl Padding {
    pub fn new(value: u32) -> (r: Self)
        ensures
            r@ == value,
    {
        Padding { value }
    }

    pub fn value(&self) -> (r: u32)
        ensures
            r == self@,
    {
        self.value
    }

    /// Decodes a padding token: `Ok` exactly when every character is a marker.
    pub fn try_from(pattern: &str) -> (r: Result<Padding, PatternError>)
        requires
            token_width(pattern@) <= u32::MAX,
        ensures
            match r {
                Ok(p) => is_padding_token(pattern@) && p@ as nat == token_width(pattern@),
                Err(e) => !is_padding_token(pattern@) && e == PatternError::InvalidToken,
            },
    {
        let cs = chars_of(pattern);
        assert(cs@.subrange(0, cs@.len() as int) =~= pattern@);
        match token_width_in(&cs, 0, cs.len()) {
            Some(w) => Ok(Padding::new(w)),
            None => Err(PatternError::InvalidToken),
        }
    }

    /// The canonical token of this width.
    pub fn token(&self) -> (r: String)
        ensures
            r@ == padding_token(self@ as nat),
    {
        let fours = self.value / 4;
        let ones = if fours == 0 && self.value % 4 == 0 {
            1
        } else {
            self.value % 4
        };
        let mut out = String::new();
        let mut i: u32 = 0;
        while i < ones
            invariant
                i <= ones,
                out@ == Seq::new(i as nat, |_i: int| '@'),
            decreases ones - i,
        {
            proof {
                reveal_strlit("@");
            }
            out.append("@");
            i += 1;
            assert(out@ =~= Seq::new(i as nat, |_i: int| '@'));
        }
        let mut j: u32 = 0;
        while j < fours
            invariant
                j <= fours,
                out@ == Seq::new(ones as nat, |_i: int| '@') + Seq::new(j as nat, |_i: int| '#'),
            decreases fours - j,
        {
            proof {
                reveal_strlit("#");
            }
            out.append("#");
            j += 1;
            assert(out@ =~= Seq::new(ones as nat, |_i: int| '@') + Seq::new(j as nat, |_i: int| '#'));
        }
        out
    }
}

} // verus!
