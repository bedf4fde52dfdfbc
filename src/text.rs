use vstd::prelude::*;

verus! {

pub open spec fn is_digit(c: char) -> bool {
    '0' <= c && c <= '9'
}

pub open spec fn digit_value(c: char) -> nat {
    (c as int - '0' as int) as nat
}

pub open spec fn digit_char(d: nat) -> char {
    (d + '0' as nat) as char
}

/// A non-empty run of decimal digits.
pub open spec fn is_number(s: Seq<char>) -> bool {
    s.len() > 0 && forall|i: int| 0 <= i < s.len() ==> is_digit(#[trigger] s[i])
}

/// The value of a run of decimal digits; leading zeros are allowed.
pub open spec fn number_value(s: Seq<char>) -> nat
    decreases s.len(),
{
    if s.len() == 0 {
        0
    } else {
        number_value(s.drop_last()) * 10 + digit_value(s.last())
    }
}

/// The length of the run of digits that `p` starts with.
pub open spec fn digit_run(p: Seq<char>) -> nat
    decreases p.len(),
{
    if p.len() > 0 && is_digit(p[0]) {
        1 + digit_run(p.drop_first())
    } else {
        0
    }
}

pub proof fn lemma_digit_run(p: Seq<char>, e: int)
    requires
        0 <= e <= p.len(),
        forall|k: int| 0 <= k < e ==> is_digit(#[trigger] p[k]),
        e == p.len() || !is_digit(p[e]),
    ensures
        digit_run(p) == e,
    decreases e,
{
    if e > 0 {
        let q = p.drop_first();
        assert forall|k: int| 0 <= k < e - 1 implies is_digit(#[trigger] q[k]) by {
            assert(q[k] == p[k + 1]);
        }
        if e < p.len() {
            assert(q[e - 1] == p[e]);
        }
        lemma_digit_run(q, e - 1);
    }
}

/// The shortest decimal text of `n`.
pub open spec fn decimal(n: nat) -> Seq<char>
    decreases n,
{
    if n < 10 {
        seq![digit_char(n)]
    } else {
        decimal(n / 10).push(digit_char(n % 10))
    }
}

pub proof fn lemma_decimal_is_number(n: nat)
    ensures
        is_number(decimal(n)),
        number_value(decimal(n)) == n,
    decreases n,
{
    let d = decimal(n);
    assert(digit_value(digit_char(n % 10)) == n % 10);
    assert(is_digit(digit_char(n % 10)));
    if n >= 10 {
        lemma_decimal_is_number(n / 10);
        assert(d.drop_last() =~= decimal(n / 10));
        assert(d.last() == digit_char(n % 10));
        assert(n == (n / 10) * 10 + n % 10) by (nonlinear_arith);
        assert(number_value(d) == number_value(decimal(n / 10)) * 10 + n % 10);
        assert forall|i: int| 0 <= i < d.len() implies is_digit(#[trigger] d[i]) by {
            if i < d.len() - 1 {
                assert(d[i] == decimal(n / 10)[i]);
            }
        }
    } else {
        assert(d.drop_last() =~= Seq::<char>::empty());
        assert(number_value(Seq::<char>::empty()) == 0);
        assert(number_value(d) == digit_value(digit_char(n)));
    }
}

/// A longer run of digits is worth at least as much as any of its prefixes.
pub proof fn lemma_number_value_prefix(s: Seq<char>, k: int)
    requires
        0 <= k <= s.len(),
    ensures
        number_value(s.take(k)) <= number_value(s),
    decreases s.len(),
{
    if k < s.len() {
        lemma_number_value_prefix(s.drop_last(), k);
        assert(s.drop_last().take(k) =~= s.take(k));
    } else {
        assert(s.take(k) =~= s);
    }
}

/// The characters of `s`, one element each.
pub fn chars_of(s: &str) -> (r: Vec<char>)
    ensures
        r@ == s@,
{
    let n = s.unicode_len();
    let mut r: Vec<char> = Vec::new();
    let mut i: usize = 0;
    while i < n
        invariant
            n == s@.len(),
            i <= n,
            r@ == s@.take(i as int),
        decreases n - i,
    {
        r.push(s.get_char(i));
        i += 1;
        assert(r@ =~= s@.take(i as int));
    }
    assert(s@.take(n as int) =~= s@);
    r
}

fn digit_str(d: u32) -> (r: &'static str)
    requires
        d < 10,
    ensures
        r@ == seq![digit_char(d as nat)],
{
    proof {
        reveal_strlit("0");
        reveal_strlit("1");
        reveal_strlit("2");
        reveal_strlit("3");
        reveal_strlit("4");
        reveal_strlit("5");
        reveal_strlit("6");
        reveal_strlit("7");
        reveal_strlit("8");
        reveal_strlit("9");
    }
    match d {
        0 => "0",
        1 => "1",
        2 => "2",
        3 => "3",
        4 => "4",
        5 => "5",
        6 => "6",
        7 => "7",
        8 => "8",
        _ => "9",
    }
}

/// Appends the decimal text of `n` to `out`.
pub fn push_decimal(out: &mut String, n: u32)
    ensures
        final(out)@ == old(out)@ + decimal(n as nat),
    decreases n,
{
    if n >= 10 {
        push_decimal(out, n / 10);
    }
    out.append(digit_str(n % 10));
}

/// Index just past the run of digits that starts at `from`.
pub fn digits_end(cs: &Vec<char>, from: usize) -> (end: usize)
    requires
        from <= cs@.len(),
    ensures
        from <= end <= cs@.len(),
        forall|i: int| from <= i < end ==> is_digit(#[trigger] cs@[i]),
        end == cs@.len() || !is_digit(cs@[end as int]),
{
    let mut end = from;
    while end < cs.len() && '0' <= cs[end] && cs[end] <= '9'
        invariant
            from <= end <= cs@.len(),
            forall|i: int| from <= i < end ==> is_digit(#[trigger] cs@[i]),
        decreases cs@.len() - end,
    {
        end += 1;
    }
    end
}

/// The value of the digits `cs[from..to]`, when it fits in a `u32`.
pub fn number_in(cs: &Vec<char>, from: usize, to: usize) -> (r: Option<u32>)
    requires
        from <= to <= cs@.len(),
        is_number(cs@.subrange(from as int, to as int)),
    ensures
        match r {
            Some(v) => v as nat == number_value(cs@.subrange(from as int, to as int)),
            None => number_value(cs@.subrange(from as int, to as int)) > u32::MAX,
        },
{
    let ghost s = cs@.subrange(from as int, to as int);
    let mut acc: u64 = 0;
    let mut i = from;
    while i < to
        invariant
            from <= i <= to <= cs@.len(),
            s == cs@.subrange(from as int, to as int),
            is_number(s),
            acc as nat == number_value(s.take(i - from)),
            acc <= u32::MAX,
        decreases to - i,
    {
        assert(is_digit(s[i - from]));
        let d = (cs[i] as u32 - '0' as u32) as u64;
        assert(s.take(i + 1 - from).drop_last() =~= s.take(i - from));
        acc = acc * 10 + d;
        i += 1;
        if acc > 0xffff_ffff {
            proof {
                lemma_number_value_prefix(s, i - from);
            }
            return None;
        }
    }
    assert(s.take(to - from) =~= s);
    Some(acc as u32)
}

} // verus!
