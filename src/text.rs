use vstd::prelude::*;
use vstd::string::*;

verus! {

pub open spec fn is_digit(c: char) -> bool {
    '0' <= c && c <= '9'
}

pub open spec fn digit_char(d: nat) -> char {
    if d == 0 { '0' }
    else if d == 1 { '1' }
    else if d == 2 { '2' }
    else if d == 3 { '3' }
    else if d == 4 { '4' }
    else if d == 5 { '5' }
    else if d == 6 { '6' }
    else if d == 7 { '7' }
    else if d == 8 { '8' }
    else { '9' }
}

pub open spec fn digit_value(c: char) -> nat {
    (c as u32 - '0' as u32) as nat
}

/// The decimal digits of `n`, without leading zeros.
pub open spec fn dec(n: nat) -> Seq<char>
    decreases n,
{
    if n < 10 {
        seq![digit_char(n)]
    } else {
        dec(n / 10).push(digit_char(n % 10))
    }
}

/// The number that a string of decimal digits denotes.
pub open spec fn digits_value(s: Seq<char>) -> nat
    decreases s.len(),
{
    if s.len() == 0 {
        0
    } else {
        digits_value(s.drop_last()) * 10 + digit_value(s.last())
    }
}

/// Number of digits that follow position `p` of `s`, up to the first other character.
pub open spec fn digit_run(s: Seq<char>, p: int) -> int
    decreases s.len() - p,
{
    if p < 0 || p >= s.len() || !is_digit(s[p]) {
        0
    } else {
        1 + digit_run(s, p + 1)
    }
}

/// Where `lit` ends when it stands at position `p` of `s`.
pub open spec fn after_lit(s: Seq<char>, p: int, lit: Seq<char>) -> Option<int> {
    if 0 <= p && p + lit.len() <= s.len() && s.subrange(p, p + lit.len()) == lit {
        Some(p + lit.len())
    } else {
        None
    }
}

proof fn lemma_digit_char(d: nat)
    requires
        d < 10,
    ensures
        is_digit(digit_char(d)),
        digit_value(digit_char(d)) == d,
{
}

pub proof fn lemma_dec(n: nat)
    ensures
        dec(n).len() > 0,
        digits_value(dec(n)) == n,
        forall|i: int| 0 <= i < dec(n).len() ==> is_digit(#[trigger] dec(n)[i]),
    decreases n,
{
    if n < 10 {
        lemma_digit_char(n);
        assert(seq![digit_char(n)].drop_last() =~= Seq::<char>::empty());
        assert(digits_value(Seq::<char>::empty()) == 0);
        assert(digits_value(dec(n)) == digits_value(Seq::<char>::empty()) * 10 + digit_value(digit_char(n)));
    } else {
        lemma_dec(n / 10);
        lemma_digit_char(n % 10);
        assert(dec(n).drop_last() =~= dec(n / 10));
        assert(dec(n).last() == digit_char(n % 10));
        assert((n / 10) * 10 + n % 10 == n) by (nonlinear_arith);
        assert(digits_value(dec(n)) == digits_value(dec(n / 10)) * 10 + digit_value(digit_char(n % 10)));
    }
}

pub proof fn lemma_digit_run_exact(s: Seq<char>, p: int, m: int)
    requires
        0 <= p,
        0 <= m,
        p + m <= s.len(),
        forall|i: int| p <= i < p + m ==> is_digit(#[trigger] s[i]),
        p + m == s.len() || !is_digit(s[p + m]),
    ensures
        digit_run(s, p) == m,
    decreases m,
{
    if m > 0 {
        lemma_digit_run_exact(s, p + 1, m - 1);
    }
}

pub proof fn lemma_digit_run_bounds(s: Seq<char>, p: int)
    requires
        0 <= p <= s.len(),
    ensures
        0 <= digit_run(s, p) <= s.len() - p,
        forall|i: int| p <= i < p + digit_run(s, p) ==> is_digit(#[trigger] s[i]),
        p + digit_run(s, p) < s.len() ==> !is_digit(s[p + digit_run(s, p)]),
    decreases s.len() - p,
{
    if p < s.len() && is_digit(s[p]) {
        lemma_digit_run_bounds(s, p + 1);
    }
}

pub fn is_digit_char(c: char) -> (r: bool)
    ensures
        r == is_digit(c),
{
    '0' <= c && c <= '9'
}

fn digit_str(d: u64) -> (r: &'static str)
    requires
        d < 10,
    ensures
        r@ == seq![digit_char(d as nat)],
{
    proof {
        reveal_strlit("0");
        reveal_strlit("1");
        reveal_strlit("2");
        reveal_strlit("3");
        reveal_strlit("4");
        reveal_strlit("5");
        reveal_strlit("6");
        reveal_strlit("7");
        reveal_strlit("8");
        reveal_strlit("9");
    }
    if d == 0 { "0" }
    else if d == 1 { "1" }
    else if d == 2 { "2" }
    else if d == 3 { "3" }
    else if d == 4 { "4" }
    else if d == 5 { "5" }
    else if d == 6 { "6" }
    else if d == 7 { "7" }
    else if d == 8 { "8" }
    else { "9" }
}

/// Appends the decimal digits of `n` to `out`.
pub fn push_decimal(out: &mut String, n: u64)
    ensures
        final(out)@ == old(out)@ + dec(n as nat),
    decreases n,
{
    if n >= 10 {
        push_decimal(out, n / 10);
    }
    out.append(digit_str(n % 10));
    proof {
        if n >= 10 {
            assert(final(out)@ =~= old(out)@ + dec(n as nat));
        } else {
            assert(final(out)@ =~= old(out)@ + dec(n as nat));
        }
    }
}

/// Reads the run of digits at `p` as a number; `None` where there is none or it exceeds `u64`.
pub fn parse_decimal(s: &str, p: usize) -> (r: Option<(u64, usize)>)
    requires
        p <= s@.len(),
    ensures
        match r {
            Some((v, e)) => {
                &&& e == p + digit_run(s@, p as int)
                &&& e > p
                &&& v as nat == digits_value(s@.subrange(p as int, e as int))
            },
            None => digit_run(s@, p as int) == 0 || digits_value(
                s@.subrange(p as int, p + digit_run(s@, p as int)),
            ) > u64::MAX,
        },
{
    let n = s.unicode_len();
    proof {
        lemma_digit_run_bounds(s@, p as int);
    }
    let mut e: usize = p;
    let mut v: u64 = 0;
    while e < n && is_digit_char(s.get_char(e))
        invariant
            n == s@.len(),
            p <= e <= n,
            forall|i: int| p <= i < e ==> is_digit(#[trigger] s@[i]),
            v as nat == digits_value(s@.subrange(p as int, e as int)),
            e <= p + digit_run(s@, p as int),
            0 <= digit_run(s@, p as int) <= s@.len() - p,
            forall|i: int| p <= i < p + digit_run(s@, p as int) ==> is_digit(#[trigger] s@[i]),
            p + digit_run(s@, p as int) < s@.len() ==> !is_digit(s@[p + digit_run(s@, p as int)]),
        decreases n - e,
    {
        let c = s.get_char(e);
        let d = (c as u32 - '0' as u32) as u64;
        assert(s@.subrange(p as int, e + 1).drop_last() =~= s@.subrange(p as int, e as int));
        if v > (u64::MAX - d) / 10 {
            proof {
                lemma_digit_run_exact_prefix_overflow(s@, p as int, e as int, v as nat, d as nat);
            }
            return None;
        }
        assert(v * 10 + d <= u64::MAX) by (nonlinear_arith)
            requires
                v <= (u64::MAX - d) / 10,
                d <= 9,
        ;
        v = v * 10 + d;
        e = e + 1;
    }
    if e == p {
        proof {
            lemma_digit_run_exact(s@, p as int, 0);
        }
        return None;
    }
    proof {
        lemma_digit_run_exact(s@, p as int, e - p);
    }
    Some((v, e))
}

proof fn lemma_digits_value_mono(s: Seq<char>, k: int)
    requires
        0 <= k <= s.len(),
        forall|i: int| 0 <= i < s.len() ==> is_digit(#[trigger] s[i]),
    ensures
        digits_value(s.take(k)) <= digits_value(s),
    decreases s.len() - k,
{
    if k < s.len() {
        lemma_digits_value_mono(s.drop_last(), k);
        assert(s.drop_last().take(k) =~= s.take(k));
    } else {
        assert(s.take(k) =~= s);
    }
}

proof fn lemma_digit_run_exact_prefix_overflow(s: Seq<char>, p: int, e: int, v: nat, d: nat)
    requires
        0 <= p <= e < s.len(),
        is_digit(s[e]),
        d == digit_value(s[e]),
        v == digits_value(s.subrange(p, e)),
        v > (u64::MAX - d) / 10,
        d <= 9,
        e < p + digit_run(s, p),
        0 <= digit_run(s, p) <= s.len() - p,
        forall|i: int| p <= i < p + digit_run(s, p) ==> is_digit(#[trigger] s[i]),
    ensures
        digits_value(s.subrange(p, p + digit_run(s, p))) > u64::MAX,
{
    let full = s.subrange(p, p + digit_run(s, p));
    let pre = s.subrange(p, e + 1);
    assert(pre.drop_last() =~= s.subrange(p, e));
    assert(digits_value(pre) == v * 10 + d);
    assert(v * 10 + d > u64::MAX) by (nonlinear_arith)
        requires
            v > (u64::MAX - d) / 10,
            d <= 9,
    ;
    assert(full.take(e + 1 - p) =~= pre);
    lemma_digits_value_mono(full, e + 1 - p);
}

/// A run of digits without a leading zero, unless it is `0` itself.
pub open spec fn canonical_digits(d: Seq<char>) -> bool {
    &&& d.len() > 0
    &&& forall|i: int| 0 <= i < d.len() ==> is_digit(#[trigger] d[i])
    &&& (d.len() == 1 || d[0] != '0')
}

proof fn lemma_digits_value_positive(d: Seq<char>)
    requires
        d.len() > 0,
        forall|i: int| 0 <= i < d.len() ==> is_digit(#[trigger] d[i]),
        d[0] != '0',
    ensures
        digits_value(d) >= 1,
        digits_value(d) >= 10 || d.len() == 1,
    decreases d.len(),
{
    if d.len() > 1 {
        let init = d.drop_last();
        assert(init[0] == d[0]);
        lemma_digits_value_positive(init);
        assert(digits_value(d) == digits_value(init) * 10 + digit_value(d.last()));
    } else {
        assert(d.drop_last() =~= Seq::<char>::empty());
    }
}

/// Writing the number that canonical digits denote gives the same digits.
pub proof fn lemma_dec_of_digits(d: Seq<char>)
    requires
        canonical_digits(d),
    ensures
        dec(digits_value(d)) == d,
    decreases d.len(),
{
    let c = d.last();
    let v = digits_value(d);
    assert(is_digit(d[d.len() - 1]));
    if d.len() == 1 {
        assert(d.drop_last() =~= Seq::<char>::empty());
        assert(digits_value(Seq::<char>::empty()) == 0);
        assert(v == digits_value(d.drop_last()) * 10 + digit_value(c));
        assert(v == digit_value(c));
        assert(dec(v) =~= d);
    } else {
        let init = d.drop_last();
        assert(init[0] == d[0]);
        assert forall|i: int| 0 <= i < init.len() implies is_digit(#[trigger] init[i]) by {
            assert(init[i] == d[i]);
        }
        lemma_digits_value_positive(init);
        lemma_dec_of_digits(init);
        let w = digits_value(init);
        assert(v == w * 10 + digit_value(c));
        assert(v / 10 == w && v % 10 == digit_value(c)) by (nonlinear_arith)
            requires
                v == w * 10 + digit_value(c),
                digit_value(c) < 10,
        ;
        assert(v >= 10);
        assert(digit_char(digit_value(c)) == c);
        assert(dec(v) =~= d);
    }
}

} // verus!
