use vstd::prelude::*;
use vstd::string::*;

verus! {

/// Whether `s` begins with `p`.
pub open spec fn has_prefix(s: Seq<char>, p: Seq<char>) -> bool {
    p.len() <= s.len() && s.subrange(0, p.len() as int) == p
}

/// Whether the two texts are the same.
pub fn text_eq(a: &str, b: &str) -> (r: bool)
    ensures
        r == (a@ == b@),
{
    let n = a.unicode_len();
    if n != b.unicode_len() {
        return false;
    }
    let mut i: usize = 0;
    while i < n
        invariant
            n == a@.len(),
            n == b@.len(),
            0 <= i <= n,
            a@.subrange(0, i as int) == b@.subrange(0, i as int),
        decreases n - i,
    {
        if a.get_char(i) != b.get_char(i) {
            assert(a@[i as int] != b@[i as int]);
            return false;
        }
        assert(a@.subrange(0, i + 1) =~= a@.subrange(0, i as int).push(a@[i as int]));
        assert(b@.subrange(0, i + 1) =~= b@.subrange(0, i as int).push(b@[i as int]));
        i = i + 1;
    }
    assert(a@ =~= a@.subrange(0, n as int));
    assert(b@ =~= b@.subrange(0, n as int));
    true
}

/// Whether `s` begins with `p`.
pub fn starts_with(s: &str, p: &str) -> (r: bool)
    ensures
        r == has_prefix(s@, p@),
{
    let n = s.unicode_len();
    let m = p.unicode_len();
    if m > n {
        return false;
    }
    text_eq(s.substring_char(0, m), p)
}

/// The value of a decimal numeral.
pub open spec fn decimal_value(s: Seq<char>) -> int
    decreases s.len(),
{
    if s.len() == 0 {
        0
    } else {
        decimal_value(s.drop_last()) * 10 + (s.last() as int - '0' as int)
    }
}

/// Whether `s` is a non-empty run of decimal digits.
pub open spec fn is_decimal(s: Seq<char>) -> bool {
    s.len() > 0 && forall|i: int| 0 <= i < s.len() ==> '0' <= #[trigger] s[i] <= '9'
}

proof fn lemma_decimal_value_nonneg(s: Seq<char>)
    requires
        forall|i: int| 0 <= i < s.len() ==> '0' <= #[trigger] s[i] <= '9',
    ensures
        decimal_value(s) >= 0,
    decreases s.len(),
{
    if s.len() > 0 {
        lemma_decimal_value_nonneg(s.drop_last());
    }
}

/// Reads a count written in decimal digits; `None` when `s` is not such a
/// numeral or its value does not fit in a `usize`.
pub fn parse_count(s: &str) -> (r: Option<usize>)
    ensures
        r matches Some(v) <==> (is_decimal(s@) && decimal_value(s@) <= usize::MAX),
        r matches Some(v) ==> v == decimal_value(s@),
{
    let n = s.unicode_len();
    if n == 0 {
        return None;
    }
    let mut v: usize = 0;
    let mut i: usize = 0;
    while i < n
        invariant
            n == s@.len(),
            0 <= i <= n,
            forall|k: int| 0 <= k < i ==> '0' <= #[trigger] s@[k] <= '9',
            v == decimal_value(s@.subrange(0, i as int)),
        decreases n - i,
    {
        let c = s.get_char(i);
        let ghost pre = s@.subrange(0, i as int);
        let ghost post = s@.subrange(0, i + 1);
        assert(post.drop_last() =~= pre);
        if c < '0' || c > '9' {
            assert(!is_decimal(s@));
            return None;
        }
        let d = (c as u32 - '0' as u32) as usize;
        if v > (usize::MAX - d) / 10 {
            proof {
                assert(v * 10 + d > usize::MAX) by (nonlinear_arith)
                    requires
                        v > (usize::MAX - d) / 10,
                        d <= 9,
                ;
                assert(decimal_value(post) == v * 10 + d);
                lemma_decimal_prefix_grows(s@, i as int + 1);
            }
            return None;
        }
        assert(v * 10 + d <= usize::MAX) by (nonlinear_arith)
            requires
                v <= (usize::MAX - d) / 10,
                d <= 9,
        ;
        v = v * 10 + d;
        i = i + 1;
    }
    assert(s@.subrange(0, n as int) =~= s@);
    Some(v)
}

/// A numeral's value is at least that of any of its prefixes.
proof fn lemma_decimal_prefix_grows(s: Seq<char>, k: int)
    requires
        0 <= k <= s.len(),
        forall|i: int| 0 <= i < k ==> '0' <= #[trigger] s[i] <= '9',
    ensures
        is_decimal(s) ==> decimal_value(s) >= decimal_value(s.subrange(0, k)),
    decreases s.len() - k,
{
    if k < s.len() && is_decimal(s) {
        lemma_decimal_prefix_grows(s, k + 1);
        let a = s.subrange(0, k);
        let b = s.subrange(0, k + 1);
        assert(b.drop_last() =~= a);
        lemma_decimal_value_nonneg(a);
        assert(decimal_value(b) >= decimal_value(a));
    } else if k == s.len() {
        assert(s.subrange(0, k) =~= s);
    }
}

/// Relies on `String::push`: appends one character.
#[verifier::external_body]
pub(crate) fn push_char(s: &mut String, c: char)
    ensures
        final(s)@ == old(s)@.push(c),
{
    s.push(c)
}

/// The digit character for `d`.
pub open spec fn digit_char(d: int) -> char {
    (48 + d) as char
}

/// The decimal numeral of `n`, without leading zeros.
pub open spec fn decimal_text(n: nat) -> Seq<char>
    decreases n,
{
    if n < 10 {
        seq![digit_char(n as int)]
    } else {
        decimal_text(n / 10).push(digit_char(n as int % 10))
    }
}

/// Appends the decimal numeral of `n` to `s`.
pub fn push_decimal(s: &mut String, n: usize)
    ensures
        final(s)@ == old(s)@ + decimal_text(n as nat),
    decreases n,
{
    if n >= 10 {
        push_decimal(s, n / 10);
    }
    let d = (n % 10) as u8;
    push_char(s, (48u8 + d) as char);
    assert(final(s)@ =~= old(s)@ + decimal_text(n as nat));
}

/// Whether `a` comes no later than `b` when characters are compared by code
/// point, one by one, a prefix first.
pub open spec fn text_le(a: Seq<char>, b: Seq<char>) -> bool
    decreases a.len(),
{
    if a.len() == 0 {
        true
    } else if b.len() == 0 {
        false
    } else if a[0] != b[0] {
        (a[0] as u32) < (b[0] as u32)
    } else {
        text_le(a.drop_first(), b.drop_first())
    }
}

/// The pieces of `s` between occurrences of `sep`; always at least one piece.
pub open spec fn split_on(s: Seq<char>, sep: char) -> Seq<Seq<char>>
    decreases s.len(),
{
    if s.len() == 0 {
        seq![Seq::<char>::empty()]
    } else {
        let p = split_on(s.drop_last(), sep);
        if s.last() == sep {
            p.push(Seq::<char>::empty())
        } else {
            p.update(p.len() - 1, p.last().push(s.last()))
        }
    }
}

/// Splitting always yields at least one piece.
pub proof fn lemma_split_on_nonempty(s: Seq<char>, sep: char)
    ensures
        split_on(s, sep).len() >= 1,
    decreases s.len(),
{
    if s.len() > 0 {
        lemma_split_on_nonempty(s.drop_last(), sep);
    }
}

/// A numeral written by `decimal_text` reads back as its number.
pub proof fn lemma_decimal_round_trip(n: nat)
    ensures
        is_decimal(decimal_text(n)),
        decimal_value(decimal_text(n)) == n,
    decreases n,
{
    if n < 10 {
        assert(digit_char(n as int) as int == 48 + n);
        assert(decimal_text(n).drop_last() =~= Seq::<char>::empty());
        assert('0' as int == 48);
        assert(decimal_value(decimal_text(n)) == decimal_value(Seq::<char>::empty()) * 10 + (digit_char(n as int) as int - 48));
    } else {
        lemma_decimal_round_trip(n / 10);
        let t = decimal_text(n);
        assert(t.drop_last() =~= decimal_text(n / 10));
        assert(t.last() == digit_char(n as int % 10));
        assert(digit_char(n as int % 10) as int == 48 + n as int % 10);
        assert((n / 10) * 10 + n % 10 == n) by (nonlinear_arith);
        assert('0' as int == 48);
        assert(decimal_value(t) == decimal_value(decimal_text(n / 10)) * 10 + (digit_char(n as int % 10) as int - 48));
        assert forall|i: int| 0 <= i < t.len() implies '0' <= #[trigger] t[i] <= '9' by {
            if i < t.len() - 1 {
                assert(t[i] == decimal_text(n / 10)[i]);
            }
        };
    }
}

} // verus!
