//! Character classes and small string utilities shared by the lexer, parser and builtins.
use vstd::prelude::*;

verus! {

/// The Unicode `White_Space` property.
pub open spec fn is_space(c: char) -> bool {
    ||| ('\t' <= c && c <= '\r')
    ||| c == ' '
    ||| c == '\u{85}'
    ||| c == '\u{a0}'
    ||| c == '\u{1680}'
    ||| ('\u{2000}' <= c && c <= '\u{200a}')
    ||| c == '\u{2028}'
    ||| c == '\u{2029}'
    ||| c == '\u{202f}'
    ||| c == '\u{205f}'
    ||| c == '\u{3000}'
}

/// Whether `c` has the Unicode `White_Space` property.
pub fn char_is_space(c: char) -> (r: bool)
    ensures
        r == is_space(c),
{
    ('\t' <= c && c <= '\r') || c == ' ' || c == '\u{85}' || c == '\u{a0}' || c == '\u{1680}'
        || ('\u{2000}' <= c && c <= '\u{200a}') || c == '\u{2028}' || c == '\u{2029}'
        || c == '\u{202f}' || c == '\u{205f}' || c == '\u{3000}'
}

} // verus!

verus! {

/// Length of the longest prefix of `s` whose characters all satisfy `p`.
pub open spec fn span(s: Seq<char>, p: spec_fn(char) -> bool) -> nat
    decreases s.len(),
{
    if s.len() > 0 && p(s[0]) {
        1 + span(s.drop_first(), p)
    } else {
        0
    }
}

/// `span` is the index of the first character that fails `p` (or the length).
pub proof fn lemma_span(s: Seq<char>, p: spec_fn(char) -> bool)
    ensures
        span(s, p) <= s.len(),
        forall|j: int| 0 <= j < span(s, p) ==> #[trigger] p(s[j]),
        span(s, p) < s.len() ==> !p(s[span(s, p) as int]),
    decreases s.len(),
{
    if s.len() > 0 && p(s[0]) {
        lemma_span(s.drop_first(), p);
        assert forall|j: int| 0 <= j < span(s, p) implies #[trigger] p(s[j]) by {
            if j > 0 {
                assert(s[j] == s.drop_first()[j - 1]);
            }
        }
    }
}

/// Any index that is the first failure of `p` is the `span`.
pub proof fn lemma_span_unique(s: Seq<char>, p: spec_fn(char) -> bool, k: int)
    requires
        0 <= k <= s.len(),
        forall|j: int| 0 <= j < k ==> #[trigger] p(s[j]),
        k < s.len() ==> !p(s[k]),
    ensures
        span(s, p) == k,
{
    lemma_span(s, p);
    if span(s, p) < k {
        assert(p(s[span(s, p) as int]));
    } else if span(s, p) > k {
        assert(p(s[k]));
    }
}

/// Appends one character to a string (`String::push`).
#[verifier::external_body]
pub(crate) fn push_char(s: &mut String, c: char)
    ensures
        final(s)@ == old(s)@.push(c),
{
    s.push(c);
}

/// The string made of the given characters.
pub fn string_from_chars(v: &Vec<char>) -> (r: String)
    ensures
        r@ == v@,
{
    let mut r = String::new();
    let mut i: usize = 0;
    while i < v.len()
        invariant
            i <= v.len(),
            r@ == v@.take(i as int),
        decreases v.len() - i,
    {
        push_char(&mut r, v[i]);
        assert(v@.take(i + 1) == v@.take(i as int).push(v@[i as int]));
        i = i + 1;
    }
    assert(v@.take(v.len() as int) == v@);
    r
}

/// The characters of a string slice.
pub fn chars_of(s: &str) -> (r: Vec<char>)
    ensures
        r@ == s@,
{
    let n = s.unicode_len();
    let mut r: Vec<char> = Vec::new();
    let mut i: usize = 0;
    while i < n
        invariant
            n == s@.len(),
            i <= n,
            r@ == s@.take(i as int),
        decreases n - i,
    {
        r.push(s.get_char(i));
        assert(s@.take(i + 1) == s@.take(i as int).push(s@[i as int]));
        i = i + 1;
    }
    assert(s@.take(n as int) == s@);
    r
}

/// What `format!("{:?}", s)` gives for a string: the quoted, escaped text.
pub uninterp spec fn debug_quoted(s: Seq<char>) -> Seq<char>;

/// Quotes and escapes a string as its `Debug` form does (`<str as Debug>::fmt`).
/// The result is named by `debug_quoted` and depends on the text alone.
#[verifier::external_body]
pub(crate) fn debug_quote(s: &str) -> (r: String)
    ensures
        r@ == debug_quoted(s@),
{
    format!("{:?}", s)
}

} // verus!

verus! {

/// Whether `c` occurs in `s`.
pub fn str_contains_char(s: &str, c: char) -> (r: bool)
    ensures
        r == s@.contains(c),
{
    let v = chars_of(s);
    let mut i: usize = 0;
    while i < v.len()
        invariant
            i <= v.len(),
            v@ == s@,
            forall|j: int| 0 <= j < i ==> v@[j] != c,
        decreases v.len() - i,
    {
        if v[i] == c {
            assert(s@[i as int] == c);
            return true;
        }
        i = i + 1;
    }
    false
}

pub open spec fn is_decimal_digit(c: char) -> bool {
    '0' <= c && c <= '9'
}

pub open spec fn digit_value(c: char) -> nat {
    (c as int - '0' as int) as nat
}

/// The number written by the decimal digits `d`.
pub open spec fn decimal_value(d: Seq<char>) -> nat
    decreases d.len(),
{
    if d.len() == 0 {
        0
    } else {
        decimal_value(d.drop_last()) * 10 + digit_value(d.last())
    }
}

pub open spec fn all_decimal(d: Seq<char>) -> bool {
    forall|i: int| 0 <= i < d.len() ==> #[trigger] is_decimal_digit(d[i])
}

/// The digits after an optional leading sign character `sign`.
pub open spec fn after_sign(s: Seq<char>, sign: char) -> Seq<char> {
    if s.len() > 0 && s[0] == sign {
        s.drop_first()
    } else {
        s
    }
}

/// What `str::parse::<u32>` gives: an optional `+`, then one or more decimal
/// digits whose value fits in a `u32`.
pub open spec fn parse_u32_spec(s: Seq<char>) -> Option<u32> {
    let d = after_sign(s, '+');
    if d.len() > 0 && all_decimal(d) && decimal_value(d) <= u32::MAX {
        Some(decimal_value(d) as u32)
    } else {
        None
    }
}

/// What `str::parse::<i32>` gives: an optional `+` or `-`, then one or more
/// decimal digits whose signed value fits in an `i32`.
pub open spec fn parse_i32_spec(s: Seq<char>) -> Option<i32> {
    if s.len() > 0 && s[0] == '-' {
        let d = s.drop_first();
        if d.len() > 0 && all_decimal(d) && decimal_value(d) <= 0x8000_0000 {
            Some((0 - decimal_value(d)) as i32)
        } else {
            None
        }
    } else {
        let d = after_sign(s, '+');
        if d.len() > 0 && all_decimal(d) && decimal_value(d) <= i32::MAX {
            Some(decimal_value(d) as i32)
        } else {
            None
        }
    }
}

/// The decimal digit for `d` (below 10).
pub open spec fn digit_char(d: nat) -> char {
    (d + '0' as int) as char
}

/// The decimal writing of `n`, without leading zeros.
pub open spec fn decimal_text(n: nat) -> Seq<char>
    decreases n,
{
    if n < 10 {
        seq![digit_char(n)]
    } else {
        decimal_text(n / 10).push(digit_char(n % 10))
    }
}

proof fn lemma_decimal_text(n: nat)
    ensures
        decimal_text(n).len() > 0,
        all_decimal(decimal_text(n)),
        decimal_value(decimal_text(n)) == n,
    decreases n,
{
    let t = decimal_text(n);
    if n < 10 {
        assert(digit_value(digit_char(n)) == n);
        assert(t.drop_last().len() == 0);
        assert(decimal_value(t.drop_last()) == 0);
        assert(t.last() == digit_char(n));
    } else {
        lemma_decimal_text(n / 10);
        let r = decimal_text(n / 10);
        assert(t.drop_last() =~= r);
        assert(digit_value(digit_char(n % 10)) == n % 10);
        assert forall|i: int| 0 <= i < t.len() implies #[trigger] is_decimal_digit(t[i]) by {
            if i < r.len() {
                assert(t[i] == r[i]);
            }
        }
        assert(t.last() == digit_char(n % 10));
        assert(decimal_value(t) == decimal_value(r) * 10 + digit_value(t.last()));
        assert((n / 10) * 10 + n % 10 == n);
    }
}

/// Numbers read back from their decimal writing: a `u32` written in decimal (with or
/// without a `+`) parses as itself, and so does an `i32` (with a `-` for a negative
/// one); a number too large for the type does not parse.
pub proof fn lemma_parse_decimal(n: nat)
    ensures
        n <= u32::MAX ==> parse_u32_spec(decimal_text(n)) == Some(n as u32),
        n <= u32::MAX ==> parse_u32_spec(seq!['+'] + decimal_text(n)) == Some(n as u32),
        n > u32::MAX ==> parse_u32_spec(decimal_text(n)) is None,
        n <= i32::MAX ==> parse_i32_spec(decimal_text(n)) == Some(n as i32),
        n <= i32::MAX ==> parse_i32_spec(seq!['+'] + decimal_text(n)) == Some(n as i32),
        n <= 0x8000_0000 ==> parse_i32_spec(seq!['-'] + decimal_text(n)) == Some((0 - n) as i32),
        n > i32::MAX ==> parse_i32_spec(decimal_text(n)) is None,
{
    lemma_decimal_text(n);
    let t = decimal_text(n);
    assert(t[0] != '-' && t[0] != '+') by {
        assert(is_decimal_digit(t[0]));
    }
    assert((seq!['+'] + t).drop_first() =~= t);
    assert((seq!['-'] + t).drop_first() =~= t);
    assert((seq!['+'] + t)[0] == '+');
    assert((seq!['-'] + t)[0] == '-');
}

/// Reads the decimal digits `v[start..]`: their value if they are all digits
/// (at least one) and the value is at most `limit`.
fn decimal_at_most(v: &Vec<char>, start: usize, limit: u64) -> (r: Option<u64>)
    requires
        start <= v.len(),
        limit <= 0x1_0000_0000,
    ensures
        ({
            let d = v@.skip(start as int);
            match r {
                Some(x) => d.len() > 0 && all_decimal(d) && decimal_value(d) <= limit && x
                    == decimal_value(d),
                None => !(d.len() > 0 && all_decimal(d) && decimal_value(d) <= limit),
            }
        }),
{
    let ghost d = v@.skip(start as int);
    if start == v.len() {
        return None;
    }
    let mut value: u64 = 0;
    let mut over = false;
    let mut i = start;
    while i < v.len()
        invariant
            start <= i <= v.len(),
            limit <= 0x1_0000_0000,
            d == v@.skip(start as int),
            all_decimal(v@.subrange(start as int, i as int)),
            !over ==> value == decimal_value(v@.subrange(start as int, i as int)) && value
                <= limit,
            over ==> decimal_value(v@.subrange(start as int, i as int)) > limit,
        decreases v.len() - i,
    {
        let c = v[i];
        if !('0' <= c && c <= '9') {
            assert(!is_decimal_digit(d[i - start]));
            return None;
        }
        let ghost pre = v@.subrange(start as int, i as int);
        let ghost next = v@.subrange(start as int, i + 1);
        assert(next.drop_last() =~= pre);
        assert(next.last() == c);
        assert(all_decimal(next)) by {
            assert forall|j: int| 0 <= j < next.len() implies #[trigger] is_decimal_digit(
                next[j],
            ) by {
                if j < pre.len() {
                    assert(next[j] == pre[j]);
                }
            }
        }
        let dv = (c as u32 - '0' as u32) as u64;
        assert(dv == digit_value(c));
        if !over {
            let nv = value * 10 + dv;
            if nv > limit {
                over = true;
            } else {
                value = nv;
            }
        }
        i = i + 1;
    }
    assert(v@.subrange(start as int, v.len() as int) =~= d);
    if over {
        None
    } else {
        Some(value)
    }
}

/// `str::parse::<u32>`, as a total function.
pub fn parse_u32(s: &str) -> (r: Option<u32>)
    ensures
        r == parse_u32_spec(s@),
{
    let v = chars_of(s);
    let start: usize = if v.len() > 0 && v[0] == '+' {
        1
    } else {
        0
    };
    assert(v@.skip(start as int) =~= after_sign(s@, '+'));
    match decimal_at_most(&v, start, 0xffff_ffff) {
        Some(x) => Some(x as u32),
        None => None,
    }
}

/// `str::parse::<i32>`, as a total function.
pub fn parse_i32(s: &str) -> (r: Option<i32>)
    ensures
        r == parse_i32_spec(s@),
{
    let v = chars_of(s);
    if v.len() > 0 && v[0] == '-' {
        assert(v@.skip(1) =~= s@.drop_first());
        match decimal_at_most(&v, 1, 0x8000_0000) {
            Some(x) => Some((0 - (x as i64)) as i32),
            None => None,
        }
    } else {
        let start: usize = if v.len() > 0 && v[0] == '+' {
            1
        } else {
            0
        };
        assert(v@.skip(start as int) =~= after_sign(s@, '+'));
        match decimal_at_most(&v, start, 0x7fff_ffff) {
            Some(x) => Some(x as i32),
            None => None,
        }
    }
}

} // verus!
