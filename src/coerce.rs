use crate::value::ConfigValue;
use vstd::prelude::*;
use vstd::string::StrSliceExecFns;
use vstd::string::StringExecFns;

verus! {

pub open spec fn is_digit(c: char) -> bool {
    '0' <= c <= '9'
}

pub open spec fn is_sign(c: char) -> bool {
    c == '+' || c == '-'
}

pub open spec fn all_digits(s: Seq<char>) -> bool {
    forall|i: int| 0 <= i < s.len() ==> is_digit(#[trigger] s[i])
}

/// The number that a string of decimal digits writes.
pub open spec fn digits_value(s: Seq<char>) -> int
    decreases s.len(),
{
    if s.len() == 0 {
        0
    } else {
        digits_value(s.drop_last()) * 10 + (s.last() as int - '0' as int)
    }
}

/// `s` without a leading sign, if it has one.
pub open spec fn unsigned_part(s: Seq<char>) -> Seq<char> {
    if s.len() > 0 && is_sign(s[0]) {
        s.drop_first()
    } else {
        s
    }
}

/// The signed 64-bit integer that `s` writes: an optional sign, then one or
/// more decimal digits, the value in range; nothing else around them.
pub open spec fn int_text(s: Seq<char>) -> Option<i64> {
    let body = unsigned_part(s);
    let neg = s.len() > 0 && s[0] == '-';
    let v = if neg {
        -digits_value(body)
    } else {
        digits_value(body)
    };
    if body.len() > 0 && all_digits(body) && i64::MIN <= v <= i64::MAX {
        Some(v as i64)
    } else {
        None
    }
}

/// `c` is the lower-case ASCII letter `lc`, in either case.
pub open spec fn same_letter(c: char, lc: char) -> bool {
    c == lc || c as u32 + 32 == lc as u32
}

/// `s` spells the lower-case word `w`, ignoring ASCII case.
pub open spec fn spells(s: Seq<char>, w: Seq<char>) -> bool {
    s.len() == w.len() && forall|i: int| 0 <= i < s.len() ==> same_letter(#[trigger] s[i], w[i])
}

/// Digits with at most one decimal point and at least one digit.
pub open spec fn mantissa(m: Seq<char>) -> bool {
    &&& forall|i: int| 0 <= i < m.len() ==> is_digit(#[trigger] m[i]) || m[i] == '.'
    &&& forall|i: int, j: int| 0 <= i < m.len() && 0 <= j < m.len() && #[trigger] m[i] == '.' && #[trigger] m[j] == '.' ==> i == j
    &&& exists|i: int| 0 <= i < m.len() && is_digit(#[trigger] m[i])
}

/// An exponent mark, an optional sign, then one or more digits.
pub open spec fn exponent(e: Seq<char>) -> bool {
    e.len() > 0 && (e[0] == 'e' || e[0] == 'E') && unsigned_part(e.drop_first()).len() > 0
        && all_digits(unsigned_part(e.drop_first()))
}

/// A decimal number: a mantissa, optionally followed by an exponent.
pub open spec fn number(b: Seq<char>) -> bool {
    exists|q: int|
        0 <= q <= b.len() && #[trigger] mantissa(b.subrange(0, q)) && (q == b.len() || exponent(
            b.subrange(q, b.len() as int),
        ))
}

/// The texts that the standard parser reads as a 64-bit float: an optional
/// sign, then `inf`, `infinity` or `nan` in any ASCII case, or a decimal number.
pub open spec fn float_text(s: Seq<char>) -> bool {
    let b = unsigned_part(s);
    spells(b, "inf"@) || spells(b, "infinity"@) || spells(b, "nan"@) || number(b)
}

/// The `ConfigValue` that a raw text token stands for: a boolean, else an integer,
/// else a float, else the text itself.
pub open spec fn coerced(s: String) -> ConfigValue {
    if s@ == "true"@ {
        ConfigValue::Bool(true)
    } else if s@ == "false"@ {
        ConfigValue::Bool(false)
    } else if int_text(s@) is Some {
        ConfigValue::Int64(int_text(s@)->0)
    } else if float_text(s@) {
        ConfigValue::Float64(s)
    } else {
        ConfigValue::String(s)
    }
}

proof fn lemma_digits_value_bounds(s: Seq<char>)
    requires
        all_digits(s),
    ensures
        digits_value(s) >= 0,
    decreases s.len(),
{
    if s.len() > 0 {
        lemma_digits_value_bounds(s.drop_last());
    }
}

/// A longer run of digits never writes a smaller number.
proof fn lemma_digits_value_grows(s: Seq<char>, i: int, j: int)
    requires
        all_digits(s),
        0 <= i <= j <= s.len(),
    ensures
        digits_value(s.subrange(0, i)) <= digits_value(s.subrange(0, j)),
    decreases j - i,
{
    if i < j {
        lemma_digits_value_grows(s, i, j - 1);
        let t = s.subrange(0, j);
        assert(t.drop_last() =~= s.subrange(0, j - 1));
        lemma_digits_value_bounds(t.drop_last());
    }
}

fn char_at(s: &str, i: usize) -> (c: char)
    requires
        i < s@.len(),
    ensures
        c == s@[i as int],
{
    s.get_char(i)
}

fn is_digit_char(c: char) -> (r: bool)
    ensures
        r == is_digit(c),
{
    '0' <= c && c <= '9'
}

/// Reads `s` as a signed 64-bit integer.
pub fn parse_int(s: &str) -> (r: Option<i64>)
    ensures
        r == int_text(s@),
{
    let n = s.unicode_len();
    let mut start: usize = 0;
    let mut neg = false;
    if n > 0 {
        let c = char_at(s, 0);
        if c == '+' || c == '-' {
            start = 1;
            neg = c == '-';
        }
    }
    let ghost body = unsigned_part(s@);
    assert(body =~= s@.subrange(start as int, n as int));
    if start >= n {
        return None;
    }
    let limit: u128 = 9223372036854775808;
    let mut mag: u128 = 0;
    let mut i: usize = start;
    while i < n
        invariant
            start <= i <= n,
            n == s@.len(),
            body =~= s@.subrange(start as int, n as int),
            body == unsigned_part(s@),
            neg == (s@.len() > 0 && s@[0] == '-'),
            limit == 9223372036854775808u128,
            all_digits(body.subrange(0, i - start)),
            mag as int == digits_value(body.subrange(0, i - start)),
            mag <= limit,
        decreases n - i,
    {
        let c = char_at(s, i);
        if !is_digit_char(c) {
            assert(body[i - start] == c);
            assert(!all_digits(body));
            return None;
        }
        let d = (c as u32 - '0' as u32) as u128;
        let ghost pre = body.subrange(0, i - start);
        let ghost next = body.subrange(0, i - start + 1);
        assert(next.drop_last() =~= pre);
        assert(all_digits(next));
        assert(d <= 9);
        assert(mag * 10 <= limit * 10) by (nonlinear_arith)
            requires
                mag <= limit,
        ;
        mag = mag * 10 + d;
        i = i + 1;
        if mag > limit {
            proof {
                let k = (i - start) as int;
                if all_digits(body) {
                    lemma_digits_value_grows(body, k, body.len() as int);
                    assert(body.subrange(0, body.len() as int) =~= body);
                }
            }
            return None;
        }
    }
    assert(body.subrange(0, i - start) =~= body);
    proof {
        lemma_digits_value_bounds(body);
    }
    if neg {
        let v: i128 = 0 - (mag as i128);
        Some(v as i64)
    } else if mag <= 9223372036854775807 {
        Some(mag as i64)
    } else {
        None
    }
}

fn same_letter_char(c: char, lc: char) -> (r: bool)
    ensures
        r == same_letter(c, lc),
{
    c == lc || (c as u32) + 32 == lc as u32
}

/// `s[from..]` spells the lower-case word `w`, ignoring ASCII case.
fn spells_from(s: &str, from: usize, w: &str) -> (r: bool)
    requires
        from <= s@.len(),
    ensures
        r == spells(s@.subrange(from as int, s@.len() as int), w@),
{
    let n = s.unicode_len();
    let m = w.unicode_len();
    let ghost t = s@.subrange(from as int, n as int);
    if n - from != m {
        return false;
    }
    let mut i: usize = 0;
    while i < m
        invariant
            n == s@.len(),
            m == w@.len(),
            n - from == m,
            t == s@.subrange(from as int, n as int),
            i <= m,
            forall|k: int| 0 <= k < i ==> same_letter(#[trigger] t[k], w@[k]),
        decreases m - i,
    {
        let c = char_at(s, from + i);
        let lc = char_at(w, i);
        if !same_letter_char(c, lc) {
            assert(t[i as int] == c);
            return false;
        }
        i = i + 1;
    }
    true
}

/// `s[from..to]` is a mantissa.
fn is_mantissa(s: &str, from: usize, to: usize) -> (r: bool)
    requires
        from <= to <= s@.len(),
    ensures
        r == mantissa(s@.subrange(from as int, to as int)),
{
    let ghost t = s@.subrange(from as int, to as int);
    let mut seen_dot = false;
    let mut dot_at: usize = 0;
    let mut seen_digit = false;
    let mut i: usize = from;
    while i < to
        invariant
            from <= i <= to <= s@.len(),
            t == s@.subrange(from as int, to as int),
            forall|k: int| 0 <= k < i - from ==> is_digit(#[trigger] t[k]) || t[k] == '.',
            seen_dot ==> from <= dot_at < i && t[dot_at - from] == '.',
            forall|k: int| 0 <= k < i - from && #[trigger] t[k] == '.' ==> seen_dot && k == dot_at - from,
            seen_digit <==> exists|k: int| 0 <= k < i - from && is_digit(#[trigger] t[k]),
        decreases to - i,
    {
        let c = char_at(s, i);
        assert(t[i - from] == c);
        if is_digit_char(c) {
            seen_digit = true;
        } else if c == '.' {
            if seen_dot {
                return false;
            }
            seen_dot = true;
            dot_at = i;
        } else {
            return false;
        }
        i = i + 1;
    }
    seen_digit
}

/// `s[from..to]` is an exponent.
fn is_exponent(s: &str, from: usize, to: usize) -> (r: bool)
    requires
        from <= to <= s@.len(),
    ensures
        r == exponent(s@.subrange(from as int, to as int)),
{
    let ghost t = s@.subrange(from as int, to as int);
    if from >= to {
        return false;
    }
    let c = char_at(s, from);
    if c != 'e' && c != 'E' {
        return false;
    }
    let mut i: usize = from + 1;
    if i < to {
        let c1 = char_at(s, i);
        if c1 == '+' || c1 == '-' {
            i = i + 1;
        }
    }
    let ghost u = unsigned_part(t.drop_first());
    assert(u =~= s@.subrange(i as int, to as int));
    if i >= to {
        return false;
    }
    let start = i;
    while i < to
        invariant
            start <= i <= to <= s@.len(),
            u =~= s@.subrange(start as int, to as int),
            t == s@.subrange(from as int, to as int),
            from < to,
            u == unsigned_part(t.drop_first()),
            forall|k: int| 0 <= k < i - start ==> is_digit(#[trigger] u[k]),
        decreases to - i,
    {
        let c2 = char_at(s, i);
        assert(u[i - start] == c2);
        if !is_digit_char(c2) {
            assert(!all_digits(u));
            return false;
        }
        i = i + 1;
    }
    true
}

/// `s[from..to]` is a decimal number.
fn is_number(s: &str, from: usize, to: usize) -> (r: bool)
    requires
        from <= to <= s@.len(),
    ensures
        r == number(s@.subrange(from as int, to as int)),
{
    let ghost b = s@.subrange(from as int, to as int);
    let mut q: usize = from;
    while q < to
        invariant
            from <= q <= to <= s@.len(),
            b == s@.subrange(from as int, to as int),
            forall|k: int| 0 <= k < q - from ==> #[trigger] b[k] != 'e' && b[k] != 'E',
        ensures
            from <= q <= to,
            forall|k: int| 0 <= k < q - from ==> #[trigger] b[k] != 'e' && b[k] != 'E',
            q < to ==> (b[q - from] == 'e' || b[q - from] == 'E'),
        decreases to - q,
    {
        let c = char_at(s, q);
        assert(b[q - from] == c);
        if c == 'e' || c == 'E' {
            break;
        }
        q = q + 1;
    }
    let ghost qq = q - from;
    assert(b.subrange(0, qq) =~= s@.subrange(from as int, q as int));
    assert(b.subrange(qq, b.len() as int) =~= s@.subrange(q as int, to as int));
    let r = is_mantissa(s, from, q) && (q == to || is_exponent(s, q, to));
    proof {
        if r {
            assert(mantissa(b.subrange(0, qq)));
        }
        if number(b) {
            let w = choose|w: int|
                0 <= w <= b.len() && #[trigger] mantissa(b.subrange(0, w)) && (w == b.len()
                    || exponent(b.subrange(w, b.len() as int)));
            let m = b.subrange(0, w);
            assert forall|k: int| 0 <= k < w implies #[trigger] b[k] != 'e' && b[k] != 'E' by {
                assert(m[k] == b[k]);
            }
            if w < b.len() {
                assert(b.subrange(w, b.len() as int)[0] == b[w]);
            }
            if w > qq {
                assert(m[qq] == b[qq]);
            }
            assert(w == qq);
        }
    }
    r
}

/// Whether the standard parser reads `s` as a 64-bit float.
pub fn is_float_text(s: &str) -> (r: bool)
    ensures
        r == float_text(s@),
{
    let n = s.unicode_len();
    let mut start: usize = 0;
    if n > 0 {
        let c = char_at(s, 0);
        if c == '+' || c == '-' {
            start = 1;
        }
    }
    assert(unsigned_part(s@) =~= s@.subrange(start as int, n as int));
    spells_from(s, start, "inf") || spells_from(s, start, "infinity") || spells_from(s, start, "nan")
        || is_number(s, start, n)
}

/// Reads a raw text token as the most specific `ConfigValue` it can stand for:
/// `true` / `false` as a boolean, else a signed 64-bit integer, else a float,
/// else the text itself.
pub fn coerce(s: String) -> (r: ConfigValue)
    ensures
        r == coerced(s),
{
    proof {
        reveal_strlit("true");
        reveal_strlit("false");
    }
    let t = String::from_str("true");
    let f = String::from_str("false");
    if s == t {
        return ConfigValue::Bool(true);
    }
    if s == f {
        return ConfigValue::Bool(false);
    }
    match parse_int(s.as_str()) {
        Some(v) => ConfigValue::Int64(v),
        None => {
            if is_float_text(s.as_str()) {
                ConfigValue::Float64(s)
            } else {
                ConfigValue::String(s)
            }
        },
    }
}

} // verus!
