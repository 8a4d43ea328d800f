//! Character text: comparison, ordering, decimal printing and parsing.
use vstd::prelude::*;

verus! {

/// Copies the characters of a string slice into a character vector.
pub fn chars_of(s: &str) -> (r: Vec<char>)
    ensures
        r@ == s@,
{
    let n = s.unicode_len();
    let mut r: Vec<char> = Vec::new();
    let mut i: usize = 0;
    while i < n
        invariant
            i <= n,
            n == s@.len(),
            r@ == s@.subrange(0, i as int),
        decreases n - i,
    {
        r.push(s.get_char(i));
        i += 1;
        assert(r@ =~= s@.subrange(0, i as int));
    }
    assert(r@ =~= s@);
    r
}

/// Whether two texts hold the same characters.
pub fn text_eq(a: &Vec<char>, b: &Vec<char>) -> (r: bool)
    ensures
        r == (a@ == b@),
{
    if a.len() != b.len() {
        return false;
    }
    let mut i: usize = 0;
    while i < a.len()
        invariant
            a.len() == b.len(),
            i <= a.len(),
            forall|k: int| 0 <= k < i ==> a@[k] == b@[k],
        decreases a.len() - i,
    {
        if a[i] != b[i] {
            return false;
        }
        i += 1;
    }
    assert(a@ =~= b@);
    true
}

/// Whether a text holds exactly the characters of a string slice.
pub fn text_is(a: &Vec<char>, s: &str) -> (r: bool)
    ensures
        r == (a@ == s@),
{
    let b = chars_of(s);
    text_eq(a, &b)
}

/// Appends the characters of `s` to `out`.
pub fn push_str(out: &mut Vec<char>, s: &str)
    ensures
        final(out)@ == old(out)@ + s@,
{
    let b = chars_of(s);
    push_text(out, &b);
}

/// Appends the characters of `t` to `out`.
pub fn push_text(out: &mut Vec<char>, t: &Vec<char>)
    ensures
        final(out)@ == old(out)@ + t@,
{
    let ghost start = out@;
    let mut i: usize = 0;
    while i < t.len()
        invariant
            i <= t.len(),
            out@ == start + t@.subrange(0, i as int),
        decreases t.len() - i,
    {
        out.push(t[i]);
        i += 1;
        assert(out@ =~= start + t@.subrange(0, i as int));
    }
    assert(t@.subrange(0, t@.len() as int) =~= t@);
}

/// A copy of a text.
pub fn copy_text(t: &Vec<char>) -> (r: Vec<char>)
    ensures
        r@ == t@,
{
    let mut r: Vec<char> = Vec::new();
    push_text(&mut r, t);
    assert(r@ =~= t@);
    r
}

// ---------------------------------------------------------------------------
// Lexicographic order (the order of `String` and of proc-macro identifiers)
// ---------------------------------------------------------------------------

/// `a` comes strictly before `b` in lexicographic order on character codes.
/// For UTF-8 strings this is the order of `str::cmp`.
pub open spec fn text_lt(a: Seq<char>, b: Seq<char>) -> bool
    decreases a.len(),
{
    if a.len() == 0 {
        b.len() > 0
    } else if b.len() == 0 {
        false
    } else if a[0] != b[0] {
        (a[0] as int) < (b[0] as int)
    } else {
        text_lt(a.subrange(1, a.len() as int), b.subrange(1, b.len() as int))
    }
}

/// No text comes before itself.
pub proof fn lemma_text_lt_irreflexive(a: Seq<char>)
    ensures
        !text_lt(a, a),
    decreases a.len(),
{
    if a.len() > 0 {
        lemma_text_lt_irreflexive(a.subrange(1, a.len() as int));
    }
}

/// The order is transitive.
pub proof fn lemma_text_lt_transitive(a: Seq<char>, b: Seq<char>, c: Seq<char>)
    requires
        text_lt(a, b),
        text_lt(b, c),
    ensures
        text_lt(a, c),
    decreases a.len(),
{
    if a.len() > 0 && b.len() > 0 && c.len() > 0 {
        if a[0] == b[0] && b[0] == c[0] {
            lemma_text_lt_transitive(
                a.subrange(1, a.len() as int),
                b.subrange(1, b.len() as int),
                c.subrange(1, c.len() as int),
            );
        }
    }
}

/// Any two distinct texts are ordered one way or the other.
pub proof fn lemma_text_lt_total(a: Seq<char>, b: Seq<char>)
    ensures
        a == b || text_lt(a, b) || text_lt(b, a),
    decreases a.len(),
{
    if a.len() > 0 && b.len() > 0 && a[0] == b[0] {
        let ta = a.subrange(1, a.len() as int);
        let tb = b.subrange(1, b.len() as int);
        lemma_text_lt_total(ta, tb);
        if ta == tb {
            assert(a =~= seq![a[0]] + ta);
            assert(b =~= seq![b[0]] + tb);
        }
    } else if a.len() == 0 && b.len() == 0 {
        assert(a =~= b);
    } else if a.len() > 0 && b.len() > 0 {
        assert((a[0] as int) != (b[0] as int));
    }
}

/// Decides `text_lt`.
pub fn text_less(a: &Vec<char>, b: &Vec<char>) -> (r: bool)
    ensures
        r == text_lt(a@, b@),
{
    let mut i: usize = 0;
    assert(a@.subrange(0, a@.len() as int) =~= a@);
    assert(b@.subrange(0, b@.len() as int) =~= b@);
    while i < a.len() && i < b.len() && a[i] == b[i]
        invariant
            i <= a.len(),
            i <= b.len(),
            text_lt(a@, b@) == text_lt(
                a@.subrange(i as int, a@.len() as int),
                b@.subrange(i as int, b@.len() as int),
            ),
        decreases a.len() - i,
    {
        let ghost sa = a@.subrange(i as int, a@.len() as int);
        let ghost sb = b@.subrange(i as int, b@.len() as int);
        assert(sa.subrange(1, sa.len() as int) =~= a@.subrange(i + 1, a@.len() as int));
        assert(sb.subrange(1, sb.len() as int) =~= b@.subrange(i + 1, b@.len() as int));
        i += 1;
    }
    if i == a.len() {
        i < b.len()
    } else if i == b.len() {
        false
    } else {
        a[i] < b[i]
    }
}

// ---------------------------------------------------------------------------
// Decimal printing of unsigned integers
// ---------------------------------------------------------------------------

/// The character of a decimal digit.
pub open spec fn digit_char(d: int) -> char {
    if d == 0 {
        '0'
    } else if d == 1 {
        '1'
    } else if d == 2 {
        '2'
    } else if d == 3 {
        '3'
    } else if d == 4 {
        '4'
    } else if d == 5 {
        '5'
    } else if d == 6 {
        '6'
    } else if d == 7 {
        '7'
    } else if d == 8 {
        '8'
    } else {
        '9'
    }
}

/// The decimal numeral of `n`, without sign, suffix or leading zeros
/// (the text of `n.to_string()`).
pub open spec fn decimal(n: nat) -> Seq<char>
    decreases n,
{
    if n < 10 {
        seq![digit_char(n as int)]
    } else {
        decimal(n / 10).push(digit_char((n % 10) as int))
    }
}

fn digit_to_char(d: u64) -> (c: char)
    requires
        d < 10,
    ensures
        c == digit_char(d as int),
{
    match d {
        0 => '0',
        1 => '1',
        2 => '2',
        3 => '3',
        4 => '4',
        5 => '5',
        6 => '6',
        7 => '7',
        8 => '8',
        _ => '9',
    }
}

/// Appends the decimal numeral of `n` to `out`.
pub fn push_decimal(out: &mut Vec<char>, n: u64)
    ensures
        final(out)@ == old(out)@ + decimal(n as nat),
    decreases n,
{
    if n >= 10 {
        push_decimal(out, n / 10);
    }
    out.push(digit_to_char(n % 10));
    assert(out@ =~= old(out)@ + decimal(n as nat));
}

/// The decimal numeral of `n` as a new text.
pub fn decimal_text(n: u64) -> (r: Vec<char>)
    ensures
        r@ == decimal(n as nat),
{
    let mut r: Vec<char> = Vec::new();
    push_decimal(&mut r, n);
    assert(r@ =~= decimal(n as nat));
    r
}

// ---------------------------------------------------------------------------
// Parsing of unsigned integers (the rules of `str::parse::<u64>`)
// ---------------------------------------------------------------------------

/// Why a text is not the numeral of a `u64`; these are the kinds of
/// `core::num::ParseIntError` that an unsigned parse can give.
#[derive(Clone, Copy, Debug, PartialEq, Eq, Structural)]
pub enum IntParseError {
    Empty,
    InvalidDigit,
    PosOverflow,
}

pub open spec fn is_digit(c: char) -> bool {
    '0' <= c && c <= '9'
}

pub open spec fn digit_value(c: char) -> int {
    (c as int) - ('0' as int)
}

/// Reads the digits of `d` from left to right onto the value `acc`,
/// failing at the first character that is no digit or that makes the value
/// exceed `u64::MAX`.
pub open spec fn accumulate_digits(d: Seq<char>, acc: int) -> Result<u64, IntParseError>
    decreases d.len(),
{
    if d.len() == 0 {
        Ok(acc as u64)
    } else if !is_digit(d[0]) {
        Err(IntParseError::InvalidDigit)
    } else if acc * 10 + digit_value(d[0]) > u64::MAX {
        Err(IntParseError::PosOverflow)
    } else {
        accumulate_digits(d.subrange(1, d.len() as int), acc * 10 + digit_value(d[0]))
    }
}

/// The result of parsing `s` as a `u64`: an optional `+`, then at least
/// one decimal digit, with a value that fits.
pub open spec fn parse_u64_spec(s: Seq<char>) -> Result<u64, IntParseError> {
    if s.len() == 0 {
        Err(IntParseError::Empty)
    } else if s.len() == 1 && (s[0] == '+' || s[0] == '-') {
        Err(IntParseError::InvalidDigit)
    } else if s[0] == '+' {
        accumulate_digits(s.subrange(1, s.len() as int), 0)
    } else {
        accumulate_digits(s, 0)
    }
}

/// Parses `s` as a `u64` as `str::parse::<u64>` does.
pub fn parse_u64(s: &Vec<char>) -> (r: Result<u64, IntParseError>)
    ensures
        r == parse_u64_spec(s@),
{
    if s.len() == 0 {
        return Err(IntParseError::Empty);
    }
    if s.len() == 1 && (s[0] == '+' || s[0] == '-') {
        return Err(IntParseError::InvalidDigit);
    }
    let mut i: usize = if s[0] == '+' { 1 } else { 0 };
    assert(s@.subrange(0, s@.len() as int) =~= s@);
    let mut acc: u64 = 0;
    while i < s.len()
        invariant
            i <= s.len(),
            parse_u64_spec(s@) == accumulate_digits(
                s@.subrange(i as int, s@.len() as int),
                acc as int,
            ),
        decreases s.len() - i,
    {
        let c = s[i];
        let ghost rest = s@.subrange(i as int, s@.len() as int);
        if !('0' <= c && c <= '9') {
            return Err(IntParseError::InvalidDigit);
        }
        let v: u64 = (c as u32 - '0' as u32) as u64;
        assert(v == digit_value(c));
        if acc > (u64::MAX - v) / 10 {
            assert(acc * 10 + v > u64::MAX) by (nonlinear_arith)
                requires
                    acc > (u64::MAX - v) / 10,
                    v < 10,
            ;
            return Err(IntParseError::PosOverflow);
        }
        assert(acc * 10 + v <= u64::MAX) by (nonlinear_arith)
            requires
                acc <= (u64::MAX - v) / 10,
                v < 10,
        ;
        acc = acc * 10 + v;
        i += 1;
        assert(rest.subrange(1, rest.len() as int) =~= s@.subrange(i as int, s@.len() as int));
    }
    Ok(acc)
}

proof fn lemma_digit_char(d: int)
    requires
        0 <= d < 10,
    ensures
        is_digit(digit_char(d)),
        digit_value(digit_char(d)) == d,
{
}

proof fn lemma_accumulate_push(d: Seq<char>, acc: int, c: char)
    requires
        0 <= acc <= u64::MAX,
        accumulate_digits(d, acc) is Ok,
        is_digit(c),
        accumulate_digits(d, acc)->Ok_0 * 10 + digit_value(c) <= u64::MAX,
    ensures
        accumulate_digits(d.push(c), acc) == Ok::<u64, IntParseError>(
            (accumulate_digits(d, acc)->Ok_0 * 10 + digit_value(c)) as u64,
        ),
    decreases d.len(),
{
    if d.len() > 0 {
        let next = acc * 10 + digit_value(d[0]);
        assert(d.push(c)[0] == d[0]);
        assert(d.push(c).subrange(1, d.len() as int + 1) =~= d.subrange(1, d.len() as int).push(c));
        lemma_accumulate_push(d.subrange(1, d.len() as int), next, c);
    } else {
        assert(accumulate_digits(d, acc) == Ok::<u64, IntParseError>(acc as u64));
        assert((acc as u64) as int == acc);
        let one = d.push(c);
        assert(one.len() == 1 && one[0] == c);
        assert(one.subrange(1, 1) =~= Seq::<char>::empty());
        assert(accumulate_digits(one.subrange(1, 1), acc * 10 + digit_value(c)) == Ok::<
            u64,
            IntParseError,
        >((acc * 10 + digit_value(c)) as u64));
    }
}

proof fn lemma_decimal_accumulates(n: nat)
    requires
        n <= u64::MAX,
    ensures
        decimal(n).len() > 0,
        is_digit(decimal(n)[0]),
        accumulate_digits(decimal(n), 0) == Ok::<u64, IntParseError>(n as u64),
    decreases n,
{
    if n < 10 {
        lemma_digit_char(n as int);
        let d = decimal(n);
        assert(d == seq![digit_char(n as int)]);
        assert(d.subrange(1, 1) =~= Seq::<char>::empty());
        assert(accumulate_digits(d.subrange(1, 1), n as int) == Ok::<u64, IntParseError>(
            n as u64,
        ));
    } else {
        lemma_decimal_accumulates(n / 10);
        lemma_digit_char((n % 10) as int);
        assert(n == (n / 10) * 10 + n % 10);
        lemma_accumulate_push(decimal(n / 10), 0, digit_char((n % 10) as int));
        assert(decimal(n)[0] == decimal(n / 10)[0]);
    }
}

/// The decimal numeral of a value reads back as that value: the literal
/// that `seq!` writes for a value is parsed as the same value.
pub proof fn law_decimal_parses_back(n: u64)
    ensures
        parse_u64_spec(decimal(n as nat)) == Ok::<u64, IntParseError>(n),
{
    lemma_decimal_accumulates(n as nat);
}

} // verus!
