//! Text: numerals, lines, trimming.
//!
//! Texts are modelled as sequences of characters. Numbers are written and read
//! here digit by digit, so that what a file says is pinned down exactly.
use vstd::prelude::*;
use crate::num::{div_round_nearest, lemma_nearest_bounds, nearest, nearest_is_close};

verus! {

/// `String::push`: one character more at the end.
#[verifier::external_body]
pub(crate) fn push_char(s: &mut String, c: char)
    ensures
        final(s)@ == old(s)@.push(c),
{
    s.push(c)
}

/// Append a piece of text.
pub fn put(out: &mut String, piece: &str)
    ensures
        final(out)@ == old(out)@ + piece@,
{
    out.append(piece);
}

/// The characters of a text.
pub fn chars_of(s: &str) -> (r: Vec<char>)
    ensures
        r@ == s@,
{
    let mut r: Vec<char> = Vec::new();
    for c in it: s.chars()
        invariant
            r@ =~= s@.take(it.index() as int),
            it.seq() == s@,
    {
        r.push(c);
    }
    r
}

/// A text from its characters.
pub fn text_of(chars: &Vec<char>) -> (s: String)
    ensures
        s@ == chars@,
{
    let mut s = String::new();
    let mut i: usize = 0;
    while i < chars.len()
        invariant
            i <= chars.len(),
            s@ =~= chars@.take(i as int),
        decreases chars.len() - i,
    {
        push_char(&mut s, chars[i]);
        i += 1;
    }
    s
}

// ---------------------------------------------------------------------------
// Numerals
// ---------------------------------------------------------------------------

/// The character of a digit: `0` to `9`, then `a` to `z`.
pub open spec fn digit_char(d: nat) -> char {
    if d < 10 {
        (48 + d) as char
    } else {
        (87 + d) as char
    }
}

/// The numeral of `n`, without leading zeros.
pub open spec fn numeral(n: nat, radix: nat) -> Seq<char>
    decreases n,
{
    if radix < 2 || n < radix {
        seq![digit_char(n)]
    } else {
        proof {
            assert(n / radix < n) by (nonlinear_arith)
                requires
                    radix >= 2,
                    n >= radix,
            ;
        }
        numeral(n / radix, radix).push(digit_char(n % radix))
    }
}

/// The last `width` digits of `n`, zeros in front.
pub open spec fn padded(n: nat, radix: nat, width: nat) -> Seq<char>
    decreases width,
{
    if width == 0 {
        Seq::empty()
    } else {
        padded(n / radix, radix, (width - 1) as nat).push(digit_char(n % radix))
    }
}

/// The decimal numeral of an integer, with a sign if it is negative.
pub open spec fn decimal(n: int) -> Seq<char> {
    if n < 0 {
        seq!['-'] + numeral((-n) as nat, 10)
    } else {
        numeral(n as nat, 10)
    }
}

/// The value of a digit, if it is one in this radix.
pub open spec fn digit_value(c: char, radix: nat) -> Option<nat> {
    let v = if '0' <= c && c <= '9' {
        c as nat - 48
    } else if 'a' <= c && c <= 'z' {
        c as nat - 87
    } else if 'A' <= c && c <= 'Z' {
        c as nat - 55
    } else {
        99
    };
    if v < radix {
        Some(v as nat)
    } else {
        None
    }
}

/// The value of a string of digits; none if a character is no digit.
pub open spec fn digits_value(s: Seq<char>, radix: nat) -> Option<nat>
    decreases s.len(),
{
    if s.len() == 0 {
        Some(0)
    } else {
        match (digits_value(s.drop_last(), radix), digit_value(s.last(), radix)) {
            (Some(v), Some(d)) => Some(v * radix + d),
            _ => None,
        }
    }
}

/// An unsigned number as the standard library reads it: an optional plus sign,
/// then at least one digit, no more than `max` in value.
pub open spec fn unsigned_value(s: Seq<char>, radix: nat, max: nat) -> Option<nat> {
    let body = if s.len() > 0 && s[0] == '+' {
        s.skip(1)
    } else {
        s
    };
    if body.len() == 0 {
        None
    } else {
        match digits_value(body, radix) {
            Some(v) => if v <= max {
                Some(v)
            } else {
                None
            },
            None => None,
        }
    }
}

/// The character of a digit below 36.
pub fn to_digit_char(d: u8) -> (c: char)
    requires
        d < 36,
    ensures
        c == digit_char(d as nat),
{
    if d < 10 {
        (48 + d) as char
    } else {
        (87 + d) as char
    }
}

/// The value of a character as a digit.
pub fn to_digit(c: char, radix: u8) -> (d: Option<u8>)
    requires
        2 <= radix <= 36,
    ensures
        d is Some <==> digit_value(c, radix as nat) is Some,
        d matches Some(v) ==> digit_value(c, radix as nat) == Some(v as nat) && v < radix,
{
    let u: u32 = c as u32;
    let v: u32 = if '0' <= c && c <= '9' {
        u - 48
    } else if 'a' <= c && c <= 'z' {
        u - 87
    } else if 'A' <= c && c <= 'Z' {
        u - 55
    } else {
        99
    };
    if v < radix as u32 {
        Some(v as u8)
    } else {
        None
    }
}

/// Append the numeral of `n`.
pub fn put_numeral(out: &mut String, n: u128, radix: u8)
    requires
        2 <= radix <= 36,
    ensures
        final(out)@ == old(out)@ + numeral(n as nat, radix as nat),
    decreases n,
{
    let r: u128 = radix as u128;
    let ghost start = out@;
    if n >= r {
        proof {
            assert(n / (radix as u128) < n) by (nonlinear_arith)
                requires
                    radix >= 2,
                    n >= radix,
            ;
        }
        put_numeral(out, n / r, radix);
    }
    push_char(out, to_digit_char((n % r) as u8));
    assert((n / r) as nat == (n as nat) / (radix as nat));
    assert((n % r) as nat == (n as nat) % (radix as nat));
    proof {
        if n < r {
            vstd::arithmetic::div_mod::lemma_small_mod(n as nat, radix as nat);
        }
    }
    assert(out@ =~= start + numeral(n as nat, radix as nat));
}

/// Append the last `width` digits of `n`.
pub fn put_padded(out: &mut String, n: u128, radix: u8, width: usize)
    requires
        2 <= radix <= 36,
    ensures
        final(out)@ == old(out)@ + padded(n as nat, radix as nat, width as nat),
    decreases width,
{
    let r: u128 = radix as u128;
    let ghost start = out@;
    if width > 0 {
        put_padded(out, n / r, radix, width - 1);
        push_char(out, to_digit_char((n % r) as u8));
    }
    assert(out@ =~= start + padded(n as nat, radix as nat, width as nat));
}

/// Append the decimal numeral of an integer.
pub fn put_int(out: &mut String, n: i128)
    ensures
        final(out)@ == old(out)@ + decimal(n as int),
{
    let ghost start = out@;
    if n < 0 {
        push_char(out, '-');
        let m: u128 = (-(n + 1)) as u128 + 1;
        put_numeral(out, m, 10);
        assert(out@ =~= start + decimal(n as int));
    } else {
        put_numeral(out, n as u128, 10);
    }
}

/// Read an unsigned number of at most `max`.
pub fn parse_unsigned(s: &Vec<char>, radix: u8, max: u64) -> (v: Option<u64>)
    requires
        2 <= radix <= 36,
    ensures
        v is Some <==> unsigned_value(s@, radix as nat, max as nat) is Some,
        v matches Some(n) ==> unsigned_value(s@, radix as nat, max as nat) == Some(n as nat),
{
    let start: usize = if s.len() > 0 && s[0] == '+' {
        1
    } else {
        0
    };
    let ghost body = if s@.len() > 0 && s@[0] == '+' {
        s@.skip(1)
    } else {
        s@
    };
    assert(body =~= s@.skip(start as int));
    if s.len() == start {
        return None;
    }
    let mut v: u128 = 0;
    let mut i: usize = start;
    while i < s.len()
        invariant
            2 <= radix <= 36,
            start <= i <= s.len(),
            body == if s@.len() > 0 && s@[0] == '+' {
                s@.skip(1)
            } else {
                s@
            },
            body == s@.skip(start as int),
            body.len() > 0,
            digits_value(body.take(i - start), radix as nat) == Some(v as nat),
            v <= max,
        decreases s.len() - i,
    {
        let ghost k = i - start;
        assert(body.take(k + 1).drop_last() =~= body.take(k));
        assert(body.take(k + 1).last() == s@[i as int]);
        match to_digit(s[i], radix) {
            None => {
                proof {
                    lemma_digits_prefix(body, (k + 1) as nat, radix as nat);
                }
                return None;
            },
            Some(d) => {
                proof {
                    assert(0 <= v * radix <= max * 36) by (nonlinear_arith)
                        requires
                            0 <= v <= max,
                            2 <= radix <= 36,
                    ;
                }
                let n: u128 = v * (radix as u128) + d as u128;
                if n > max as u128 {
                    proof {
                        lemma_digits_prefix(body, (k + 1) as nat, radix as nat);
                    }
                    return None;
                }
                v = n;
            },
        }
        i += 1;
    }
    assert(body.take(i - start) =~= body);
    Some(v as u64)
}

/// A prefix of a valid number is valid and no larger.
proof fn lemma_digits_prefix(s: Seq<char>, k: nat, radix: nat)
    requires
        k <= s.len(),
        radix >= 1,
    ensures
        digits_value(s, radix) matches Some(v) ==> digits_value(s.take(k as int), radix) is Some
            && digits_value(s.take(k as int), radix)->0 <= v,
    decreases s.len(),
{
    if k == s.len() {
        assert(s.take(k as int) =~= s);
    } else {
        lemma_digits_prefix(s.drop_last(), k, radix);
        assert(s.drop_last().take(k as int) =~= s.take(k as int));
        if digits_value(s, radix) is Some {
            let a = digits_value(s.drop_last(), radix)->0;
            let b = digits_value(s, radix)->0;
            assert(a <= a * radix) by (nonlinear_arith)
                requires
                    a >= 0,
                    radix >= 1,
            ;
        }
    }
}

/// A digit's character reads back as the digit.
proof fn lemma_digit_round_trip(d: nat, radix: nat)
    requires
        d < radix <= 36,
    ensures
        digit_value(digit_char(d), radix) == Some(d),
        digit_char(d) != '+',
{
}

/// A numeral reads back as its number.
pub proof fn numeral_reads_back(n: nat, radix: nat, max: nat)
    requires
        2 <= radix <= 36,
        n <= max,
    ensures
        unsigned_value(numeral(n, radix), radix, max) == Some(n),
{
    lemma_numeral_value(n, radix);
}

proof fn lemma_numeral_value(n: nat, radix: nat)
    requires
        2 <= radix <= 36,
    ensures
        digits_value(numeral(n, radix), radix) == Some(n),
        numeral(n, radix).len() > 0,
        numeral(n, radix)[0] != '+',
    decreases n,
{
    reveal_with_fuel(digits_value, 2);
    let s = numeral(n, radix);
    if n < radix {
        lemma_digit_round_trip(n, radix);
        assert(s.drop_last() =~= Seq::<char>::empty());
        assert(digits_value(s.drop_last(), radix) == Some(0nat));
        assert(0 * radix + n == n) by (nonlinear_arith);
        assert(s.last() == digit_char(n));
    } else {
        assert(n / radix < n) by (nonlinear_arith)
            requires
                radix >= 2,
                n >= radix,
        ;
        lemma_numeral_value(n / radix, radix);
        lemma_digit_round_trip(n % radix, radix);
        assert(s.drop_last() =~= numeral(n / radix, radix));
        vstd::arithmetic::div_mod::lemma_fundamental_div_mod(n as int, radix as int);
        assert((n / radix) * radix + n % radix == n) by (nonlinear_arith)
            requires
                n == radix * (n / radix) + n % radix,
        ;
    }
}

/// The powers of a radix.
pub open spec fn power(radix: nat, e: nat) -> nat
    decreases e,
{
    if e == 0 {
        1
    } else {
        power(radix, (e - 1) as nat) * radix
    }
}

/// A padded numeral that is wide enough reads back as its number.
pub proof fn padded_reads_back(n: nat, radix: nat, width: nat, max: nat)
    requires
        2 <= radix <= 36,
        n <= max,
        width > 0,
        n < power(radix, width),
    ensures
        unsigned_value(padded(n, radix, width), radix, max) == Some(n),
{
    lemma_padded_value(n, radix, width);
}

proof fn lemma_padded_value(n: nat, radix: nat, width: nat)
    requires
        2 <= radix <= 36,
        n < power(radix, width),
    ensures
        digits_value(padded(n, radix, width), radix) == Some(n),
        padded(n, radix, width).len() == width,
        width > 0 ==> padded(n, radix, width)[0] != '+',
    decreases width,
{
    if width > 0 {
        let s = padded(n, radix, width);
        let p = power(radix, (width - 1) as nat);
        assert(n / radix < p) by (nonlinear_arith)
            requires
                n < p * radix,
                radix >= 2,
        ;
        lemma_padded_value(n / radix, radix, (width - 1) as nat);
        lemma_digit_round_trip(n % radix, radix);
        assert(s.drop_last() =~= padded(n / radix, radix, (width - 1) as nat));
        vstd::arithmetic::div_mod::lemma_fundamental_div_mod(n as int, radix as int);
        assert((n / radix) * radix + n % radix == n) by (nonlinear_arith)
            requires
                n == radix * (n / radix) + n % radix,
        ;
    }
}

// ---------------------------------------------------------------------------
// Lines and blanks
// ---------------------------------------------------------------------------

/// White space, as Unicode defines it.
pub open spec fn is_blank(c: char) -> bool {
    let u = c as u32;
    ||| 9 <= u <= 13
    ||| u == 0x20
    ||| u == 0x85
    ||| u == 0xa0
    ||| u == 0x1680
    ||| 0x2000 <= u <= 0x200a
    ||| u == 0x2028
    ||| u == 0x2029
    ||| u == 0x202f
    ||| u == 0x205f
    ||| u == 0x3000
}

/// White space in front dropped.
pub open spec fn trim_start(s: Seq<char>) -> Seq<char>
    decreases s.len(),
{
    if s.len() > 0 && is_blank(s[0]) {
        trim_start(s.skip(1))
    } else {
        s
    }
}

/// White space at the end dropped.
pub open spec fn trim_end(s: Seq<char>) -> Seq<char>
    decreases s.len(),
{
    if s.len() > 0 && is_blank(s.last()) {
        trim_end(s.drop_last())
    } else {
        s
    }
}

/// White space on both sides dropped.
pub open spec fn trimmed(s: Seq<char>) -> Seq<char> {
    trim_end(trim_start(s))
}

/// Whether a character is white space.
pub fn is_space(c: char) -> (b: bool)
    ensures
        b == is_blank(c),
{
    let u: u32 = c as u32;
    (9 <= u && u <= 13) || u == 0x20 || u == 0x85 || u == 0xa0 || u == 0x1680 || (0x2000 <= u && u
        <= 0x200a) || u == 0x2028 || u == 0x2029 || u == 0x202f || u == 0x205f || u == 0x3000
}

/// A range of a text, as a list of characters.
pub fn slice_of(s: &Vec<char>, from: usize, to: usize) -> (r: Vec<char>)
    requires
        from <= to <= s@.len(),
    ensures
        r@ == s@.subrange(from as int, to as int),
{
    let mut r: Vec<char> = Vec::new();
    let mut i: usize = from;
    while i < to
        invariant
            from <= i <= to <= s@.len(),
            r@ =~= s@.subrange(from as int, i as int),
        decreases to - i,
    {
        r.push(s[i]);
        i += 1;
    }
    r
}

/// A text without the white space around it.
pub fn trim(s: &Vec<char>) -> (r: Vec<char>)
    ensures
        r@ == trimmed(s@),
{
    let mut a: usize = 0;
    assert(s@.skip(0) =~= s@);
    while a < s.len() && is_space(s[a])
        invariant
            a <= s.len(),
            trim_start(s@.skip(a as int)) == trim_start(s@),
        decreases s.len() - a,
    {
        assert(s@.skip(a as int).skip(1) =~= s@.skip(a + 1));
        a += 1;
    }
    assert(trim_start(s@) == s@.skip(a as int));
    let mut b: usize = s.len();
    assert(s@.subrange(a as int, b as int) =~= s@.skip(a as int));
    while b > a && is_space(s[b - 1])
        invariant
            a <= b <= s.len(),
            trim_end(s@.subrange(a as int, b as int)) == trim_end(s@.skip(a as int)),
        decreases b,
    {
        assert(s@.subrange(a as int, b as int).drop_last() =~= s@.subrange(a as int, b - 1));
        b -= 1;
    }
    slice_of(s, a, b)
}

/// Length of the text before the first newline; the whole length without one.
pub open spec fn line_len(s: Seq<char>) -> nat
    decreases s.len(),
{
    if s.len() == 0 || s[0] == '\n' {
        0
    } else {
        1 + line_len(s.skip(1))
    }
}

/// A line without the carriage return before its newline.
pub open spec fn chomp(line: Seq<char>) -> Seq<char> {
    if line.len() > 0 && line.last() == '\r' {
        line.drop_last()
    } else {
        line
    }
}

/// The lines of a text. A line ends at a newline, or at a carriage return and
/// newline; the last one may end with the text.
pub open spec fn lines_of(s: Seq<char>) -> Seq<Seq<char>>
    decreases s.len(),
{
    let n = line_len(s);
    if s.len() == 0 {
        Seq::empty()
    } else if n >= s.len() {
        seq![s]
    } else {
        seq![chomp(s.take(n as int))] + lines_of(s.skip(n as int + 1))
    }
}

proof fn lemma_line_len(s: Seq<char>)
    ensures
        line_len(s) <= s.len(),
        forall|i: int| 0 <= i < line_len(s) ==> s[i] != '\n',
        line_len(s) < s.len() ==> s[line_len(s) as int] == '\n',
    decreases s.len(),
{
    if s.len() > 0 && s[0] != '\n' {
        lemma_line_len(s.skip(1));
        assert forall|i: int| 0 <= i < line_len(s) implies s[i] != '\n' by {
            if i > 0 {
                assert(s[i] == s.skip(1)[i - 1]);
            }
        }
    }
}

/// The first newline settles the length of a line.
pub proof fn lemma_line_len_at(s: Seq<char>, n: int)
    requires
        0 <= n <= s.len(),
        forall|i: int| 0 <= i < n ==> s[i] != '\n',
        n < s.len() ==> s[n] == '\n',
    ensures
        line_len(s) == n,
{
    lemma_line_len(s);
    if line_len(s) < n {
        assert(s[line_len(s) as int] == '\n');
    }
    if line_len(s) > n {
        assert(s[n] != '\n');
    }
}

/// The lines of a text, as lists of characters.
pub fn lines(s: &Vec<char>) -> (r: Vec<Vec<char>>)
    ensures
        r.deep_view() == lines_of(s@),
{
    let mut r: Vec<Vec<char>> = Vec::new();
    let mut at: usize = 0;
    assert(s@.skip(0) =~= s@);
    assert(r.deep_view() + lines_of(s@.skip(0)) =~= lines_of(s@));
    while at < s.len()
        invariant
            at <= s.len(),
            r.deep_view() + lines_of(s@.skip(at as int)) == lines_of(s@),
        decreases s.len() - at,
    {
        let ghost rest = s@.skip(at as int);
        let mut end: usize = at;
        while end < s.len() && s[end] != '\n'
            invariant
                at <= end <= s.len(),
                rest == s@.skip(at as int),
                forall|i: int| 0 <= i < end - at ==> rest[i] != '\n',
            decreases s.len() - end,
        {
            assert(rest[end - at] == s@[end as int]);
            end += 1;
        }
        proof {
            lemma_line_len_at(rest, end - at);
        }
        let ghost before = r.deep_view();
        if end == s.len() {
            let line = slice_of(s, at, end);
            assert(line@ =~= rest);
            let ghost lv = line@;
            r.push(line);
            assert(r.deep_view() =~= before.push(lv)) by {
                lemma_chars_view(r@[r@.len() - 1]);
            }
            assert(s@.skip(end as int) =~= Seq::<char>::empty());
            assert(r.deep_view() + lines_of(s@.skip(end as int)) =~= before + lines_of(rest));
            at = end;
        } else {
            let stop: usize = if end > at && s[end - 1] == '\r' {
                end - 1
            } else {
                end
            };
            let line = slice_of(s, at, stop);
            assert(rest.take(end - at) =~= s@.subrange(at as int, end as int));
            assert(line@ =~= chomp(rest.take(end - at)));
            let ghost lv = line@;
            r.push(line);
            assert(r.deep_view() =~= before.push(lv)) by {
                lemma_chars_view(r@[r@.len() - 1]);
            }
            assert(rest.skip(end - at + 1) =~= s@.skip(end + 1));
            assert(r.deep_view() + lines_of(s@.skip(end + 1)) =~= before + lines_of(rest));
            at = end + 1;
        }
    }
    assert(s@.skip(at as int) =~= Seq::<char>::empty());
    assert(r.deep_view() + lines_of(s@.skip(at as int)) =~= r.deep_view());
    r
}

/// A list of characters read through its elements' views is itself.
pub proof fn lemma_chars_view(r: Vec<char>)
    ensures
        r.deep_view() == r@,
{
    assert(r.deep_view() =~= r@);
}

/// Whether a text begins with another.
pub fn starts_with(s: &Vec<char>, prefix: &str) -> (b: bool)
    ensures
        b == prefix@.is_prefix_of(s@),
{
    let p = chars_of(prefix);
    if p.len() > s.len() {
        return false;
    }
    let mut i: usize = 0;
    while i < p.len()
        invariant
            i <= p.len() <= s.len(),
            p@ == prefix@,
            forall|k: int| 0 <= k < i ==> p@[k] == s@[k],
        decreases p.len() - i,
    {
        if p[i] != s[i] {
            assert(s@.subrange(0, p@.len() as int)[i as int] == s@[i as int]);
            return false;
        }
        i += 1;
    }
    assert(s@.subrange(0, p@.len() as int) =~= p@);
    true
}

/// Whether a list of characters spells a text.
pub fn spells(s: &Vec<char>, text: &str) -> (b: bool)
    ensures
        b == (s@ == text@),
{
    let t = chars_of(text);
    if t.len() != s.len() {
        return false;
    }
    let mut i: usize = 0;
    while i < t.len()
        invariant
            i <= t.len(),
            t.len() == s.len(),
            t@ == text@,
            forall|k: int| 0 <= k < i ==> t@[k] == s@[k],
        decreases t.len() - i,
    {
        if t[i] != s[i] {
            return false;
        }
        i += 1;
    }
    assert(s@ =~= t@);
    true
}

// ---------------------------------------------------------------------------
// Lengths in millimeters
// ---------------------------------------------------------------------------

/// The magnitude of an integer.
pub open spec fn magnitude(n: int) -> nat {
    if n < 0 {
        (-n) as nat
    } else {
        n as nat
    }
}

/// A number of small units written in units that are ten to the `scale` times
/// as large, with a fixed number of decimals, rounded to nearest.
pub open spec fn fixed_text(n: int, scale: nat, decimals: nat) -> Seq<char> {
    unit_text(n, power(10, (scale - decimals) as nat) as int, decimals)
}

/// A number of small units as a multiple of `unit`, rounded to nearest, with
/// the point set before the last `decimals` digits.
pub open spec fn unit_text(n: int, unit: int, decimals: nat) -> Seq<char> {
    let m = nearest(magnitude(n) as int, unit) as nat;
    let one = power(10, decimals);
    (if n < 0 {
        seq!['-']
    } else {
        Seq::empty()
    }) + numeral(m / one, 10) + seq!['.'] + padded(m % one, 10, decimals)
}

/// A length in nanometers written in millimeters with a fixed number of
/// decimals, rounded to nearest.
pub open spec fn mm_text(nm: int, decimals: nat) -> Seq<char> {
    fixed_text(nm, 6, decimals)
}

/// Decimals without trailing zeros.
pub open spec fn short_decimals(part: nat, width: nat) -> Seq<char>
    decreases width,
{
    if width > 0 && part % 10 == 0 {
        short_decimals(part / 10, (width - 1) as nat)
    } else {
        padded(part, 10, width)
    }
}

/// A length in nanometers written in millimeters with as many decimals as it
/// needs.
pub open spec fn mm_short(nm: int) -> Seq<char> {
    let m = magnitude(nm);
    let part = m % 1_000_000;
    (if nm < 0 {
        seq!['-']
    } else {
        Seq::empty()
    }) + numeral(m / 1_000_000, 10) + (if part == 0 {
        Seq::empty()
    } else {
        seq!['.'] + short_decimals(part, 6)
    })
}

proof fn lemma_powers_of_ten()
    ensures
        power(10, 0) == 1,
        power(10, 1) == 10,
        power(10, 2) == 100,
        power(10, 3) == 1_000,
        power(10, 4) == 10_000,
        power(10, 5) == 100_000,
        power(10, 6) == 1_000_000,
{
    reveal_with_fuel(power, 7);
}

/// Ten to a power of at most six.
fn ten_to(e: usize) -> (p: i128)
    requires
        e <= 6,
    ensures
        p == power(10, e as nat),
        1 <= p <= 1_000_000,
{
    proof {
        lemma_powers_of_ten();
    }
    if e == 0 {
        1
    } else if e == 1 {
        10
    } else if e == 2 {
        100
    } else if e == 3 {
        1_000
    } else if e == 4 {
        10_000
    } else if e == 5 {
        100_000
    } else {
        1_000_000
    }
}

/// Append a number of small units with a fixed number of decimals.
pub fn put_fixed(out: &mut String, n: i128, scale: usize, decimals: usize)
    requires
        1 <= decimals <= scale <= 6,
        n != i128::MIN,
    ensures
        final(out)@ == old(out)@ + fixed_text(n as int, scale as nat, decimals as nat),
{
    let unit: i128 = ten_to(scale - decimals);
    put_unit(out, n, unit, decimals);
}

/// Append a number of small units as a multiple of `unit`, with the point set
/// before the last `decimals` digits.
pub fn put_unit(out: &mut String, n: i128, unit: i128, decimals: usize)
    requires
        1 <= decimals <= 6,
        unit > 0,
        n != i128::MIN,
    ensures
        final(out)@ == old(out)@ + unit_text(n as int, unit as int, decimals as nat),
{
    let ghost start = out@;
    let size: i128 = if n < 0 {
        -n
    } else {
        n
    };
    if n < 0 {
        push_char(out, '-');
    }
    let one: i128 = ten_to(decimals);
    let m: i128 = div_round_nearest(size, unit);
    proof {
        assert(magnitude(n as int) == size);
        assert(0 * unit <= size <= size * unit) by (nonlinear_arith)
            requires
                size >= 0,
                unit >= 1,
        ;
        lemma_nearest_bounds(size as int, unit as int, 0, size as int);
    }
    let whole: u128 = (m as u128) / (one as u128);
    let part: u128 = (m as u128) % (one as u128);
    put_numeral(out, whole, 10);
    push_char(out, '.');
    put_padded(out, part, 10, decimals);
    assert(whole as nat == (m as nat) / (one as nat));
    assert(part as nat == (m as nat) % (one as nat));
    assert(out@ =~= start + unit_text(n as int, unit as int, decimals as nat));
}

/// Append a length in millimeters with a fixed number of decimals.
pub fn put_mm(out: &mut String, nm: i64, decimals: usize)
    requires
        1 <= decimals <= 6,
    ensures
        final(out)@ == old(out)@ + mm_text(nm as int, decimals as nat),
{
    put_fixed(out, nm as i128, 6, decimals);
}

/// Append a length in millimeters with as many decimals as it needs.
pub fn put_mm_short(out: &mut String, nm: i128)
    requires
        nm != i128::MIN,
    ensures
        final(out)@ == old(out)@ + mm_short(nm as int),
{
    let ghost start = out@;
    let size: u128 = if nm < 0 {
        (-nm) as u128
    } else {
        nm as u128
    };
    if nm < 0 {
        push_char(out, '-');
    }
    assert(magnitude(nm as int) == size);
    put_numeral(out, size / 1_000_000, 10);
    let mut part: u128 = size % 1_000_000;
    if part == 0 {
        assert(out@ =~= start + mm_short(nm as int));
        return;
    }
    let ghost head = out@;
    push_char(out, '.');
    let mut width: usize = 6;
    let ghost all = short_decimals(part as nat, 6);
    while width > 0 && part % 10 == 0
        invariant
            width <= 6,
            short_decimals(part as nat, width as nat) == all,
        decreases width,
    {
        part = part / 10;
        width -= 1;
    }
    put_padded(out, part, 10, width);
    assert(out@ =~= head + (seq!['.'] + all));
    assert(out@ =~= start + mm_short(nm as int));
}

/// A plain character: a digit or a lower-case letter, so neither white space
/// nor a sign.
pub open spec fn is_digit_char(c: char) -> bool {
    ('0' <= c && c <= '9') || ('a' <= c && c <= 'z')
}

/// Numerals consist of digits.
pub proof fn lemma_numeral_digits(n: nat, radix: nat)
    requires
        2 <= radix <= 36,
    ensures
        numeral(n, radix).len() > 0,
        forall|i: int| 0 <= i < numeral(n, radix).len() ==> is_digit_char(#[trigger] numeral(n, radix)[i]),
    decreases n,
{
    if n >= radix {
        assert(n / radix < n) by (nonlinear_arith)
            requires
                radix >= 2,
                n >= radix,
        ;
        lemma_numeral_digits(n / radix, radix);
    }
}

/// Padded numerals consist of digits.
pub proof fn lemma_padded_digits(n: nat, radix: nat, width: nat)
    requires
        2 <= radix <= 36,
    ensures
        padded(n, radix, width).len() == width,
        forall|i: int| 0 <= i < width ==> is_digit_char(#[trigger] padded(n, radix, width)[i]),
    decreases width,
{
    if width > 0 {
        lemma_padded_digits(n / radix, radix, (width - 1) as nat);
    }
}

/// A character of a decimal numeral: a digit or the sign.
pub open spec fn is_number_char(c: char) -> bool {
    is_digit_char(c) || c == '-'
}

proof fn lemma_decimal_chars(n: int)
    ensures
        decimal(n).len() > 0,
        forall|i: int| 0 <= i < decimal(n).len() ==> is_number_char(#[trigger] decimal(n)[i]),
{
    let v = if n < 0 {
        (-n) as nat
    } else {
        n as nat
    };
    lemma_numeral_digits(v, 10);
    if n < 0 {
        assert forall|i: int| 0 <= i < decimal(n).len() implies is_number_char(
            #[trigger] decimal(n)[i],
        ) by {
            if i > 0 {
                assert(decimal(n)[i] == numeral(v, 10)[i - 1]);
            }
        }
    }
}

/// Equal decimal numerals are those of equal integers.
proof fn lemma_decimal_injective(n: int, m: int)
    requires
        decimal(n) == decimal(m),
    ensures
        n == m,
{
    let a = if n < 0 {
        (-n) as nat
    } else {
        n as nat
    };
    let b = if m < 0 {
        (-m) as nat
    } else {
        m as nat
    };
    lemma_numeral_digits(a, 10);
    lemma_numeral_digits(b, 10);
    assert(n < 0 <==> decimal(n)[0] == '-');
    assert(m < 0 <==> decimal(m)[0] == '-');
    if n < 0 {
        assert(decimal(n).skip(1) =~= numeral(a, 10));
        assert(decimal(m).skip(1) =~= numeral(b, 10));
    }
    numeral_reads_back(a, 10, a + b);
    numeral_reads_back(b, 10, a + b);
}

/// A decimal numeral ends where something else begins, so that texts that start
/// with one tell which integer it is.
pub proof fn decimal_is_told(n: int, s: Seq<char>, m: int, t: Seq<char>)
    requires
        decimal(n) + s == decimal(m) + t,
        s.len() > 0,
        t.len() > 0,
        !is_number_char(s[0]),
        !is_number_char(t[0]),
    ensures
        n == m,
        s == t,
{
    let a = decimal(n);
    let b = decimal(m);
    lemma_decimal_chars(n);
    lemma_decimal_chars(m);
    if a.len() < b.len() {
        assert((a + s)[a.len() as int] == s[0]);
        assert((b + t)[a.len() as int] == b[a.len() as int]);
    }
    if b.len() < a.len() {
        assert((b + t)[b.len() as int] == t[0]);
        assert((a + s)[b.len() as int] == a[b.len() as int]);
    }
    assert((a + s).take(a.len() as int) =~= a);
    assert((b + t).take(b.len() as int) =~= b);
    assert((a + s).skip(a.len() as int) =~= s);
    assert((b + t).skip(b.len() as int) =~= t);
    lemma_decimal_injective(n, m);
}

/// What follows the same beginning is the same.
pub proof fn lemma_same_beginning(a: Seq<char>, s: Seq<char>, t: Seq<char>)
    requires
        a + s == a + t,
    ensures
        s == t,
{
    assert((a + s).skip(a.len() as int) =~= s);
    assert((a + t).skip(a.len() as int) =~= t);
}

/// A text that begins and ends with something visible has nothing to trim.
pub proof fn lemma_trimmed_fixed(s: Seq<char>)
    requires
        s.len() > 0,
        !is_blank(s[0]),
        !is_blank(s.last()),
    ensures
        trimmed(s) == s,
{
}

/// The first line of a text is what stands before its first newline.
pub proof fn lemma_first_line(a: Seq<char>, rest: Seq<char>)
    requires
        forall|i: int| 0 <= i < a.len() ==> #[trigger] a[i] != '\n',
        a.len() > 0 ==> a.last() != '\r',
    ensures
        lines_of(a + seq!['\n'] + rest) == seq![a] + lines_of(rest),
{
    let s = a + seq!['\n'] + rest;
    assert forall|i: int| 0 <= i < a.len() implies s[i] != '\n' by {
        assert(s[i] == a[i]);
    }
    assert(s[a.len() as int] == '\n');
    lemma_line_len_at(s, a.len() as int);
    assert(s.take(a.len() as int) =~= a);
    assert(s.skip(a.len() as int + 1) =~= rest);
}

// ---------------------------------------------------------------------------
// Texts within texts
// ---------------------------------------------------------------------------

/// A text stands somewhere within another one.
pub open spec fn holds(text: Seq<char>, part: Seq<char>) -> bool {
    exists|i: int|
        0 <= i <= text.len() - part.len() && #[trigger] text.subrange(i, i + part.len()) == part
}

/// A text holds whatever a part of it holds.
pub proof fn lemma_holds_in(a: Seq<char>, b: Seq<char>, part: Seq<char>)
    ensures
        holds(a, part) ==> holds(a + b, part),
        holds(b, part) ==> holds(a + b, part),
        holds(part, part),
{
    let all = a + b;
    if holds(a, part) {
        let i = choose|i: int|
            0 <= i <= a.len() - part.len() && #[trigger] a.subrange(i, i + part.len()) == part;
        assert(all.subrange(i, i + part.len()) =~= part);
    }
    if holds(b, part) {
        let i = choose|i: int|
            0 <= i <= b.len() - part.len() && #[trigger] b.subrange(i, i + part.len()) == part;
        assert(all.subrange(a.len() + i, a.len() + i + part.len()) =~= part);
    }
    assert(part.subrange(0, 0int + part.len()) =~= part);
}

/// Pieces of a text, one after the other.
pub open spec fn joined(parts: Seq<Seq<char>>) -> Seq<char>
    decreases parts.len(),
{
    if parts.len() == 0 {
        Seq::empty()
    } else {
        joined(parts.drop_last()) + parts.last()
    }
}

pub proof fn lemma_joined_push(parts: Seq<Seq<char>>, part: Seq<char>)
    ensures
        joined(parts.push(part)) == joined(parts) + part,
{
    assert(parts.push(part).drop_last() =~= parts);
}

/// A text holds each of its pieces, and what they hold.
pub proof fn lemma_joined_holds(parts: Seq<Seq<char>>, k: int, part: Seq<char>)
    requires
        0 <= k < parts.len(),
        holds(parts[k], part),
    ensures
        holds(joined(parts), part),
    decreases parts.len(),
{
    lemma_holds_in(joined(parts.drop_last()), parts.last(), part);
    if k < parts.len() - 1 {
        lemma_joined_holds(parts.drop_last(), k, part);
    }
}

/// Texts that differ only in the middle are as different as their middles.
pub proof fn lemma_same_ends(a: Seq<char>, m: Seq<char>, n: Seq<char>, b: Seq<char>)
    requires
        a + m + b == a + n + b,
    ensures
        m == n,
{
    let s = a + m + b;
    assert(s.len() == a.len() + m.len() + b.len());
    assert((a + n + b).len() == a.len() + n.len() + b.len());
    assert(s.subrange(a.len() as int, (a.len() + m.len()) as int) =~= m);
    assert(s.subrange(a.len() as int, (a.len() + n.len()) as int) =~= n);
}

/// A text begins as its first part does, and ends as its last part.
pub proof fn lemma_ends_of(head: Seq<char>, s: Seq<char>, t: Seq<char>)
    ensures
        head.is_prefix_of(s) ==> head.is_prefix_of(s + t),
        s.is_prefix_of(s + t),
        t.is_suffix_of(s + t),
{
    let all = s + t;
    if head.is_prefix_of(s) {
        assert(all.subrange(0, head.len() as int) =~= s.subrange(0, head.len() as int));
    }
    assert(all.subrange(0, s.len() as int) =~= s);
    assert(all.subrange(all.len() - t.len(), all.len() as int) =~= t);
}

/// It does not matter in which order texts are put together.
pub proof fn lemma_assoc(s: Seq<char>, a: Seq<char>, b: Seq<char>)
    ensures
        s + a + b == s + (a + b),
{
    assert(s + a + b =~= s + (a + b));
}

proof fn lemma_short_value(part: nat, width: nat)
    requires
        part < power(10, width),
        0 < part,
        width <= 6,
    ensures
        ({
            let s = short_decimals(part, width);
            &&& 0 < s.len() <= width
            &&& digits_value(s, 10) matches Some(v) && v * power(10, (width - s.len()) as nat)
                == part
        }),
    decreases width,
{
    lemma_powers_of_ten();
    if width > 0 && part % 10 == 0 {
        assert(power(10, width) == 10 * power(10, (width - 1) as nat));
        lemma_short_value(part / 10, (width - 1) as nat);
        let s = short_decimals(part, width);
        let e = (width - 1 - s.len()) as nat;
        let v = digits_value(s, 10)->0;
        assert(power(10, (width - s.len()) as nat) == 10 * power(10, e));
        assert(v * (10 * power(10, e)) == 10 * (v * power(10, e))) by (nonlinear_arith);
    } else {
        lemma_padded_value(part, 10, width);
        assert(power(10, 0) == 1);
        let v = digits_value(padded(part, 10, width), 10)->0;
        assert(v * 1 == v);
    }
}

/// A length written in millimeters reads back exactly: its sign, its whole
/// millimeters, and, where there is a rest, a point and the decimals.
pub proof fn millimeters_read_back(nm: int) -> (r: (Seq<char>, Seq<char>))
    ensures
        mm_short(nm) == (if nm < 0 {
            seq!['-']
        } else {
            Seq::empty()
        }) + r.0 + (if r.1.len() == 0 {
            Seq::empty()
        } else {
            seq!['.'] + r.1
        }),
        r.0.len() > 0,
        r.1.len() <= 6,
        digits_value(r.0, 10) is Some,
        digits_value(r.1, 10) is Some,
        (if nm < 0 {
            -nm
        } else {
            nm
        }) == 1_000_000 * digits_value(r.0, 10)->0 + digits_value(r.1, 10)->0 * power(
            10,
            (6 - r.1.len()) as nat,
        ),
{
    let m = magnitude(nm);
    let part = m % 1_000_000;
    let a = numeral(m / 1_000_000, 10);
    let b = if part == 0 {
        Seq::<char>::empty()
    } else {
        short_decimals(part, 6)
    };
    lemma_numeral_value(m / 1_000_000, 10);
    lemma_powers_of_ten();
    if part > 0 {
        lemma_short_value(part, 6);
    } else {
        assert(0 * power(10, 6) == 0);
    }
    (a, b)
}

/// A number written with a fixed number of decimals reads back as the nearest
/// multiple of the unit.
pub proof fn fixed_decimals_read_back(n: int, unit: int, decimals: nat) -> (r: (
    Seq<char>,
    Seq<char>,
))
    requires
        unit > 0,
        decimals <= 6,
    ensures
        unit_text(n, unit, decimals) == (if n < 0 {
            seq!['-']
        } else {
            Seq::empty()
        }) + r.0 + seq!['.'] + r.1,
        r.1.len() == decimals,
        digits_value(r.0, 10) is Some,
        digits_value(r.1, 10) is Some,
        ({
            let size = if n < 0 {
                -n
            } else {
                n
            };
            let m = digits_value(r.0, 10)->0 * power(10, decimals) + digits_value(r.1, 10)->0;
            -unit <= 2 * (size - unit * m) <= unit
        }),
{
    let size = magnitude(n) as int;
    nearest_is_close(size, unit);
    assert(0 * unit <= size <= size * unit) by (nonlinear_arith)
        requires
            size >= 0,
            unit >= 1,
    ;
    lemma_nearest_bounds(size, unit, 0, size);
    let m = nearest(size, unit) as nat;
    let one = power(10, decimals);
    lemma_powers_of_ten();
    let a = numeral(m / one, 10);
    let b = padded(m % one, 10, decimals);
    assert(one > 0);
    vstd::arithmetic::div_mod::lemma_fundamental_div_mod(m as int, one as int);
    assert(m == (m / one) * one + m % one) by (nonlinear_arith)
        requires
            m as int == (one as int) * (m as int / one as int) + m as int % one as int,
            one > 0,
    ;
    lemma_numeral_value(m / one, 10);
    lemma_padded_value(m % one, 10, decimals);
    (a, b)
}

proof fn lemma_trim_start(s: Seq<char>)
    ensures
        trim_start(s).len() <= s.len(),
        trim_start(s) == s.skip(s.len() - trim_start(s).len()),
        forall|i: int| 0 <= i < s.len() - trim_start(s).len() ==> is_blank(#[trigger] s[i]),
        trim_start(s).len() > 0 ==> !is_blank(trim_start(s)[0]),
    decreases s.len(),
{
    if s.len() > 0 && is_blank(s[0]) {
        let r = s.skip(1);
        lemma_trim_start(r);
        assert(s.skip(s.len() - trim_start(s).len()) =~= r.skip(r.len() - trim_start(r).len()));
        assert forall|i: int| 0 <= i < s.len() - trim_start(s).len() implies is_blank(
            #[trigger] s[i],
        ) by {
            if i > 0 {
                assert(r[i - 1] == s[i]);
            }
        }
    } else {
        assert(s.skip(0) =~= s);
    }
}

proof fn lemma_trim_end(s: Seq<char>)
    ensures
        trim_end(s).len() <= s.len(),
        trim_end(s) == s.take(trim_end(s).len() as int),
        forall|i: int| trim_end(s).len() <= i < s.len() ==> is_blank(#[trigger] s[i]),
        trim_end(s).len() > 0 ==> !is_blank(trim_end(s).last()),
    decreases s.len(),
{
    if s.len() > 0 && is_blank(s.last()) {
        let r = s.drop_last();
        lemma_trim_end(r);
        assert(s.take(trim_end(s).len() as int) =~= r.take(trim_end(r).len() as int));
        assert forall|i: int| trim_end(s).len() <= i < s.len() implies is_blank(#[trigger] s[i]) by {
            if i < s.len() - 1 {
                assert(r[i] == s[i]);
            }
        }
    } else {
        assert(s.take(s.len() as int) =~= s);
    }
}

/// Trimming drops white space in front and at the end, all of it, and nothing
/// else.
pub proof fn trimming_drops_only_white_space(s: Seq<char>) -> (r: (Seq<char>, Seq<char>))
    ensures
        s == r.0 + trimmed(s) + r.1,
        forall|i: int| 0 <= i < r.0.len() ==> is_blank(#[trigger] r.0[i]),
        forall|i: int| 0 <= i < r.1.len() ==> is_blank(#[trigger] r.1[i]),
        trimmed(s).len() > 0 ==> !is_blank(trimmed(s)[0]) && !is_blank(trimmed(s).last()),
{
    let t = trim_start(s);
    let u = trimmed(s);
    lemma_trim_start(s);
    lemma_trim_end(t);
    let front = s.take(s.len() - t.len());
    let back = t.skip(u.len() as int);
    assert(s =~= front + u + back);
    if u.len() > 0 {
        assert(u[0] == t[0]);
    }
    (front, back)
}

/// Blanks, tabs and line ends are white space; signs, digits and letters are not.
pub proof fn white_space_is_not_ink(c: char)
    ensures
        c == ' ' || c == '\t' || c == '\n' || c == '\r' ==> is_blank(c),
        '!' <= c <= '~' ==> !is_blank(c),
{
}

/// A line ends at a newline, with or without a carriage return before it, or with
/// the text.
pub proof fn lines_end_at_newlines(a: Seq<char>, rest: Seq<char>)
    requires
        forall|i: int| 0 <= i < a.len() ==> a[i] != '\n',
        a.len() > 0 ==> a.last() != '\r',
    ensures
        lines_of(Seq::empty()) == Seq::<Seq<char>>::empty(),
        a.len() > 0 ==> lines_of(a) == seq![a],
        lines_of(a + seq!['\n'] + rest) == seq![a] + lines_of(rest),
        lines_of(a + seq!['\r', '\n'] + rest) == seq![a] + lines_of(rest),
{
    lemma_line_len_at(a, a.len() as int);
    let n = a.len() as int;
    let s = a + seq!['\n'] + rest;
    lemma_line_len_at(s, n);
    assert(s.take(n) =~= a);
    assert(s.skip(n + 1) =~= rest);
    let t = a + seq!['\r', '\n'] + rest;
    lemma_line_len_at(t, n + 1);
    assert(t.take(n + 1) =~= a.push('\r'));
    assert(a.push('\r').drop_last() =~= a);
    assert(t.skip(n + 2) =~= rest);
}

} // verus!
