//! Decimal text: which strings denote 64-bit signed integers, what value they
//! denote, and the canonical rendering of a value back to text.

use vstd::prelude::*;
use vstd::string::*;

verus! {

/// True of the ten ASCII digit characters.
pub open spec fn is_digit(c: char) -> bool {
    ||| c == '0'
    ||| c == '1'
    ||| c == '2'
    ||| c == '3'
    ||| c == '4'
    ||| c == '5'
    ||| c == '6'
    ||| c == '7'
    ||| c == '8'
    ||| c == '9'
}

/// Numeric value of one digit character.
pub open spec fn digit_val(c: char) -> int {
    if c == '0' {
        0
    } else if c == '1' {
        1
    } else if c == '2' {
        2
    } else if c == '3' {
        3
    } else if c == '4' {
        4
    } else if c == '5' {
        5
    } else if c == '6' {
        6
    } else if c == '7' {
        7
    } else if c == '8' {
        8
    } else {
        9
    }
}

/// Digit character for a value below ten.
pub open spec fn digit_char(d: int) -> char {
    if d == 0 {
        '0'
    } else if d == 1 {
        '1'
    } else if d == 2 {
        '2'
    } else if d == 3 {
        '3'
    } else if d == 4 {
        '4'
    } else if d == 5 {
        '5'
    } else if d == 6 {
        '6'
    } else if d == 7 {
        '7'
    } else if d == 8 {
        '8'
    } else {
        '9'
    }
}

/// Every character of the sequence is an ASCII digit.
pub open spec fn all_digits(s: Seq<char>) -> bool {
    forall|i: int| 0 <= i < s.len() ==> is_digit(#[trigger] s[i])
}

/// Value of a digit sequence read in base ten.
pub open spec fn digits_val(s: Seq<char>) -> int
    decreases s.len(),
{
    if s.len() == 0 {
        0
    } else {
        10 * digits_val(s.drop_last()) + digit_val(s.last())
    }
}

/// The text begins with an explicit sign character.
pub open spec fn has_sign(s: Seq<char>) -> bool {
    s.len() > 0 && (s[0] == '+' || s[0] == '-')
}

/// The text with a leading sign, if any, stripped.
pub open spec fn int_body(s: Seq<char>) -> Seq<char> {
    if has_sign(s) {
        s.subrange(1, s.len() as int)
    } else {
        s
    }
}

/// The text begins with a minus sign.
pub open spec fn is_negative_text(s: Seq<char>) -> bool {
    s.len() > 0 && s[0] == '-'
}

/// An optional sign followed by one or more ASCII digits.
pub open spec fn is_int_syntax(s: Seq<char>) -> bool {
    int_body(s).len() > 0 && all_digits(int_body(s))
}

/// Signed value denoted by a text of integer syntax.
pub open spec fn int_val_of(s: Seq<char>) -> int {
    if is_negative_text(s) {
        -digits_val(int_body(s))
    } else {
        digits_val(int_body(s))
    }
}

/// The text denotes a value representable as an `i64`: integer syntax and
/// within the 64-bit signed range.
pub open spec fn is_int_text(s: Seq<char>) -> bool {
    is_int_syntax(s) && i64::MIN <= int_val_of(s) <= i64::MAX
}

/// Canonical digit sequence of a natural number: no leading zero except for
/// the number zero itself.
pub open spec fn digits_of(n: nat) -> Seq<char>
    decreases n,
{
    if n < 10 {
        seq![digit_char(n as int)]
    } else {
        digits_of(n / 10).push(digit_char(n as int % 10))
    }
}

/// Canonical decimal rendering of a signed integer.
pub open spec fn int_text_of(i: int) -> Seq<char> {
    if i < 0 {
        seq!['-'] + digits_of((-i) as nat)
    } else {
        digits_of(i as nat)
    }
}

/// A digit sequence denotes a value no less than zero.
proof fn lemma_digits_val_nonneg(s: Seq<char>)
    requires
        all_digits(s),
    ensures
        digits_val(s) >= 0,
    decreases s.len(),
{
    if s.len() > 0 {
        assert(all_digits(s.drop_last())) by {
            assert(forall|i: int|
                0 <= i < s.drop_last().len() ==> s.drop_last()[i] == #[trigger] s[i]);
        }
        lemma_digits_val_nonneg(s.drop_last());
        assert(digit_val(s.last()) >= 0);
    }
}

/// Appending one more digit multiplies the value by ten and adds the digit.
proof fn lemma_digits_val_push(s: Seq<char>, c: char)
    ensures
        digits_val(s.push(c)) == 10 * digits_val(s) + digit_val(c),
{
    assert(s.push(c).drop_last() =~= s);
    assert(s.push(c).last() == c);
}

/// The canonical digits of a number are digits, are never empty, and denote
/// that number.
proof fn lemma_digits_of_val(n: nat)
    ensures
        all_digits(digits_of(n)),
        digits_of(n).len() >= 1,
        digits_val(digits_of(n)) == n,
    decreases n,
{
    if n < 10 {
        let s = digits_of(n);
        assert(s =~= seq![digit_char(n as int)]);
        assert(s.drop_last() =~= Seq::<char>::empty());
        assert(digits_val(s) == 10 * digits_val(s.drop_last()) + digit_val(s.last()));
        assert(digit_val(digit_char(n as int)) == n);
    } else {
        lemma_digits_of_val(n / 10);
        let t = digits_of(n / 10);
        let c = digit_char(n as int % 10);
        lemma_digits_val_push(t, c);
        assert(0 <= n as int % 10 < 10);
        assert(digit_val(c) == n as int % 10);
        assert(digits_val(digits_of(n)) == 10 * (n / 10) + n % 10);
        assert(forall|i: int| 0 <= i < t.push(c).len() ==> is_digit(#[trigger] t.push(c)[i])) by {
            assert(forall|i: int| 0 <= i < t.len() ==> t.push(c)[i] == #[trigger] t[i]);
            assert(t.push(c)[t.len() as int] == c);
            assert(is_digit(c));
        }
    }
}

/// The value of a digit prefix never exceeds the value of the whole digit
/// sequence.
proof fn lemma_digits_val_prefix_le(s: Seq<char>, m: int)
    requires
        all_digits(s),
        0 <= m <= s.len(),
    ensures
        digits_val(s.subrange(0, m)) <= digits_val(s),
    decreases s.len() - m,
{
    if m == s.len() {
        assert(s.subrange(0, m) =~= s);
    } else {
        let p = s.subrange(0, m);
        let q = s.subrange(0, m + 1);
        assert(q =~= p.push(s[m]));
        lemma_digits_val_push(p, s[m]);
        assert(all_digits(p)) by {
            assert(forall|i: int| 0 <= i < p.len() ==> p[i] == #[trigger] s[i]);
        }
        lemma_digits_val_nonneg(p);
        assert(digit_val(s[m]) >= 0);
        lemma_digits_val_prefix_le(s, m + 1);
    }
}

/// Parse decimal text as a 64-bit signed integer: succeeds exactly on the
/// texts of `is_int_text`, returning the value they denote.
pub fn parse_i64(s: &str) -> (r: Option<i64>)
    ensures
        match r {
            Some(v) => is_int_text(s@) && v as int == int_val_of(s@),
            None => !is_int_text(s@),
        },
{
    let n = s.unicode_len();
    if n == 0 {
        return None;
    }
    let c0 = s.get_char(0);
    let neg = c0 == '-';
    let start: usize = if c0 == '-' || c0 == '+' {
        1
    } else {
        0
    };
    if start >= n {
        // A bare sign has an empty digit body.
        return None;
    }
    let ghost body = int_body(s@);
    proof {
        assert(body =~= s@.subrange(start as int, n as int));
    }
    let limit: u64 = if neg {
        9223372036854775808u64
    } else {
        9223372036854775807u64
    };
    let mut acc: u64 = 0;
    let mut i: usize = start;
    while i < n
        invariant
            start <= i <= n,
            n == s@.len(),
            start == if has_sign(s@) { 1int } else { 0int },
            neg == is_negative_text(s@),
            body == int_body(s@),
            body =~= s@.subrange(start as int, n as int),
            limit == if neg { 9223372036854775808u64 } else { 9223372036854775807u64 },
            all_digits(s@.subrange(start as int, i as int)),
            acc as int == digits_val(s@.subrange(start as int, i as int)),
            acc <= limit,
        decreases n - i,
    {
        let c = s.get_char(i);
        let ghost prefix = s@.subrange(start as int, i as int);
        match digit_of_char(c) {
            None => {
                // A non-digit inside the body refutes integer syntax.
                proof {
                    assert(body[i - start] == c);
                    assert(!all_digits(body));
                }
                return None;
            },
            Some(d) => {
                let wide: u128 = acc as u128 * 10 + d as u128;
                proof {
                    assert(prefix.push(c) =~= s@.subrange(start as int, i as int + 1));
                    lemma_digits_val_push(prefix, c);
                }
                if wide > limit as u128 {
                    // Even this prefix already exceeds the representable
                    // range, and further digits only increase the value.
                    proof {
                        if is_int_syntax(s@) {
                            lemma_digits_val_prefix_le(body, i + 1 - start);
                            assert(body.subrange(0, i + 1 - start) =~= s@.subrange(
                                start as int,
                                i as int + 1,
                            ));
                            lemma_digits_val_nonneg(body);
                            assert(digits_val(body) > limit);
                        }
                    }
                    return None;
                }
                acc = wide as u64;
                proof {
                    assert(forall|j: int|
                        0 <= j < prefix.push(c).len() ==> is_digit(
                            #[trigger] prefix.push(c)[j],
                        )) by {
                        assert(forall|j: int|
                            0 <= j < prefix.len() ==> prefix.push(c)[j] == #[trigger] prefix[j]);
                        assert(prefix.push(c)[prefix.len() as int] == c);
                    }
                }
            },
        }
        i = i + 1;
    }
    proof {
        assert(s@.subrange(start as int, n as int) =~= body);
        assert(acc as int == digits_val(body));
        assert(all_digits(body));
        assert(body.len() > 0);
        assert(is_int_syntax(s@));
    }
    if neg {
        if acc == 9223372036854775808u64 {
            Some(i64::MIN)
        } else {
            Some(-(acc as i64))
        }
    } else {
        Some(acc as i64)
    }
}

/// Classify one character as a digit, giving its value.
pub fn digit_of_char(c: char) -> (r: Option<u8>)
    ensures
        match r {
            Some(d) => is_digit(c) && d < 10 && d as int == digit_val(c),
            None => !is_digit(c),
        },
{
    match c {
        '0' => Some(0),
        '1' => Some(1),
        '2' => Some(2),
        '3' => Some(3),
        '4' => Some(4),
        '5' => Some(5),
        '6' => Some(6),
        '7' => Some(7),
        '8' => Some(8),
        '9' => Some(9),
        _ => None,
    }
}

/// Digit character of a value below ten.
pub fn char_of_digit(d: u8) -> (c: char)
    requires
        d < 10,
    ensures
        c == digit_char(d as int),
        is_digit(c),
{
    match d {
        0 => '0',
        1 => '1',
        2 => '2',
        3 => '3',
        4 => '4',
        5 => '5',
        6 => '6',
        7 => '7',
        8 => '8',
        _ => '9',
    }
}

/// Relies on `String::push`: appends exactly the given character at the end.
pub assume_specification[ String::push ](s: &mut String, c: char)
    ensures
        final(s)@ == old(s)@.push(c),
;

/// Append the canonical digits of `m` to the string.
fn push_digits(s: &mut String, m: u64)
    ensures
        final(s)@ == old(s)@ + digits_of(m as nat),
    decreases m,
{
    if m < 10 {
        s.push(char_of_digit(m as u8));
        assert(final(s)@ =~= old(s)@ + digits_of(m as nat));
    } else {
        assert(m / 10 < m) by {
            assert(m >= 10);
        }
        push_digits(s, m / 10);
        s.push(char_of_digit((m % 10) as u8));
        assert(final(s)@ =~= old(s)@ + digits_of(m as nat)) by {
            assert(digit_char((m % 10) as u8 as int) == digit_char(m as nat as int % 10));
        }
    }
}

/// Render a signed 64-bit integer as canonical decimal text.
pub fn int_to_text(v: i64) -> (s: String)
    ensures
        s@ == int_text_of(v as int),
{
    let mut s = String::new();
    if v < 0 {
        s.push('-');
        let mag: u64 = if v == i64::MIN {
            9223372036854775808u64
        } else {
            (-v) as u64
        };
        assert(mag as int == -(v as int));
        push_digits(&mut s, mag);
        assert(s@ =~= seq!['-'] + digits_of(mag as nat));
    } else {
        push_digits(&mut s, v as u64);
        assert(s@ =~= digits_of(v as u64 as nat));
    }
    s
}

/// Canonical decimal text parses back to the value it was rendered from.
pub proof fn lemma_int_text_round_trip(v: int)
    requires
        i64::MIN <= v <= i64::MAX,
    ensures
        is_int_text(int_text_of(v)),
        int_val_of(int_text_of(v)) == v,
{
    if v < 0 {
        let d = digits_of((-v) as nat);
        lemma_digits_of_val((-v) as nat);
        let t = seq!['-'] + d;
        assert(t[0] == '-');
        assert(t.len() > 0);
        assert(has_sign(t));
        assert(int_body(t) =~= d);
        assert(is_negative_text(t));
        assert(digits_val(d) == -v);
        assert(int_val_of(t) == v);
    } else {
        let d = digits_of(v as nat);
        lemma_digits_of_val(v as nat);
        assert(is_digit(d[0]));
        assert(d[0] != '-' && d[0] != '+');
        assert(!has_sign(d));
        assert(int_body(d) =~= d);
        assert(!is_negative_text(d));
        assert(int_val_of(d) == v);
    }
}

/// First position at or after `i` that does not hold a digit.
pub open spec fn skip_digits(s: Seq<char>, i: int) -> int
    decreases s.len() - i when 0 <= i <= s.len()
{
    if i < s.len() && is_digit(s[i]) {
        skip_digits(s, i + 1)
    } else {
        i
    }
}

/// `skip_digits` stays within the sequence.
proof fn lemma_skip_digits_bounds(s: Seq<char>, i: int)
    requires
        0 <= i <= s.len(),
    ensures
        i <= skip_digits(s, i) <= s.len(),
    decreases s.len() - i,
{
    if i < s.len() && is_digit(s[i]) {
        lemma_skip_digits_bounds(s, i + 1);
    }
}

/// The character equals the given lower-case letter or its upper-case form.
pub open spec fn ci(c: char, lo: char, up: char) -> bool {
    c == lo || c == up
}

/// Index of the first character after an optional leading sign.
pub open spec fn sign_end(s: Seq<char>) -> int {
    if has_sign(s) {
        1
    } else {
        0
    }
}

/// The rest of the text starting at `i` spells `inf`, ignoring case.
pub open spec fn is_inf_at(s: Seq<char>, i: int) -> bool {
    &&& s.len() - i == 3
    &&& ci(s[i], 'i', 'I')
    &&& ci(s[i + 1], 'n', 'N')
    &&& ci(s[i + 2], 'f', 'F')
}

/// The rest of the text starting at `i` spells `infinity`, ignoring case.
pub open spec fn is_infinity_at(s: Seq<char>, i: int) -> bool {
    &&& s.len() - i == 8
    &&& ci(s[i], 'i', 'I')
    &&& ci(s[i + 1], 'n', 'N')
    &&& ci(s[i + 2], 'f', 'F')
    &&& ci(s[i + 3], 'i', 'I')
    &&& ci(s[i + 4], 'n', 'N')
    &&& ci(s[i + 5], 'i', 'I')
    &&& ci(s[i + 6], 't', 'T')
    &&& ci(s[i + 7], 'y', 'Y')
}

/// The rest of the text starting at `i` spells `nan`, ignoring case.
pub open spec fn is_nan_at(s: Seq<char>, i: int) -> bool {
    &&& s.len() - i == 3
    &&& ci(s[i], 'n', 'N')
    &&& ci(s[i + 1], 'a', 'A')
    &&& ci(s[i + 2], 'n', 'N')
}

/// From `i` to the end: either nothing, or an exponent marker with an
/// optional sign and at least one digit.
pub open spec fn match_exp(s: Seq<char>, i: int) -> bool {
    if i == s.len() {
        true
    } else if !(s[i] == 'e' || s[i] == 'E') {
        false
    } else {
        let j = if i + 1 < s.len() && (s[i + 1] == '+' || s[i + 1] == '-') {
            i + 2
        } else {
            i + 1
        };
        let k = skip_digits(s, j);
        k > j && k == s.len()
    }
}

/// From `i0` to the end: a decimal mantissa with at least one digit and an
/// optional fraction point, followed by an optional exponent.
pub open spec fn match_number_at(s: Seq<char>, i0: int) -> bool {
    let a = skip_digits(s, i0);
    if a > i0 {
        if a < s.len() && s[a] == '.' {
            match_exp(s, skip_digits(s, a + 1))
        } else {
            match_exp(s, a)
        }
    } else {
        if i0 < s.len() && s[i0] == '.' {
            let b = skip_digits(s, i0 + 1);
            b > i0 + 1 && match_exp(s, b)
        } else {
            false
        }
    }
}

/// The text is accepted by the standard floating-point grammar: an optional
/// sign, then `inf`, `infinity`, `nan` (any case) or a decimal number with
/// optional fraction and exponent.
pub open spec fn is_float_text(s: Seq<char>) -> bool {
    let i = sign_end(s);
    ||| is_inf_at(s, i)
    ||| is_infinity_at(s, i)
    ||| is_nan_at(s, i)
    ||| match_number_at(s, i)
}

/// First position at or after `from` that does not hold a digit.
fn scan_digits(s: &str, n: usize, from: usize) -> (j: usize)
    requires
        n == s@.len(),
        from <= n,
    ensures
        from <= j <= n,
        j == skip_digits(s@, from as int),
{
    let mut i: usize = from;
    while i < n && digit_of_char(s.get_char(i)).is_some()
        invariant
            from <= i <= n,
            n == s@.len(),
            skip_digits(s@, from as int) == skip_digits(s@, i as int),
        decreases n - i,
    {
        i = i + 1;
    }
    proof {
        lemma_skip_digits_bounds(s@, i as int);
    }
    i
}

/// Decide `match_exp` at position `i`.
fn exp_matches(s: &str, n: usize, i: usize) -> (r: bool)
    requires
        n == s@.len(),
        i <= n,
    ensures
        r == match_exp(s@, i as int),
{
    if i == n {
        return true;
    }
    let c = s.get_char(i);
    if !(c == 'e' || c == 'E') {
        return false;
    }
    let j: usize = if i + 1 < n {
        let c1 = s.get_char(i + 1);
        if c1 == '+' || c1 == '-' {
            i + 2
        } else {
            i + 1
        }
    } else {
        i + 1
    };
    let k = scan_digits(s, n, j);
    k > j && k == n
}

/// Decide whether the text is accepted by the standard floating-point
/// grammar (`is_float_text`).
pub fn is_float_str(s: &str) -> (r: bool)
    ensures
        r == is_float_text(s@),
{
    let n = s.unicode_len();
    if n == 0 {
        return false;
    }
    let c0 = s.get_char(0);
    let start: usize = if c0 == '-' || c0 == '+' {
        1
    } else {
        0
    };
    assert(start as int == sign_end(s@));
    if n - start == 3 {
        let c1 = s.get_char(start);
        let c2 = s.get_char(start + 1);
        let c3 = s.get_char(start + 2);
        if (c1 == 'i' || c1 == 'I') && (c2 == 'n' || c2 == 'N') && (c3 == 'f' || c3 == 'F') {
            return true;
        }
        if (c1 == 'n' || c1 == 'N') && (c2 == 'a' || c2 == 'A') && (c3 == 'n' || c3 == 'N') {
            return true;
        }
    }
    if n - start == 8 {
        let c1 = s.get_char(start);
        let c2 = s.get_char(start + 1);
        let c3 = s.get_char(start + 2);
        let c4 = s.get_char(start + 3);
        let c5 = s.get_char(start + 4);
        let c6 = s.get_char(start + 5);
        let c7 = s.get_char(start + 6);
        let c8 = s.get_char(start + 7);
        if (c1 == 'i' || c1 == 'I') && (c2 == 'n' || c2 == 'N') && (c3 == 'f' || c3 == 'F') && (c4
            == 'i' || c4 == 'I') && (c5 == 'n' || c5 == 'N') && (c6 == 'i' || c6 == 'I') && (c7
            == 't' || c7 == 'T') && (c8 == 'y' || c8 == 'Y') {
            return true;
        }
    }
    let a = scan_digits(s, n, start);
    if a > start {
        if a < n && s.get_char(a) == '.' {
            let b = scan_digits(s, n, a + 1);
            exp_matches(s, n, b)
        } else {
            exp_matches(s, n, a)
        }
    } else {
        if start < n && s.get_char(start) == '.' {
            let b = scan_digits(s, n, start + 1);
            b > start + 1 && exp_matches(s, n, b)
        } else {
            false
        }
    }
}

} // verus!
