//! Character-level helpers shared by the splitter and the classifier:
//! digit and letter predicates, escape translation, and conversions
//! between `String` and `Vec<char>`.

use vstd::prelude::*;
use vstd::string::StrSliceExecFns;

verus! {

/// Spec: `c` is an ASCII decimal digit.
pub open spec fn is_digit(c: char) -> bool {
    48 <= c as u32 && c as u32 <= 57
}

/// Spec: `c` is an ASCII letter.
pub open spec fn is_alpha(c: char) -> bool {
    (65 <= c as u32 && c as u32 <= 90) || (97 <= c as u32 && c as u32 <= 122)
}

/// Spec: numeric value of an ASCII digit.
pub open spec fn digit_val(c: char) -> int {
    c as u32 - 48
}

pub fn digit_check(c: char) -> (r: bool)
    ensures
        r == is_digit(c),
{
    let u = c as u32;
    48 <= u && u <= 57
}

pub fn alpha_check(c: char) -> (r: bool)
    ensures
        r == is_alpha(c),
{
    let u = c as u32;
    (65 <= u && u <= 90) || (97 <= u && u <= 122)
}

/// Spec: the character an escape sequence `\c` stands for.
pub open spec fn translate_escape(c: char) -> char {
    if c == 'n' {
        '\n'
    } else if c == 'r' {
        '\r'
    } else if c == 't' {
        '\t'
    } else {
        c
    }
}

pub fn translate_escape_char(c: char) -> (r: char)
    ensures
        r == translate_escape(c),
{
    if c == 'n' {
        '\n'
    } else if c == 'r' {
        '\r'
    } else if c == 't' {
        '\t'
    } else {
        c
    }
}

/// The characters of `s`, in order, as a vector.
pub fn to_char_vec(s: &str) -> (r: Vec<char>)
    ensures
        r@ == s@,
{
    let n = s.unicode_len();
    let mut r: Vec<char> = Vec::new();
    let mut i: usize = 0;
    while i < n
        invariant
            i <= n,
            n == s@.len(),
            r@ == s@.take(i as int),
        decreases n - i,
    {
        let c = s.get_char(i);
        r.push(c);
        proof {
            assert(s@.take(i + 1) =~= s@.take(i as int).push(s@[i as int]));
        }
        i = i + 1;
    }
    proof {
        assert(s@.take(n as int) =~= s@);
    }
    r
}

/// Spec: every character of `s` is an ASCII digit.
pub open spec fn all_digits(s: Seq<char>) -> bool {
    forall|i: int| 0 <= i < s.len() ==> #[trigger] is_digit(s[i])
}

/// Spec: the value of a digit string read in base ten.
pub open spec fn digits_value(s: Seq<char>) -> int
    decreases s.len(),
{
    if s.len() == 0 {
        0
    } else {
        digits_value(s.drop_last()) * 10 + digit_val(s.last())
    }
}

/// Spec: the text with one leading `+` or `-` removed, if present.
pub open spec fn sign_stripped(s: Seq<char>) -> Seq<char> {
    if s.len() > 0 && (s[0] == '+' || s[0] == '-') {
        s.drop_first()
    } else {
        s
    }
}

/// Spec: does the text start with a minus sign?
pub open spec fn has_minus_sign(s: Seq<char>) -> bool {
    s.len() > 0 && s[0] == '-'
}

/// Spec: `s` is a decimal text accepted by a 64-bit signed integer
/// parse: an optional sign, at least one digit, and a value in range.
pub open spec fn is_i64_text(s: Seq<char>) -> bool {
    &&& sign_stripped(s).len() > 0
    &&& all_digits(sign_stripped(s))
    &&& digits_value(sign_stripped(s)) <= if has_minus_sign(s) {
        0x8000_0000_0000_0000int
    } else {
        0x7fff_ffff_ffff_ffffint
    }
}

/// Spec: the signed value a decimal text denotes.
pub open spec fn i64_text_value(s: Seq<char>) -> int {
    if has_minus_sign(s) {
        -digits_value(sign_stripped(s))
    } else {
        digits_value(sign_stripped(s))
    }
}

proof fn lemma_digits_value_nonneg(s: Seq<char>)
    requires
        all_digits(s),
    ensures
        digits_value(s) >= 0,
    decreases s.len(),
{
    if s.len() > 0 {
        assert(is_digit(s[s.len() - 1]));
        assert(digit_val(s.last()) >= 0);
        assert(all_digits(s.drop_last()));
        lemma_digits_value_nonneg(s.drop_last());
    }
}

/// Extending a digit string can only grow its value.
proof fn lemma_digits_value_prefix(s: Seq<char>, k: int)
    requires
        all_digits(s),
        0 <= k <= s.len(),
    ensures
        digits_value(s.take(k)) <= digits_value(s),
    decreases s.len() - k,
{
    if k < s.len() {
        assert(s.take(k + 1).drop_last() =~= s.take(k));
        assert(all_digits(s.take(k)));
        lemma_digits_value_nonneg(s.take(k));
        assert(is_digit(s[k]));
        assert(s.take(k + 1).last() == s[k]);
        assert(digit_val(s[k]) >= 0);
        assert(digits_value(s.take(k + 1)) >= digits_value(s.take(k)));
        lemma_digits_value_prefix(s, k + 1);
    } else {
        assert(s.take(k) =~= s);
    }
}

/// Parses `chars` as a 64-bit signed decimal integer: an optional `+`
/// or `-` sign followed by one or more digits, rejecting values out of
/// range. Returns `Some` exactly on the texts that [`is_i64_text`]
/// accepts.
pub fn parse_i64(chars: &Vec<char>) -> (r: Option<i64>)
    ensures
        r is Some <==> is_i64_text(chars@),
        r matches Some(v) ==> v as int == i64_text_value(chars@),
{
    let n = chars.len();
    let mut start: usize = 0;
    let mut neg = false;
    if n > 0 && (chars[0] == '+' || chars[0] == '-') {
        neg = chars[0] == '-';
        start = 1;
    }
    if start >= n {
        return None;
    }
    let ghost body = sign_stripped(chars@);
    proof {
        assert(body =~= chars@.skip(start as int));
    }
    let (ldiv, lmod): (u64, u64) = if neg {
        (922337203685477580u64, 8u64)
    } else {
        (922337203685477580u64, 7u64)
    };
    let ghost limit: int = 10 * ldiv + lmod;
    let mut acc: u64 = 0;
    let mut i: usize = start;
    while i < n
        invariant
            start <= i <= n,
            n == chars@.len(),
            start == if neg || (chars@.len() > 0 && chars@[0] == '+') {
                1int
            } else {
                0int
            },
            neg == has_minus_sign(chars@),
            body == sign_stripped(chars@),
            body =~= chars@.skip(start as int),
            ldiv == 922337203685477580u64,
            lmod == if neg {
                8u64
            } else {
                7u64
            },
            limit == 10 * ldiv + lmod,
            all_digits(body.take(i - start)),
            acc == digits_value(body.take(i - start)),
            acc <= limit,
        decreases n - i,
    {
        let c = chars[i];
        proof {
            assert(body[i - start] == chars@[i as int]);
            assert(body.take(i - start + 1).drop_last() =~= body.take(i - start));
        }
        if !digit_check(c) {
            proof {
                assert(!is_digit(body[i - start]));
            }
            return None;
        }
        let d: u64 = (c as u32 - 48) as u64;
        if acc > ldiv || (acc == ldiv && d > lmod) {
            proof {
                assert(digits_value(body.take(i - start + 1)) == acc * 10 + d);
                assert(acc * 10 + d > limit);
                if all_digits(body) {
                    lemma_digits_value_prefix(body, i - start + 1);
                }
            }
            return None;
        }
        proof {
            assert(acc * 10 + d <= limit);
        }
        acc = acc * 10 + d;
        i = i + 1;
    }
    proof {
        assert(body.take(n - start) =~= body);
        assert(is_i64_text(chars@));
    }
    if neg {
        if acc == 9223372036854775808u64 {
            Some(i64::MIN)
        } else {
            Some(-(acc as i64))
        }
    } else {
        Some(acc as i64)
    }
}

/// Spec: the first index at or after `i` that does not hold a digit
/// (or the end of the text).
pub open spec fn digits_end(s: Seq<char>, i: int) -> int
    decreases s.len() - i,
{
    if i < s.len() && is_digit(s[i]) {
        digits_end(s, i + 1)
    } else {
        i
    }
}

/// Spec: an exponent part filling the rest of the text from `j`: an
/// `e` or `E`, an optional sign, and at least one digit.
pub open spec fn is_exp_at(s: Seq<char>, j: int) -> bool {
    &&& j < s.len()
    &&& (s[j] == 'e' || s[j] == 'E')
    &&& {
        let k = if j + 1 < s.len() && (s[j + 1] == '+' || s[j + 1] == '-') {
            j + 2
        } else {
            j + 1
        };
        k < s.len() && digits_end(s, k) == s.len()
    }
}

/// Spec: an unsigned number as a float parse accepts it: digits with
/// an optional `.` and further digits, or `.` and digits, either
/// followed by an optional exponent.
pub open spec fn is_number_text(s: Seq<char>) -> bool {
    if s.len() == 0 {
        false
    } else if is_digit(s[0]) {
        let i = digits_end(s, 0);
        let j = if i < s.len() && s[i] == '.' {
            digits_end(s, i + 1)
        } else {
            i
        };
        j == s.len() || is_exp_at(s, j)
    } else if s[0] == '.' {
        let i = digits_end(s, 1);
        i > 1 && (i == s.len() || is_exp_at(s, i))
    } else {
        false
    }
}

/// Spec: `c` equals the (lower-case) letter `lower`, ignoring case.
pub open spec fn letter_ci(c: char, lower: char) -> bool {
    c == lower || c as u32 + 32 == lower as u32
}

/// Spec: the word `inf`, ignoring case.
pub open spec fn is_inf_text(t: Seq<char>) -> bool {
    t.len() == 3 && letter_ci(t[0], 'i') && letter_ci(t[1], 'n') && letter_ci(t[2], 'f')
}

/// Spec: the word `infinity`, ignoring case.
pub open spec fn is_infinity_text(t: Seq<char>) -> bool {
    &&& t.len() == 8
    &&& letter_ci(t[0], 'i')
    &&& letter_ci(t[1], 'n')
    &&& letter_ci(t[2], 'f')
    &&& letter_ci(t[3], 'i')
    &&& letter_ci(t[4], 'n')
    &&& letter_ci(t[5], 'i')
    &&& letter_ci(t[6], 't')
    &&& letter_ci(t[7], 'y')
}

/// Spec: the word `nan`, ignoring case.
pub open spec fn is_nan_text(t: Seq<char>) -> bool {
    t.len() == 3 && letter_ci(t[0], 'n') && letter_ci(t[1], 'a') && letter_ci(t[2], 'n')
}

/// Spec: `s` is a text a floating-point parse accepts: an optional
/// sign, then `inf`, `infinity`, `nan` (ignoring case) or a number.
pub open spec fn is_float_text(s: Seq<char>) -> bool {
    let t = sign_stripped(s);
    is_inf_text(t) || is_infinity_text(t) || is_nan_text(t) || is_number_text(t)
}

/// The copy of `v[from..to]`.
pub fn subvec(v: &Vec<char>, from: usize, to: usize) -> (r: Vec<char>)
    requires
        from <= to <= v@.len(),
    ensures
        r@ == v@.subrange(from as int, to as int),
{
    let mut r: Vec<char> = Vec::new();
    let mut i: usize = from;
    while i < to
        invariant
            from <= i <= to <= v@.len(),
            r@ == v@.subrange(from as int, i as int),
        decreases to - i,
    {
        r.push(v[i]);
        proof {
            assert(v@.subrange(from as int, i + 1) =~= v@.subrange(from as int, i as int).push(
                v@[i as int],
            ));
        }
        i = i + 1;
    }
    r
}

/// Does `v` hold the character `c`?
pub fn contains_char(v: &Vec<char>, c: char) -> (r: bool)
    ensures
        r == v@.contains(c),
{
    let mut i: usize = 0;
    while i < v.len()
        invariant
            i <= v@.len(),
            forall|k: int| 0 <= k < i ==> v@[k] != c,
        decreases v@.len() - i,
    {
        if v[i] == c {
            return true;
        }
        i = i + 1;
    }
    false
}

/// The first non-digit position at or after `from`.
pub fn scan_digits(chars: &Vec<char>, from: usize) -> (r: usize)
    requires
        from <= chars@.len(),
    ensures
        r as int == digits_end(chars@, from as int),
        from <= r <= chars@.len(),
{
    let mut i: usize = from;
    while i < chars.len()
        invariant
            from <= i <= chars@.len(),
            digits_end(chars@, from as int) == digits_end(chars@, i as int),
        decreases chars@.len() - i,
    {
        if !digit_check(chars[i]) {
            return i;
        }
        i = i + 1;
    }
    i
}

/// Does the rest of the text from `j` form an exponent part?
fn exp_check(chars: &Vec<char>, j: usize) -> (r: bool)
    requires
        j <= chars@.len(),
    ensures
        r == is_exp_at(chars@, j as int),
{
    if j >= chars.len() {
        return false;
    }
    let cj = chars[j];
    if !(cj == 'e' || cj == 'E') {
        return false;
    }
    let k: usize = if j + 1 < chars.len() && {
        let cs = chars[j + 1];
        cs == '+' || cs == '-'
    } {
        j + 2
    } else {
        j + 1
    };
    if k >= chars.len() {
        return false;
    }
    scan_digits(chars, k) == chars.len()
}

fn letter_ci_check(c: char, lower: char) -> (r: bool)
    ensures
        r == letter_ci(c, lower),
{
    c == lower || (c as u32) + 32 == lower as u32
}

/// Does `chars` read as a floating-point literal? Accepts exactly the
/// texts of [`is_float_text`]: optional sign, then `inf`, `infinity`,
/// `nan` (ignoring case) or a number with optional fraction and
/// exponent.
pub fn float_text_check(chars: &Vec<char>) -> (r: bool)
    ensures
        r == is_float_text(chars@),
{
    let start: usize = if chars.len() > 0 && {
        let c0 = chars[0];
        c0 == '+' || c0 == '-'
    } {
        1
    } else {
        0
    };
    let t = subvec(chars, start, chars.len());
    proof {
        assert(t@ =~= sign_stripped(chars@));
    }
    if t.len() == 3 && letter_ci_check(t[0], 'i') && letter_ci_check(t[1], 'n')
        && letter_ci_check(t[2], 'f') {
        return true;
    }
    if t.len() == 8 && letter_ci_check(t[0], 'i') && letter_ci_check(t[1], 'n')
        && letter_ci_check(t[2], 'f') && letter_ci_check(t[3], 'i') && letter_ci_check(t[4], 'n')
        && letter_ci_check(t[5], 'i') && letter_ci_check(t[6], 't') && letter_ci_check(t[7], 'y') {
        return true;
    }
    if t.len() == 3 && letter_ci_check(t[0], 'n') && letter_ci_check(t[1], 'a')
        && letter_ci_check(t[2], 'n') {
        return true;
    }
    if t.len() == 0 {
        return false;
    }
    if digit_check(t[0]) {
        let i = scan_digits(&t, 0);
        let j: usize = if i < t.len() && t[i] == '.' {
            scan_digits(&t, i + 1)
        } else {
            i
        };
        j == t.len() || exp_check(&t, j)
    } else if t[0] == '.' {
        let i = scan_digits(&t, 1);
        i > 1 && (i == t.len() || exp_check(&t, i))
    } else {
        false
    }
}

/// A string holding the single character `c`.
pub fn char_string(c: char) -> (r: String)
    ensures
        r@ == seq![c],
{
    let mut v: Vec<char> = Vec::new();
    v.push(c);
    proof {
        assert(v@ =~= seq![c]);
    }
    chars_to_string(&v)
}

/// Relies on `String::from_iter` (via `Iterator::collect`): the returned
/// string holds exactly the characters of `v`, in order.
#[verifier::external_body]
pub fn chars_to_string(v: &Vec<char>) -> (r: String)
    ensures
        r@ == v@,
{
    v.iter().collect()
}

} // verus!
