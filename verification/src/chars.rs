//! Conversions between strings and their characters, and the few std string
//! functions the library relies on.

use vstd::prelude::*;

verus! {

broadcast use vstd::string::group_string_axioms;

/// The characters of a string, in order.
pub fn chars_of(s: &str) -> (res: Vec<char>)
    ensures
        res@ == s@,
{
    let mut res: Vec<char> = Vec::new();
    for c in it: s.chars()
        invariant
            res@ == it.seq().take(it.index() as int),
            it.seq() == s@,
    {
        res.push(c);
    }
    res
}


/// A string of the given characters.
///
/// Trusted: `String::from_iter` over `char`s builds the string of exactly those
/// characters, in order.
#[verifier::external_body]
pub(crate) fn string_of(chars: &[char]) -> (res: String)
    ensures
        res@ == chars@,
{
    String::from_iter(chars.iter())
}

/// The Unicode lowercase mapping of a string, as `str::to_lowercase` computes it.
pub uninterp spec fn lowercase(s: Seq<char>) -> Seq<char>;

/// Trusted: `str::to_lowercase` returns the lowercase equivalent of the string, a
/// function of the string alone, named [`lowercase`]; nothing more is claimed of it.
#[verifier::external_body]
pub(crate) fn to_lowercase(s: &str) -> (res: String)
    ensures
        res@ == lowercase(s@),
{
    s.to_lowercase()
}

/// The character is an ASCII decimal digit.
pub open spec fn is_digit(c: char) -> bool {
    '0' <= c && c <= '9'
}

/// The value of a run of decimal digits.
pub open spec fn digits_value(digits: Seq<char>) -> int
    decreases digits.len(),
{
    if digits.len() == 0 {
        0
    } else {
        10 * digits_value(digits.drop_last()) + (digits.last() as int - '0' as int)
    }
}

/// Every character is an ASCII decimal digit.
pub open spec fn all_digits(s: Seq<char>) -> bool {
    forall|i: int| 0 <= i < s.len() ==> is_digit(#[trigger] s[i])
}

/// The integer a string spells: an optional `+` or `-` sign followed by one or more
/// ASCII digits, and nothing else.
pub open spec fn decimal_value(s: Seq<char>) -> Option<int> {
    let signed = s.len() > 0 && (s[0] == '+' || s[0] == '-');
    let digits = if signed { s.drop_first() } else { s };
    if digits.len() > 0 && all_digits(digits) {
        if signed && s[0] == '-' {
            Some(-digits_value(digits))
        } else {
            Some(digits_value(digits))
        }
    } else {
        None
    }
}

/// The `i128` a string spells, if it spells one within range.
pub open spec fn parsed_i128(s: Seq<char>) -> Option<i128> {
    match decimal_value(s) {
        Some(v) => if i128::MIN <= v <= i128::MAX {
            Some(v as i128)
        } else {
            None
        },
        None => None,
    }
}

/// A string whose digits include something else spells no integer.
proof fn lemma_not_decimal(s: Seq<char>, j: int)
    requires
        ({
            let digits = if s.len() > 0 && (s[0] == '+' || s[0] == '-') { s.drop_first() } else { s };
            0 <= j < digits.len() && !is_digit(digits[j])
        }),
    ensures
        decimal_value(s) is None,
{
    let signed = s.len() > 0 && (s[0] == '+' || s[0] == '-');
    let digits = if signed { s.drop_first() } else { s };
    assert(!all_digits(digits));
}

/// A run of digits is worth no less than any of its prefixes.
proof fn lemma_digits_prefix(digits: Seq<char>, i: int)
    requires
        0 <= i <= digits.len(),
        forall|k: int| 0 <= k < digits.len() ==> is_digit(#[trigger] digits[k]),
    ensures
        0 <= digits_value(digits.take(i)) <= digits_value(digits),
    decreases digits.len(),
{
    if i < digits.len() {
        let rest = digits.drop_last();
        assert forall|k: int| 0 <= k < rest.len() implies is_digit(#[trigger] rest[k]) by {
            assert(rest[k] == digits[k]);
        }
        lemma_digits_prefix(rest, i);
        assert(rest.take(i) =~= digits.take(i));
        lemma_digits_prefix(rest, rest.len() as int);
        assert(rest.take(rest.len() as int) =~= rest);
        assert(is_digit(digits[digits.len() - 1]));
    } else {
        assert(digits.take(i) =~= digits);
        if digits.len() > 0 {
            lemma_digits_prefix(digits.drop_last(), digits.len() - 1);
            assert(digits.drop_last().take(digits.len() - 1) =~= digits.drop_last());
            assert forall|k: int| 0 <= k < digits.drop_last().len() implies is_digit(#[trigger] digits.drop_last()[k]) by {
                assert(digits.drop_last()[k] == digits[k]);
            }
            assert(is_digit(digits[digits.len() - 1]));
        }
    }
}

/// Parses a decimal `i128`: an optional `+` or `-` followed by ASCII digits whose
/// value fits, as `str::parse::<i128>` accepts.
pub fn parse_i128(s: &str) -> (res: Option<i128>)
    ensures
        res == parsed_i128(s@),
{
    let chars = chars_of(s);
    let n = chars.len();
    let signed = n > 0 && (chars[0] == '+' || chars[0] == '-');
    let negative = signed && chars[0] == '-';
    let start: usize = if signed { 1 } else { 0 };
    let ghost sg = s@.len() > 0 && (s@[0] == '+' || s@[0] == '-');
    let ghost digits = if sg { s@.drop_first() } else { s@ };
    assert(signed == sg);
    proof {
        assert(digits =~= chars@.subrange(start as int, n as int));
    }
    if start == n {
        return None;
    }
    let mut acc: i128 = 0;
    let mut i = start;
    while i < n
        invariant
            start <= i <= n,
            n == chars@.len(),
            chars@ == s@,
            start == (if signed { 1int } else { 0int }),
            signed == (s@.len() > 0 && (s@[0] == '+' || s@[0] == '-')),
            negative == (signed && s@[0] == '-'),
            digits == chars@.subrange(start as int, n as int),
            digits == (if s@.len() > 0 && (s@[0] == '+' || s@[0] == '-') { s@.drop_first() } else { s@ }),
            forall|k: int| 0 <= k < i - start ==> is_digit(#[trigger] digits[k]),
            acc == (if negative { -digits_value(digits.take(i - start)) } else { digits_value(digits.take(i - start)) }),
        decreases n - i,
    {
        let c = chars[i];
        let ghost j = i - start;
        assert(digits[j] == c);
        if !('0' <= c && c <= '9') {
            proof {
                assert(!is_digit(digits[j as int]));
                lemma_not_decimal(s@, j as int);
            }
            return None;
        }
        let d = (c as u32 - 48u32) as i128;
        proof {
            assert(digits.take(j + 1).drop_last() =~= digits.take(j));
            assert(digits.take(j + 1).last() == c);
            let t = digits.take(j);
            assert forall|k: int| 0 <= k < t.len() implies is_digit(#[trigger] t[k]) by {
                assert(t[k] == digits[k]);
            }
            lemma_digits_prefix(t, 0);
            assert(digits_value(t) >= 0);
        }
        let next = if negative {
            match acc.checked_mul(10) {
                Some(m) => m.checked_sub(d),
                None => None,
            }
        } else {
            match acc.checked_mul(10) {
                Some(m) => m.checked_add(d),
                None => None,
            }
        };
        match next {
            Some(v) => {
                acc = v;
            },
            None => {
                proof {
                    let part = digits_value(digits.take(j + 1));
                    assert(d == c as int - '0' as int);
                    assert(part == 10 * digits_value(digits.take(j)) + d);
                    if negative {
                        assert(-part < i128::MIN);
                    } else {
                        assert(part > i128::MAX);
                    }
                    if forall|k: int| 0 <= k < digits.len() ==> is_digit(#[trigger] digits[k]) {
                        lemma_digits_prefix(digits, j + 1);
                        let v = digits_value(digits);
                        assert(decimal_value(s@) == Some(if negative { -v } else { v }));
                    } else {
                        let k = choose|k: int| 0 <= k < digits.len() && !is_digit(#[trigger] digits[k]);
                        lemma_not_decimal(s@, k);
                    }
                }
                return None;
            },
        }
        i = i + 1;
    }
    proof {
        assert(digits.take(n - start) =~= digits);
    }
    Some(acc)
}


/// The ASCII digit of a value below ten.
pub open spec fn digit_char(d: nat) -> char {
    (('0' as nat) + d) as char
}

/// The decimal digits of a number, most significant first, with no leading zeros.
pub open spec fn decimal(n: nat) -> Seq<char>
    decreases n,
{
    if n < 10 {
        seq![digit_char(n)]
    } else {
        decimal(n / 10).push(digit_char(n % 10))
    }
}

/// Appends the decimal digits of a number.
fn push_decimal(n: u64, out: &mut Vec<char>)
    ensures
        final(out)@ == old(out)@ + decimal(n as nat),
    decreases n,
{
    if n >= 10 {
        push_decimal(n / 10, out);
    }
    let d: u8 = (n % 10) as u8;
    out.push((48u8 + d) as char);
    proof {
        assert(decimal(n as nat) == if n < 10 { seq![digit_char(n as nat)] } else { decimal((n / 10) as nat).push(digit_char((n % 10) as nat)) });
    }
}

/// The decimal form of a number.
pub fn decimal_string(n: u64) -> (res: String)
    ensures
        res@ == decimal(n as nat),
{
    let mut digits: Vec<char> = Vec::new();
    push_decimal(n, &mut digits);
    proof {
        assert(digits@ =~= decimal(n as nat));
    }
    string_of(digits.as_slice())
}


/// The lowercase hexadecimal digit of a value below sixteen.
pub open spec fn hex_char(d: nat) -> char {
    if d < 10 {
        (('0' as nat) + d) as char
    } else {
        (('a' as nat) + d - 10) as char
    }
}

/// The last `width` hexadecimal digits of a number, most significant first, padded
/// with zeros.
pub open spec fn hex_digits(n: nat, width: nat) -> Seq<char>
    decreases width,
{
    if width == 0 {
        Seq::empty()
    } else {
        hex_digits(n / 16, (width - 1) as nat).push(hex_char(n % 16))
    }
}

/// The hexadecimal digits have the width asked for, each one of `0-9a-f`.
pub proof fn lemma_hex_digits(n: nat, width: nat)
    ensures
        hex_digits(n, width).len() == width,
        forall|i: int| 0 <= i < width ==> {
            let c = #[trigger] hex_digits(n, width)[i];
            ('0' <= c <= '9') || ('a' <= c <= 'f')
        },
    decreases width,
{
    if width > 0 {
        lemma_hex_digits(n / 16, (width - 1) as nat);
        assert forall|i: int| 0 <= i < width implies {
            let c = #[trigger] hex_digits(n, width)[i];
            ('0' <= c <= '9') || ('a' <= c <= 'f')
        } by {
            if i < width - 1 {
                assert(hex_digits(n, width)[i] == hex_digits(n / 16, (width - 1) as nat)[i]);
            }
        }
    }
}

/// Appends the last `width` hexadecimal digits of a number.
fn push_hex(n: u128, width: u32, out: &mut Vec<char>)
    ensures
        final(out)@ == old(out)@ + hex_digits(n as nat, width as nat),
    decreases width,
{
    if width > 0 {
        push_hex(n / 16, width - 1, out);
        let d: u8 = (n % 16) as u8;
        if d < 10 {
            out.push((48u8 + d) as char);
        } else {
            out.push((87u8 + d) as char);
        }
        proof {
            assert(hex_digits(n as nat, width as nat) == hex_digits((n / 16) as nat, (width - 1) as nat).push(hex_char((n % 16) as nat)));
        }
    }
}

/// The last `width` hexadecimal digits of a number, lowercase, padded with zeros.
pub fn hex_string(n: u128, width: u32) -> (res: String)
    ensures
        res@ == hex_digits(n as nat, width as nat),
{
    let mut digits: Vec<char> = Vec::new();
    push_hex(n, width, &mut digits);
    proof {
        assert(digits@ =~= hex_digits(n as nat, width as nat));
    }
    string_of(digits.as_slice())
}

} // verus!
