//! Textual coordinate-pair parsing: a string of the form `<left><sep><right>`
//! is split at the first occurrence of the separator and both halves are
//! handed to a caller-supplied parser for the target numeric type.

use vstd::prelude::*;
use vstd::string::StrSliceExecFns;

verus! {

/// `i` is the position of the first occurrence of `sep` in `s`.
pub open spec fn is_first_sep(s: Seq<char>, sep: char, i: int) -> bool {
    &&& 0 <= i < s.len()
    &&& s[i] == sep
    &&& forall|j: int| 0 <= j < i ==> s[j] != sep
}

/// `sep` occurs somewhere in `s`.
pub open spec fn has_sep(s: Seq<char>, sep: char) -> bool {
    exists|i: int| 0 <= i < s.len() && #[trigger] s[i] == sep
}

/// The characters strictly before position `i`.
pub open spec fn left_half(s: Seq<char>, i: int) -> Seq<char> {
    s.subrange(0, i)
}

/// The characters strictly after position `i`.
pub open spec fn right_half(s: Seq<char>, i: int) -> Seq<char> {
    s.subrange(i + 1, s.len() as int)
}

/// The pair `(a, b)` is a possible outcome of parsing the two halves of `s`
/// around the first occurrence of `sep`, both halves being non-empty.
pub open spec fn pair_parsed_from<T, F: Fn(&str) -> Option<T>>(
    parse: F,
    s: Seq<char>,
    sep: char,
    a: T,
    b: T,
) -> bool {
    exists|i: int, l: &str, r: &str|
        {
            &&& is_first_sep(s, sep, i)
            &&& 0 < i
            &&& i + 1 < s.len()
            &&& l@ == left_half(s, i)
            &&& r@ == right_half(s, i)
            &&& call_ensures(parse, (l,), Some(a))
            &&& call_ensures(parse, (r,), Some(b))
        }
}

/// The caller-supplied parser can return `None` on one of the two halves of
/// `s` around the first occurrence of `sep`.
pub open spec fn side_failed<T, F: Fn(&str) -> Option<T>>(parse: F, s: Seq<char>, sep: char) -> bool {
    exists|i: int, l: &str, r: &str|
        {
            &&& is_first_sep(s, sep, i)
            &&& l@ == left_half(s, i)
            &&& r@ == right_half(s, i)
            &&& (call_ensures(parse, (l,), None::<T>) || call_ensures(parse, (r,), None::<T>))
        }
}

/// `c` is a decimal digit.
pub open spec fn is_digit(c: char) -> bool {
    '0' as int <= c as int <= '9' as int
}

/// The numeric value of the decimal digit `c`.
pub open spec fn digit_val(c: char) -> int {
    c as int - '0' as int
}

/// Every character of `s` is a decimal digit.
pub open spec fn all_digits(s: Seq<char>) -> bool {
    forall|j: int| 0 <= j < s.len() ==> is_digit(#[trigger] s[j])
}

/// The value of `s` read as a decimal numeral.
pub open spec fn digits_value(s: Seq<char>) -> int
    decreases s.len(),
{
    if s.len() == 0 {
        0
    } else {
        digits_value(s.drop_last()) * 10 + digit_val(s.last())
    }
}

proof fn lemma_digits_value_nonneg(s: Seq<char>)
    requires
        all_digits(s),
    ensures
        digits_value(s) >= 0,
    decreases s.len(),
{
    if s.len() > 0 {
        assert(all_digits(s.drop_last()));
        lemma_digits_value_nonneg(s.drop_last());
        assert(digits_value(s.drop_last()) * 10 >= 0) by (nonlinear_arith)
            requires
                digits_value(s.drop_last()) >= 0,
        ;
        assert(is_digit(s[s.len() - 1]));
    }
}

proof fn lemma_digits_value_prefix_le(s: Seq<char>, k: int)
    requires
        all_digits(s),
        0 <= k <= s.len(),
    ensures
        digits_value(s.subrange(0, k)) <= digits_value(s),
    decreases s.len() - k,
{
    if k == s.len() {
        assert(s.subrange(0, k) =~= s);
    } else {
        let shorter = s.subrange(0, k);
        let longer = s.subrange(0, k + 1);
        assert(longer.drop_last() =~= shorter);
        assert(longer.last() == s[k]);
        assert(all_digits(shorter));
        lemma_digits_value_nonneg(shorter);
        assert(is_digit(s[k]));
        assert(digits_value(shorter) <= digits_value(shorter) * 10) by (nonlinear_arith)
            requires
                digits_value(shorter) >= 0,
        ;
        lemma_digits_value_prefix_le(s, k + 1);
    }
}

/// Parse `s` as an unsigned decimal numeral: defined exactly when `s` is
/// non-empty, consists of digits alone, and its value fits the result type.
pub fn parse_usize(s: &str) -> (r: Option<usize>)
    ensures
        r is Some <==> (s@.len() > 0 && all_digits(s@) && digits_value(s@) <= usize::MAX),
        (r matches Some(v) ==> v == digits_value(s@)),
{
    let n = s.unicode_len();
    if n == 0 {
        return None;
    }
    let mut acc: usize = 0;
    let mut i: usize = 0;
    while i < n
        invariant
            n == s@.len(),
            0 < n <= usize::MAX,
            i <= n,
            all_digits(s@.subrange(0, i as int)),
            acc == digits_value(s@.subrange(0, i as int)),
        decreases n - i,
    {
        let c = s.get_char(i);
        let u = c as u32;
        if u < '0' as u32 || u > '9' as u32 {
            proof {
                assert(!is_digit(s@[i as int]));
            }
            return None;
        }
        let d = (u - '0' as u32) as usize;
        let ghost pre = s@.subrange(0, i as int);
        let ghost cur = s@.subrange(0, i as int + 1);
        proof {
            assert(cur.drop_last() =~= pre);
            assert(cur.last() == s@[i as int]);
            assert(digit_val(s@[i as int]) == d);
            assert(all_digits(cur));
        }
        let next = match acc.checked_mul(10) {
            Some(m) => m.checked_add(d),
            None => None,
        };
        match next {
            None => {
                proof {
                    assert(digits_value(cur) > usize::MAX);
                    if all_digits(s@) {
                        lemma_digits_value_prefix_le(s@, i as int + 1);
                    }
                }
                return None;
            },
            Some(v) => {
                acc = v;
            },
        }
        i += 1;
    }
    proof {
        assert(s@.subrange(0, n as int) =~= s@);
    }
    Some(acc)
}

/// Split `s` at the first occurrence of `separator` into the part before and
/// the part after it. The split exists exactly when the separator occurs and
/// neither side is empty.
pub fn split_pair<'a>(s: &'a str, separator: char) -> (r: Option<(&'a str, &'a str)>)
    ensures
        !has_sep(s@, separator) ==> r is None,
        forall|i: int|
            #[trigger] is_first_sep(s@, separator, i) ==> (r is Some <==> 0 < i && i + 1 < s@.len()),
        (r matches Some(p) ==> exists|i: int|
            {
                &&& #[trigger] is_first_sep(s@, separator, i)
                &&& 0 < i
                &&& i + 1 < s@.len()
                &&& p.0@ == left_half(s@, i)
                &&& p.1@ == right_half(s@, i)
            }),
{
    let n = s.unicode_len();
    let mut idx: usize = 0;
    while idx < n
        invariant
            n == s@.len(),
            idx <= n,
            forall|j: int| 0 <= j < idx ==> s@[j] != separator,
        decreases n - idx,
    {
        if s.get_char(idx) == separator {
            proof {
                assert(is_first_sep(s@, separator, idx as int));
            }
            if idx == 0 || idx + 1 == n {
                return None;
            }
            let left = s.substring_char(0, idx);
            let right = s.substring_char(idx + 1, n);
            return Some((left, right));
        }
        idx += 1;
    }
    None
}

/// Parse `s` as a coordinate pair of the form `<left><separator><right>`,
/// such as `"400x600"` or `"1.0,0.5"`. Both halves are parsed by the
/// caller-supplied `parse`; the result is present only when the separator
/// occurs, neither half is empty, and both halves parse.
pub fn parse_pair<T, F: Fn(&str) -> Option<T>>(s: &str, separator: char, parse: F) -> (r: Option<
    (T, T),
>)
    requires
        forall|t: &str| #[trigger] call_requires(parse, (t,)),
    ensures
        !has_sep(s@, separator) ==> r is None,
        forall|i: int|
            #[trigger] is_first_sep(s@, separator, i) && (i == 0 || i + 1 == s@.len()) ==> r is None,
        (r matches Some((a, b)) ==> pair_parsed_from(parse, s@, separator, a, b)),
        r is None && (exists|i: int|
            #[trigger] is_first_sep(s@, separator, i) && 0 < i && i + 1 < s@.len())
            ==> side_failed::<T, F>(parse, s@, separator),
{
    match split_pair(s, separator) {
        None => None,
        Some((left, right)) => {
            match parse(left) {
                None => None,
                Some(a) => match parse(right) {
                    None => None,
                    Some(b) => Some((a, b)),
                },
            }
        },
    }
}

/// Parse a comma-separated pair of values as a complex number, the left half
/// being the real part and the right half the imaginary part.
pub fn parse_complex<T, F: Fn(&str) -> Option<T>>(s: &str, parse: F) -> (r: Option<num::Complex<T>>)
    requires
        forall|t: &str| #[trigger] call_requires(parse, (t,)),
    ensures
        !has_sep(s@, ',') ==> r is None,
        forall|i: int|
            #[trigger] is_first_sep(s@, ',', i) && (i == 0 || i + 1 == s@.len()) ==> r is None,
        (r matches Some(c) ==> pair_parsed_from(parse, s@, ',', c.re, c.im)),
        r is None && (exists|i: int| #[trigger] is_first_sep(s@, ',', i) && 0 < i && i + 1 < s@.len())
            ==> side_failed::<T, F>(parse, s@, ','),
{
    match parse_pair(s, ',', parse) {
        Some((re, im)) => Some(num::Complex { re, im }),
        None => None,
    }
}

} // verus!
