//! Text helpers of the schema loader: equality, decimal numbers and the
//! capitalised form of names.

use vstd::prelude::*;

verus! {

/// Whether two strings hold the same text.
pub fn same_text(a: &str, b: &str) -> (r: bool)
    ensures
        r == (a@ == b@),
{
    let left = a.to_owned();
    let right = b.to_owned();
    left == right
}

/// The characters of a string.
pub fn chars_of(s: &str) -> (chars: Vec<char>)
    ensures
        chars@ == s@,
{
    let n: usize = s.unicode_len();
    let mut chars: Vec<char> = Vec::new();
    let mut i: usize = 0;
    while i < n
        invariant
            i <= n == s@.len(),
            chars@ == s@.take(i as int),
        decreases n - i,
    {
        chars.push(s.get_char(i));
        i += 1;
        assert(chars@ =~= s@.take(i as int));
    }
    assert(s@.take(n as int) =~= s@);
    chars
}

/// A decimal digit.
pub open spec fn is_digit(c: char) -> bool {
    48 <= c as u32 <= 57
}

/// Every character is a decimal digit.
pub open spec fn all_digits(s: Seq<char>) -> bool {
    forall|i: int| 0 <= i < s.len() ==> is_digit(#[trigger] s[i])
}

/// The number that decimal digits spell.
pub open spec fn digits_value(s: Seq<char>) -> nat
    decreases s.len(),
{
    if s.len() == 0 {
        0
    } else {
        digits_value(s.drop_last()) * 10 + (s.last() as u32 - 48) as nat
    }
}

/// The number that `s` spells, when `s` is one or more decimal digits that
/// spell a number up to `max`.
pub open spec fn decimal_of(s: Seq<char>, max: nat) -> Option<nat> {
    if s.len() > 0 && all_digits(s) && digits_value(s) <= max {
        Some(digits_value(s))
    } else {
        None
    }
}

/// An unsigned number up to `max`: decimal digits, with `+` allowed in front.
pub open spec fn unsigned_of(s: Seq<char>, max: nat) -> Option<nat> {
    if s.len() > 0 && s[0] == '+' {
        decimal_of(s.skip(1), max)
    } else {
        decimal_of(s, max)
    }
}

/// A signed 32-bit number: decimal digits, with `+` or `-` allowed in front.
pub open spec fn signed_of(s: Seq<char>) -> Option<int> {
    if s.len() > 0 && s[0] == '-' {
        match decimal_of(s.skip(1), 0x8000_0000) {
            Some(n) => Some(-(n as int)),
            None => None,
        }
    } else {
        match unsigned_of(s, 0x7fff_ffff) {
            Some(n) => Some(n as int),
            None => None,
        }
    }
}

/// What a prefix of digits spells is at most what all of them spell.
pub proof fn lemma_digits_monotone(s: Seq<char>, k: int)
    requires
        0 <= k <= s.len(),
        all_digits(s),
    ensures
        digits_value(s.take(k)) <= digits_value(s),
    decreases s.len() - k,
{
    if k < s.len() {
        lemma_digits_monotone(s, k + 1);
        assert(s.take(k + 1).drop_last() =~= s.take(k));
        assert(s.take(k + 1).last() == s[k]);
        assert(is_digit(s[k]));
    } else {
        assert(s.take(k) =~= s);
    }
}

/// Reads the characters from `from` on as a decimal number up to `max`.
pub fn parse_decimal(chars: &Vec<char>, from: usize, max: u64) -> (r: Option<u64>)
    requires
        from <= chars.len(),
    ensures
        match r {
            Some(n) => decimal_of(chars@.skip(from as int), max as nat) == Some(n as nat),
            None => decimal_of(chars@.skip(from as int), max as nat) is None,
        },
{
    let ghost sub = chars@.skip(from as int);
    let n: usize = chars.len() - from;
    if n == 0 {
        return None;
    }
    let mut acc: u64 = 0;
    let mut i: usize = 0;
    assert(sub.take(0) =~= Seq::<char>::empty());
    while i < n
        invariant
            i <= n,
            n == sub.len(),
            from + n == chars.len(),
            sub == chars@.skip(from as int),
            acc == digits_value(sub.take(i as int)),
            acc <= max,
            forall|k: int| 0 <= k < i ==> is_digit(#[trigger] sub[k]),
        decreases n - i,
    {
        let c: char = chars[from + i];
        assert(c == sub[i as int]);
        let code: u32 = c as u32;
        if code < 48 || code > 57 {
            assert(!is_digit(sub[i as int]));
            return None;
        }
        let digit: u64 = (code - 48) as u64;
        proof {
            assert(sub.take(i + 1).drop_last() =~= sub.take(i as int));
            assert(sub.take(i + 1).last() == sub[i as int]);
            if all_digits(sub) {
                lemma_digits_monotone(sub, i + 1);
            }
        }
        if acc > max / 10 {
            assert(acc * 10 > max) by (nonlinear_arith)
                requires
                    acc > max / 10,
            ;
            return None;
        }
        assert(acc * 10 <= max) by (nonlinear_arith)
            requires
                acc <= max / 10,
        ;
        let shifted: u64 = acc * 10;
        if digit > max - shifted {
            return None;
        }
        acc = shifted + digit;
        i += 1;
    }
    assert(sub.take(n as int) =~= sub);
    Some(acc)
}

/// Reads a string as an unsigned number up to `max`.
pub fn parse_unsigned(s: &str, max: u64) -> (r: Option<u64>)
    ensures
        match r {
            Some(n) => unsigned_of(s@, max as nat) == Some(n as nat),
            None => unsigned_of(s@, max as nat) is None,
        },
{
    let chars = chars_of(s);
    if chars.len() > 0 && chars[0] == '+' {
        parse_decimal(&chars, 1, max)
    } else {
        assert(chars@.skip(0) =~= chars@);
        parse_decimal(&chars, 0, max)
    }
}

/// Reads a string as a signed 32-bit number.
pub fn parse_signed(s: &str) -> (r: Option<i32>)
    ensures
        match r {
            Some(n) => signed_of(s@) == Some(n as int),
            None => signed_of(s@) is None,
        },
{
    let chars = chars_of(s);
    if chars.len() > 0 && chars[0] == '-' {
        match parse_decimal(&chars, 1, 0x8000_0000) {
            Some(n) => {
                let value: i64 = 0 - (n as i64);
                Some(value as i32)
            },
            None => None,
        }
    } else if chars.len() > 0 && chars[0] == '+' {
        match parse_decimal(&chars, 1, 0x7fff_ffff) {
            Some(n) => Some(n as i32),
            None => None,
        }
    } else {
        assert(chars@.skip(0) =~= chars@);
        match parse_decimal(&chars, 0, 0x7fff_ffff) {
            Some(n) => Some(n as i32),
            None => None,
        }
    }
}

/// The small letters, in order.
pub open spec fn small_letters() -> Seq<char> {
    "abcdefghijklmnopqrstuvwxyz"@
}

/// The capital letters, in order.
pub open spec fn capital_letters() -> Seq<char> {
    "ABCDEFGHIJKLMNOPQRSTUVWXYZ"@
}

/// The small form of a capital letter; any other character unchanged.
pub open spec fn to_small(c: char) -> char {
    if 65 <= c as u32 <= 90 {
        small_letters()[c as u32 - 65]
    } else {
        c
    }
}

/// The capital form of a small letter; any other character unchanged.
pub open spec fn to_capital(c: char) -> char {
    if 97 <= c as u32 <= 122 {
        capital_letters()[c as u32 - 97]
    } else {
        c
    }
}

/// A name without an empty part: it is not empty, and no underscore stands
/// at its start, at its end or directly behind another.
pub open spec fn whole_parts(s: Seq<char>) -> bool {
    &&& s.len() > 0
    &&& s[0] != '_'
    &&& s[s.len() - 1] != '_'
    &&& forall|i: int| 0 < i < s.len() ==> !(s[i - 1] == '_' && #[trigger] s[i] == '_')
}

/// A name that can be capitalised: ASCII only, and between its underscores
/// no empty part.
pub open spec fn capitalisable(s: Seq<char>) -> bool {
    &&& whole_parts(s)
    &&& forall|i: int| 0 <= i < s.len() ==> (#[trigger] s[i]) as u32 <= 127
}

/// Whether a name has no empty part between its underscores.
pub fn has_whole_parts(s: &str) -> (r: bool)
    ensures
        r == whole_parts(s@),
{
    let n: usize = s.unicode_len();
    if n == 0 {
        return false;
    }
    let mut start: bool = true;
    let mut i: usize = 0;
    while i < n
        invariant
            i <= n == s@.len(),
            n > 0,
            start == (i == 0 || s@[i - 1] == '_'),
            i > 0 ==> s@[0] != '_',
            i == n ==> s@[n - 1] != '_',
            forall|k: int| 0 < k < i ==> !(s@[k - 1] == '_' && #[trigger] s@[k] == '_'),
        decreases n - i,
    {
        let c: char = s.get_char(i);
        if c == '_' && (start || i == n - 1) {
            return false;
        }
        start = c == '_';
        i += 1;
    }
    true
}

/// The parts between underscores, each with a capital first letter and
/// small letters after it, joined without the underscores.
pub open spec fn capitalised(s: Seq<char>) -> Seq<char>
    decreases s.len(),
{
    if s.len() == 0 {
        Seq::empty()
    } else {
        let front = capitalised(s.drop_last());
        let c = s.last();
        if c == '_' {
            front
        } else if s.len() == 1 || s[s.len() - 2] == '_' {
            front.push(to_capital(c))
        } else {
            front.push(to_small(c))
        }
    }
}

/// The capitalised form of a name, when it has one.
pub open spec fn camel_case_of(s: Seq<char>) -> Option<Seq<char>> {
    if capitalisable(s) {
        Some(capitalised(s))
    } else {
        None
    }
}

/// Turns `SOME_NAME` into `SomeName`. Gives nothing for a name with a
/// character outside ASCII or with an empty part between underscores.
pub fn camel_case(s: &str) -> (r: Option<String>)
    ensures
        match r {
            Some(name) => camel_case_of(s@) == Some(name@),
            None => camel_case_of(s@) is None,
        },
{
    let n: usize = s.unicode_len();
    if n == 0 {
        return None;
    }
    let small = "abcdefghijklmnopqrstuvwxyz";
    let capital = "ABCDEFGHIJKLMNOPQRSTUVWXYZ";
    proof {
        reveal_strlit("abcdefghijklmnopqrstuvwxyz");
        reveal_strlit("ABCDEFGHIJKLMNOPQRSTUVWXYZ");
    }
    let mut out = String::new();
    let mut start: bool = true;
    let mut i: usize = 0;
    assert(s@.take(0) =~= Seq::<char>::empty());
    while i < n
        invariant
            i <= n == s@.len(),
            n > 0,
            small@ == small_letters(),
            capital@ == capital_letters(),
            small@.len() == 26,
            capital@.len() == 26,
            out@ == capitalised(s@.take(i as int)),
            start == (i == 0 || s@[i - 1] == '_'),
            i > 0 ==> s@[0] != '_',
            i == n ==> s@[n - 1] != '_',
            forall|k: int| 0 <= k < i ==> (#[trigger] s@[k]) as u32 <= 127,
            forall|k: int| 0 < k < i ==> !(s@[k - 1] == '_' && #[trigger] s@[k] == '_'),
        decreases n - i,
    {
        let c: char = s.get_char(i);
        let code: u32 = c as u32;
        proof {
            assert(s@.take(i + 1).drop_last() =~= s@.take(i as int));
            assert(s@.take(i + 1).last() == c);
            if i > 0 {
                assert(s@.take(i + 1)[i - 1] == s@[i - 1]);
            }
        }
        if code > 127 {
            return None;
        }
        if c == '_' {
            if start || i == n - 1 {
                return None;
            }
        } else if start && 97 <= code && code <= 122 {
            let k: usize = (code - 97) as usize;
            out.append(capital.substring_char(k, k + 1));
            assert(capital@.subrange(k as int, k + 1) =~= seq![capital@[k as int]]);
            assert(out@ =~= capitalised(s@.take(i + 1)));
        } else if !start && 65 <= code && code <= 90 {
            let k: usize = (code - 65) as usize;
            out.append(small.substring_char(k, k + 1));
            assert(small@.subrange(k as int, k + 1) =~= seq![small@[k as int]]);
            assert(out@ =~= capitalised(s@.take(i + 1)));
        } else {
            out.append(s.substring_char(i, i + 1));
            assert(s@.subrange(i as int, i + 1) =~= seq![c]);
            assert(out@ =~= capitalised(s@.take(i + 1)));
        }
        start = c == '_';
        i += 1;
    }
    assert(s@.take(n as int) =~= s@);
    Some(out)
}

/// The decimal digits, in order.
pub open spec fn digit_chars() -> Seq<char> {
    "0123456789"@
}

/// The decimal spelling of a number, without leading zeros.
pub open spec fn decimal_digits(n: nat) -> Seq<char>
    decreases n,
{
    if n < 10 {
        seq![digit_chars()[n as int]]
    } else {
        decimal_digits(n / 10).push(digit_chars()[(n % 10) as int])
    }
}

/// The decimal spelling of a number.
pub fn decimal_text(n: usize) -> (text: String)
    ensures
        text@ == decimal_digits(n as nat),
    decreases n,
{
    let digits = "0123456789";
    proof {
        reveal_strlit("0123456789");
    }
    if n < 10 {
        let text = digits.substring_char(n, n + 1).to_owned();
        assert(text@ =~= seq![digit_chars()[n as int]]);
        text
    } else {
        let mut text = decimal_text(n / 10);
        let d: usize = n % 10;
        text.append(digits.substring_char(d, d + 1));
        assert(text@ =~= decimal_digits((n / 10) as nat).push(digit_chars()[d as int]));
        text
    }
}

} // verus!
