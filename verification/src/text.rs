//! Verified text utilities: decimal rendering of player and round numbers,
//! whitespace trimming, and parsing of ballot text.

use vstd::prelude::*;

verus! {

/// The character for a single decimal digit value.
pub open spec fn digit_char(d: int) -> char {
    if d == 0 {
        '0'
    } else if d == 1 {
        '1'
    } else if d == 2 {
        '2'
    } else if d == 3 {
        '3'
    } else if d == 4 {
        '4'
    } else if d == 5 {
        '5'
    } else if d == 6 {
        '6'
    } else if d == 7 {
        '7'
    } else if d == 8 {
        '8'
    } else {
        '9'
    }
}

/// The decimal rendering of a non-negative integer, without leading zeros.
pub open spec fn dec_str(n: int) -> Seq<char>
    recommends
        n >= 0,
    decreases n,
{
    if n < 10 {
        seq![digit_char(n)]
    } else {
        dec_str(n / 10) + seq![digit_char(n % 10)]
    }
}

/// The digits `ds` (least significant first) read as characters from the
/// most significant end.
pub open spec fn rev_digit_chars(ds: Seq<u8>) -> Seq<char> {
    Seq::new(ds.len(), |i: int| digit_char(ds[ds.len() - 1 - i] as int))
}

proof fn lemma_rev_digit_chars_push(ds: Seq<u8>, d: u8)
    ensures
        rev_digit_chars(ds.push(d)) == seq![digit_char(d as int)] + rev_digit_chars(ds),
{
    let lhs = rev_digit_chars(ds.push(d));
    let rhs = seq![digit_char(d as int)] + rev_digit_chars(ds);
    assert forall|i: int| 0 <= i < lhs.len() implies lhs[i] == rhs[i] by {
        if i == 0 {
            assert(ds.push(d)[ds.len() as int] == d);
        } else {
            assert(ds.push(d)[ds.len() - i] == ds[ds.len() - i]);
        }
    }
    assert(lhs =~= rhs);
}

/// A one-character string for a single decimal digit value.
fn digit_str(d: u8) -> (r: &'static str)
    requires
        d < 10,
    ensures
        r@ == seq![digit_char(d as int)],
{
    proof {
        reveal_strlit("0");
        reveal_strlit("1");
        reveal_strlit("2");
        reveal_strlit("3");
        reveal_strlit("4");
        reveal_strlit("5");
        reveal_strlit("6");
        reveal_strlit("7");
        reveal_strlit("8");
        reveal_strlit("9");
    }
    let r: &'static str = match d {
        0 => "0",
        1 => "1",
        2 => "2",
        3 => "3",
        4 => "4",
        5 => "5",
        6 => "6",
        7 => "7",
        8 => "8",
        _ => "9",
    };
    proof {
        assert(r@ =~= seq![digit_char(d as int)]);
    }
    r
}

/// Renders a non-negative number as its decimal string.
pub fn decimal_string(n: i32) -> (s: String)
    requires
        n >= 0,
    ensures
        s@ == dec_str(n as int),
{
    let mut digits: Vec<u8> = Vec::new();
    let mut m: i32 = n;
    loop
        invariant_except_break
            0 <= m <= n,
            forall|i: int| 0 <= i < digits@.len() ==> digits@[i] < 10,
            digits@.len() == 0 ==> m == n,
            digits@.len() > 0 ==> m > 0 && dec_str(n as int) == dec_str(m as int) + rev_digit_chars(
                digits@,
            ),
        ensures
            forall|i: int| 0 <= i < digits@.len() ==> digits@[i] < 10,
            dec_str(n as int) == rev_digit_chars(digits@),
        decreases m,
    {
        let d: u8 = (m % 10) as u8;
        let ghost pre_digits = digits@;
        let ghost pre_m = m as int;
        digits.push(d);
        proof {
            lemma_rev_digit_chars_push(pre_digits, d);
        }
        m = m / 10;
        proof {
            if pre_digits.len() == 0 {
                if m == 0 {
                    assert(pre_m < 10);
                    assert(dec_str(n as int) == seq![digit_char(pre_m)]);
                    assert(rev_digit_chars(digits@) =~= seq![digit_char(pre_m % 10)]
                        + rev_digit_chars(pre_digits));
                    assert(rev_digit_chars(pre_digits) =~= Seq::<char>::empty());
                    assert(dec_str(n as int) =~= rev_digit_chars(digits@));
                } else {
                    assert(pre_m >= 10);
                    assert(dec_str(n as int) == dec_str(pre_m / 10) + seq![digit_char(pre_m % 10)]);
                    assert(rev_digit_chars(pre_digits) =~= Seq::<char>::empty());
                    assert(dec_str(m as int) + rev_digit_chars(digits@) =~= dec_str(pre_m / 10)
                        + seq![digit_char(pre_m % 10)]);
                }
            } else {
                if m == 0 {
                    assert(pre_m < 10);
                    assert(dec_str(pre_m) == seq![digit_char(pre_m)]);
                    assert(rev_digit_chars(digits@) =~= dec_str(pre_m) + rev_digit_chars(
                        pre_digits,
                    ));
                    assert(dec_str(n as int) =~= rev_digit_chars(digits@));
                } else {
                    assert(pre_m >= 10);
                    assert(dec_str(pre_m) == dec_str(pre_m / 10) + seq![digit_char(pre_m % 10)]);
                    assert(dec_str(m as int) + rev_digit_chars(digits@) =~= dec_str(pre_m)
                        + rev_digit_chars(pre_digits));
                }
            }
        }
        if m == 0 {
            break ;
        }
    }
    let mut s = String::new();
    while digits.len() > 0
        invariant
            forall|i: int| 0 <= i < digits@.len() ==> digits@[i] < 10,
            dec_str(n as int) == s@ + rev_digit_chars(digits@),
        decreases digits@.len(),
    {
        let ghost pre_digits = digits@;
        let d: u8 = match digits.pop() {
            Some(d) => d,
            None => 0,
        };
        proof {
            assert(pre_digits =~= pre_digits.drop_last().push(pre_digits.last()));
            lemma_rev_digit_chars_push(pre_digits.drop_last(), pre_digits.last());
        }
        s.append(digit_str(d));
        proof {
            assert(s@ + rev_digit_chars(digits@) =~= dec_str(n as int));
        }
    }
    proof {
        assert(rev_digit_chars(digits@) =~= Seq::<char>::empty());
        assert(s@ =~= dec_str(n as int));
    }
    s
}

/// Whether a character is whitespace: the Unicode `White_Space` set
/// that `char::is_whitespace` accepts — the ASCII whitespace controls
/// and space, next line, the fixed-width and breaking spaces, and the
/// line and paragraph separators.
pub open spec fn is_space(c: char) -> bool {
    ||| c == ' ' || c == '\t' || c == '\n' || c == '\x0b' || c == '\x0c' || c == '\r'
    ||| c == '\u{85}' || c == '\u{a0}' || c == '\u{1680}'
    ||| 0x2000 <= c as u32 <= 0x200a
    ||| c == '\u{2028}' || c == '\u{2029}' || c == '\u{202f}' || c == '\u{205f}' || c == '\u{3000}'
}

/// `s` with its leading whitespace removed.
pub open spec fn trim_front(s: Seq<char>) -> Seq<char>
    decreases s.len(),
{
    if s.len() > 0 && is_space(s[0]) {
        trim_front(s.drop_first())
    } else {
        s
    }
}

/// `s` with its trailing whitespace removed.
pub open spec fn trim_back(s: Seq<char>) -> Seq<char>
    decreases s.len(),
{
    if s.len() > 0 && is_space(s.last()) {
        trim_back(s.drop_last())
    } else {
        s
    }
}

/// `s` with leading and trailing whitespace removed.
pub open spec fn trim_spec(s: Seq<char>) -> Seq<char> {
    trim_back(trim_front(s))
}

proof fn lemma_trim_front_skip(s: Seq<char>, k: int)
    requires
        0 <= k <= s.len(),
        forall|i: int| 0 <= i < k ==> is_space(#[trigger] s[i]),
        k == s.len() || !is_space(s[k]),
    ensures
        trim_front(s) == s.skip(k),
    decreases k,
{
    if k == 0 {
        assert(s.skip(0) =~= s);
    } else {
        assert(is_space(s[0]));
        let t = s.drop_first();
        assert(forall|i: int| 0 <= i < k - 1 ==> is_space(#[trigger] t[i]));
        lemma_trim_front_skip(t, k - 1);
        assert(t.skip(k - 1) =~= s.skip(k));
    }
}

proof fn lemma_trim_back_take(s: Seq<char>, k: int)
    requires
        0 <= k <= s.len(),
        forall|i: int| k <= i < s.len() ==> is_space(#[trigger] s[i]),
        k == 0 || !is_space(s[k - 1]),
    ensures
        trim_back(s) == s.take(k),
    decreases s.len(),
{
    if k == s.len() {
        assert(s.take(k) =~= s);
    } else {
        assert(is_space(s.last()));
        let t = s.drop_last();
        lemma_trim_back_take(t, k);
        assert(t.take(k) =~= s.take(k));
    }
}

/// Whether a character is a whitespace character at run time.
fn is_space_char(c: char) -> (r: bool)
    ensures
        r == is_space(c),
{
    let v: u32 = c as u32;
    v == 0x20 || (0x09 <= v && v <= 0x0d) || v == 0x85 || v == 0xa0 || v == 0x1680 || (0x2000 <= v
        && v <= 0x200a) || v == 0x2028 || v == 0x2029 || v == 0x202f || v == 0x205f || v == 0x3000
}

/// Removes leading and trailing whitespace from `s`.
pub fn trim_whitespace(s: &str) -> (r: String)
    ensures
        r@ == trim_spec(s@),
{
    let len = s.unicode_len();
    let mut start: usize = 0;
    while start < len && is_space_char(s.get_char(start))
        invariant
            start <= len,
            len == s@.len(),
            forall|i: int| 0 <= i < start ==> is_space(#[trigger] s@[i]),
        decreases len - start,
    {
        start = start + 1;
    }
    let mut end: usize = len;
    while end > start && is_space_char(s.get_char(end - 1))
        invariant
            start <= end <= len,
            len == s@.len(),
            forall|i: int| end <= i < len ==> is_space(#[trigger] s@[i]),
        decreases end,
    {
        end = end - 1;
    }
    let r = s.substring_char(start, end).to_owned();
    proof {
        lemma_trim_front_skip(s@, start as int);
        let mid = s@.skip(start as int);
        assert(forall|i: int| end - start <= i < mid.len() ==> is_space(#[trigger] mid[i]));
        lemma_trim_back_take(mid, end - start);
        assert(mid.take(end - start) =~= s@.subrange(start as int, end as int));
    }
    r
}

/// Whether a character is a decimal digit.
pub open spec fn is_digit(c: char) -> bool {
    48 <= c as u32 <= 57
}

/// The numeric value of a decimal digit character.
pub open spec fn digit_val(c: char) -> int {
    c as u32 - 48
}

/// Whether every character of `s` is a decimal digit.
pub open spec fn all_digits(s: Seq<char>) -> bool {
    forall|i: int| 0 <= i < s.len() ==> is_digit(#[trigger] s[i])
}

/// The value of a sequence of decimal digit characters.
pub open spec fn digits_val(s: Seq<char>) -> int
    decreases s.len(),
{
    if s.len() == 0 {
        0
    } else {
        digits_val(s.drop_last()) * 10 + digit_val(s.last())
    }
}

/// The integer a string denotes: an optional sign, then one or more
/// decimal digits, with nothing else.
pub open spec fn parse_int(s: Seq<char>) -> Option<int> {
    let body = if s.len() > 0 && (s[0] == '+' || s[0] == '-') {
        s.drop_first()
    } else {
        s
    };
    if body.len() == 0 || !all_digits(body) {
        None
    } else if s.len() > 0 && s[0] == '-' {
        Some(-digits_val(body))
    } else {
        Some(digits_val(body))
    }
}

/// The `i32` a string denotes, if it denotes an integer in range.
pub open spec fn parse_i32(s: Seq<char>) -> Option<i32> {
    match parse_int(s) {
        Option::None => None,
        Option::Some(v) => if i32::MIN <= v <= i32::MAX {
            Some(v as i32)
        } else {
            None
        },
    }
}

/// The player number named by ballot text: the text is trimmed of
/// surrounding whitespace and must then denote an `i32`.
pub open spec fn vote_target(s: Seq<char>) -> Option<i32> {
    parse_i32(trim_spec(s))
}

proof fn lemma_digits_val_nonneg(s: Seq<char>)
    requires
        all_digits(s),
    ensures
        digits_val(s) >= 0,
    decreases s.len(),
{
    if s.len() > 0 {
        assert(all_digits(s.drop_last()));
        lemma_digits_val_nonneg(s.drop_last());
        assert(is_digit(s.last()));
    }
}

proof fn lemma_digits_val_prefix_le(s: Seq<char>, k: int)
    requires
        all_digits(s),
        0 <= k <= s.len(),
    ensures
        digits_val(s.take(k)) <= digits_val(s),
    decreases s.len(),
{
    if k == s.len() {
        assert(s.take(k) =~= s);
    } else {
        let t = s.drop_last();
        assert(all_digits(t));
        assert(s.take(k) =~= t.take(k));
        lemma_digits_val_prefix_le(t, k);
        lemma_digits_val_nonneg(t);
        assert(is_digit(s.last()));
        assert(digits_val(s) == digits_val(t) * 10 + digit_val(s.last()));
        assert(digits_val(t) * 10 >= digits_val(t)) by (nonlinear_arith)
            requires
                digits_val(t) >= 0,
        ;
    }
}

/// Parses an already-trimmed string as an `i32`.
fn parse_trimmed(s: &str) -> (r: Option<i32>)
    ensures
        r == parse_i32(s@),
{
    let len = s.unicode_len();
    if len == 0 {
        return None;
    }
    let first = s.get_char(0);
    let neg: bool = first == '-';
    let start: usize = if first == '-' || first == '+' {
        1
    } else {
        0
    };
    let ghost body = s@.skip(start as int);
    proof {
        assert(s@.skip(0int) =~= s@);
        assert(s@.skip(1int) =~= s@.drop_first());
    }
    if start >= len {
        return None;
    }
    let mut acc: i64 = 0;
    let mut i: usize = start;
    while i < len
        invariant
            start <= i <= len,
            start < len,
            start <= 1,
            len == s@.len(),
            body == s@.skip(start as int),
            neg == (s@[0] == '-'),
            (start == 1) == (s@[0] == '+' || s@[0] == '-'),
            0 <= acc <= 2147483648,
            acc == digits_val(s@.subrange(start as int, i as int)),
            forall|j: int| start <= j < i ==> is_digit(#[trigger] s@[j]),
        decreases len - i,
    {
        let c = s.get_char(i);
        let cv: u32 = c as u32;
        if cv < 48 || cv > 57 {
            proof {
                assert(s@.skip(0int) =~= s@);
                assert(s@.skip(1int) =~= s@.drop_first());
                assert(!is_digit(s@[i as int]));
                assert(body[i - start] == s@[i as int]);
                assert(!all_digits(body));
            }
            return None;
        }
        let ghost pre = s@.subrange(start as int, i as int);
        acc = acc * 10 + ((cv - 48) as i64);
        proof {
            let cur = s@.subrange(start as int, i + 1);
            assert(cur.drop_last() =~= pre);
            assert(cur.last() == s@[i as int]);
        }
        i = i + 1;
        if acc > 2147483648 {
            proof {
                assert(s@.skip(0int) =~= s@);
                assert(s@.skip(1int) =~= s@.drop_first());
                if all_digits(body) {
                    let cur = s@.subrange(start as int, i as int);
                    assert(cur =~= body.take(i - start));
                    lemma_digits_val_prefix_le(body, i - start);
                    assert(digits_val(body) > 2147483648);
                }
            }
            return None;
        }
    }
    proof {
        assert(s@.subrange(start as int, len as int) =~= body);
        assert(all_digits(body));
        assert(body.len() > 0);
    }
    let v: i64 = if neg {
        -acc
    } else {
        acc
    };
    if v < -2147483648 || v > 2147483647 {
        None
    } else {
        Some(v as i32)
    }
}

/// Parses ballot text as a player number, as the voting phase does:
/// surrounding whitespace is ignored, and anything that is not a plain
/// decimal integer in `i32` range yields `None`.
pub fn parse_vote(text: &str) -> (r: Option<i32>)
    ensures
        r == vote_target(text@),
{
    let trimmed = trim_whitespace(text);
    parse_trimmed(trimmed.as_str())
}

} // verus!
