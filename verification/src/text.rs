//! Byte-wise lexical order, the order in which field names are listed, and
//! decimal numbers as text.

use vstd::prelude::*;
use vstd::string::*;

verus! {

/// Length of the longest common prefix of `a` and `b`, counted from `i`.
pub open spec fn common_prefix(a: Seq<u8>, b: Seq<u8>, i: int) -> int
    decreases a.len() - i,
{
    if 0 <= i < a.len() && i < b.len() && a[i] == b[i] {
        common_prefix(a, b, i + 1)
    } else {
        i
    }
}

/// `a` comes strictly before `b` in lexical order: at the first place where
/// they differ `a` has ended or holds the smaller byte.
pub open spec fn lex_lt(a: Seq<u8>, b: Seq<u8>) -> bool {
    let k = common_prefix(a, b, 0);
    k < b.len() && (k == a.len() || a[k] < b[k])
}

/// What `common_prefix` returns: the two agree below it, and at it one has
/// ended or they differ.
pub proof fn lemma_common_prefix(a: Seq<u8>, b: Seq<u8>, i: int)
    requires
        0 <= i <= a.len(),
        i <= b.len(),
    ensures
        i <= common_prefix(a, b, i) <= a.len(),
        common_prefix(a, b, i) <= b.len(),
        forall|j: int| i <= j < common_prefix(a, b, i) ==> a[j] == b[j],
        common_prefix(a, b, i) < a.len() && common_prefix(a, b, i) < b.len() ==> a[common_prefix(
            a,
            b,
            i,
        )] != b[common_prefix(a, b, i)],
    decreases a.len() - i,
{
    if i < a.len() && i < b.len() && a[i] == b[i] {
        lemma_common_prefix(a, b, i + 1);
    }
}

/// A place `k` below which the two agree, and at which one has ended or they
/// differ, is the common prefix.
pub proof fn lemma_common_prefix_is(a: Seq<u8>, b: Seq<u8>, i: int, k: int)
    requires
        0 <= i <= k <= a.len(),
        k <= b.len(),
        forall|j: int| i <= j < k ==> a[j] == b[j],
        k < a.len() && k < b.len() ==> a[k] != b[k],
    ensures
        common_prefix(a, b, i) == k,
    decreases k - i,
{
    if i < k {
        lemma_common_prefix_is(a, b, i + 1, k);
    }
}

/// No sequence comes before itself.
pub proof fn lemma_lex_irreflexive(a: Seq<u8>)
    ensures
        !lex_lt(a, a),
{
    lemma_common_prefix_is(a, a, 0, a.len() as int);
}

/// Of two different sequences one comes before the other.
pub proof fn lemma_lex_total(a: Seq<u8>, b: Seq<u8>)
    ensures
        a == b || lex_lt(a, b) || lex_lt(b, a),
        !(lex_lt(a, b) && lex_lt(b, a)),
        lex_lt(a, b) ==> a != b,
{
    lemma_common_prefix(a, b, 0);
    lemma_common_prefix(b, a, 0);
    let k = common_prefix(a, b, 0);
    lemma_common_prefix_is(b, a, 0, k);
    if k == a.len() && k == b.len() {
        assert(a =~= b);
    }
    lemma_lex_irreflexive(a);
}

/// The order is transitive.
pub proof fn lemma_lex_transitive(a: Seq<u8>, b: Seq<u8>, c: Seq<u8>)
    requires
        lex_lt(a, b),
        lex_lt(b, c),
    ensures
        lex_lt(a, c),
{
    lemma_common_prefix(a, b, 0);
    lemma_common_prefix(b, c, 0);
    let k1 = common_prefix(a, b, 0);
    let k2 = common_prefix(b, c, 0);
    let k = if k1 <= k2 { k1 } else { k2 };
    lemma_common_prefix_is(a, c, 0, k);
}

/// Decides `lex_lt` on two byte strings.
pub fn bytes_lt(a: &[u8], b: &[u8]) -> (r: bool)
    ensures
        r == lex_lt(a@, b@),
{
    let mut i: usize = 0;
    while i < a.len() && i < b.len() && a[i] == b[i]
        invariant
            0 <= i <= a@.len(),
            i <= b@.len(),
            common_prefix(a@, b@, 0) == common_prefix(a@, b@, i as int),
        decreases a@.len() - i,
    {
        i += 1;
    }
    i < b.len() && (i == a.len() || a[i] < b[i])
}

/// The byte is an ASCII decimal digit.
pub open spec fn is_digit(b: u8) -> bool {
    0x30 <= b <= 0x39
}

/// Every byte of `s` is a decimal digit.
pub open spec fn all_digits(s: Seq<u8>) -> bool {
    forall|i: int| 0 <= i < s.len() ==> is_digit(#[trigger] s[i])
}

/// The number that the decimal digits `s` spell; 0 for no digits.
pub open spec fn decimal_value(s: Seq<u8>) -> int
    decreases s.len(),
{
    if s.len() == 0 {
        0
    } else {
        decimal_value(s.drop_last()) * 10 + (s.last() - 0x30)
    }
}

/// The integer that `s` spells: one or more decimal digits, with `+` or `-`
/// before them or nothing. Any other text spells none.
pub open spec fn signed_decimal(s: Seq<u8>) -> Option<int> {
    if s.len() > 0 && (s[0] == 0x2d || s[0] == 0x2b) {
        if s.len() > 1 && all_digits(s.skip(1)) {
            Some(if s[0] == 0x2d { -decimal_value(s.skip(1)) } else { decimal_value(s.skip(1)) })
        } else {
            None
        }
    } else if s.len() > 0 && all_digits(s) {
        Some(decimal_value(s))
    } else {
        None
    }
}

/// The integer that `s` spells, where it fits in 64 bits.
pub open spec fn i64_of_text(s: Seq<u8>) -> Option<i64> {
    match signed_decimal(s) {
        Some(v) => if i64::MIN <= v <= i64::MAX { Some(v as i64) } else { None },
        None => None,
    }
}

/// Digits spell no negative number, and more digits spell no smaller one.
pub proof fn lemma_decimal_value_grows(s: Seq<u8>, n: int)
    requires
        all_digits(s),
        0 <= n <= s.len(),
    ensures
        0 <= decimal_value(s.take(n)) <= decimal_value(s),
    decreases s.len() - n,
{
    lemma_decimal_value_nonneg(s.take(n));
    if n < s.len() {
        lemma_decimal_value_grows(s, n + 1);
        assert(s.take(n + 1).drop_last() =~= s.take(n));
    } else {
        assert(s.take(n) =~= s);
    }
}

/// Digits spell no negative number.
pub proof fn lemma_decimal_value_nonneg(s: Seq<u8>)
    requires
        all_digits(s),
    ensures
        0 <= decimal_value(s),
    decreases s.len(),
{
    if s.len() > 0 {
        lemma_decimal_value_nonneg(s.drop_last());
    }
}

/// Reads the digits `bytes[from..]` as a number of at most `limit`.
/// Gives nothing where a byte is no digit, where there is no digit at all,
/// or where the number is larger than `limit`.
pub fn parse_digits(bytes: &[u8], from: usize, limit: u64) -> (r: Option<u64>)
    requires
        from <= bytes@.len(),
    ensures
        r == if from < bytes@.len() && all_digits(bytes@.skip(from as int)) && decimal_value(
            bytes@.skip(from as int),
        ) <= limit {
            Some(decimal_value(bytes@.skip(from as int)) as u64)
        } else {
            None
        },
        r matches Some(m) ==> m == decimal_value(bytes@.skip(from as int)),
{
    let ghost digits = bytes@.skip(from as int);
    if from == bytes.len() {
        return None;
    }
    let mut acc: u64 = 0;
    let mut i: usize = from;
    while i < bytes.len()
        invariant
            from <= i <= bytes@.len(),
            digits == bytes@.skip(from as int),
            all_digits(digits.take(i - from)),
            acc == decimal_value(digits.take(i - from)),
            acc <= limit,
        decreases bytes@.len() - i,
    {
        let b = bytes[i];
        let ghost k = i - from;
        assert(digits[k] == b);
        if b < 0x30 || b > 0x39 {
            return None;
        }
        assert(digits.take(k + 1).drop_last() =~= digits.take(k));
        assert(all_digits(digits.take(k + 1))) by {
            assert forall|j: int| 0 <= j < k + 1 implies is_digit(
                #[trigger] digits.take(k + 1)[j],
            ) by {
                if j < k {
                    assert(digits.take(k)[j] == digits[j]);
                }
            }
        }
        let next: u128 = (acc as u128) * 10 + ((b - 0x30) as u128);
        if next > limit as u128 {
            proof {
                if all_digits(digits) {
                    lemma_decimal_value_grows(digits, k + 1);
                }
            }
            return None;
        }
        acc = next as u64;
        i += 1;
    }
    assert(digits.take(i - from) =~= digits);
    Some(acc)
}

/// Reads `bytes` as a signed 64-bit decimal integer.
pub fn parse_i64(bytes: &[u8]) -> (r: Option<i64>)
    ensures
        r == i64_of_text(bytes@),
{
    if bytes.len() == 0 {
        return None;
    }
    let first = bytes[0];
    if first == 0x2d {
        match parse_digits(bytes, 1, 0x8000_0000_0000_0000) {
            Some(m) => {
                if m == 0x8000_0000_0000_0000 {
                    Some(i64::MIN)
                } else {
                    Some(-(m as i64))
                }
            },
            None => {
                proof {
                    if bytes@.len() > 1 && all_digits(bytes@.skip(1)) {
                        lemma_decimal_value_nonneg(bytes@.skip(1));
                    }
                }
                None
            },
        }
    } else if first == 0x2b {
        match parse_digits(bytes, 1, 0x7fff_ffff_ffff_ffff) {
            Some(m) => Some(m as i64),
            None => {
                proof {
                    if bytes@.len() > 1 && all_digits(bytes@.skip(1)) {
                        lemma_decimal_value_nonneg(bytes@.skip(1));
                    }
                }
                None
            },
        }
    } else {
        assert(bytes@.skip(0) =~= bytes@);
        match parse_digits(bytes, 0, 0x7fff_ffff_ffff_ffff) {
            Some(m) => Some(m as i64),
            None => {
                proof {
                    if all_digits(bytes@) {
                        lemma_decimal_value_nonneg(bytes@);
                    }
                }
                None
            },
        }
    }
}

/// The character that stands for the digit `d`.
pub open spec fn digit_char(d: int) -> char {
    if d == 0 {
        '0'
    } else if d == 1 {
        '1'
    } else if d == 2 {
        '2'
    } else if d == 3 {
        '3'
    } else if d == 4 {
        '4'
    } else if d == 5 {
        '5'
    } else if d == 6 {
        '6'
    } else if d == 7 {
        '7'
    } else if d == 8 {
        '8'
    } else {
        '9'
    }
}

/// The decimal digits of `n`, without leading zeros.
pub open spec fn natural_text(n: nat) -> Seq<char>
    decreases n,
{
    if n < 10 {
        seq![digit_char(n as int)]
    } else {
        natural_text(n / 10).push(digit_char((n % 10) as int))
    }
}

/// The decimal text of `n`, with `-` before a negative number.
pub open spec fn decimal_text(n: int) -> Seq<char> {
    if n < 0 {
        seq!['-'] + natural_text((-n) as nat)
    } else {
        natural_text(n as nat)
    }
}

/// The text of one digit.
fn digit_str(d: u64) -> (s: &'static str)
    requires
        d < 10,
    ensures
        s@ == seq![digit_char(d as int)],
{
    proof {
        reveal_strlit("0");
        reveal_strlit("1");
        reveal_strlit("2");
        reveal_strlit("3");
        reveal_strlit("4");
        reveal_strlit("5");
        reveal_strlit("6");
        reveal_strlit("7");
        reveal_strlit("8");
        reveal_strlit("9");
    }
    let s = if d == 0 {
        "0"
    } else if d == 1 {
        "1"
    } else if d == 2 {
        "2"
    } else if d == 3 {
        "3"
    } else if d == 4 {
        "4"
    } else if d == 5 {
        "5"
    } else if d == 6 {
        "6"
    } else if d == 7 {
        "7"
    } else if d == 8 {
        "8"
    } else {
        "9"
    };
    assert(s@ =~= seq![digit_char(d as int)]);
    s
}

/// Writes `n` in decimal digits.
pub fn natural(n: u64) -> (s: String)
    ensures
        s@ == natural_text(n as nat),
    decreases n,
{
    if n < 10 {
        digit_str(n).to_owned()
    } else {
        let mut s = natural(n / 10);
        s.append(digit_str(n % 10));
        assert(s@ =~= natural_text((n / 10) as nat).push(digit_char((n % 10) as int)));
        s
    }
}

/// Writes `n` in decimal digits, with `-` before a negative number.
pub fn decimal(n: i64) -> (s: String)
    ensures
        s@ == decimal_text(n as int),
{
    if n < 0 {
        let magnitude: u64 = ((-(n + 1)) as u64) + 1;
        let digits = natural(magnitude);
        let mut s = "-".to_owned();
        proof {
            reveal_strlit("-");
        }
        s.append(digits.as_str());
        assert(s@ =~= seq!['-'] + natural_text((-n) as nat));
        s
    } else {
        natural(n as u64)
    }
}

} // verus!
