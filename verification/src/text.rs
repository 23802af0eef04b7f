//! Text helpers: decimal notation for integers, and splitting at a separator.
use vstd::prelude::*;

verus! {

/// The character of a decimal digit.
pub open spec fn digit_char(d: nat) -> char {
    if d == 0 {
        '0'
    } else if d == 1 {
        '1'
    } else if d == 2 {
        '2'
    } else if d == 3 {
        '3'
    } else if d == 4 {
        '4'
    } else if d == 5 {
        '5'
    } else if d == 6 {
        '6'
    } else if d == 7 {
        '7'
    } else if d == 8 {
        '8'
    } else {
        '9'
    }
}

/// Whether a character is a decimal digit.
pub open spec fn is_digit(c: char) -> bool {
    c == '0' || c == '1' || c == '2' || c == '3' || c == '4' || c == '5' || c == '6' || c == '7'
        || c == '8' || c == '9'
}

/// The value of a decimal digit character; zero for any other character.
pub open spec fn digit_value(c: char) -> nat {
    if c == '1' {
        1
    } else if c == '2' {
        2
    } else if c == '3' {
        3
    } else if c == '4' {
        4
    } else if c == '5' {
        5
    } else if c == '6' {
        6
    } else if c == '7' {
        7
    } else if c == '8' {
        8
    } else if c == '9' {
        9
    } else {
        0
    }
}

/// Decimal notation of a natural number, without sign or leading zeros.
pub open spec fn dec_nat(n: nat) -> Seq<char>
    decreases n,
{
    if n < 10 {
        seq![digit_char(n)]
    } else {
        dec_nat(n / 10).push(digit_char(n % 10))
    }
}

/// Decimal notation of an integer: a minus sign in front of negative values.
pub open spec fn dec_int(i: int) -> Seq<char> {
    if i < 0 {
        seq!['-'] + dec_nat((-i) as nat)
    } else {
        dec_nat(i as nat)
    }
}

/// Whether a text holds decimal digits only.
pub open spec fn all_digits(s: Seq<char>) -> bool {
    forall|i: int| 0 <= i < s.len() ==> is_digit(#[trigger] s[i])
}

/// The number that a run of decimal digits denotes.
pub open spec fn digits_value(s: Seq<char>) -> nat
    decreases s.len(),
{
    if s.len() == 0 {
        0
    } else {
        digits_value(s.drop_last()) * 10 + digit_value(s.last())
    }
}

/// A non-empty run of decimal digits whose value is at most `max`.
pub open spec fn parse_digits(s: Seq<char>, max: nat) -> Option<nat> {
    if s.len() > 0 && all_digits(s) && digits_value(s) <= max {
        Some(digits_value(s))
    } else {
        None
    }
}

/// What reading an unsigned 64-bit integer from text gives: an optional
/// plus sign, then one or more digits, the value within range.
pub open spec fn parse_u64_spec(s: Seq<char>) -> Option<u64> {
    let body = if s.len() > 0 && s[0] == '+' {
        s.subrange(1, s.len() as int)
    } else {
        s
    };
    match parse_digits(body, u64::MAX as nat) {
        Some(v) => Some(v as u64),
        None => None,
    }
}

/// What reading a signed 32-bit integer from text gives: an optional sign,
/// then one or more digits, the value within range.
pub open spec fn parse_i32_spec(s: Seq<char>) -> Option<i32> {
    if s.len() > 0 && s[0] == '-' {
        match parse_digits(s.subrange(1, s.len() as int), 0x8000_0000) {
            Some(v) => Some((-(v as int)) as i32),
            None => None,
        }
    } else {
        let body = if s.len() > 0 && s[0] == '+' {
            s.subrange(1, s.len() as int)
        } else {
            s
        };
        match parse_digits(body, 0x7fff_ffff) {
            Some(v) => Some(v as i32),
            None => None,
        }
    }
}

/// Index of the first occurrence of `sep` in `s`, or the length of `s`.
pub open spec fn find_sep(s: Seq<char>, sep: char) -> int
    decreases s.len(),
{
    if s.len() == 0 {
        0
    } else if s[0] == sep {
        0
    } else {
        1 + find_sep(s.subrange(1, s.len() as int), sep)
    }
}

/// The first separator of a text lies within the text, with no separator
/// before it.
pub proof fn lemma_find_sep(s: Seq<char>, sep: char)
    ensures
        0 <= find_sep(s, sep) <= s.len(),
        forall|i: int| 0 <= i < find_sep(s, sep) ==> s[i] != sep,
        find_sep(s, sep) < s.len() ==> s[find_sep(s, sep)] == sep,
    decreases s.len(),
{
    if s.len() > 0 && s[0] != sep {
        let t = s.subrange(1, s.len() as int);
        lemma_find_sep(t, sep);
        assert forall|i: int| 0 <= i < find_sep(s, sep) implies s[i] != sep by {
            if i > 0 {
                assert(t[i - 1] == s[i]);
            }
        }
        if find_sep(s, sep) < s.len() {
            assert(t[find_sep(t, sep)] == s[find_sep(s, sep)]);
        }
    }
}

/// The first index that holds `sep` is the value of `find_sep`.
pub proof fn lemma_find_sep_unique(s: Seq<char>, sep: char, k: int)
    requires
        0 <= k <= s.len(),
        forall|i: int| 0 <= i < k ==> s[i] != sep,
        k < s.len() ==> s[k] == sep,
    ensures
        find_sep(s, sep) == k,
{
    lemma_find_sep(s, sep);
    let f = find_sep(s, sep);
    if f < k {
        assert(s[f] != sep);
    } else if f > k {
        assert(s[k] != sep);
    }
}

/// The character of a digit is a digit character, and stands for the
/// digit.
pub proof fn lemma_digit_char(d: nat)
    requires
        d < 10,
    ensures
        is_digit(digit_char(d)),
        digit_value(digit_char(d)) == d,
{
}

/// Decimal notation is a non-empty run of digits that denotes the number.
pub proof fn lemma_dec_nat(n: nat)
    ensures
        dec_nat(n).len() > 0,
        all_digits(dec_nat(n)),
        digits_value(dec_nat(n)) == n,
    decreases n,
{
    if n < 10 {
        lemma_digit_char(n);
        let s = dec_nat(n);
        assert(s.drop_last().len() == 0);
        assert(digits_value(s.drop_last()) == 0);
    } else {
        lemma_dec_nat(n / 10);
        lemma_digit_char(n % 10);
        let p = dec_nat(n / 10);
        let s = dec_nat(n);
        assert(s.drop_last() =~= p);
        assert(s.last() == digit_char(n % 10));
    }
}

/// Reading the decimal notation of a 64-bit number gives the number back.
pub proof fn lemma_parse_u64_of_dec(n: u64)
    ensures
        parse_u64_spec(dec_nat(n as nat)) == Some(n),
{
    lemma_dec_nat(n as nat);
    let s = dec_nat(n as nat);
    assert(is_digit(s[0]));
}

/// Reading the decimal notation of a 32-bit integer gives the integer back.
pub proof fn lemma_parse_i32_of_dec(v: i32)
    ensures
        parse_i32_spec(dec_int(v as int)) == Some(v),
{
    if v < 0 {
        let m = (-(v as int)) as nat;
        lemma_dec_nat(m);
        let s = dec_int(v as int);
        assert(s[0] == '-');
        assert(s.subrange(1, s.len() as int) =~= dec_nat(m));
    } else {
        lemma_dec_nat(v as nat);
        let s = dec_nat(v as nat);
        assert(is_digit(s[0]));
    }
}

/// Decimal notation holds digits only, but for a leading minus sign.
pub proof fn lemma_dec_int_chars(v: int, i: int)
    requires
        0 <= i < dec_int(v).len(),
    ensures
        is_digit(dec_int(v)[i]) || (i == 0 && v < 0 && dec_int(v)[i] == '-'),
{
    if v < 0 {
        let m = (-v) as nat;
        lemma_dec_nat(m);
        if i > 0 {
            assert(dec_int(v)[i] == dec_nat(m)[i - 1]);
        }
    } else {
        lemma_dec_nat(v as nat);
    }
}

/// The first digits of a run denote no more than the run.
pub proof fn lemma_digits_value_prefix(s: Seq<char>, k: int)
    requires
        0 <= k <= s.len(),
    ensures
        digits_value(s.subrange(0, k)) <= digits_value(s),
    decreases s.len() - k,
{
    if k == s.len() {
        assert(s.subrange(0, k) =~= s);
    } else {
        lemma_digits_value_prefix(s.drop_last(), k);
        assert(s.drop_last().subrange(0, k) =~= s.subrange(0, k));
    }
}

pub fn is_digit_char(c: char) -> (b: bool)
    ensures
        b == is_digit(c),
{
    c == '0' || c == '1' || c == '2' || c == '3' || c == '4' || c == '5' || c == '6' || c == '7'
        || c == '8' || c == '9'
}

pub fn char_to_digit(c: char) -> (d: u64)
    ensures
        d == digit_value(c),
        d < 10,
{
    if c == '1' {
        1
    } else if c == '2' {
        2
    } else if c == '3' {
        3
    } else if c == '4' {
        4
    } else if c == '5' {
        5
    } else if c == '6' {
        6
    } else if c == '7' {
        7
    } else if c == '8' {
        8
    } else if c == '9' {
        9
    } else {
        0
    }
}

/// The one-character text of a decimal digit.
pub fn digit_str(d: u64) -> (s: &'static str)
    requires
        d < 10,
    ensures
        s@ == seq![digit_char(d as nat)],
{
    proof {
        reveal_strlit("0");
        reveal_strlit("1");
        reveal_strlit("2");
        reveal_strlit("3");
        reveal_strlit("4");
        reveal_strlit("5");
        reveal_strlit("6");
        reveal_strlit("7");
        reveal_strlit("8");
        reveal_strlit("9");
    }
    let s = if d == 0 {
        "0"
    } else if d == 1 {
        "1"
    } else if d == 2 {
        "2"
    } else if d == 3 {
        "3"
    } else if d == 4 {
        "4"
    } else if d == 5 {
        "5"
    } else if d == 6 {
        "6"
    } else if d == 7 {
        "7"
    } else if d == 8 {
        "8"
    } else {
        "9"
    };
    assert(s@ =~= seq![digit_char(d as nat)]);
    s
}

/// Appends the decimal notation of `n` to `out`.
pub fn push_dec_u64(out: &mut String, n: u64)
    ensures
        final(out)@ == old(out)@ + dec_nat(n as nat),
    decreases n,
{
    if n >= 10 {
        push_dec_u64(out, n / 10);
    }
    out.append(digit_str(n % 10));
    assert(final(out)@ =~= old(out)@ + dec_nat(n as nat));
}

/// Appends the decimal notation of `v` to `out`.
pub fn push_dec_i32(out: &mut String, v: i32)
    ensures
        final(out)@ == old(out)@ + dec_int(v as int),
{
    if v < 0 {
        proof {
            reveal_strlit("-");
        }
        out.append("-");
        let m: u64 = (-(v as i64)) as u64;
        push_dec_u64(out, m);
        assert(final(out)@ =~= old(out)@ + dec_int(v as int));
    } else {
        push_dec_u64(out, v as u64);
    }
}

/// The characters of a string, in order.
pub fn str_to_chars(s: &str) -> (v: Vec<char>)
    ensures
        v@ == s@,
{
    let mut v: Vec<char> = Vec::new();
    for c in it: s.chars()
        invariant
            v@ == it.seq().take(it.index() as int),
            it.seq() == s@,
    {
        v.push(c);
        assert(v@ =~= it.seq().take(it.index() + 1));
    }
    assert(v@ =~= s@);
    v
}

/// Reads the digits `s[from..to]` as a number no greater than `max`.
pub fn read_digits(s: &Vec<char>, from: usize, to: usize, max: u64) -> (r: Option<u64>)
    requires
        from <= to <= s.len(),
    ensures
        match parse_digits(s@.subrange(from as int, to as int), max as nat) {
            Some(v) => r == Some(v as u64),
            None => r is None,
        },
{
    let ghost sub = s@.subrange(from as int, to as int);
    if from == to {
        return None;
    }
    let mut acc: u64 = 0;
    let mut i: usize = from;
    while i < to
        invariant
            from <= i <= to <= s.len(),
            sub == s@.subrange(from as int, to as int),
            all_digits(sub.subrange(0, i - from)),
            acc == digits_value(sub.subrange(0, i - from)),
            acc <= max,
        decreases to - i,
    {
        let c = s[i];
        assert(sub[i - from] == c);
        if !is_digit_char(c) {
            return None;
        }
        let d = char_to_digit(c);
        let ghost next = sub.subrange(0, i - from + 1);
        proof {
            assert(next.drop_last() =~= sub.subrange(0, i - from));
            assert(next.last() == c);
            lemma_digits_value_prefix(sub, i - from + 1);
            assert forall|j: int| 0 <= j < next.len() implies is_digit(#[trigger] next[j]) by {
                if j < i - from {
                    assert(sub.subrange(0, i - from)[j] == next[j]);
                }
            }
        }
        if d > max || acc > (max - d) / 10 {
            return None;
        }
        acc = acc * 10 + d;
        i += 1;
    }
    assert(sub.subrange(0, to - from) =~= sub);
    Some(acc)
}

/// Reads `s[from..to]` as an unsigned 64-bit integer.
pub fn read_u64(s: &Vec<char>, from: usize, to: usize) -> (r: Option<u64>)
    requires
        from <= to <= s.len(),
    ensures
        r == parse_u64_spec(s@.subrange(from as int, to as int)),
{
    let ghost sub = s@.subrange(from as int, to as int);
    if from < to && s[from] == '+' {
        assert(sub[0] == s@[from as int]);
        assert(sub.subrange(1, sub.len() as int) =~= s@.subrange(from + 1, to as int));
        read_digits(s, from + 1, to, u64::MAX)
    } else {
        if from < to {
            assert(sub[0] == s@[from as int]);
        }
        read_digits(s, from, to, u64::MAX)
    }
}

/// Reads `s[from..to]` as a signed 32-bit integer.
pub fn read_i32(s: &Vec<char>, from: usize, to: usize) -> (r: Option<i32>)
    requires
        from <= to <= s.len(),
    ensures
        r == parse_i32_spec(s@.subrange(from as int, to as int)),
{
    let ghost sub = s@.subrange(from as int, to as int);
    if from < to {
        assert(sub[0] == s@[from as int]);
        assert(sub.subrange(1, sub.len() as int) =~= s@.subrange(from + 1, to as int));
    }
    if from < to && s[from] == '-' {
        match read_digits(s, from + 1, to, 0x8000_0000) {
            Some(v) => Some((-(v as i64)) as i32),
            None => None,
        }
    } else if from < to && s[from] == '+' {
        match read_digits(s, from + 1, to, 0x7fff_ffff) {
            Some(v) => Some(v as i32),
            None => None,
        }
    } else {
        match read_digits(s, from, to, 0x7fff_ffff) {
            Some(v) => Some(v as i32),
            None => None,
        }
    }
}

/// Index of the first `sep` in `s[from..to]`, or `to` when there is none.
pub fn find_char(s: &Vec<char>, from: usize, to: usize, sep: char) -> (k: usize)
    requires
        from <= to <= s.len(),
    ensures
        from <= k <= to,
        k - from == find_sep(s@.subrange(from as int, to as int), sep),
{
    let ghost sub = s@.subrange(from as int, to as int);
    let mut i: usize = from;
    while i < to
        invariant
            from <= i <= to <= s.len(),
            sub == s@.subrange(from as int, to as int),
            forall|j: int| 0 <= j < i - from ==> sub[j] != sep,
        decreases to - i,
    {
        if s[i] == sep {
            proof {
                assert(sub[i - from] == s@[i as int]);
                lemma_find_sep_unique(sub, sep, i - from);
            }
            return i;
        }
        assert(sub[i - from] == s@[i as int]);
        i += 1;
    }
    proof {
        lemma_find_sep_unique(sub, sep, to - from);
    }
    to
}

} // verus!
