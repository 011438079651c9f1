//! Text helpers over `char` sequences: whitespace trimming, ASCII case
//! mapping, substring search, decimal parsing and formatting.
use vstd::prelude::*;

verus! {

/// Appends `c` to `s` (`String::push`).
#[verifier::external_body]
pub(crate) fn push_char(s: &mut String, c: char)
    ensures
        final(s)@ == old(s)@.push(c),
{
    s.push(c);
}

/// `s` in Unicode lower case (`str::to_lowercase`).
pub uninterp spec fn spec_to_lowercase(s: Seq<char>) -> Seq<char>;

/// `s.to_lowercase()`.
#[verifier::external_body]
pub(crate) fn to_lowercase(s: &str) -> (l: String)
    ensures
        l@ == spec_to_lowercase(s@),
{
    s.to_lowercase()
}

/// The characters of `s`, in order.
pub fn chars_of(s: &str) -> (v: Vec<char>)
    ensures
        v@ == s@,
{
    let mut v: Vec<char> = Vec::new();
    for c in it: s.chars()
        invariant
            it.seq() == s@,
            v@ == s@.take(it.index() as int),
            v@.len() == it.index(),
            it.index() <= s@.len(),
    {
        assert(s@.take(it.index() as int + 1) == s@.take(it.index() as int).push(c));
        v.push(c);
    }
    assert(v@ =~= s@);
    v
}


/// A string holding exactly the characters `v`.
pub fn string_from_chars(v: &[char]) -> (s: String)
    ensures
        s@ == v@,
{
    let mut s = String::new();
    let mut i: usize = 0;
    while i < v.len()
        invariant
            i <= v@.len(),
            s@ == v@.take(i as int),
        decreases v@.len() - i,
    {
        assert(v@.take(i as int + 1) == v@.take(i as int).push(v@[i as int]));
        push_char(&mut s, v[i]);
        i = i + 1;
    }
    assert(v@.take(v@.len() as int) =~= v@);
    s
}

/// Unicode `White_Space`, the set `char::is_whitespace` tests.
pub open spec fn is_whitespace_spec(c: char) -> bool {
    let u = c as u32;
    ||| (0x09 <= u && u <= 0x0D)
    ||| u == 0x20
    ||| u == 0x85
    ||| u == 0xA0
    ||| u == 0x1680
    ||| (0x2000 <= u && u <= 0x200A)
    ||| u == 0x2028
    ||| u == 0x2029
    ||| u == 0x202F
    ||| u == 0x205F
    ||| u == 0x3000
}

pub fn is_whitespace(c: char) -> (w: bool)
    ensures
        w == is_whitespace_spec(c),
{
    let u: u32 = c as u32;
    (0x09 <= u && u <= 0x0D) || u == 0x20 || u == 0x85 || u == 0xA0 || u == 0x1680 || (0x2000 <= u
        && u <= 0x200A) || u == 0x2028 || u == 0x2029 || u == 0x202F || u == 0x205F || u == 0x3000
}

/// Number of leading whitespace characters of `s`.
pub open spec fn leading_ws(s: Seq<char>) -> nat
    decreases s.len(),
{
    if s.len() > 0 && is_whitespace_spec(s[0]) {
        1 + leading_ws(s.drop_first())
    } else {
        0
    }
}

/// Number of trailing whitespace characters of `s`.
pub open spec fn trailing_ws(s: Seq<char>) -> nat
    decreases s.len(),
{
    if s.len() > 0 && is_whitespace_spec(s.last()) {
        1 + trailing_ws(s.drop_last())
    } else {
        0
    }
}

/// `s` without leading and trailing whitespace (`str::trim`).
pub open spec fn spec_trim(s: Seq<char>) -> Seq<char> {
    let front = s.skip(leading_ws(s) as int);
    front.take(front.len() - trailing_ws(front))
}

proof fn lemma_leading_ws(s: Seq<char>, i: int)
    requires
        0 <= i <= s.len(),
        forall|j: int| 0 <= j < i ==> is_whitespace_spec(#[trigger] s[j]),
        i == s.len() || !is_whitespace_spec(s[i]),
    ensures
        leading_ws(s) == i,
    decreases i,
{
    if i > 0 {
        lemma_leading_ws(s.drop_first(), i - 1);
    }
}

proof fn lemma_trailing_ws(s: Seq<char>, k: int)
    requires
        0 <= k <= s.len(),
        forall|j: int| s.len() - k <= j < s.len() ==> is_whitespace_spec(#[trigger] s[j]),
        k == s.len() || !is_whitespace_spec(s[s.len() - k - 1]),
    ensures
        trailing_ws(s) == k,
    decreases k,
{
    if k > 0 {
        lemma_trailing_ws(s.drop_last(), k - 1);
    }
}

pub proof fn lemma_leading_ws_bound(s: Seq<char>)
    ensures
        leading_ws(s) <= s.len(),
    decreases s.len(),
{
    if s.len() > 0 && is_whitespace_spec(s[0]) {
        lemma_leading_ws_bound(s.drop_first());
    }
}

pub proof fn lemma_trailing_ws_bound(s: Seq<char>)
    ensures
        trailing_ws(s) <= s.len(),
    decreases s.len(),
{
    if s.len() > 0 && is_whitespace_spec(s.last()) {
        lemma_trailing_ws_bound(s.drop_last());
    }
}

/// The characters of `v` without leading and trailing whitespace.
pub fn trim_chars(v: &[char]) -> (t: Vec<char>)
    ensures
        t@ == spec_trim(v@),
{
    let n = v.len();
    let mut start: usize = 0;
    while start < n && is_whitespace(v[start])
        invariant
            n == v@.len(),
            start <= n,
            forall|j: int| 0 <= j < start ==> is_whitespace_spec(#[trigger] v@[j]),
        decreases n - start,
    {
        start = start + 1;
    }
    proof {
        lemma_leading_ws(v@, start as int);
    }
    let mut end: usize = n;
    while end > start && is_whitespace(v[end - 1])
        invariant
            n == v@.len(),
            start <= end <= n,
            forall|j: int| end <= j < n ==> is_whitespace_spec(#[trigger] v@[j]),
        decreases end,
    {
        end = end - 1;
    }
    let ghost front = v@.skip(start as int);
    proof {
        assert forall|j: int| front.len() - (n - end) <= j < front.len() implies is_whitespace_spec(
            #[trigger] front[j],
        ) by {
            assert(front[j] == v@[j + start]);
        }
        if end > start {
            assert(front[front.len() - (n - end) - 1] == v@[end - 1]);
        }
        lemma_trailing_ws(front, (n - end) as int);
    }
    let mut t: Vec<char> = Vec::new();
    let mut i: usize = start;
    while i < end
        invariant
            start <= i <= end <= n,
            n == v@.len(),
            t@ == v@.subrange(start as int, i as int),
        decreases end - i,
    {
        t.push(v[i]);
        i = i + 1;
    }
    assert(t@ =~= spec_trim(v@));
    t
}

/// `s` without leading and trailing Unicode whitespace (`str::trim`).
pub fn trim(s: &str) -> (t: String)
    ensures
        t@ == spec_trim(s@),
{
    let v = chars_of(s);
    let t = trim_chars(v.as_slice());
    string_from_chars(t.as_slice())
}

/// ASCII lower case of one character; others are unchanged.
pub open spec fn ascii_lower(c: char) -> char {
    if 'A' <= c && c <= 'Z' {
        ((c as u32) + 32) as char
    } else {
        c
    }
}

/// ASCII upper case of one character; others are unchanged.
pub open spec fn ascii_upper(c: char) -> char {
    if 'a' <= c && c <= 'z' {
        ((c as u32) - 32) as char
    } else {
        c
    }
}

pub fn to_ascii_lower_char(c: char) -> (l: char)
    ensures
        l == ascii_lower(c),
{
    if 'A' <= c && c <= 'Z' {
        let u: u32 = (c as u32) + 32;
        let l: char = (u as u8) as char;
        l
    } else {
        c
    }
}

pub fn to_ascii_upper_char(c: char) -> (l: char)
    ensures
        l == ascii_upper(c),
{
    if 'a' <= c && c <= 'z' {
        let u: u32 = (c as u32) - 32;
        let l: char = (u as u8) as char;
        l
    } else {
        c
    }
}

/// `s` with ASCII letters lowered (`str::to_ascii_lowercase`).
pub open spec fn spec_ascii_lowercase(s: Seq<char>) -> Seq<char> {
    s.map_values(|c: char| ascii_lower(c))
}

/// `s` with ASCII letters raised (`str::to_ascii_uppercase`).
pub open spec fn spec_ascii_uppercase(s: Seq<char>) -> Seq<char> {
    s.map_values(|c: char| ascii_upper(c))
}

pub fn lowercase_chars(v: &[char]) -> (l: Vec<char>)
    ensures
        l@ == spec_ascii_lowercase(v@),
{
    let mut l: Vec<char> = Vec::new();
    let mut i: usize = 0;
    while i < v.len()
        invariant
            i <= v@.len(),
            l@ == spec_ascii_lowercase(v@.take(i as int)),
        decreases v@.len() - i,
    {
        let c = to_ascii_lower_char(v[i]);
        assert(spec_ascii_lowercase(v@.take(i as int + 1)) == spec_ascii_lowercase(
            v@.take(i as int),
        ).push(c)) by {
            assert(v@.take(i as int + 1) == v@.take(i as int).push(v@[i as int]));
        }
        l.push(c);
        i = i + 1;
    }
    assert(v@.take(v@.len() as int) =~= v@);
    l
}

pub fn to_ascii_lowercase(s: &str) -> (l: String)
    ensures
        l@ == spec_ascii_lowercase(s@),
{
    let v = chars_of(s);
    let l = lowercase_chars(v.as_slice());
    string_from_chars(l.as_slice())
}

pub fn to_ascii_uppercase(s: &str) -> (u: String)
    ensures
        u@ == spec_ascii_uppercase(s@),
{
    let v = chars_of(s);
    let mut u: Vec<char> = Vec::new();
    let mut i: usize = 0;
    while i < v.len()
        invariant
            i <= v@.len(),
            v@ == s@,
            u@ == spec_ascii_uppercase(v@.take(i as int)),
        decreases v@.len() - i,
    {
        let c = to_ascii_upper_char(v[i]);
        assert(spec_ascii_uppercase(v@.take(i as int + 1)) == spec_ascii_uppercase(
            v@.take(i as int),
        ).push(c)) by {
            assert(v@.take(i as int + 1) == v@.take(i as int).push(v@[i as int]));
        }
        u.push(c);
        i = i + 1;
    }
    assert(v@.take(v@.len() as int) =~= v@);
    string_from_chars(u.as_slice())
}

/// Whether `a` and `b` are equal up to ASCII case (`str::eq_ignore_ascii_case`).
pub open spec fn spec_eq_ignore_ascii_case(a: Seq<char>, b: Seq<char>) -> bool {
    spec_ascii_lowercase(a) == spec_ascii_lowercase(b)
}

pub fn eq_ignore_ascii_case(a: &str, b: &str) -> (e: bool)
    ensures
        e == spec_eq_ignore_ascii_case(a@, b@),
{
    let la = to_ascii_lowercase(a);
    let lb = to_ascii_lowercase(b);
    let va = chars_of(la.as_str());
    let vb = chars_of(lb.as_str());
    chars_equal(va.as_slice(), vb.as_slice())
}

/// Whether two character sequences are equal.
pub fn chars_equal(a: &[char], b: &[char]) -> (e: bool)
    ensures
        e == (a@ == b@),
{
    if a.len() != b.len() {
        return false;
    }
    let mut i: usize = 0;
    while i < a.len()
        invariant
            a@.len() == b@.len(),
            i <= a@.len(),
            forall|j: int| 0 <= j < i ==> a@[j] == b@[j],
        decreases a@.len() - i,
    {
        if a[i] != b[i] {
            return false;
        }
        i = i + 1;
    }
    assert(a@ =~= b@);
    true
}

/// Whether `needle` occurs in `hay` at position `i`.
pub open spec fn occurs_at(hay: Seq<char>, needle: Seq<char>, i: int) -> bool {
    0 <= i && i + needle.len() <= hay.len() && hay.subrange(i, i + needle.len()) == needle
}

/// Whether `needle` occurs anywhere in `hay` (`str::contains`).
pub open spec fn spec_contains(hay: Seq<char>, needle: Seq<char>) -> bool {
    exists|i: int| occurs_at(hay, needle, i)
}

fn occurs_at_exec(hay: &[char], needle: &[char], i: usize) -> (o: bool)
    requires
        i + needle@.len() <= hay@.len(),
    ensures
        o == occurs_at(hay@, needle@, i as int),
{
    let mut k: usize = 0;
    while k < needle.len()
        invariant
            i + needle.len() <= hay.len(),
            k <= needle@.len(),
            forall|j: int| 0 <= j < k ==> hay@[i + j] == needle@[j],
        decreases needle@.len() - k,
    {
        if hay[i + k] != needle[k] {
            assert(hay@.subrange(i as int, i + needle@.len())[k as int] != needle@[k as int]);
            return false;
        }
        k = k + 1;
    }
    assert(hay@.subrange(i as int, i + needle@.len()) =~= needle@);
    true
}

pub fn contains_chars(hay: &[char], needle: &[char]) -> (c: bool)
    ensures
        c == spec_contains(hay@, needle@),
{
    if needle.len() > hay.len() {
        return false;
    }
    if needle.len() == 0 {
        assert(occurs_at(hay@, needle@, 0)) by {
            assert(hay@.subrange(0, 0) =~= needle@);
        }
        return true;
    }
    let last: usize = hay.len() - needle.len();
    let mut i: usize = 0;
    while i <= last
        invariant
            last == hay.len() - needle.len(),
            needle.len() >= 1,
            i <= last + 1,
            forall|j: int| 0 <= j < i ==> !occurs_at(hay@, needle@, j),
        decreases last + 1 - i,
    {
        if occurs_at_exec(hay, needle, i) {
            return true;
        }
        i = i + 1;
    }
    false
}

/// The value of ASCII digit `c`.
pub open spec fn digit_value(c: char) -> nat {
    ((c as u32) - ('0' as u32)) as nat
}

pub open spec fn is_digit(c: char) -> bool {
    '0' <= c && c <= '9'
}

/// The number written by the decimal digits `d` (most significant first).
pub open spec fn digits_value(d: Seq<char>) -> nat
    decreases d.len(),
{
    if d.len() == 0 {
        0
    } else {
        digits_value(d.drop_last()) * 10 + digit_value(d.last())
    }
}

/// Whether `s` starts with the minus sign of a negative number.
pub open spec fn parse_negative(s: Seq<char>, signed: bool) -> bool {
    signed && s.len() > 0 && s[0] == '-'
}

/// The digits part of `s`: `s` without its leading sign, if it has one.
pub open spec fn parse_digits_part(s: Seq<char>, signed: bool) -> Seq<char> {
    if s.len() > 0 && (s[0] == '+' || parse_negative(s, signed)) {
        s.drop_first()
    } else {
        s
    }
}

/// Whether `d` is a non-empty run of ASCII digits.
pub open spec fn all_digits(d: Seq<char>) -> bool {
    d.len() > 0 && forall|i: int| 0 <= i < d.len() ==> is_digit(#[trigger] d[i])
}

/// The integer `s` spells in Rust's `FromStr` grammar for an integer type with range
/// `lo..=hi`: an optional `+` (or `-` when `signed`), then one or more ASCII digits.
pub open spec fn spec_parse_int(s: Seq<char>, signed: bool, lo: int, hi: int) -> Option<int> {
    let digits = parse_digits_part(s, signed);
    if !all_digits(digits) {
        None
    } else {
        let v: int = if parse_negative(s, signed) {
            -(digits_value(digits) as int)
        } else {
            digits_value(digits) as int
        };
        if lo <= v && v <= hi {
            Some(v)
        } else {
            None
        }
    }
}

proof fn lemma_digits_value_prefix_le(d: Seq<char>, k: int)
    requires
        0 <= k <= d.len(),
    ensures
        digits_value(d.take(k)) <= digits_value(d),
    decreases d.len() - k,
{
    if k < d.len() {
        lemma_digits_value_prefix_le(d, k + 1);
        assert(d.take(k + 1).drop_last() == d.take(k));
    } else {
        assert(d.take(k) == d);
    }
}

/// Value of the digits `v[from..]` if they are all digits and the value is at most
/// `bound`; `None` otherwise (including when there are no digits).
fn parse_digits_bounded(v: &[char], from: usize, bound: u64) -> (r: Option<u64>)
    requires
        from <= v@.len(),
        bound >= 9,
    ensures
        ({
            let d = v@.skip(from as int);
            match r {
                Some(x) => d.len() > 0 && (forall|i: int| 0 <= i < d.len() ==> is_digit(#[trigger] d[i]))
                    && x == digits_value(d) && x <= bound,
                None => d.len() == 0 || !(forall|i: int| 0 <= i < d.len() ==> is_digit(#[trigger] d[i]))
                    || digits_value(d) > bound,
            }
        }),
{
    let ghost d = v@.skip(from as int);
    if from == v.len() {
        return None;
    }
    let mut acc: u64 = 0;
    let mut i: usize = from;
    while i < v.len()
        invariant
            from <= i <= v@.len(),
            d == v@.skip(from as int),
            forall|j: int| 0 <= j < i - from ==> is_digit(#[trigger] d[j]),
            acc == digits_value(d.take(i - from)),
            acc <= bound,
            bound >= 9,
        decreases v@.len() - i,
    {
        let c = v[i];
        if !('0' <= c && c <= '9') {
            assert(!is_digit(d[i - from]));
            return None;
        }
        let digit: u64 = ((c as u32) - ('0' as u32)) as u64;
        assert(d.take(i - from + 1).drop_last() == d.take(i - from));
        if acc > (bound - digit) / 10 {
            proof {
                assert(acc * 10 + digit > bound) by (nonlinear_arith)
                    requires
                        acc > (bound - digit) / 10,
                        digit <= 9,
                        bound >= 9,
                ;
                lemma_digits_value_prefix_le(d, i - from + 1);
            }
            return None;
        }
        assert(acc * 10 + digit <= bound) by (nonlinear_arith)
            requires
                acc <= (bound - digit) / 10,
        ;
        acc = acc * 10 + digit;
        i = i + 1;
    }
    assert(d.take(i - from) == d);
    Some(acc)
}


/// Shared parser for `str::parse` on integer types: optional sign, then digits, with the
/// magnitude limited to `pos_bound` (positive) or `neg_bound` (after a `-`).
fn parse_int_chars(v: &[char], signed: bool, pos_bound: u64, neg_bound: u64) -> (r: Option<(bool, u64)>)
    requires
        pos_bound >= 9,
        neg_bound >= 9,
    ensures
        ({
            let digits = parse_digits_part(v@, signed);
            let bound = if parse_negative(v@, signed) {
                neg_bound
            } else {
                pos_bound
            };
            match r {
                Some((neg, x)) => neg == parse_negative(v@, signed) && all_digits(digits) && x
                    == digits_value(digits) && x <= bound,
                None => !all_digits(digits) || digits_value(digits) > bound,
            }
        }),
{
    if v.len() == 0 {
        return None;
    }
    let negative = signed && v[0] == '-';
    let has_sign = v[0] == '+' || negative;
    let from: usize = if has_sign {
        1
    } else {
        0
    };
    assert(v@.skip(from as int) =~= parse_digits_part(v@, signed));
    let bound: u64 = if negative {
        neg_bound
    } else {
        pos_bound
    };
    match parse_digits_bounded(v, from, bound) {
        Some(x) => Some((negative, x)),
        None => None,
    }
}

/// `s.parse::<i32>()` as an `Option`.
pub open spec fn spec_parse_i32(s: Seq<char>) -> Option<i32> {
    match spec_parse_int(s, true, i32::MIN as int, i32::MAX as int) {
        Some(v) => Some(v as i32),
        None => None,
    }
}

/// `s.parse::<u32>()` as an `Option`.
pub open spec fn spec_parse_u32(s: Seq<char>) -> Option<u32> {
    match spec_parse_int(s, false, 0, u32::MAX as int) {
        Some(v) => Some(v as u32),
        None => None,
    }
}

/// `s.parse::<u64>()` as an `Option`.
pub open spec fn spec_parse_u64(s: Seq<char>) -> Option<u64> {
    match spec_parse_int(s, false, 0, u64::MAX as int) {
        Some(v) => Some(v as u64),
        None => None,
    }
}

pub fn parse_i32(s: &str) -> (r: Option<i32>)
    ensures
        r == spec_parse_i32(s@),
{
    let v = chars_of(s);
    match parse_int_chars(v.as_slice(), true, 0x7fff_ffff, 0x8000_0000) {
        Some((neg, x)) => {
            if neg {
                let w: i64 = 0i64 - (x as i64);
                Some(w as i32)
            } else {
                Some(x as i32)
            }
        },
        None => None,
    }
}

pub fn parse_u32(s: &str) -> (r: Option<u32>)
    ensures
        r == spec_parse_u32(s@),
{
    let v = chars_of(s);
    match parse_int_chars(v.as_slice(), false, 0xffff_ffff, 0xffff_ffff) {
        Some((_, x)) => Some(x as u32),
        None => None,
    }
}

pub fn parse_u64(s: &str) -> (r: Option<u64>)
    ensures
        r == spec_parse_u64(s@),
{
    let v = chars_of(s);
    match parse_int_chars(v.as_slice(), false, u64::MAX, u64::MAX) {
        Some((_, x)) => Some(x),
        None => None,
    }
}

/// The ASCII digit for `d` (0 to 9).
pub open spec fn digit_char(d: nat) -> char {
    (('0' as u32) + d) as char
}

/// Decimal digits of `n`, most significant first, without leading zeros.
pub open spec fn decimal(n: nat) -> Seq<char>
    decreases n,
{
    if n < 10 {
        seq![digit_char(n)]
    } else {
        decimal(n / 10).push(digit_char(n % 10))
    }
}

/// Decimal text of a signed number: a `-` before the digits of a negative one.
pub open spec fn signed_decimal(n: int) -> Seq<char> {
    if n < 0 {
        seq!['-'] + decimal((-n) as nat)
    } else {
        decimal(n as nat)
    }
}

fn digit_to_char(d: u64) -> (c: char)
    requires
        d < 10,
    ensures
        c == digit_char(d as nat),
{
    let b: u8 = (48 + d) as u8;
    b as char
}

/// `n.to_string()` for an unsigned number.
pub fn u64_to_string(n: u64) -> (s: String)
    ensures
        s@ == decimal(n as nat),
    decreases n,
{
    if n < 10 {
        let mut s = String::new();
        push_char(&mut s, digit_to_char(n));
        assert(s@ =~= seq![digit_char(n as nat)]);
        s
    } else {
        let mut s = u64_to_string(n / 10);
        push_char(&mut s, digit_to_char(n % 10));
        s
    }
}

/// `n.to_string()` for a signed number.
pub fn i64_to_string(n: i64) -> (s: String)
    ensures
        s@ == signed_decimal(n as int),
{
    if n < 0 {
        let magnitude: u64 = if n == i64::MIN {
            0x8000_0000_0000_0000u64
        } else {
            (0i64 - n) as u64
        };
        let digits = u64_to_string(magnitude);
        let mut s = String::new();
        push_char(&mut s, '-');
        s.append(digits.as_str());
        assert(s@ =~= seq!['-'] + decimal((-n) as nat));
        s
    } else {
        u64_to_string(n as u64)
    }
}

/// `n` as two or more decimal digits: a leading zero is added below ten (`{:02}`).
pub open spec fn two_digits(n: nat) -> Seq<char> {
    if n < 10 {
        seq!['0'] + decimal(n)
    } else {
        decimal(n)
    }
}

pub fn u64_to_two_digits(n: u64) -> (s: String)
    ensures
        s@ == two_digits(n as nat),
{
    if n < 10 {
        let mut s = String::new();
        push_char(&mut s, '0');
        let d = u64_to_string(n);
        s.append(d.as_str());
        assert(s@ =~= seq!['0'] + decimal(n as nat));
        s
    } else {
        u64_to_string(n)
    }
}

} // verus!
