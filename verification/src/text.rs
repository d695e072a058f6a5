//! Character-level text helpers with exact specifications.
//!
//! Text is handled as sequences of Unicode scalar values (`Seq<char>`);
//! `String` and `&str` are converted at the edges.

use vstd::prelude::*;

verus! {

pub assume_specification[ String::push ](s: &mut String, ch: char)
    ensures
        final(s)@ == old(s)@.push(ch),
;

/// The characters of `s`, in order.
pub fn chars_of(s: &str) -> (out: Vec<char>)
    ensures
        out@ == s@,
{
    let mut out: Vec<char> = Vec::new();
    for c in it: s.chars()
        invariant
            out@ == it.seq().take(it.index() as int),
    {
        out.push(c);
    }
    out
}

/// A `String` holding exactly the characters of `chars`.
pub fn string_of(chars: &[char]) -> (out: String)
    ensures
        out@ == chars@,
{
    let mut out = String::new();
    let mut i: usize = 0;
    while i < chars.len()
        invariant
            i <= chars@.len(),
            out@ == chars@.take(i as int),
        decreases chars@.len() - i,
    {
        out.push(chars[i]);
        i = i + 1;
        assert(out@ =~= chars@.take(i as int));
    }
    assert(chars@.take(chars@.len() as int) =~= chars@);
    out
}

/// Appends all of `more` to `out`.
pub fn push_all(out: &mut Vec<char>, more: &[char])
    ensures
        final(out)@ == old(out)@ + more@,
{
    let mut i: usize = 0;
    while i < more.len()
        invariant
            i <= more@.len(),
            out@ == old(out)@ + more@.take(i as int),
        decreases more@.len() - i,
    {
        out.push(more[i]);
        i = i + 1;
        assert(out@ =~= old(out)@ + more@.take(i as int));
    }
    assert(more@.take(more@.len() as int) =~= more@);
}

/// Appends the characters of `more` to `out`.
pub fn push_str(out: &mut Vec<char>, more: &str)
    ensures
        final(out)@ == old(out)@ + more@,
{
    let chars = chars_of(more);
    push_all(out, &chars);
}

/// Whether two character sequences are equal.
pub fn chars_eq(a: &[char], b: &[char]) -> (r: bool)
    ensures
        r == (a@ == b@),
{
    if a.len() != b.len() {
        return false;
    }
    let mut i: usize = 0;
    while i < a.len()
        invariant
            a@.len() == b@.len(),
            i <= a@.len(),
            forall|j: int| 0 <= j < i ==> a@[j] == b@[j],
        decreases a@.len() - i,
    {
        if a[i] != b[i] {
            return false;
        }
        i = i + 1;
    }
    assert(a@ =~= b@);
    true
}

/// Whether the characters `a` spell the string `lit`.
pub fn is_text(a: &[char], lit: &str) -> (r: bool)
    ensures
        r == (a@ == lit@),
{
    let b = chars_of(lit);
    chars_eq(a, &b)
}

// ---------------------------------------------------------------------------
// Decimal numerals

/// The decimal digit for `d` (which is below ten).
pub open spec fn digit_char(d: int) -> char {
    if d == 0 {
        '0'
    } else if d == 1 {
        '1'
    } else if d == 2 {
        '2'
    } else if d == 3 {
        '3'
    } else if d == 4 {
        '4'
    } else if d == 5 {
        '5'
    } else if d == 6 {
        '6'
    } else if d == 7 {
        '7'
    } else if d == 8 {
        '8'
    } else {
        '9'
    }
}

/// The value of a decimal digit character, if it is one.
pub open spec fn digit_value(c: char) -> Option<nat> {
    if c == '0' {
        Some(0)
    } else if c == '1' {
        Some(1)
    } else if c == '2' {
        Some(2)
    } else if c == '3' {
        Some(3)
    } else if c == '4' {
        Some(4)
    } else if c == '5' {
        Some(5)
    } else if c == '6' {
        Some(6)
    } else if c == '7' {
        Some(7)
    } else if c == '8' {
        Some(8)
    } else if c == '9' {
        Some(9)
    } else {
        None
    }
}

/// The shortest decimal numeral of `n`.
pub open spec fn decimal(n: nat) -> Seq<char>
    decreases n,
{
    if n < 10 {
        seq![digit_char(n as int)]
    } else {
        decimal(n / 10).push(digit_char((n % 10) as int))
    }
}

/// The decimal numeral of `i`, with a leading `-` when negative.
pub open spec fn signed_decimal(i: int) -> Seq<char> {
    if i < 0 {
        seq!['-'] + decimal((-i) as nat)
    } else {
        decimal(i as nat)
    }
}

fn digit_of(d: u64) -> (c: char)
    requires
        d < 10,
    ensures
        c == digit_char(d as int),
{
    if d == 0 {
        '0'
    } else if d == 1 {
        '1'
    } else if d == 2 {
        '2'
    } else if d == 3 {
        '3'
    } else if d == 4 {
        '4'
    } else if d == 5 {
        '5'
    } else if d == 6 {
        '6'
    } else if d == 7 {
        '7'
    } else if d == 8 {
        '8'
    } else {
        '9'
    }
}

/// Appends the decimal numeral of `n`.
pub fn push_decimal(out: &mut Vec<char>, n: u64)
    ensures
        final(out)@ == old(out)@ + decimal(n as nat),
    decreases n,
{
    if n >= 10 {
        push_decimal(out, n / 10);
    }
    let d = digit_of(n % 10);
    out.push(d);
    assert(out@ =~= old(out)@ + decimal(n as nat));
}

/// Appends the decimal numeral of `i`, signed.
pub fn push_signed_decimal(out: &mut Vec<char>, i: i64)
    ensures
        final(out)@ == old(out)@ + signed_decimal(i as int),
{
    if i < 0 {
        out.push('-');
        let magnitude: u64 = ((-(i + 1)) as u64) + 1;
        push_decimal(out, magnitude);
        assert(out@ =~= old(out)@ + signed_decimal(i as int));
    } else {
        push_decimal(out, i as u64);
    }
}

/// The value of a string of decimal digits (zero when empty).
pub open spec fn digits_value(s: Seq<char>) -> nat
    decreases s.len(),
{
    if s.len() == 0 {
        0
    } else {
        digits_value(s.drop_last()) * 10 + match digit_value(s.last()) {
            Some(d) => d,
            None => 0,
        }
    }
}

/// Every character of `s` is a decimal digit.
pub open spec fn all_digits(s: Seq<char>) -> bool {
    forall|i: int| 0 <= i < s.len() ==> (#[trigger] digit_value(s[i])) is Some
}

/// What `str::parse::<usize>` gives: an optional `+`, then one or more
/// decimal digits whose value fits in `usize`.
pub open spec fn parse_usize_spec(s: Seq<char>) -> Option<nat> {
    let digits = if s.len() > 0 && s[0] == '+' {
        s.drop_first()
    } else {
        s
    };
    if digits.len() > 0 && all_digits(digits) && digits_value(digits) <= usize::MAX {
        Some(digits_value(digits))
    } else {
        None
    }
}

proof fn lemma_digits_value_prefix(s: Seq<char>, i: int)
    requires
        0 < i <= s.len(),
    ensures
        digits_value(s.take(i)) == digits_value(s.take(i - 1)) * 10 + match digit_value(s[i - 1]) {
            Some(d) => d,
            None => 0,
        },
{
    assert(s.take(i).drop_last() =~= s.take(i - 1));
}

proof fn lemma_digits_value_monotone(s: Seq<char>, i: int)
    requires
        0 <= i <= s.len(),
    ensures
        digits_value(s.take(i)) <= digits_value(s),
    decreases s.len() - i,
{
    if i < s.len() {
        lemma_digits_value_monotone(s, i + 1);
        lemma_digits_value_prefix(s, i + 1);
    } else {
        assert(s.take(i) =~= s);
    }
}

fn digit_of_char(c: char) -> (r: Option<usize>)
    ensures
        match r {
            Some(d) => digit_value(c) == Some(d as nat) && d < 10,
            None => digit_value(c) is None,
        },
{
    if c == '0' {
        Some(0)
    } else if c == '1' {
        Some(1)
    } else if c == '2' {
        Some(2)
    } else if c == '3' {
        Some(3)
    } else if c == '4' {
        Some(4)
    } else if c == '5' {
        Some(5)
    } else if c == '6' {
        Some(6)
    } else if c == '7' {
        Some(7)
    } else if c == '8' {
        Some(8)
    } else if c == '9' {
        Some(9)
    } else {
        None
    }
}

/// Parses a decimal `usize` as `str::parse::<usize>` does.
pub fn parse_usize(s: &[char]) -> (r: Option<usize>)
    ensures
        match r {
            Some(v) => parse_usize_spec(s@) == Some(v as nat),
            None => parse_usize_spec(s@) is None,
        },
{
    let start: usize = if s.len() > 0 && s[0] == '+' {
        1
    } else {
        0
    };
    let ghost digits = if s@.len() > 0 && s@[0] == '+' {
        s@.drop_first()
    } else {
        s@
    };
    assert(digits =~= s@.subrange(start as int, s@.len() as int));
    if start >= s.len() {
        return None;
    }
    let mut value: usize = 0;
    let mut i: usize = start;
    while i < s.len()
        invariant
            start <= i <= s@.len(),
            digits =~= s@.subrange(start as int, s@.len() as int),
            digits == (if s@.len() > 0 && s@[0] == '+' {
                s@.drop_first()
            } else {
                s@
            }),
            start < s@.len(),
            all_digits(digits.take(i - start)),
            value as nat == digits_value(digits.take(i - start)),
        decreases s@.len() - i,
    {
        let c = s[i];
        assert(digits[i - start] == c);
        let d: usize = match digit_of_char(c) {
            Some(d) => d,
            None => {
                assert(digit_value(digits[i - start]) is None);
                return None;
            },
        };
        proof {
            lemma_digits_value_prefix(digits, i - start + 1);
        }
        if value > (usize::MAX - d) / 10 {
            proof {
                assert(value * 10 + d > usize::MAX) by (nonlinear_arith)
                    requires
                        value > (usize::MAX - d) / 10,
                        d < 10,
                ;
                lemma_digits_value_monotone(digits, i - start + 1);
            }
            return None;
        }
        assert(value * 10 + d <= usize::MAX) by (nonlinear_arith)
            requires
                value <= (usize::MAX - d) / 10,
                d < 10,
        ;
        value = value * 10 + d;
        i = i + 1;
        assert forall|j: int| 0 <= j < i - start implies (#[trigger] digit_value(
            digits.take(i - start)[j],
        )) is Some by {
            if j < i - start - 1 {
                assert(digits.take(i - start)[j] == digits.take(i - start - 1)[j]);
            }
        }
    }
    assert(digits.take(i - start) =~= digits);
    Some(value)
}

// ---------------------------------------------------------------------------
// Whitespace, trimming, byte lengths

/// `char::is_whitespace`: the Unicode `White_Space` property.
pub open spec fn is_ws(c: char) -> bool {
    let u = c as u32;
    (0x9 <= u <= 0xd) || u == 0x20 || u == 0x85 || u == 0xa0 || u == 0x1680 || (0x2000 <= u
        <= 0x200a) || u == 0x2028 || u == 0x2029 || u == 0x202f || u == 0x205f || u == 0x3000
}

/// Whether `c` has the Unicode `White_Space` property.
pub fn is_whitespace(c: char) -> (r: bool)
    ensures
        r == is_ws(c),
{
    let u = c as u32;
    (0x9 <= u && u <= 0xd) || u == 0x20 || u == 0x85 || u == 0xa0 || u == 0x1680 || (0x2000 <= u
        && u <= 0x200a) || u == 0x2028 || u == 0x2029 || u == 0x202f || u == 0x205f || u == 0x3000
}

/// The number of leading whitespace characters.
pub open spec fn leading_ws(s: Seq<char>) -> nat
    decreases s.len(),
{
    if s.len() > 0 && is_ws(s[0]) {
        1 + leading_ws(s.drop_first())
    } else {
        0
    }
}

/// The number of trailing whitespace characters.
pub open spec fn trailing_ws(s: Seq<char>) -> nat
    decreases s.len(),
{
    if s.len() > 0 && is_ws(s.last()) {
        1 + trailing_ws(s.drop_last())
    } else {
        0
    }
}

/// `str::trim_start`.
pub open spec fn trim_start(s: Seq<char>) -> Seq<char> {
    s.skip(leading_ws(s) as int)
}

/// `str::trim_end`.
pub open spec fn trim_end(s: Seq<char>) -> Seq<char> {
    s.take(s.len() - trailing_ws(s))
}

/// `str::trim`.
pub open spec fn trim(s: Seq<char>) -> Seq<char> {
    trim_end(trim_start(s))
}

pub proof fn lemma_leading_ws_bound(s: Seq<char>)
    ensures
        leading_ws(s) <= s.len(),
        forall|j: int| 0 <= j < leading_ws(s) ==> is_ws(#[trigger] s[j]),
        leading_ws(s) < s.len() ==> !is_ws(s[leading_ws(s) as int]),
    decreases s.len(),
{
    if s.len() > 0 && is_ws(s[0]) {
        lemma_leading_ws_bound(s.drop_first());
        assert forall|j: int| 0 <= j < leading_ws(s) implies is_ws(#[trigger] s[j]) by {
            if j > 0 {
                assert(s[j] == s.drop_first()[j - 1]);
            }
        }
    }
}

proof fn lemma_leading_ws_step(s: Seq<char>, k: int)
    requires
        0 <= k <= s.len(),
        forall|j: int| 0 <= j < k ==> is_ws(#[trigger] s[j]),
    ensures
        leading_ws(s) == k + leading_ws(s.skip(k)),
    decreases k,
{
    if k > 0 {
        assert(s.drop_first().skip(k - 1) =~= s.skip(k));
        assert forall|j: int| 0 <= j < k - 1 implies is_ws(#[trigger] s.drop_first()[j]) by {
            assert(s.drop_first()[j] == s[j + 1]);
        }
        lemma_leading_ws_step(s.drop_first(), k - 1);
    } else {
        assert(s.skip(0) =~= s);
    }
}

pub proof fn lemma_trailing_ws_bound(s: Seq<char>)
    ensures
        trailing_ws(s) <= s.len(),
        forall|j: int| s.len() - trailing_ws(s) <= j < s.len() ==> is_ws(#[trigger] s[j]),
        trailing_ws(s) < s.len() ==> !is_ws(s[s.len() - trailing_ws(s) - 1]),
    decreases s.len(),
{
    if s.len() > 0 && is_ws(s.last()) {
        lemma_trailing_ws_bound(s.drop_last());
        assert forall|j: int| s.len() - trailing_ws(s) <= j < s.len() implies is_ws(
            #[trigger] s[j],
        ) by {
            if j < s.len() - 1 {
                assert(s[j] == s.drop_last()[j]);
            }
        }
    }
}

proof fn lemma_trailing_ws_step(s: Seq<char>, k: int)
    requires
        0 <= k <= s.len(),
        forall|j: int| s.len() - k <= j < s.len() ==> is_ws(#[trigger] s[j]),
    ensures
        trailing_ws(s) == k + trailing_ws(s.take(s.len() - k)),
    decreases k,
{
    if k > 0 {
        assert(s.drop_last().take(s.drop_last().len() - (k - 1)) =~= s.take(s.len() - k));
        assert forall|j: int|
            s.drop_last().len() - (k - 1) <= j < s.drop_last().len() implies is_ws(
            #[trigger] s.drop_last()[j],
        ) by {
            assert(s.drop_last()[j] == s[j]);
        }
        lemma_trailing_ws_step(s.drop_last(), k - 1);
    } else {
        assert(s.take(s.len() as int) =~= s);
    }
}

/// Text that neither starts nor ends with whitespace is its own trim.
pub proof fn lemma_trim_plain(s: Seq<char>)
    requires
        s.len() > 0,
        !is_ws(s[0]),
        !is_ws(s.last()),
    ensures
        trim(s) == s,
{
    assert(leading_ws(s) == 0);
    assert(trim_start(s) =~= s);
    assert(trailing_ws(s) == 0);
    assert(trim_end(s) =~= s);
}

/// Trimming twice trims no more than once.
pub proof fn lemma_trim_twice(s: Seq<char>)
    ensures
        trim(trim(s)) == trim(s),
{
    lemma_leading_ws_bound(s);
    let a = trim_start(s);
    lemma_trailing_ws_bound(a);
    let t = trim(s);
    if t.len() > 0 {
        assert(t[0] == a[0]);
        assert(a[0] == s[leading_ws(s) as int]);
        assert(t.last() == a[a.len() - trailing_ws(a) - 1]);
        lemma_trim_plain(t);
    } else {
        assert(trim_start(t) =~= t);
        assert(trim_end(t) =~= t);
    }
}

/// The number of leading whitespace characters of `s`.
pub fn count_leading_ws(s: &[char]) -> (n: usize)
    ensures
        n == leading_ws(s@),
{
    let mut i: usize = 0;
    while i < s.len() && is_whitespace(s[i])
        invariant
            i <= s@.len(),
            forall|j: int| 0 <= j < i ==> is_ws(#[trigger] s@[j]),
        decreases s@.len() - i,
    {
        i = i + 1;
    }
    proof {
        lemma_leading_ws_step(s@, i as int);
        if i < s@.len() {
            assert(!is_ws(s@.skip(i as int)[0]));
        }
    }
    i
}

/// The number of trailing whitespace characters of `s`.
pub fn count_trailing_ws(s: &[char]) -> (n: usize)
    ensures
        n == trailing_ws(s@),
{
    let mut k: usize = 0;
    while k < s.len() && is_whitespace(s[s.len() - 1 - k])
        invariant
            k <= s@.len(),
            forall|j: int| s@.len() - k <= j < s@.len() ==> is_ws(#[trigger] s@[j]),
        decreases s@.len() - k,
    {
        k = k + 1;
    }
    proof {
        lemma_trailing_ws_step(s@, k as int);
        if k < s@.len() {
            let t = s@.take(s@.len() - k);
            assert(t.last() == s@[s@.len() - 1 - k]);
        }
    }
    k
}

/// The characters of `s` from `from` up to `to`.
pub fn slice_chars(s: &[char], from: usize, to: usize) -> (out: Vec<char>)
    requires
        from <= to <= s@.len(),
    ensures
        out@ == s@.subrange(from as int, to as int),
{
    let mut out: Vec<char> = Vec::new();
    let mut i: usize = from;
    while i < to
        invariant
            from <= i <= to,
            to <= s@.len(),
            out@ == s@.subrange(from as int, i as int),
        decreases to - i,
    {
        out.push(s[i]);
        i = i + 1;
        assert(out@ =~= s@.subrange(from as int, i as int));
    }
    out
}

/// `str::trim` on characters.
pub fn trim_chars(s: &[char]) -> (out: Vec<char>)
    ensures
        out@ == trim(s@),
{
    let lead = count_leading_ws(s);
    proof {
        lemma_leading_ws_bound(s@);
    }
    let rest = slice_chars(s, lead, s.len());
    assert(rest@ =~= trim_start(s@));
    let trail = count_trailing_ws(&rest);
    proof {
        lemma_trailing_ws_bound(rest@);
    }
    let out = slice_chars(&rest, 0, rest.len() - trail);
    assert(out@ =~= trim(s@));
    out
}


/// The number of UTF-8 bytes that encode `c`.
pub open spec fn utf8_len(c: char) -> nat {
    let u = c as u32;
    if u < 0x80 {
        1
    } else if u < 0x800 {
        2
    } else if u < 0x10000 {
        3
    } else {
        4
    }
}

/// The number of UTF-8 bytes that encode `s` (what `str::len` returns).
pub open spec fn utf8_len_seq(s: Seq<char>) -> nat
    decreases s.len(),
{
    if s.len() == 0 {
        0
    } else {
        utf8_len(s[0]) + utf8_len_seq(s.drop_first())
    }
}

/// Byte lengths add up over concatenation.
pub proof fn lemma_utf8_len_concat(a: Seq<char>, b: Seq<char>)
    ensures
        utf8_len_seq(a + b) == utf8_len_seq(a) + utf8_len_seq(b),
    decreases a.len(),
{
    if a.len() > 0 {
        assert((a + b).drop_first() =~= a.drop_first() + b);
        lemma_utf8_len_concat(a.drop_first(), b);
    } else {
        assert(a + b =~= b);
    }
}

/// `utf8_len_seq` is the length of vstd's UTF-8 encoding.
pub proof fn lemma_utf8_len_encode(s: Seq<char>)
    ensures
        utf8_len_seq(s) == vstd::utf8::encode_utf8(s).len(),
    decreases s.len(),
{
    if s.len() > 0 {
        lemma_utf8_len_encode(s.drop_first());
        let c = s[0];
        vstd::utf8::char_is_scalar(c);
        assert(vstd::utf8::encode_scalar(c as u32).len() == utf8_len(c));
    }
}

/// The number of UTF-8 bytes of the leading whitespace of `s`.
pub fn leading_ws_bytes(s: &[char]) -> (n: u128)
    ensures
        n == utf8_len_seq(s@.take(leading_ws(s@) as int)),
{
    let lead = count_leading_ws(s);
    let len = s.len();
    proof {
        lemma_leading_ws_bound(s@);
    }
    let mut total: u128 = 0;
    let mut i: usize = 0;
    assert(s@.take(0) =~= Seq::<char>::empty());
    while i < lead
        invariant
            i <= lead,
            lead <= s@.len(),
            s@.len() <= usize::MAX,
            total == utf8_len_seq(s@.take(i as int)),
            total <= 4 * i,
        decreases lead - i,
    {
        let c = s[i];
        let u = c as u32;
        let w: u128 = if u < 0x80 {
            1
        } else if u < 0x800 {
            2
        } else if u < 0x10000 {
            3
        } else {
            4
        };
        proof {
            assert(s@.take(i + 1) =~= s@.take(i as int) + seq![c]);
            lemma_utf8_len_concat(s@.take(i as int), seq![c]);
            assert(seq![c].drop_first() =~= Seq::<char>::empty());
            assert(utf8_len_seq(Seq::<char>::empty()) == 0);
            assert(seq![c][0] == c);
            assert(utf8_len_seq(seq![c]) == utf8_len(c));
            assert(w == utf8_len(c));
        }
        total = total + w;
        i = i + 1;
    }
    total
}

// ---------------------------------------------------------------------------
// Searching, splitting, joining

/// `pat` occurs in `s` starting at `i`.
pub open spec fn occurs_at(s: Seq<char>, pat: Seq<char>, i: int) -> bool {
    0 <= i && i + pat.len() <= s.len() && s.subrange(i, i + pat.len()) == pat
}

/// `str::contains` with a string pattern.
pub open spec fn contains(s: Seq<char>, pat: Seq<char>) -> bool {
    exists|i: int| #[trigger] occurs_at(s, pat, i)
}

/// Whether `pat` occurs in `s` at `i`.
pub fn occurs_at_exec(s: &[char], pat: &[char], i: usize) -> (r: bool)
    ensures
        r == occurs_at(s@, pat@, i as int),
{
    if i > s.len() || pat.len() > s.len() - i {
        return false;
    }
    let mut j: usize = 0;
    while j < pat.len()
        invariant
            i + pat@.len() <= s@.len(),
            i + pat.len() <= s.len(),
            j <= pat@.len(),
            forall|k: int| 0 <= k < j ==> s@[i + k] == pat@[k],
        decreases pat@.len() - j,
    {
        if s[i + j] != pat[j] {
            assert(s@.subrange(i as int, i + pat@.len())[j as int] != pat@[j as int]);
            return false;
        }
        j = j + 1;
    }
    assert(s@.subrange(i as int, i + pat@.len()) =~= pat@);
    true
}

/// The first position at which `pat` occurs in `s` at or after `from`.
pub fn find_from(s: &[char], pat: &[char], from: usize) -> (r: Option<usize>)
    ensures
        match r {
            Some(i) => from <= i && occurs_at(s@, pat@, i as int) && forall|k: int|
                from <= k < i ==> !#[trigger] occurs_at(s@, pat@, k),
            None => forall|k: int| from <= k ==> !#[trigger] occurs_at(s@, pat@, k),
        },
{
    let mut i: usize = from;
    while i < s.len()
        invariant
            from <= i,
            forall|k: int| from <= k < i ==> !#[trigger] occurs_at(s@, pat@, k),
        decreases s@.len() - i,
    {
        if occurs_at_exec(s, pat, i) {
            return Some(i);
        }
        i = i + 1;
    }
    if i == s.len() && occurs_at_exec(s, pat, i) {
        return Some(i);
    }
    assert forall|k: int| from <= k implies !#[trigger] occurs_at(s@, pat@, k) by {
        if k > s@.len() {
        }
    }
    None
}

/// Whether `pat` occurs in `s`.
pub fn contains_exec(s: &[char], pat: &str) -> (r: bool)
    ensures
        r == contains(s@, pat@),
{
    let p = chars_of(pat);
    let found = find_from(s, &p, 0);
    match found {
        Some(i) => {
            assert(occurs_at(s@, pat@, i as int));
            true
        },
        None => false,
    }
}

/// `s` with one trailing carriage return removed.
pub open spec fn strip_cr(s: Seq<char>) -> Seq<char> {
    if s.len() > 0 && s.last() == '\r' {
        s.drop_last()
    } else {
        s
    }
}

/// The index of the first `c` in `s`, if any.
pub open spec fn first_index_of(s: Seq<char>, c: char) -> Option<int>
    decreases s.len(),
{
    if s.len() == 0 {
        None
    } else if s[0] == c {
        Some(0)
    } else {
        match first_index_of(s.drop_first(), c) {
            Some(i) => Some(i + 1),
            None => None,
        }
    }
}

/// `str::lines`: pieces ended by `\n` (a `\r` just before it is dropped);
/// a last piece without `\n` is kept as it is; no piece after a final `\n`.
pub open spec fn lines(s: Seq<char>) -> Seq<Seq<char>>
    decreases s.len(),
{
    if s.len() == 0 {
        seq![]
    } else {
        match first_index_of(s, '\n') {
            Some(k) => if 0 <= k < s.len() {
                seq![strip_cr(s.take(k))] + lines(s.skip(k + 1))
            } else {
                seq![]
            },
            None => seq![s],
        }
    }
}

/// `pieces` joined with `sep` between consecutive pieces.
pub open spec fn join(pieces: Seq<Seq<char>>, sep: Seq<char>) -> Seq<char>
    decreases pieces.len(),
{
    if pieces.len() == 0 {
        seq![]
    } else if pieces.len() == 1 {
        pieces[0]
    } else {
        join(pieces.drop_last(), sep) + sep + pieces.last()
    }
}

proof fn lemma_first_index_of(s: Seq<char>, c: char)
    ensures
        match first_index_of(s, c) {
            Some(k) => 0 <= k < s.len() && s[k] == c && forall|j: int|
                0 <= j < k ==> #[trigger] s[j] != c,
            None => forall|j: int| 0 <= j < s.len() ==> #[trigger] s[j] != c,
        },
    decreases s.len(),
{
    if s.len() > 0 && s[0] != c {
        lemma_first_index_of(s.drop_first(), c);
        match first_index_of(s.drop_first(), c) {
            Some(k) => {
                assert forall|j: int| 0 <= j < k + 1 implies #[trigger] s[j] != c by {
                    if j > 0 {
                        assert(s[j] == s.drop_first()[j - 1]);
                    }
                }
            },
            None => {
                assert forall|j: int| 0 <= j < s.len() implies #[trigger] s[j] != c by {
                    if j > 0 {
                        assert(s[j] == s.drop_first()[j - 1]);
                    }
                }
            },
        }
    }
}

proof fn lemma_first_index_exact(s: Seq<char>, c: char, k: int)
    requires
        0 <= k <= s.len(),
        forall|j: int| 0 <= j < k ==> #[trigger] s[j] != c,
        k < s.len() ==> s[k] == c,
    ensures
        first_index_of(s, c) == (if k < s.len() {
            Some(k)
        } else {
            None::<int>
        }),
    decreases k,
{
    if k > 0 {
        assert forall|j: int| 0 <= j < k - 1 implies #[trigger] s.drop_first()[j] != c by {
            assert(s.drop_first()[j] == s[j + 1]);
        }
        lemma_first_index_exact(s.drop_first(), c, k - 1);
    }
}

/// `c` does not occur in `s`.
pub open spec fn lacks(s: Seq<char>, c: char) -> bool {
    forall|j: int| 0 <= j < s.len() ==> #[trigger] s[j] != c
}

proof fn lemma_join_front(pieces: Seq<Seq<char>>, sep: Seq<char>)
    requires
        pieces.len() >= 2,
    ensures
        join(pieces, sep) == pieces[0] + sep + join(pieces.drop_first(), sep),
    decreases pieces.len(),
{
    if pieces.len() == 2 {
        assert(pieces.drop_first().len() == 1);
        assert(pieces.drop_last().len() == 1);
        assert(join(pieces.drop_last(), sep) == pieces[0]);
        assert(join(pieces.drop_first(), sep) == pieces[1]);
    } else {
        lemma_join_front(pieces.drop_last(), sep);
        assert(pieces.drop_last().drop_first() =~= pieces.drop_first().drop_last());
        assert(pieces.drop_first().last() == pieces.last());
        assert(pieces.drop_last()[0] == pieces[0]);
    }
}

/// Lines joined by line breaks split back into the same lines, when none
/// is empty, holds a line break, or ends with a carriage return.
pub proof fn lemma_lines_of_join(pieces: Seq<Seq<char>>)
    requires
        forall|i: int|
            0 <= i < pieces.len() ==> (#[trigger] pieces[i]).len() > 0 && lacks(pieces[i], '\n')
                && pieces[i].last() != '\r',
    ensures
        lines(join(pieces, seq!['\n'])) == pieces,
    decreases pieces.len(),
{
    if pieces.len() == 0 {
    } else if pieces.len() == 1 {
        let s = pieces[0];
        assert(join(pieces, seq!['\n']) == s);
        lemma_first_index_exact(s, '\n', s.len() as int);
        assert(lines(s) =~= seq![s]);
        assert(pieces =~= seq![s]);
    } else {
        lemma_join_front(pieces, seq!['\n']);
        let head = pieces[0];
        let rest = join(pieces.drop_first(), seq!['\n']);
        let s = head + seq!['\n'] + rest;
        assert forall|j: int| 0 <= j < head.len() implies #[trigger] s[j] != '\n' by {
            assert(s[j] == head[j]);
        }
        assert(s[head.len() as int] == '\n');
        lemma_first_index_exact(s, '\n', head.len() as int);
        assert(s.take(head.len() as int) =~= head);
        assert(s.skip(head.len() as int + 1) =~= rest);
        assert forall|i: int| 0 <= i < pieces.drop_first().len() implies (#[trigger] pieces.drop_first()[i]).len() > 0
            && lacks(pieces.drop_first()[i], '\n') && pieces.drop_first()[i].last() != '\r' by {
            assert(pieces.drop_first()[i] == pieces[i + 1]);
        }
        lemma_lines_of_join(pieces.drop_first());
        assert(strip_cr(head) == head);
        assert(lines(s) =~= seq![head] + pieces.drop_first());
        assert(pieces =~= seq![head] + pieces.drop_first());
    }
}

/// No line holds a line break; and when the text has no carriage return,
/// no line holds one either.
pub proof fn lemma_lines_lack(s: Seq<char>)
    ensures
        forall|i: int| 0 <= i < lines(s).len() ==> lacks(#[trigger] lines(s)[i], '\n'),
        lacks(s, '\r') ==> forall|i: int|
            0 <= i < lines(s).len() ==> lacks(#[trigger] lines(s)[i], '\r'),
    decreases s.len(),
{
    if s.len() > 0 {
        lemma_first_index_of(s, '\n');
        match first_index_of(s, '\n') {
            Some(k) => {
                let first = strip_cr(s.take(k));
                assert forall|j: int| 0 <= j < first.len() implies #[trigger] first[j] != '\n' by {
                    assert(first[j] == s[j]);
                }
                assert(lacks(s, '\r') ==> lacks(first, '\r')) by {
                    if lacks(s, '\r') {
                        assert forall|j: int| 0 <= j < first.len() implies #[trigger] first[j] != '\r' by {
                            assert(first[j] == s[j]);
                        }
                    }
                }
                let rest = s.skip(k + 1);
                lemma_lines_lack(rest);
                assert(lacks(s, '\r') ==> lacks(rest, '\r')) by {
                    if lacks(s, '\r') {
                        assert forall|j: int| 0 <= j < rest.len() implies #[trigger] rest[j] != '\r' by {
                            assert(rest[j] == s[j + k + 1]);
                        }
                    }
                }
                let ls = lines(s);
                assert(ls == seq![first] + lines(rest));
                assert forall|i: int| 0 <= i < ls.len() implies lacks(#[trigger] ls[i], '\n') by {
                    if i > 0 {
                        assert(ls[i] == lines(rest)[i - 1]);
                    }
                }
                assert(lacks(s, '\r') ==> forall|i: int|
                    0 <= i < ls.len() ==> lacks(#[trigger] ls[i], '\r')) by {
                    if lacks(s, '\r') {
                        assert forall|i: int| 0 <= i < ls.len() implies lacks(#[trigger] ls[i], '\r') by {
                            if i > 0 {
                                assert(ls[i] == lines(rest)[i - 1]);
                            }
                        }
                    }
                }
            },
            None => {
                assert(lines(s) =~= seq![s]);
            },
        }
    }
}

/// Every character of a joined piece is a character of the joined text.
pub proof fn lemma_join_has(pieces: Seq<Seq<char>>, sep: Seq<char>, j: int, p: int) -> (q: int)
    requires
        0 <= j < pieces.len(),
        0 <= p < pieces[j].len(),
    ensures
        0 <= q < join(pieces, sep).len(),
        join(pieces, sep)[q] == pieces[j][p],
    decreases pieces.len(),
{
    if pieces.len() == 1 {
        p
    } else if j == pieces.len() - 1 {
        let front = join(pieces.drop_last(), sep);
        front.len() + sep.len() + p
    } else {
        let front = join(pieces.drop_last(), sep);
        assert(pieces.drop_last()[j] == pieces[j]);
        let q = lemma_join_has(pieces.drop_last(), sep, j, p);
        assert(join(pieces, sep) == front + sep + pieces.last());
        assert((front + sep + pieces.last())[q] == front[q]);
        q
    }
}

/// Text with a character that is not whitespace does not trim to nothing.
pub proof fn lemma_trim_nonempty(s: Seq<char>, q: int)
    requires
        0 <= q < s.len(),
        !is_ws(s[q]),
    ensures
        trim(s).len() > 0,
{
    lemma_leading_ws_bound(s);
    let a = trim_start(s);
    lemma_trailing_ws_bound(a);
    assert(leading_ws(s) <= q);
    assert(a[0] == s[leading_ws(s) as int]);
    if trailing_ws(a) == a.len() {
        assert(is_ws(a[0]));
    }
}

/// Some character of `s` is not whitespace.
pub open spec fn has_text(s: Seq<char>) -> bool {
    exists|j: int| 0 <= j < s.len() && !is_ws(#[trigger] s[j])
}

proof fn lemma_leading_ws_concat(a: Seq<char>, b: Seq<char>)
    requires
        has_text(a),
    ensures
        leading_ws(a + b) == leading_ws(a),
        trim_start(a + b) == trim_start(a) + b,
        has_text(trim_start(a)),
{
    lemma_leading_ws_bound(a);
    let j = choose|j: int| 0 <= j < a.len() && !is_ws(#[trigger] a[j]);
    let k = leading_ws(a) as int;
    assert(k <= j);
    assert forall|i: int| 0 <= i < k implies is_ws(#[trigger] (a + b)[i]) by {
        assert((a + b)[i] == a[i]);
    }
    lemma_leading_ws_step(a + b, k);
    assert((a + b).skip(k)[0] == a[k]);
    assert(leading_ws((a + b).skip(k)) == 0);
    assert(trim_start(a + b) =~= trim_start(a) + b);
    assert(trim_start(a)[0] == a[k]);
}

proof fn lemma_trailing_ws_concat(a: Seq<char>, b: Seq<char>)
    requires
        has_text(b),
    ensures
        trailing_ws(a + b) == trailing_ws(b),
        trim_end(a + b) == a + trim_end(b),
        has_text(trim_end(b)),
{
    lemma_trailing_ws_bound(b);
    let j = choose|j: int| 0 <= j < b.len() && !is_ws(#[trigger] b[j]);
    let k = trailing_ws(b) as int;
    assert(b.len() - k > j);
    let s = a + b;
    assert forall|i: int| s.len() - k <= i < s.len() implies is_ws(#[trigger] s[i]) by {
        assert(s[i] == b[i - a.len()]);
    }
    lemma_trailing_ws_step(s, k);
    let rest = s.take(s.len() - k);
    assert(rest.last() == b[b.len() - k - 1]);
    assert(trailing_ws(rest) == 0);
    assert(trim_end(s) =~= a + trim_end(b));
    assert(trim_end(b)[b.len() - k - 1] == b[b.len() - k - 1]);
}

/// Trimming lines joined by line breaks, when every line has text: the
/// first line loses its leading whitespace and the last its trailing
/// whitespace; the lines between stay as they are.
pub open spec fn trim_lines(pieces: Seq<Seq<char>>) -> Seq<Seq<char>> {
    if pieces.len() == 0 {
        pieces
    } else {
        let first = pieces.update(0, trim_start(pieces[0]));
        first.update(first.len() - 1, trim_end(first.last()))
    }
}

proof fn lemma_trim_end_join(pieces: Seq<Seq<char>>)
    requires
        pieces.len() > 0,
        has_text(pieces.last()),
    ensures
        trim_end(join(pieces, seq!['\n'])) == join(
            pieces.update(pieces.len() - 1, trim_end(pieces.last())),
            seq!['\n'],
        ),
{
    let q = pieces.update(pieces.len() - 1, trim_end(pieces.last()));
    if pieces.len() == 1 {
        assert(join(pieces, seq!['\n']) == pieces[0]);
        assert(join(q, seq!['\n']) == q[0]);
    } else {
        let front = join(pieces.drop_last(), seq!['\n']) + seq!['\n'];
        assert(join(pieces, seq!['\n']) == front + pieces.last());
        lemma_trailing_ws_concat(front, pieces.last());
        assert(q.drop_last() =~= pieces.drop_last());
        assert(join(q, seq!['\n']) == join(q.drop_last(), seq!['\n']) + seq!['\n'] + q.last());
    }
}

/// Joined lines that each have text trim to the joined trimmed lines.
pub proof fn lemma_trim_join(pieces: Seq<Seq<char>>)
    requires
        forall|i: int| 0 <= i < pieces.len() ==> has_text(#[trigger] pieces[i]),
    ensures
        trim(join(pieces, seq!['\n'])) == join(trim_lines(pieces), seq!['\n']),
        forall|i: int| 0 <= i < trim_lines(pieces).len() ==> has_text(#[trigger] trim_lines(pieces)[i]),
        trim_lines(pieces).len() == pieces.len(),
{
    if pieces.len() == 0 {
        assert(trim(Seq::<char>::empty()) =~= Seq::<char>::empty());
    } else {
        let s = join(pieces, seq!['\n']);
        let first = pieces.update(0, trim_start(pieces[0]));
        assert(has_text(pieces[0]));
        if pieces.len() == 1 {
            assert(s == pieces[0]);
            lemma_leading_ws_concat(pieces[0], Seq::<char>::empty());
            assert(pieces[0] + Seq::<char>::empty() =~= pieces[0]);
            assert(trim_start(pieces[0]) + Seq::<char>::empty() =~= trim_start(pieces[0]));
            assert(join(first, seq!['\n']) == first[0]);
        } else {
            lemma_join_front(pieces, seq!['\n']);
            let rest = seq!['\n'] + join(pieces.drop_first(), seq!['\n']);
            assert(s =~= pieces[0] + rest);
            lemma_leading_ws_concat(pieces[0], rest);
            lemma_join_front(first, seq!['\n']);
            assert(first.drop_first() =~= pieces.drop_first());
            assert(trim_start(s) =~= join(first, seq!['\n']));
        }
        assert(first.last() == if pieces.len() == 1 {
            trim_start(pieces[0])
        } else {
            pieces.last()
        });
        assert(has_text(pieces.last()));
        lemma_trim_end_join(first);
        let tl = trim_lines(pieces);
        assert forall|i: int| 0 <= i < tl.len() implies has_text(#[trigger] tl[i]) by {
            if i == tl.len() - 1 {
                lemma_trailing_ws_concat(Seq::<char>::empty(), first.last());
                assert(Seq::<char>::empty() + first.last() =~= first.last());
            } else if i == 0 {
                assert(tl[i] == first[0]);
            } else {
                assert(tl[i] == pieces[i]);
            }
        }
    }
}

/// Lines joined by line breaks, with a final line break, split back into
/// the same lines.
pub proof fn lemma_lines_of_ended_join(pieces: Seq<Seq<char>>)
    requires
        pieces.len() > 0,
        forall|i: int|
            0 <= i < pieces.len() ==> (#[trigger] pieces[i]).len() > 0 && lacks(pieces[i], '\n')
                && lacks(pieces[i], '\r'),
    ensures
        lines(join(pieces, seq!['\n']) + seq!['\n']) == pieces,
    decreases pieces.len(),
{
    let head = pieces[0];
    assert(lacks(head, '\r'));
    if head.len() > 0 {
        assert(head.last() != '\r');
    }
    assert(strip_cr(head) == head);
    if pieces.len() == 1 {
        let s = head + seq!['\n'];
        assert(join(pieces, seq!['\n']) == head);
        assert forall|j: int| 0 <= j < head.len() implies #[trigger] s[j] != '\n' by {
            assert(s[j] == head[j]);
        }
        lemma_first_index_exact(s, '\n', head.len() as int);
        assert(s.take(head.len() as int) =~= head);
        assert(s.skip(head.len() as int + 1) =~= Seq::<char>::empty());
        assert(lines(Seq::<char>::empty()) =~= Seq::<Seq<char>>::empty());
        assert(lines(s) =~= seq![head]);
        assert(pieces =~= seq![head]);
    } else {
        lemma_join_front(pieces, seq!['\n']);
        let rest = join(pieces.drop_first(), seq!['\n']) + seq!['\n'];
        let s = head + seq!['\n'] + rest;
        assert(join(pieces, seq!['\n']) + seq!['\n'] =~= s);
        assert forall|j: int| 0 <= j < head.len() implies #[trigger] s[j] != '\n' by {
            assert(s[j] == head[j]);
        }
        lemma_first_index_exact(s, '\n', head.len() as int);
        assert(s.take(head.len() as int) =~= head);
        assert(s.skip(head.len() as int + 1) =~= rest);
        assert forall|i: int| 0 <= i < pieces.drop_first().len() implies (#[trigger] pieces.drop_first()[i]).len() > 0
            && lacks(pieces.drop_first()[i], '\n') && lacks(pieces.drop_first()[i], '\r') by {
            assert(pieces.drop_first()[i] == pieces[i + 1]);
        }
        lemma_lines_of_ended_join(pieces.drop_first());
        assert(lines(s) =~= seq![head] + pieces.drop_first());
        assert(pieces =~= seq![head] + pieces.drop_first());
    }
}

/// A line break ends in whitespace: trimming text with a final line break
/// trims the text before it.
pub proof fn lemma_trim_ended(s: Seq<char>)
    requires
        has_text(s),
    ensures
        trim(s + seq!['\n']) == trim(s),
{
    lemma_leading_ws_concat(s, seq!['\n']);
    let a = trim_start(s);
    let a2 = a + seq!['\n'];
    assert(trim_start(s + seq!['\n']) == a2);
    assert(is_ws('\n'));
    assert forall|i: int| a2.len() - 1 <= i < a2.len() implies is_ws(#[trigger] a2[i]) by {}
    lemma_trailing_ws_step(a2, 1);
    assert(a2.take(a2.len() - 1) =~= a);
    lemma_trailing_ws_bound(a);
    assert(trailing_ws(a2) == 1 + trailing_ws(a));
    assert(a2.take(a2.len() - trailing_ws(a2)) =~= a.take(a.len() - trailing_ws(a)));
    assert(trim_end(a2) =~= trim_end(a));
}

proof fn lemma_utf8_spaces(s: Seq<char>)
    requires
        forall|j: int| 0 <= j < s.len() ==> #[trigger] s[j] == ' ',
    ensures
        utf8_len_seq(s) == s.len(),
    decreases s.len(),
{
    if s.len() > 0 {
        assert forall|j: int| 0 <= j < s.drop_first().len() implies #[trigger] s.drop_first()[j]
            == ' ' by {
            assert(s.drop_first()[j] == s[j + 1]);
        }
        lemma_utf8_spaces(s.drop_first());
    }
}

/// Text that starts with `k` spaces and then a character that is not
/// whitespace has `k` leading whitespace characters, of `k` bytes.
pub proof fn lemma_leading_spaces(s: Seq<char>, k: int)
    requires
        0 <= k < s.len(),
        forall|j: int| 0 <= j < k ==> #[trigger] s[j] == ' ',
        !is_ws(s[k]),
    ensures
        leading_ws(s) == k,
        utf8_len_seq(s.take(k)) == k,
{
    assert forall|j: int| 0 <= j < k implies is_ws(#[trigger] s[j]) by {
        assert(s[j] == ' ');
    }
    lemma_leading_ws_step(s, k);
    assert(s.skip(k)[0] == s[k]);
    assert(leading_ws(s.skip(k)) == 0);
    assert forall|j: int| 0 <= j < s.take(k).len() implies #[trigger] s.take(k)[j] == ' ' by {
        assert(s.take(k)[j] == s[j]);
    }
    lemma_utf8_spaces(s.take(k));
}

/// Neither a line break nor a carriage return occurs in `s`.
pub open spec fn plain(s: Seq<char>) -> bool {
    lacks(s, '\n') && lacks(s, '\r')
}

/// Plain pieces make plain text.
pub proof fn lemma_plain_concat(a: Seq<char>, b: Seq<char>)
    requires
        plain(a),
        plain(b),
    ensures
        plain(a + b),
{
    assert forall|j: int| 0 <= j < (a + b).len() implies #[trigger] (a + b)[j] != '\n' && (a
        + b)[j] != '\r' by {
        if j < a.len() {
            assert((a + b)[j] == a[j]);
        } else {
            assert((a + b)[j] == b[j - a.len()]);
        }
    }
}

/// Plain pieces joined by a plain separator make plain text.
pub proof fn lemma_plain_join(pieces: Seq<Seq<char>>, sep: Seq<char>)
    requires
        plain(sep),
        forall|i: int| 0 <= i < pieces.len() ==> plain(#[trigger] pieces[i]),
    ensures
        plain(join(pieces, sep)),
    decreases pieces.len(),
{
    if pieces.len() == 1 {
        assert(plain(pieces[0]));
    } else if pieces.len() > 1 {
        assert forall|i: int| 0 <= i < pieces.drop_last().len() implies plain(
            #[trigger] pieces.drop_last()[i],
        ) by {
            assert(pieces.drop_last()[i] == pieces[i]);
        }
        lemma_plain_join(pieces.drop_last(), sep);
        lemma_plain_concat(join(pieces.drop_last(), sep), sep);
        assert(plain(pieces.last()));
        lemma_plain_concat(join(pieces.drop_last(), sep) + sep, pieces.last());
    }
}

/// Pieces without `c`, joined by a separator without `c`, are without `c`.
pub proof fn lemma_lacks_join(pieces: Seq<Seq<char>>, sep: Seq<char>, c: char)
    requires
        lacks(sep, c),
        forall|i: int| 0 <= i < pieces.len() ==> lacks(#[trigger] pieces[i], c),
    ensures
        lacks(join(pieces, sep), c),
    decreases pieces.len(),
{
    if pieces.len() == 1 {
        assert(lacks(pieces[0], c));
    } else if pieces.len() > 1 {
        assert forall|i: int| 0 <= i < pieces.drop_last().len() implies lacks(
            #[trigger] pieces.drop_last()[i],
            c,
        ) by {
            assert(pieces.drop_last()[i] == pieces[i]);
        }
        lemma_lacks_join(pieces.drop_last(), sep, c);
        let a = join(pieces.drop_last(), sep);
        let b = pieces.last();
        assert(lacks(b, c));
        let s = a + sep + b;
        assert forall|j: int| 0 <= j < s.len() implies #[trigger] s[j] != c by {
            if j < a.len() {
                assert(s[j] == a[j]);
            } else if j < a.len() + sep.len() {
                assert(s[j] == sep[j - a.len()]);
            } else {
                assert(s[j] == b[j - a.len() - sep.len()]);
            }
        }
    }
}

/// Decimal numerals are plain.
pub proof fn lemma_plain_decimal(i: int)
    ensures
        plain(signed_decimal(i)),
{
    let n: nat = if i < 0 {
        (-i) as nat
    } else {
        i as nat
    };
    lemma_decimal_digits(n);
    let d = decimal(n);
    assert forall|j: int| 0 <= j < d.len() implies #[trigger] d[j] != '\n' && d[j] != '\r' by {
        assert('0' <= d[j] <= '9');
    }
    if i < 0 {
        lemma_plain_concat(seq!['-'], d);
    }
}

/// Trimming the start of text leaves text.
pub proof fn lemma_trim_start_text(l: Seq<char>)
    requires
        has_text(l),
    ensures
        has_text(trim_start(l)),
{
    lemma_leading_ws_concat(l, Seq::<char>::empty());
    assert(l + Seq::<char>::empty() =~= l);
}

/// Trimming the start keeps a pattern that starts with text.
pub proof fn lemma_contains_trim_start(l: Seq<char>, pat: Seq<char>)
    requires
        contains(l, pat),
        pat.len() > 0,
        !is_ws(pat[0]),
    ensures
        contains(trim_start(l), pat),
{
    lemma_leading_ws_bound(l);
    let p = choose|p: int| #[trigger] occurs_at(l, pat, p);
    let k = leading_ws(l) as int;
    assert(l[p] == l.subrange(p, p + pat.len())[0]);
    assert(p >= k);
    let s = trim_start(l);
    assert(s.subrange(p - k, p - k + pat.len()) =~= l.subrange(p, p + pat.len()));
    assert(occurs_at(s, pat, p - k));
}

/// Trimming the end keeps a pattern that ends with text.
pub proof fn lemma_contains_trim_end(l: Seq<char>, pat: Seq<char>)
    requires
        contains(l, pat),
        pat.len() > 0,
        !is_ws(pat.last()),
    ensures
        contains(trim_end(l), pat),
{
    lemma_trailing_ws_bound(l);
    let p = choose|p: int| #[trigger] occurs_at(l, pat, p);
    let k = l.len() - trailing_ws(l);
    let e = p + pat.len() - 1;
    assert(l[e] == l.subrange(p, p + pat.len())[pat.len() - 1]);
    assert(e < k);
    let s = trim_end(l);
    assert(s.subrange(p, p + pat.len()) =~= l.subrange(p, p + pat.len()));
    assert(occurs_at(s, pat, p));
}

/// Trimmed text has no leading whitespace left.
pub proof fn lemma_trim_start_bare(l: Seq<char>)
    requires
        has_text(l),
    ensures
        leading_ws(trim_start(l)) == 0,
{
    lemma_leading_ws_bound(l);
    let j = choose|j: int| 0 <= j < l.len() && !is_ws(#[trigger] l[j]);
    assert(leading_ws(l) <= j);
    assert(trim_start(l)[0] == l[leading_ws(l) as int]);
}

/// Trimming the end of text keeps its leading whitespace.
pub proof fn lemma_trim_end_lead(l: Seq<char>)
    requires
        has_text(l),
    ensures
        leading_ws(trim_end(l)) == leading_ws(l),
        trim_end(l).take(leading_ws(l) as int) == l.take(leading_ws(l) as int),
{
    lemma_leading_ws_bound(l);
    lemma_trailing_ws_bound(l);
    let j = choose|j: int| 0 <= j < l.len() && !is_ws(#[trigger] l[j]);
    let k = leading_ws(l) as int;
    let e = l.len() - trailing_ws(l);
    assert(k <= j);
    assert(j < e);
    let s = trim_end(l);
    assert forall|i: int| 0 <= i < k implies is_ws(#[trigger] s[i]) by {
        assert(s[i] == l[i]);
    }
    lemma_leading_ws_step(s, k);
    assert(s.skip(k)[0] == l[k]);
    assert(leading_ws(s.skip(k)) == 0);
    assert(s.take(k) =~= l.take(k));
}

/// Trimming keeps plain text plain.
pub proof fn lemma_trim_plain_parts(l: Seq<char>)
    requires
        plain(l),
    ensures
        plain(trim_start(l)),
        plain(trim_end(l)),
{
    lemma_leading_ws_bound(l);
    lemma_trailing_ws_bound(l);
    let a = trim_start(l);
    assert forall|j: int| 0 <= j < a.len() implies #[trigger] a[j] != '\n' && a[j] != '\r' by {
        assert(a[j] == l[j + leading_ws(l)]);
    }
    let b = trim_end(l);
    assert forall|j: int| 0 <= j < b.len() implies #[trigger] b[j] != '\n' && b[j] != '\r' by {
        assert(b[j] == l[j]);
    }
}

/// Splits `s` as `str::lines` does.
pub fn split_lines(s: &[char]) -> (out: Vec<Vec<char>>)
    ensures
        out@.len() == lines(s@).len(),
        forall|i: int| 0 <= i < out@.len() ==> (#[trigger] out@[i])@ == lines(s@)[i],
{
    let mut out: Vec<Vec<char>> = Vec::new();
    let mut start: usize = 0;
    assert(s@.skip(0) =~= s@);
    assert(out@.map_values(|v: Vec<char>| v@) =~= Seq::<Seq<char>>::empty());
    while start < s.len()
        invariant
            start <= s@.len(),
            forall|i: int| 0 <= i < out@.len() ==> (#[trigger] out@[i])@ == lines(s@)[i],
            lines(s@) =~= out@.map_values(|v: Vec<char>| v@) + lines(s@.skip(start as int)),
        decreases s@.len() - start,
    {
        let ghost rest = s@.skip(start as int);
        let mut end: usize = start;
        while end < s.len() && s[end] != '\n'
            invariant
                start <= end <= s@.len(),
                forall|j: int| start <= j < end ==> #[trigger] s@[j] != '\n',
            decreases s@.len() - end,
        {
            end = end + 1;
        }
        proof {
            assert forall|j: int| 0 <= j < end - start implies #[trigger] rest[j] != '\n' by {
                assert(rest[j] == s@[start + j]);
            }
            if end < s@.len() {
                assert(rest[end - start] == s@[end as int]);
            }
            lemma_first_index_exact(rest, '\n', end - start);
        }
        let mut piece = slice_chars(s, start, end);
        if end < s.len() {
            if piece.len() > 0 && piece[piece.len() - 1] == '\r' {
                piece.pop();
            }
            proof {
                assert(piece@ =~= strip_cr(rest.take(end - start)));
                assert(rest.skip(end - start + 1) =~= s@.skip(end + 1));
            }
            out.push(piece);
            start = end + 1;
        } else {
            proof {
                assert(rest =~= piece@);
                assert(s@.skip(s@.len() as int) =~= Seq::<char>::empty());
            }
            out.push(piece);
            start = end;
        }
        proof {
            assert(lines(s@) =~= out@.map_values(|v: Vec<char>| v@) + lines(
                s@.skip(start as int),
            ));
        }
    }
    proof {
        assert(s@.skip(start as int) =~= Seq::<char>::empty());
        assert(lines(s@) =~= out@.map_values(|v: Vec<char>| v@));
        assert forall|i: int| 0 <= i < out@.len() implies (#[trigger] out@[i])@ == lines(s@)[i] by {
            assert(out@.map_values(|v: Vec<char>| v@)[i] == out@[i]@);
        }
    }
    out
}

} // verus!

verus! {

/// The first position at which `pat` occurs in `s` (`str::find`).
pub open spec fn first_occurrence(s: Seq<char>, pat: Seq<char>) -> Option<int> {
    if exists|k: int| #[trigger] occurs_at(s, pat, k) {
        Some(
            choose|k: int|
                #[trigger] occurs_at(s, pat, k) && forall|j: int|
                    0 <= j < k ==> !#[trigger] occurs_at(s, pat, j),
        )
    } else {
        None
    }
}

proof fn lemma_first_occurrence(s: Seq<char>, pat: Seq<char>, k: int)
    requires
        occurs_at(s, pat, k),
        forall|j: int| 0 <= j < k ==> !#[trigger] occurs_at(s, pat, j),
    ensures
        first_occurrence(s, pat) == Some(k),
{
    assert(occurs_at(s, pat, k) && forall|j: int| 0 <= j < k ==> !#[trigger] occurs_at(s, pat, j));
    let c = choose|c: int|
        #[trigger] occurs_at(s, pat, c) && forall|j: int| 0 <= j < c ==> !#[trigger] occurs_at(s, pat, j);
    if c < k {
        assert(!occurs_at(s, pat, c));
    }
    if k < c {
        assert(!occurs_at(s, pat, k));
    }
}

/// The first position at which `pat` occurs in `s`.
pub fn find(s: &[char], pat: &[char]) -> (r: Option<usize>)
    ensures
        match r {
            Some(i) => first_occurrence(s@, pat@) == Some(i as int) && occurs_at(s@, pat@, i as int),
            None => first_occurrence(s@, pat@) is None,
        },
{
    let r = find_from(s, pat, 0);
    match r {
        Some(i) => {
            proof {
                lemma_first_occurrence(s@, pat@, i as int);
            }
        },
        None => {
            assert(!exists|k: int| #[trigger] occurs_at(s@, pat@, k)) by {
                assert forall|k: int| !#[trigger] occurs_at(s@, pat@, k) by {
                    if k < 0 {
                    }
                }
            }
        },
    }
    r
}

/// `s` with each pair `cc` (left to right, not overlapping) written as one `c`.
pub open spec fn undouble(s: Seq<char>, c: char) -> Seq<char>
    decreases s.len(),
{
    if s.len() == 0 {
        seq![]
    } else if s.len() >= 2 && s[0] == c && s[1] == c {
        seq![c] + undouble(s.skip(2), c)
    } else {
        seq![s[0]] + undouble(s.drop_first(), c)
    }
}

/// Writes each pair `cc` in `s` as one `c`, left to right.
pub fn undouble_chars(s: &[char], c: char) -> (out: Vec<char>)
    ensures
        out@ == undouble(s@, c),
{
    let mut out: Vec<char> = Vec::new();
    let mut i: usize = 0;
    assert(s@.skip(0) =~= s@);
    while i < s.len()
        invariant
            i <= s@.len(),
            out@ + undouble(s@.skip(i as int), c) == undouble(s@, c),
        decreases s@.len() - i,
    {
        let ghost rest = s@.skip(i as int);
        if i + 1 < s.len() && s[i] == c && s[i + 1] == c {
            out.push(c);
            assert(rest.skip(2) =~= s@.skip(i + 2));
            assert(out@ + undouble(s@.skip(i + 2), c) =~= undouble(s@, c));
            i = i + 2;
        } else {
            out.push(s[i]);
            assert(rest.drop_first() =~= s@.skip(i + 1));
            assert(out@ + undouble(s@.skip(i + 1), c) =~= undouble(s@, c));
            i = i + 1;
        }
    }
    assert(s@.skip(i as int) =~= Seq::<char>::empty());
    assert(out@ + Seq::<char>::empty() =~= out@);
    out
}

} // verus!

verus! {

/// The rest of `s` from the first occurrence of `pat` on.
pub open spec fn from_first(s: Seq<char>, pat: Seq<char>) -> Option<Seq<char>> {
    match first_occurrence(s, pat) {
        Some(k) => Some(s.skip(k)),
        None => None,
    }
}

/// The rest of `s` from the first occurrence of `pat` on.
pub fn skip_to(s: &[char], pat: &[char]) -> (r: Option<Vec<char>>)
    ensures
        match r {
            Some(rest) => from_first(s@, pat@) == Some(rest@),
            None => from_first(s@, pat@) is None,
        },
{
    match find(s, pat) {
        Some(k) => {
            let rest = slice_chars(s, k, s.len());
            assert(rest@ =~= s@.skip(k as int));
            Some(rest)
        },
        None => None,
    }
}

} // verus!

verus! {

/// A decimal numeral is never empty, and has more than one digit exactly
/// from ten on.
pub proof fn lemma_decimal_len(n: nat)
    ensures
        decimal(n).len() >= 1,
        (decimal(n).len() >= 2) == (n >= 10),
    decreases n,
{
    if n >= 10 {
        lemma_decimal_len(n / 10);
    }
}

/// Every character of a decimal numeral is an ASCII digit.
pub proof fn lemma_decimal_digits(n: nat)
    ensures
        forall|i: int| 0 <= i < decimal(n).len() ==> '0' <= #[trigger] decimal(n)[i] <= '9',
    decreases n,
{
    if n >= 10 {
        lemma_decimal_digits(n / 10);
        let prev = decimal(n / 10);
        assert forall|i: int| 0 <= i < decimal(n).len() implies '0' <= #[trigger] decimal(n)[i]
            <= '9' by {
            if i < prev.len() {
                assert(decimal(n)[i] == prev[i]);
            }
        }
    }
}

/// Different numbers have different decimal numerals.
pub proof fn lemma_decimal_injective(a: nat, b: nat)
    requires
        decimal(a) == decimal(b),
    ensures
        a == b,
    decreases a + b,
{
    lemma_decimal_len(a);
    lemma_decimal_len(b);
    if a >= 10 && b >= 10 {
        assert(decimal(a).drop_last() == decimal(a / 10));
        assert(decimal(b).drop_last() == decimal(b / 10));
        lemma_decimal_injective(a / 10, b / 10);
        assert(decimal(a).last() == digit_char((a % 10) as int));
        assert(decimal(b).last() == digit_char((b % 10) as int));
    } else if a < 10 && b < 10 {
        assert(decimal(a)[0] == digit_char(a as int));
        assert(decimal(b)[0] == digit_char(b as int));
    }
}

} // verus!
