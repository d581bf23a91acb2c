//! Character-level text helpers shared by the map keyvalue readers and the
//! particle-file header reader: ASCII case folding, whitespace trimming and
//! splitting, and the decimal integer grammar of Rust's `str::parse`.
use vstd::prelude::*;

verus! {

/// ASCII lowercase of one char; every other char is unchanged.
pub open spec fn spec_lower(c: char) -> char {
    if 'A' <= c && c <= 'Z' {
        ((c as u32) + 32) as char
    } else {
        c
    }
}

/// ASCII lowercase of a whole char sequence.
pub open spec fn spec_lower_seq(s: Seq<char>) -> Seq<char> {
    Seq::new(s.len(), |i: int| spec_lower(s[i]))
}

/// ASCII-case-insensitive equality of two char sequences.
pub open spec fn spec_ci_eq(a: Seq<char>, b: Seq<char>) -> bool {
    spec_lower_seq(a) == spec_lower_seq(b)
}

/// The ASCII whitespace set of `str::split_ascii_whitespace`.
pub open spec fn spec_is_ascii_ws(c: char) -> bool {
    c == ' ' || c == '\t' || c == '\n' || c == '\x0C' || c == '\r'
}

/// Unicode `White_Space`, the set `char::is_whitespace` (and so `str::trim`
/// and `str::split_whitespace`) uses.
pub open spec fn spec_is_unicode_ws(c: char) -> bool {
    let v = c as u32;
    ||| (0x09 <= v && v <= 0x0d)
    ||| v == 0x20
    ||| v == 0x85
    ||| v == 0xa0
    ||| v == 0x1680
    ||| (0x2000 <= v && v <= 0x200a)
    ||| v == 0x2028
    ||| v == 0x2029
    ||| v == 0x202f
    ||| v == 0x205f
    ||| v == 0x3000
}

/// Whitespace under one of the two splitting conventions.
pub open spec fn spec_is_ws(c: char, unicode: bool) -> bool {
    if unicode {
        spec_is_unicode_ws(c)
    } else {
        spec_is_ascii_ws(c)
    }
}

/// Number of leading chars of `s` that are not whitespace.
pub open spec fn spec_token_len(s: Seq<char>, unicode: bool) -> nat
    decreases s.len(),
{
    if s.len() == 0 || spec_is_ws(s[0], unicode) {
        0
    } else {
        1 + spec_token_len(s.drop_first(), unicode)
    }
}

pub proof fn lemma_token_len(s: Seq<char>, unicode: bool)
    ensures
        spec_token_len(s, unicode) <= s.len(),
        s.len() > 0 && !spec_is_ws(s[0], unicode) ==> spec_token_len(s, unicode) >= 1,
        forall|i: int|
            0 <= i < spec_token_len(s, unicode) ==> !spec_is_ws(#[trigger] s[i], unicode),
        spec_token_len(s, unicode) < s.len() ==> spec_is_ws(s[spec_token_len(s, unicode) as int], unicode),
    decreases s.len(),
{
    if s.len() > 0 && !spec_is_ws(s[0], unicode) {
        lemma_token_len(s.drop_first(), unicode);
        assert forall|i: int| 0 <= i < spec_token_len(s, unicode) implies !spec_is_ws(#[trigger] s[i], unicode) by {
            if i > 0 {
                assert(s[i] == s.drop_first()[i - 1]);
            }
        }
    }
}

/// The non-empty whitespace-separated tokens of `s`, in order
/// (`split_whitespace` when `unicode`, `split_ascii_whitespace` otherwise).
pub open spec fn spec_tokens(s: Seq<char>, unicode: bool) -> Seq<Seq<char>>
    decreases s.len(),
{
    if s.len() == 0 {
        Seq::empty()
    } else if spec_is_ws(s[0], unicode) {
        spec_tokens(s.drop_first(), unicode)
    } else {
        let n = spec_token_len(s, unicode);
        proof {
            lemma_token_len(s, unicode);
        }
        seq![s.take(n as int)] + spec_tokens(s.skip(n as int), unicode)
    }
}

/// Number of leading Unicode-whitespace chars of `s`.
pub open spec fn spec_ws_prefix(s: Seq<char>) -> nat
    decreases s.len(),
{
    if s.len() > 0 && spec_is_unicode_ws(s[0]) {
        1 + spec_ws_prefix(s.drop_first())
    } else {
        0
    }
}

/// Number of trailing Unicode-whitespace chars of `s`.
pub open spec fn spec_ws_suffix(s: Seq<char>) -> nat
    decreases s.len(),
{
    if s.len() > 0 && spec_is_unicode_ws(s.last()) {
        1 + spec_ws_suffix(s.drop_last())
    } else {
        0
    }
}

/// `str::trim`: `s` without its leading and trailing Unicode whitespace.
pub open spec fn spec_trim(s: Seq<char>) -> Seq<char> {
    let front = s.skip(spec_ws_prefix(s) as int);
    front.take(front.len() - spec_ws_suffix(front))
}

pub proof fn lemma_ws_prefix(s: Seq<char>)
    ensures
        spec_ws_prefix(s) <= s.len(),
    decreases s.len(),
{
    if s.len() > 0 && spec_is_unicode_ws(s[0]) {
        lemma_ws_prefix(s.drop_first());
    }
}

pub proof fn lemma_ws_suffix(s: Seq<char>)
    ensures
        spec_ws_suffix(s) <= s.len(),
    decreases s.len(),
{
    if s.len() > 0 && spec_is_unicode_ws(s.last()) {
        lemma_ws_suffix(s.drop_last());
    }
}

/// Value of an ASCII decimal digit.
pub open spec fn spec_digit(c: char) -> int {
    (c as u32) - ('0' as u32)
}

pub open spec fn spec_is_digit(c: char) -> bool {
    '0' <= c && c <= '9'
}

/// Decimal value of a sequence of ASCII digits (most significant first).
pub open spec fn spec_digits_value(d: Seq<char>) -> int
    decreases d.len(),
{
    if d.len() == 0 {
        0
    } else {
        spec_digits_value(d.drop_last()) * 10 + spec_digit(d.last())
    }
}

pub open spec fn spec_all_digits(d: Seq<char>) -> bool {
    forall|i: int| 0 <= i < d.len() ==> spec_is_digit(#[trigger] d[i])
}

/// The decimal integer grammar of Rust's `str::parse` for an integer type
/// whose range is `min..=max`: an optional `+` (or `-` when the type is
/// signed, `min < 0`), then at least one ASCII digit, with the value in
/// range; no surrounding whitespace is accepted.
pub open spec fn spec_parse_int(t: Seq<char>, min: int, max: int) -> Option<int> {
    let digits = spec_int_digits(t, min);
    let magnitude = spec_digits_value(digits);
    let value = if spec_int_negative(t, min) {
        -magnitude
    } else {
        magnitude
    };
    if digits.len() > 0 && spec_all_digits(digits) && min <= value && value <= max {
        Some(value)
    } else {
        None
    }
}

/// Whether `t` starts with a minus sign that the type's range admits.
pub open spec fn spec_int_negative(t: Seq<char>, min: int) -> bool {
    t.len() > 0 && t[0] == '-' && min < 0
}

/// The digits of `t` after its optional sign.
pub open spec fn spec_int_digits(t: Seq<char>, min: int) -> Seq<char> {
    if t.len() > 0 && (t[0] == '+' || spec_int_negative(t, min)) {
        t.drop_first()
    } else {
        t
    }
}

pub proof fn lemma_digits_value_nonneg(d: Seq<char>)
    requires
        spec_all_digits(d),
    ensures
        spec_digits_value(d) >= 0,
    decreases d.len(),
{
    if d.len() > 0 {
        lemma_digits_value_nonneg(d.drop_last());
    }
}

pub fn ascii_lower(c: char) -> (r: char)
    ensures
        r == spec_lower(c),
{
    if 'A' <= c && c <= 'Z' {
        let b = c as u8;
        ((b + 32) as char)
    } else {
        c
    }
}

/// ASCII lowercase of each char of `s`.
pub fn lower_chars(s: &Vec<char>) -> (r: Vec<char>)
    ensures
        r@ == spec_lower_seq(s@),
{
    let mut r: Vec<char> = Vec::new();
    let mut i: usize = 0;
    while i < s.len()
        invariant
            i <= s.len(),
            r@ =~= spec_lower_seq(s@.take(i as int)),
        decreases s.len() - i,
    {
        r.push(ascii_lower(s[i]));
        i = i + 1;
        assert(r@ =~= spec_lower_seq(s@.take(i as int)));
    }
    assert(s@.take(i as int) =~= s@);
    r
}

/// ASCII-case-insensitive equality (`str::eq_ignore_ascii_case`).
pub fn ci_eq(a: &[char], b: &[char]) -> (r: bool)
    ensures
        r == spec_ci_eq(a@, b@),
{
    if a.len() != b.len() {
        proof {
            assert(spec_lower_seq(a@).len() != spec_lower_seq(b@).len());
        }
        return false;
    }
    let mut i: usize = 0;
    while i < a.len()
        invariant
            a.len() == b.len(),
            i <= a.len(),
            forall|j: int| 0 <= j < i ==> spec_lower(a@[j]) == spec_lower(b@[j]),
        decreases a.len() - i,
    {
        if ascii_lower(a[i]) != ascii_lower(b[i]) {
            proof {
                assert(spec_lower_seq(a@)[i as int] != spec_lower_seq(b@)[i as int]);
            }
            return false;
        }
        i = i + 1;
    }
    assert(spec_lower_seq(a@) =~= spec_lower_seq(b@));
    true
}

/// Exact char-sequence equality.
pub fn chars_eq(a: &[char], b: &[char]) -> (r: bool)
    ensures
        r == (a@ == b@),
{
    if a.len() != b.len() {
        return false;
    }
    let mut i: usize = 0;
    while i < a.len()
        invariant
            a.len() == b.len(),
            i <= a.len(),
            forall|j: int| 0 <= j < i ==> a@[j] == b@[j],
        decreases a.len() - i,
    {
        if a[i] != b[i] {
            return false;
        }
        i = i + 1;
    }
    assert(a@ =~= b@);
    true
}

pub fn is_ascii_ws(c: char) -> (r: bool)
    ensures
        r == spec_is_ascii_ws(c),
{
    c == ' ' || c == '\t' || c == '\n' || c == '\x0C' || c == '\r'
}

pub fn is_unicode_ws(c: char) -> (r: bool)
    ensures
        r == spec_is_unicode_ws(c),
{
    let v = c as u32;
    (0x09 <= v && v <= 0x0d) || v == 0x20 || v == 0x85 || v == 0xa0 || v == 0x1680 || (0x2000
        <= v && v <= 0x200a) || v == 0x2028 || v == 0x2029 || v == 0x202f || v == 0x205f || v
        == 0x3000
}

pub fn is_ws(c: char, unicode: bool) -> (r: bool)
    ensures
        r == spec_is_ws(c, unicode),
{
    if unicode {
        is_unicode_ws(c)
    } else {
        is_ascii_ws(c)
    }
}

/// The chars of `s`, in order.
pub fn str_chars(s: &str) -> (v: Vec<char>)
    ensures
        v@ == s@,
{
    let mut v: Vec<char> = Vec::new();
    for c in it: s.chars()
        invariant
            v@ == it.seq().take(it.index() as int),
            it.seq() == s@,
    {
        v.push(c);
    }
    v
}

/// `s[start..end]` as a new vector.
pub fn slice_chars(s: &[char], start: usize, end: usize) -> (r: Vec<char>)
    requires
        start <= end <= s.len(),
    ensures
        r@ == s@.subrange(start as int, end as int),
{
    let mut r: Vec<char> = Vec::new();
    let mut i = start;
    while i < end
        invariant
            start <= i <= end <= s.len(),
            r@ =~= s@.subrange(start as int, i as int),
        decreases end - i,
    {
        r.push(s[i]);
        i = i + 1;
    }
    r
}

/// Splits `s` into its whitespace-separated tokens.
pub fn split_tokens(s: &[char], unicode: bool) -> (r: Vec<Vec<char>>)
    ensures
        r@.len() == spec_tokens(s@, unicode).len(),
        forall|i: int| 0 <= i < r@.len() ==> #[trigger] r@[i]@ == spec_tokens(s@, unicode)[i],
{
    let mut r: Vec<Vec<char>> = Vec::new();
    let ghost mut acc: Seq<Seq<char>> = Seq::empty();
    let mut i: usize = 0;
    assert(s@.skip(0) =~= s@);
    assert(acc + spec_tokens(s@, unicode) =~= spec_tokens(s@, unicode));
    while i < s.len()
        invariant
            i <= s.len(),
            r@.len() == acc.len(),
            forall|k: int| 0 <= k < r@.len() ==> #[trigger] r@[k]@ == acc[k],
            spec_tokens(s@, unicode) == acc + spec_tokens(s@.skip(i as int), unicode),
        decreases s.len() - i,
    {
        let ghost rest = s@.skip(i as int);
        if is_ws(s[i], unicode) {
            proof {
                assert(rest[0] == s@[i as int]);
                assert(rest.drop_first() =~= s@.skip(i + 1));
            }
            i = i + 1;
        } else {
            let start = i;
            while i < s.len() && !is_ws(s[i], unicode)
                invariant
                    start <= i <= s.len(),
                    forall|k: int| start <= k < i ==> !spec_is_ws(#[trigger] s@[k], unicode),
                decreases s.len() - i,
            {
                i = i + 1;
            }
            let token = slice_chars(s, start, i);
            proof {
                assert(rest[0] == s@[start as int]);
                lemma_token_len_exact(rest, (i - start) as nat, unicode);
                assert(rest.take((i - start) as int) =~= s@.subrange(start as int, i as int));
                assert(rest.skip((i - start) as int) =~= s@.skip(i as int));
                acc = acc.push(token@);
                assert(seq![token@] + spec_tokens(s@.skip(i as int), unicode) =~= spec_tokens(rest, unicode));
                assert(acc + spec_tokens(s@.skip(i as int), unicode) =~= (acc.drop_last() + spec_tokens(rest, unicode)));
            }
            r.push(token);
        }
    }
    proof {
        assert(s@.skip(i as int) =~= Seq::<char>::empty());
        assert(acc + Seq::<Seq<char>>::empty() =~= acc);
    }
    r
}

/// A run of exactly `n` non-whitespace chars followed by whitespace or the
/// end has token length `n`.
pub proof fn lemma_token_len_exact(s: Seq<char>, n: nat, unicode: bool)
    requires
        n <= s.len(),
        forall|k: int| 0 <= k < n ==> !spec_is_ws(#[trigger] s[k], unicode),
        n < s.len() ==> spec_is_ws(s[n as int], unicode),
    ensures
        spec_token_len(s, unicode) == n,
    decreases n,
{
    if n > 0 {
        assert(!spec_is_ws(s[0], unicode));
        assert forall|k: int| 0 <= k < n - 1 implies !spec_is_ws(#[trigger] s.drop_first()[k], unicode) by {
            assert(s.drop_first()[k] == s[k + 1]);
        }
        lemma_token_len_exact(s.drop_first(), (n - 1) as nat, unicode);
    }
}

/// `str::trim` on a char vector.
pub fn trim_chars(s: &[char]) -> (r: Vec<char>)
    ensures
        r@ == spec_trim(s@),
{
    let mut start: usize = 0;
    assert(s@.skip(0) =~= s@);
    while start < s.len() && is_unicode_ws(s[start])
        invariant
            start <= s.len(),
            spec_ws_prefix(s@) == start + spec_ws_prefix(s@.skip(start as int)),
        decreases s.len() - start,
    {
        proof {
            let rest = s@.skip(start as int);
            assert(rest[0] == s@[start as int]);
            assert(rest.drop_first() =~= s@.skip(start + 1));
        }
        start = start + 1;
    }
    proof {
        let rest = s@.skip(start as int);
        if start < s.len() {
            assert(rest[0] == s@[start as int]);
        } else {
            assert(rest.len() == 0);
        }
    }
    let mut end: usize = s.len();
    let ghost front = s@.skip(start as int);
    while end > start && is_unicode_ws(s[end - 1])
        invariant
            start <= end <= s.len(),
            front == s@.skip(start as int),
            spec_ws_suffix(front) == (s.len() - end) + spec_ws_suffix(s@.subrange(start as int, end as int)),
        decreases end - start,
    {
        proof {
            let mid = s@.subrange(start as int, end as int);
            assert(mid.last() == s@[end - 1]);
            assert(mid.drop_last() =~= s@.subrange(start as int, end - 1));
        }
        end = end - 1;
    }
    proof {
        let mid = s@.subrange(start as int, end as int);
        if end > start {
            assert(mid.last() == s@[end - 1]);
        } else {
            assert(mid.len() == 0);
        }
        assert(front.take(front.len() - spec_ws_suffix(front)) =~= mid);
    }
    slice_chars(s, start, end)
}

/// Rust's `str::parse` for an integer type with range `min..=max`
/// (`min` is `0` or negative).
pub fn parse_int(t: &[char], min: i64, max: i64) -> (r: Option<i64>)
    requires
        -0x8000_0000 <= min <= 0,
        0 <= max <= 0xffff_ffff,
    ensures
        match spec_parse_int(t@, min as int, max as int) {
            Some(v) => r == Some(v as i64),
            None => r is None,
        },
{
    let negative = t.len() > 0 && t[0] == '-' && min < 0;
    let signed = t.len() > 0 && (t[0] == '+' || negative);
    let start: usize = if signed {
        1
    } else {
        0
    };
    let ghost digits = spec_int_digits(t@, min as int);
    assert(digits =~= t@.skip(start as int));
    assert(negative == (t@.len() > 0 && t@[0] == '-' && min < 0));
    assert(signed == (t@.len() > 0 && (t@[0] == '+' || negative)));
    if start >= t.len() {
        return None;
    }
    let limit: i64 = if negative {
        -min
    } else {
        max
    };
    let mut value: i64 = 0;
    let mut i = start;
    while i < t.len()
        invariant
            start <= i <= t.len(),
            digits == t@.skip(start as int),
            digits == spec_int_digits(t@, min as int),
            limit == (if spec_int_negative(t@, min as int) { -min } else { max as int }),
            -0x8000_0000 <= min <= 0,
            0 <= max <= 0xffff_ffff,
            0 <= limit <= 0xffff_ffff,
            0 <= value <= limit,
            spec_all_digits(t@.subrange(start as int, i as int)),
            value == spec_digits_value(t@.subrange(start as int, i as int)),
        decreases t.len() - i,
    {
        let c = t[i];
        if !('0' <= c && c <= '9') {
            proof {
                assert(digits[i - start] == c);
                assert(!spec_is_digit(digits[i - start]));
                assert(!spec_all_digits(digits));
                assert(spec_parse_int(t@, min as int, max as int) is None);
            }
            return None;
        }
        let d = (c as u32 - '0' as u32) as i64;
        proof {
            let sub = t@.subrange(start as int, i + 1);
            assert(sub.drop_last() =~= t@.subrange(start as int, i as int));
            assert(sub.last() == c);
        }
        let next = value * 10 + d;
        if next > limit {
            proof {
                let sub = t@.subrange(start as int, i + 1);
                assert(spec_digits_value(sub) > limit);
                assert(spec_all_digits(sub));
                lemma_digits_value_prefix_monotone(digits, (i + 1 - start) as nat);
                assert(sub =~= digits.take((i + 1 - start) as int));
                if spec_all_digits(digits) {
                    assert(spec_digits_value(digits) > limit);
                }
                assert(spec_parse_int(t@, min as int, max as int) is None);
            }
            return None;
        }
        value = next;
        i = i + 1;
    }
    proof {
        assert(t@.subrange(start as int, i as int) =~= digits);
    }
    if negative {
        Some(-value)
    } else {
        Some(value)
    }
}

/// Rust's `str::parse::<usize>`.
pub fn parse_usize(t: &[char]) -> (r: Option<usize>)
    ensures
        match spec_parse_int(t@, 0, usize::MAX as int) {
            Some(v) => r == Some(v as usize),
            None => r is None,
        },
{
    let signed = t.len() > 0 && t[0] == '+';
    let start: usize = if signed {
        1
    } else {
        0
    };
    let ghost digits = spec_int_digits(t@, 0);
    assert(digits =~= t@.skip(start as int));
    if start >= t.len() {
        return None;
    }
    let mut value: usize = 0;
    let mut i = start;
    while i < t.len()
        invariant
            start <= i <= t.len(),
            digits == t@.skip(start as int),
            digits == spec_int_digits(t@, 0),
            spec_all_digits(t@.subrange(start as int, i as int)),
            value == spec_digits_value(t@.subrange(start as int, i as int)),
        decreases t.len() - i,
    {
        let c = t[i];
        if !('0' <= c && c <= '9') {
            proof {
                assert(digits[i - start] == c);
                assert(!spec_is_digit(digits[i - start]));
            }
            return None;
        }
        let d = (c as u32 - '0' as u32) as usize;
        proof {
            let sub = t@.subrange(start as int, i + 1);
            assert(sub.drop_last() =~= t@.subrange(start as int, i as int));
            assert(sub.last() == c);
        }
        let next = match value.checked_mul(10) {
            Some(m) => m.checked_add(d),
            None => None,
        };
        match next {
            Some(n) => {
                value = n;
            },
            None => {
                proof {
                    let sub = t@.subrange(start as int, i + 1);
                    assert(spec_digits_value(sub) > usize::MAX);
                    assert(spec_all_digits(sub));
                    lemma_digits_value_prefix_monotone(digits, (i + 1 - start) as nat);
                    assert(sub =~= digits.take((i + 1 - start) as int));
                }
                return None;
            },
        }
        i = i + 1;
    }
    proof {
        assert(t@.subrange(start as int, i as int) =~= digits);
    }
    Some(value)
}

/// Rust's `str::parse::<u64>`.
pub fn parse_u64(t: &[char]) -> (r: Option<u64>)
    ensures
        match spec_parse_int(t@, 0, u64::MAX as int) {
            Some(v) => r == Some(v as u64),
            None => r is None,
        },
{
    let signed = t.len() > 0 && t[0] == '+';
    let start: usize = if signed {
        1
    } else {
        0
    };
    let ghost digits = spec_int_digits(t@, 0);
    assert(digits =~= t@.skip(start as int));
    if start >= t.len() {
        return None;
    }
    let mut value: u64 = 0;
    let mut i = start;
    while i < t.len()
        invariant
            start <= i <= t.len(),
            digits == t@.skip(start as int),
            digits == spec_int_digits(t@, 0),
            spec_all_digits(t@.subrange(start as int, i as int)),
            value == spec_digits_value(t@.subrange(start as int, i as int)),
        decreases t.len() - i,
    {
        let c = t[i];
        if !('0' <= c && c <= '9') {
            proof {
                assert(digits[i - start] == c);
                assert(!spec_is_digit(digits[i - start]));
            }
            return None;
        }
        let d = (c as u32 - '0' as u32) as u64;
        proof {
            let sub = t@.subrange(start as int, i + 1);
            assert(sub.drop_last() =~= t@.subrange(start as int, i as int));
            assert(sub.last() == c);
        }
        let next = match value.checked_mul(10) {
            Some(m) => m.checked_add(d),
            None => None,
        };
        match next {
            Some(n) => {
                value = n;
            },
            None => {
                proof {
                    let sub = t@.subrange(start as int, i + 1);
                    assert(spec_digits_value(sub) > u64::MAX);
                    assert(spec_all_digits(sub));
                    lemma_digits_value_prefix_monotone(digits, (i + 1 - start) as nat);
                    assert(sub =~= digits.take((i + 1 - start) as int));
                }
                return None;
            },
        }
        i = i + 1;
    }
    proof {
        assert(t@.subrange(start as int, i as int) =~= digits);
    }
    Some(value)
}

/// A longer digit string never has a smaller value than its prefix.
pub proof fn lemma_digits_value_prefix_monotone(d: Seq<char>, n: nat)
    requires
        n <= d.len(),
        spec_all_digits(d.take(n as int)),
    ensures
        spec_all_digits(d) ==> spec_digits_value(d) >= spec_digits_value(d.take(n as int)),
    decreases d.len(),
{
    if spec_all_digits(d) && n < d.len() {
        assert(d.drop_last().take(n as int) =~= d.take(n as int));
        assert(spec_all_digits(d.drop_last()));
        lemma_digits_value_prefix_monotone(d.drop_last(), n);
        lemma_digits_value_nonneg(d.drop_last());
    } else if n == d.len() {
        assert(d.take(n as int) =~= d);
    }
}

/// `String::from_iter` over the chars of `s`: a `String` holding exactly
/// those chars, in order (what std documents for collecting chars into a
/// `String`).
#[verifier::external_body]
pub(crate) fn string_from_chars(s: &[char]) -> (r: String)
    ensures
        r@ == s@,
{
    String::from_iter(s.iter())
}

} // verus!
