//! Character-level text helpers shared by the formatting and parsing code.

use vstd::prelude::*;

verus! {

/// The decimal digit for `d`.
pub open spec fn digit_char(d: nat) -> char {
    if d == 0 { '0' }
    else if d == 1 { '1' }
    else if d == 2 { '2' }
    else if d == 3 { '3' }
    else if d == 4 { '4' }
    else if d == 5 { '5' }
    else if d == 6 { '6' }
    else if d == 7 { '7' }
    else if d == 8 { '8' }
    else { '9' }
}

/// Decimal representation of `n`, without leading zeros.
pub open spec fn decimal(n: nat) -> Seq<char>
    decreases n,
{
    if n < 10 {
        seq![digit_char(n)]
    } else {
        decimal(n / 10).push(digit_char(n % 10))
    }
}

/// `n` in decimal, left-padded with zeros to at least `width` characters.
pub open spec fn zero_padded(n: nat, width: nat) -> Seq<char> {
    let d = decimal(n);
    if d.len() >= width {
        d
    } else {
        Seq::new((width - d.len()) as nat, |i: int| '0') + d
    }
}

/// Appends `c` to `s` (`String::push`).
#[verifier::external_body]
pub fn push_char(s: &mut String, c: char)
    ensures
        final(s)@ == old(s)@.push(c),
{
    s.push(c)
}

fn digit_of(d: u128) -> (c: char)
    requires
        d < 10,
    ensures
        c == digit_char(d as nat),
{
    if d == 0 { '0' }
    else if d == 1 { '1' }
    else if d == 2 { '2' }
    else if d == 3 { '3' }
    else if d == 4 { '4' }
    else if d == 5 { '5' }
    else if d == 6 { '6' }
    else if d == 7 { '7' }
    else if d == 8 { '8' }
    else { '9' }
}

/// Appends the decimal representation of `n` to `s`.
pub fn push_decimal(s: &mut String, n: u128)
    ensures
        final(s)@ == old(s)@ + decimal(n as nat),
    decreases n,
{
    if n >= 10 {
        push_decimal(s, n / 10);
    }
    let c = digit_of(n % 10);
    push_char(s, c);
    proof {
        assert(old(s)@ + decimal(n as nat) =~= (if n >= 10 {
            old(s)@ + decimal((n / 10) as nat)
        } else {
            old(s)@
        }).push(c));
    }
}

/// Appends `n` in decimal, zero-padded to at least `width` characters.
pub fn push_zero_padded(s: &mut String, n: u128, width: usize)
    ensures
        final(s)@ == old(s)@ + zero_padded(n as nat, width as nat),
{
    let len = decimal_len(n);
    let mut k: usize = len;
    let ghost start = s@;
    while k < width
        invariant
            len == decimal(n as nat).len(),
            len <= k <= width || (k == len && len >= width),
            s@ == start + Seq::new((k - len) as nat, |i: int| '0'),
        decreases width - k,
    {
        push_char(s, '0');
        k = k + 1;
        proof {
            assert(s@ =~= start + Seq::new((k - len) as nat, |i: int| '0'));
        }
    }
    let ghost before = s@;
    push_decimal(s, n);
    proof {
        if len >= width {
            assert(Seq::new((k - len) as nat, |i: int| '0') =~= Seq::<char>::empty());
            assert(s@ =~= start + zero_padded(n as nat, width as nat));
        } else {
            assert(s@ =~= start + zero_padded(n as nat, width as nat));
        }
    }
}

/// Number of decimal digits of `n`.
pub fn decimal_len(n: u128) -> (len: usize)
    ensures
        len == decimal(n as nat).len(),
        len <= 39,
    decreases n,
{
    if n < 10 {
        1
    } else {
        let l = decimal_len(n / 10);
        proof {
            assert(decimal(n as nat).len() == decimal((n / 10) as nat).len() + 1);
            lemma_decimal_len_bound(n as nat);
        }
        l + 1
    }
}

pub open spec fn pow10(k: nat) -> nat
    decreases k,
{
    if k == 0 {
        1
    } else {
        10 * pow10((k - 1) as nat)
    }
}

proof fn lemma_decimal_len_bound(n: nat)
    requires
        n <= u128::MAX,
    ensures
        decimal(n).len() <= 39,
{
    reveal_with_fuel(pow10, 40);
    assert(pow10(39) == 1000000000000000000000000000000000000000nat);
    lemma_decimal_len_pow(n, 39);
}

/// `n` has at most `k` digits when `n < 10^k`.
proof fn lemma_decimal_len_pow(n: nat, k: nat)
    requires
        k >= 1,
        n < pow10(k),
    ensures
        decimal(n).len() <= k,
    decreases k,
{
    if n >= 10 {
        assert(k >= 2) by {
            if k == 1 {
                assert(pow10(1) == 10) by {
                    reveal_with_fuel(pow10, 2);
                }
            }
        }
        assert(n / 10 < pow10((k - 1) as nat));
        lemma_decimal_len_pow(n / 10, (k - 1) as nat);
    }
}

/// The characters of `s`, in order.
pub fn chars_of(s: &str) -> (v: Vec<char>)
    ensures
        v@ == s@,
{
    let mut v: Vec<char> = Vec::new();
    for c in it: s.chars()
        invariant
            v@ == it.seq().take(it.index() as int),
    {
        v.push(c);
    }
    v
}

/// Unicode `White_Space`, as `char::is_whitespace` decides it.
pub open spec fn is_ws(c: char) -> bool {
    let u = c as u32;
    (0x9 <= u <= 0xd) || u == 0x20 || u == 0x85 || u == 0xa0 || u == 0x1680 || (0x2000 <= u
        <= 0x200a) || u == 0x2028 || u == 0x2029 || u == 0x202f || u == 0x205f || u == 0x3000
}

pub fn is_whitespace(c: char) -> (r: bool)
    ensures
        r == is_ws(c),
{
    let u = c as u32;
    (0x9 <= u && u <= 0xd) || u == 0x20 || u == 0x85 || u == 0xa0 || u == 0x1680 || (0x2000 <= u
        && u <= 0x200a) || u == 0x2028 || u == 0x2029 || u == 0x202f || u == 0x205f || u == 0x3000
}

/// `s` without its leading whitespace.
pub open spec fn trim_start(s: Seq<char>) -> Seq<char>
    decreases s.len(),
{
    if s.len() > 0 && is_ws(s[0]) {
        trim_start(s.drop_first())
    } else {
        s
    }
}

/// `s` without its trailing whitespace.
pub open spec fn trim_end(s: Seq<char>) -> Seq<char>
    decreases s.len(),
{
    if s.len() > 0 && is_ws(s.last()) {
        trim_end(s.drop_last())
    } else {
        s
    }
}

/// `s` without leading and trailing whitespace (`str::trim`).
pub open spec fn trim(s: Seq<char>) -> Seq<char> {
    trim_end(trim_start(s))
}

/// Number of leading whitespace characters of `s.skip(i)`.
pub proof fn lemma_trim_start_skip(s: Seq<char>, i: int)
    requires
        0 <= i <= s.len(),
        forall|k: int| 0 <= k < i ==> is_ws(#[trigger] s[k]),
    ensures
        trim_start(s) == trim_start(s.skip(i)),
    decreases i,
{
    if i > 0 {
        lemma_trim_start_skip(s, i - 1);
        assert(s.skip(i - 1).drop_first() =~= s.skip(i));
        assert(s.skip(i - 1)[0] == s[i - 1]);
    } else {
        assert(s.skip(0) =~= s);
    }
}

pub proof fn lemma_trim_end_take(s: Seq<char>, j: int)
    requires
        0 <= j <= s.len(),
        forall|k: int| j <= k < s.len() ==> is_ws(#[trigger] s[k]),
    ensures
        trim_end(s) == trim_end(s.take(j)),
    decreases s.len() - j,
{
    if j < s.len() {
        lemma_trim_end_take(s, j + 1);
        assert(s.take(j + 1).drop_last() =~= s.take(j));
        assert(s.take(j + 1).last() == s[j]);
    } else {
        assert(s.take(j) =~= s);
    }
}

/// Bounds `(lo, hi)` of the trimmed part of `s`.
pub fn trim_bounds(s: &Vec<char>) -> (r: (usize, usize))
    ensures
        r.0 <= r.1 <= s@.len(),
        s@.subrange(r.0 as int, r.1 as int) == trim(s@),
        trim_start(s@) == s@.skip(r.0 as int),
{
    let mut lo: usize = 0;
    while lo < s.len() && is_whitespace(s[lo])
        invariant
            lo <= s@.len(),
            forall|k: int| 0 <= k < lo ==> is_ws(#[trigger] s@[k]),
        decreases s@.len() - lo,
    {
        lo = lo + 1;
    }
    proof {
        lemma_trim_start_skip(s@, lo as int);
        if lo < s@.len() {
            assert(!is_ws(s@.skip(lo as int)[0]));
        }
        assert(trim_start(s@.skip(lo as int)) == s@.skip(lo as int));
    }
    let mut hi: usize = s.len();
    while hi > lo && is_whitespace(s[hi - 1])
        invariant
            lo <= hi <= s@.len(),
            forall|k: int| hi <= k < s@.len() ==> is_ws(#[trigger] s@[k]),
        decreases hi,
    {
        hi = hi - 1;
    }
    proof {
        let t = s@.skip(lo as int);
        assert forall|k: int| hi - lo <= k < t.len() implies is_ws(#[trigger] t[k]) by {
            assert(t[k] == s@[k + lo]);
        }
        lemma_trim_end_take(t, hi - lo);
        let u = t.take(hi - lo);
        if hi > lo {
            assert(u.last() == s@[hi - 1]);
            assert(trim_end(u) == u);
        } else {
            assert(u.len() == 0);
        }
        assert(u =~= s@.subrange(lo as int, hi as int));
    }
    (lo, hi)
}

/// The string made of the characters `v[lo..hi]`.
pub fn string_of(v: &Vec<char>, lo: usize, hi: usize) -> (r: String)
    requires
        lo <= hi <= v@.len(),
    ensures
        r@ == v@.subrange(lo as int, hi as int),
{
    let mut r = String::new();
    let mut i = lo;
    while i < hi
        invariant
            lo <= i <= hi <= v@.len(),
            r@ == v@.subrange(lo as int, i as int),
        decreases hi - i,
    {
        push_char(&mut r, v[i]);
        i = i + 1;
        proof {
            assert(r@ =~= v@.subrange(lo as int, i as int));
        }
    }
    r
}

/// `s.trim()` as a new string.
pub fn trimmed(s: &str) -> (r: String)
    ensures
        r@ == trim(s@),
{
    let v = chars_of(s);
    let (lo, hi) = trim_bounds(&v);
    string_of(&v, lo, hi)
}

/// ASCII lowercase of one character (`char::to_ascii_lowercase`).
pub open spec fn ascii_lower(c: char) -> char {
    if 'A' <= c <= 'Z' {
        ((c as u32) + 32) as char
    } else {
        c
    }
}

pub open spec fn lower(s: Seq<char>) -> Seq<char> {
    s.map_values(|c: char| ascii_lower(c))
}

pub fn to_ascii_lower(c: char) -> (r: char)
    ensures
        r == ascii_lower(c),
{
    if 'A' <= c && c <= 'Z' {
        ((c as u8) + 32) as char
    } else {
        c
    }
}

pub fn lower_chars(v: &Vec<char>) -> (r: Vec<char>)
    ensures
        r@ == lower(v@),
{
    let mut r: Vec<char> = Vec::new();
    let mut i: usize = 0;
    while i < v.len()
        invariant
            i <= v@.len(),
            r@ == lower(v@.take(i as int)),
        decreases v@.len() - i,
    {
        r.push(to_ascii_lower(v[i]));
        i = i + 1;
        proof {
            assert(lower(v@.take(i as int)) =~= lower(v@.take(i - 1)).push(ascii_lower(v@[i - 1])));
        }
    }
    proof {
        assert(v@.take(i as int) =~= v@);
    }
    r
}

/// `pat` occurs in `s` at position `i`.
pub open spec fn occurs_at(s: Seq<char>, pat: Seq<char>, i: int) -> bool {
    0 <= i && i + pat.len() <= s.len() && s.subrange(i, i + pat.len()) == pat
}

/// The first position, at or after `i`, where `pat` occurs in `s`.
pub open spec fn find_from(s: Seq<char>, pat: Seq<char>, i: int) -> Option<int>
    decreases s.len() - i,
{
    if i < 0 || i + pat.len() > s.len() {
        None
    } else if occurs_at(s, pat, i) {
        Some(i)
    } else {
        proof {
            if pat.len() == 0 {
                assert(s.subrange(i, i) =~= pat);
            }
        }
        find_from(s, pat, i + 1)
    }
}

/// The first position where `pat` occurs in `s` (`str::find`).
pub open spec fn find(s: Seq<char>, pat: Seq<char>) -> Option<int> {
    find_from(s, pat, 0)
}

/// `pat` occurs somewhere in `s` (`str::contains`).
pub open spec fn contains(s: Seq<char>, pat: Seq<char>) -> bool {
    find(s, pat) is Some
}

fn occurs_at_exec(s: &Vec<char>, pat: &Vec<char>, i: usize) -> (r: bool)
    requires
        i + pat@.len() <= s@.len(),
    ensures
        r == occurs_at(s@, pat@, i as int),
{
    let slen = s.len();
    let mut k: usize = 0;
    while k < pat.len()
        invariant
            slen == s@.len(),
            i + pat@.len() <= s@.len(),
            k <= pat@.len(),
            forall|m: int| 0 <= m < k ==> s@[i + m] == pat@[m],
        decreases pat@.len() - k,
    {
        if s[i + k] != pat[k] {
            proof {
                assert(s@.subrange(i as int, i + pat@.len())[k as int] != pat@[k as int]);
            }
            return false;
        }
        k = k + 1;
    }
    proof {
        assert(s@.subrange(i as int, i + pat@.len()) =~= pat@);
    }
    true
}

/// The first position at or after `from` where `pat` occurs in `s`.
pub fn find_chars_from(s: &Vec<char>, pat: &Vec<char>, from: usize) -> (r: Option<usize>)
    requires
        from <= s@.len(),
    ensures
        match r {
            Some(i) => find_from(s@, pat@, from as int) == Some(i as int),
            None => find_from(s@, pat@, from as int) is None,
        },
{
    if pat.len() > s.len() {
        return None;
    }
    let slen = s.len();
    let last = slen - pat.len();
    if from > last {
        return None;
    }
    let mut i = from;
    loop
        invariant
            slen == s@.len(),
            from <= i <= last,
            last + pat@.len() == s@.len(),
            find_from(s@, pat@, from as int) == find_from(s@, pat@, i as int),
        decreases last - i,
    {
        if occurs_at_exec(s, pat, i) {
            return Some(i);
        }
        if i == last {
            return None;
        }
        i = i + 1;
    }
}

/// What `find_from` finds: the first occurrence at or after `i`.
pub proof fn lemma_find_from(s: Seq<char>, pat: Seq<char>, i: int)
    requires
        0 <= i,
    ensures
        match find_from(s, pat, i) {
            Some(k) => i <= k && occurs_at(s, pat, k) && forall|m: int|
                i <= m < k ==> !#[trigger] occurs_at(s, pat, m),
            None => forall|m: int| i <= m ==> !#[trigger] occurs_at(s, pat, m),
        },
    decreases s.len() - i,
{
    if i + pat.len() > s.len() {
    } else {
        if pat.len() == 0 {
            assert(s.subrange(i, i) =~= pat);
        }
        if !occurs_at(s, pat, i) {
            lemma_find_from(s, pat, i + 1);
        }
    }
}

/// `s` with every occurrence of `from` replaced by `to`, scanning left to
/// right without overlaps (`str::replace`).
pub open spec fn replace_all(s: Seq<char>, from: Seq<char>, to: Seq<char>) -> Seq<char>
    decreases s.len(),
{
    if from.len() == 0 {
        s
    } else {
        match find(s, from) {
            None => s,
            Some(i) => {
                proof {
                    lemma_find_from(s, from, 0);
                }
                s.take(i) + to + replace_all(s.skip(i + from.len()), from, to)
            },
        }
    }
}

pub proof fn lemma_find_from_shift(s: Seq<char>, pat: Seq<char>, i: int, j: int)
    requires
        0 <= j <= i,
        j <= s.len(),
    ensures
        find_from(s, pat, i) == match find_from(s.skip(j), pat, i - j) {
            Some(k) => Some(k + j),
            None => None::<int>,
        },
    decreases s.len() - i,
{
    let t = s.skip(j);
    if i < 0 || i + pat.len() > s.len() {
    } else {
        if pat.len() == 0 {
            assert(s.subrange(i, i) =~= pat);
        }
        assert(occurs_at(s, pat, i) == occurs_at(t, pat, i - j)) by {
            assert(s.subrange(i, i + pat.len()) =~= t.subrange(i - j, i - j + pat.len()));
        }
        if !occurs_at(s, pat, i) {
            lemma_find_from_shift(s, pat, i + 1, j);
        }
    }
}

/// Appends `s[lo..hi]` to `r`.
pub fn append_range(r: &mut Vec<char>, s: &Vec<char>, lo: usize, hi: usize)
    requires
        lo <= hi <= s@.len(),
    ensures
        final(r)@ == old(r)@ + s@.subrange(lo as int, hi as int),
{
    let mut m = lo;
    while m < hi
        invariant
            lo <= m <= hi <= s@.len(),
            r@ == old(r)@ + s@.subrange(lo as int, m as int),
        decreases hi - m,
    {
        r.push(s[m]);
        m = m + 1;
        proof {
            assert(r@ =~= old(r)@ + s@.subrange(lo as int, m as int));
        }
    }
}

/// Replaces every occurrence of `from` in `s` by `to`.
pub fn replace_chars(s: &Vec<char>, from: &Vec<char>, to: &Vec<char>) -> (r: Vec<char>)
    requires
        from@.len() > 0,
    ensures
        r@ == replace_all(s@, from@, to@),
{
    let mut r: Vec<char> = Vec::new();
    let mut i: usize = 0;
    let slen = s.len();
    proof {
        assert(s@.skip(0) =~= s@);
    }
    loop
        invariant
            slen == s@.len(),
            i <= s@.len(),
            from@.len() > 0,
            replace_all(s@, from@, to@) == r@ + replace_all(s@.skip(i as int), from@, to@),
        decreases s@.len() - i,
    {
        let found = find_chars_from(s, from, i);
        proof {
            lemma_find_from_shift(s@, from@, i as int, i as int);
            lemma_find_from(s@, from@, i as int);
        }
        match found {
            None => {
                append_range(&mut r, s, i, s.len());
                proof {
                    assert(s@.subrange(i as int, s@.len() as int) =~= s@.skip(i as int));
                }
                return r;
            },
            Some(k) => {
                let ghost rest = s@.skip(i as int);
                append_range(&mut r, s, i, k);
                append_range(&mut r, to, 0, to.len());
                proof {
                    assert(to@.subrange(0, to@.len() as int) =~= to@);
                    assert(rest.take(k - i) =~= s@.subrange(i as int, k as int));
                    assert(rest.skip(k - i + from@.len()) =~= s@.skip(k + from@.len()));
                }
                i = k + from.len();
            },
        }
    }
}

pub open spec fn is_digit(c: char) -> bool {
    '0' <= c <= '9'
}

pub open spec fn digit_value(c: char) -> nat {
    (c as u32 - '0' as u32) as nat
}

pub open spec fn all_digits(s: Seq<char>) -> bool {
    forall|i: int| 0 <= i < s.len() ==> is_digit(#[trigger] s[i])
}

/// The number written by the decimal digits `s`.
pub open spec fn digits_value(s: Seq<char>) -> nat
    decreases s.len(),
{
    if s.len() == 0 {
        0
    } else {
        digits_value(s.drop_last()) * 10 + digit_value(s.last())
    }
}

/// `str::parse` into an unsigned integer type whose largest value is `max`:
/// an optional `+` followed by at least one decimal digit, with a value no
/// larger than `max`.
pub open spec fn parse_unsigned(s: Seq<char>, max: nat) -> Option<nat> {
    let body = if s.len() > 1 && s[0] == '+' {
        s.drop_first()
    } else {
        s
    };
    if body.len() > 0 && all_digits(body) && digits_value(body) <= max {
        Some(digits_value(body))
    } else {
        None
    }
}

proof fn lemma_digits_value_grows(s: Seq<char>, k: int)
    requires
        0 <= k <= s.len(),
    ensures
        digits_value(s.take(k)) <= digits_value(s),
    decreases s.len() - k,
{
    if k < s.len() {
        lemma_digits_value_grows(s, k + 1);
        assert(s.take(k + 1).drop_last() =~= s.take(k));
    } else {
        assert(s.take(k) =~= s);
    }
}

/// Parses `s[lo..hi]` as an unsigned number no larger than `max`.
pub fn parse_bounded(s: &Vec<char>, lo: usize, hi: usize, max: u128) -> (r: Option<u128>)
    requires
        lo <= hi <= s@.len(),
    ensures
        match parse_unsigned(s@.subrange(lo as int, hi as int), max as nat) {
            Some(v) => r == Some(v as u128),
            None => r is None,
        },
{
    let ghost t = s@.subrange(lo as int, hi as int);
    let mut start = lo;
    if hi - lo > 1 && s[lo] == '+' {
        start = lo + 1;
    }
    let ghost body = s@.subrange(start as int, hi as int);
    proof {
        if t.len() > 0 {
            assert(t[0] == s@[lo as int]);
        }
        let pbody = if t.len() > 1 && t[0] == '+' {
            t.drop_first()
        } else {
            t
        };
        assert(body =~= pbody);
    }
    if start == hi {
        return None;
    }
    let mut acc: u128 = 0;
    let mut i = start;
    while i < hi
        invariant
            start <= i <= hi <= s@.len(),
            body == s@.subrange(start as int, hi as int),
            body.len() > 0,
            parse_unsigned(s@.subrange(lo as int, hi as int), max as nat) == (if all_digits(body)
                && digits_value(body) <= max {
                Some(digits_value(body))
            } else {
                None
            }),
            all_digits(body.take(i - start)),
            acc as nat == digits_value(body.take(i - start)),
            acc <= max,
        decreases hi - i,
    {
        let c = s[i];
        proof {
            assert(body.take(i + 1 - start).drop_last() =~= body.take(i - start));
            assert(body.take(i + 1 - start).last() == c);
        }
        if !('0' <= c && c <= '9') {
            proof {
                assert(!is_digit(body[i - start]));
                assert(!all_digits(body));
            }
            return None;
        }
        let d = (c as u32 - '0' as u32) as u128;
        if d > max || acc > (max - d) / 10 {
            proof {
                if d <= max {
                    assert(acc * 10 + d > max) by (nonlinear_arith)
                        requires
                            acc > (max - d) / 10,
                            d <= max,
                    ;
                }
                assert(digits_value(body.take(i + 1 - start)) > max);
                lemma_digits_value_grows(body, i + 1 - start);
            }
            return None;
        }
        proof {
            assert(acc * 10 + d <= max) by (nonlinear_arith)
                requires
                    acc <= (max - d) / 10,
                    d <= max,
            ;
        }
        acc = acc * 10 + d;
        i = i + 1;
        proof {
            assert(all_digits(body.take(i - start)));
        }
    }
    proof {
        assert(body.take(i - start) =~= body);
    }
    Some(acc)
}

/// The decimal representation of `n` is read back as `n`.
pub proof fn lemma_parse_decimal(n: nat, max: nat)
    requires
        n <= max,
    ensures
        parse_unsigned(decimal(n), max) == Some(n),
{
    lemma_decimal_digits(n);
    if decimal(n).len() > 1 {
        assert(is_digit(decimal(n)[0]));
    }
}

proof fn lemma_digit_char(d: nat)
    requires
        d < 10,
    ensures
        is_digit(digit_char(d)),
        digit_value(digit_char(d)) == d,
{
}

proof fn lemma_decimal_digits(n: nat)
    ensures
        decimal(n).len() > 0,
        all_digits(decimal(n)),
        digits_value(decimal(n)) == n,
    decreases n,
{
    if n >= 10 {
        lemma_decimal_digits(n / 10);
        lemma_digit_char(n % 10);
        assert(decimal(n).drop_last() =~= decimal(n / 10));
        assert(decimal(n).last() == digit_char(n % 10));
        assert(digits_value(decimal(n)) == digits_value(decimal(n / 10)) * 10 + n % 10);
        assert(n == (n / 10) * 10 + n % 10);
        assert(all_digits(decimal(n)));
    } else {
        lemma_digit_char(n);
        assert(decimal(n).drop_last() =~= Seq::<char>::empty());
        assert(decimal(n).last() == digit_char(n));
        assert(digits_value(Seq::<char>::empty()) == 0);
        assert(digits_value(decimal(n)) == digits_value(decimal(n).drop_last()) * 10 + digit_value(
            decimal(n).last(),
        ));
    }
}

/// End of `s` once trailing whitespace is dropped.
pub fn trim_end_bound(s: &Vec<char>) -> (hi: usize)
    ensures
        hi <= s@.len(),
        s@.take(hi as int) == trim_end(s@),
{
    let mut hi: usize = s.len();
    while hi > 0 && is_whitespace(s[hi - 1])
        invariant
            hi <= s@.len(),
            forall|k: int| hi <= k < s@.len() ==> is_ws(#[trigger] s@[k]),
        decreases hi,
    {
        hi = hi - 1;
    }
    proof {
        lemma_trim_end_take(s@, hi as int);
        let u = s@.take(hi as int);
        if hi > 0 {
            assert(u.last() == s@[hi - 1]);
        }
    }
    hi
}

/// For a one-character pattern, `find` gives the first position holding it.
pub proof fn lemma_find_char(s: Seq<char>, c: char, i: int)
    requires
        0 <= i <= s.len(),
        forall|k: int| 0 <= k < i ==> s[k] != c,
    ensures
        i < s.len() && s[i] == c ==> find(s, seq![c]) == Some(i),
        i == s.len() ==> find(s, seq![c]) is None,
{
    let pat = seq![c];
    lemma_find_from(s, pat, 0);
    assert forall|m: int| 0 <= m < s.len() implies #[trigger] occurs_at(s, pat, m) == (s[m] == c) by {
        if s[m] == c {
            assert(s.subrange(m, m + 1) =~= pat);
        } else {
            assert(s.subrange(m, m + 1)[0] != pat[0]);
        }
    }
    match find(s, pat) {
        Some(k) => {
            assert(occurs_at(s, pat, k));
            assert(k < s.len());
            assert(s[k] == c);
            if i < s.len() && s[i] == c {
                assert(occurs_at(s, pat, i));
                assert(k == i);
            }
        },
        None => {
            if i < s.len() && s[i] == c {
                assert(occurs_at(s, pat, i));
            }
        },
    }
}

/// The characters `v[lo..hi]` as a vector.
pub fn sub_chars(v: &Vec<char>, lo: usize, hi: usize) -> (r: Vec<char>)
    requires
        lo <= hi <= v@.len(),
    ensures
        r@ == v@.subrange(lo as int, hi as int),
{
    let mut r: Vec<char> = Vec::new();
    append_range(&mut r, v, lo, hi);
    r
}

/// `str::splitn(n, sep)`: at most `n` pieces, the last holding the rest.
pub open spec fn split_n(s: Seq<char>, n: nat, sep: char) -> Seq<Seq<char>>
    decreases n,
{
    if n <= 1 {
        seq![s]
    } else {
        match find(s, seq![sep]) {
            None => seq![s],
            Some(i) => seq![s.take(i)] + split_n(s.skip(i + 1), (n - 1) as nat, sep),
        }
    }
}

/// The pieces of `split_n(v[lo..hi], n, sep)`, as ranges of `v`.
pub fn split_ranges(v: &Vec<char>, lo: usize, hi: usize, n: usize, sep: char) -> (r: Vec<(usize, usize)>)
    requires
        lo <= hi <= v@.len(),
        n >= 1,
    ensures
        r@.len() == split_n(v@.subrange(lo as int, hi as int), n as nat, sep).len(),
        forall|i: int|
            0 <= i < r@.len() ==> lo <= (#[trigger] r@[i]).0 <= r@[i].1 <= hi && v@.subrange(
                r@[i].0 as int,
                r@[i].1 as int,
            ) == split_n(v@.subrange(lo as int, hi as int), n as nat, sep)[i],
{
    let ghost whole = split_n(v@.subrange(lo as int, hi as int), n as nat, sep);
    let mut r: Vec<(usize, usize)> = Vec::new();
    let mut start = lo;
    let mut count: usize = 1;
    loop
        invariant
            lo <= start <= hi <= v@.len(),
            1 <= count <= n,
            r@.len() == count - 1,
            whole == r@.map_values(|p: (usize, usize)| v@.subrange(p.0 as int, p.1 as int)) + split_n(
                v@.subrange(start as int, hi as int),
                (n - count + 1) as nat,
                sep,
            ),
            forall|i: int| 0 <= i < r@.len() ==> lo <= (#[trigger] r@[i]).0 <= r@[i].1 <= hi,
        ensures
            lo <= start <= hi <= v@.len(),
            1 <= count <= n,
            r@.len() == count - 1,
            whole == r@.map_values(|p: (usize, usize)| v@.subrange(p.0 as int, p.1 as int)) + split_n(
                v@.subrange(start as int, hi as int),
                (n - count + 1) as nat,
                sep,
            ),
            forall|i: int| 0 <= i < r@.len() ==> lo <= (#[trigger] r@[i]).0 <= r@[i].1 <= hi,
            split_n(v@.subrange(start as int, hi as int), (n - count + 1) as nat, sep) == seq![
                v@.subrange(start as int, hi as int),
            ],
        decreases n - count,
    {
        let ghost rest = v@.subrange(start as int, hi as int);
        if count == n {
            break;
        }
        let mut j = start;
        while j < hi && v[j] != sep
            invariant
                start <= j <= hi <= v@.len(),
                forall|k: int| start <= k < j ==> v@[k] != sep,
            decreases hi - j,
        {
            j = j + 1;
        }
        proof {
            assert forall|k: int| 0 <= k < j - start implies rest[k] != sep by {
                assert(rest[k] == v@[start + k]);
            }
            lemma_find_char(rest, sep, j - start);
        }
        if j == hi {
            break;
        }
        proof {
            assert(rest.take(j - start) =~= v@.subrange(start as int, j as int));
            assert(rest.skip(j - start + 1) =~= v@.subrange(j + 1, hi as int));
            assert(r@.push((start, j)).map_values(|p: (usize, usize)| v@.subrange(p.0 as int, p.1 as int))
                =~= r@.map_values(|p: (usize, usize)| v@.subrange(p.0 as int, p.1 as int)).push(
                v@.subrange(start as int, j as int),
            ));
        }
        r.push((start, j));
        start = j + 1;
        count = count + 1;
    }
    let ghost before = r@;
    r.push((start, hi));
    proof {
        assert(split_n(v@.subrange(start as int, hi as int), (n - count + 1) as nat, sep) =~= seq![
            v@.subrange(start as int, hi as int),
        ]);
        assert(r@.map_values(|p: (usize, usize)| v@.subrange(p.0 as int, p.1 as int)) =~= before.map_values(
            |p: (usize, usize)| v@.subrange(p.0 as int, p.1 as int),
        ).push(v@.subrange(start as int, hi as int)));
        assert forall|i: int| 0 <= i < r@.len() implies lo <= (#[trigger] r@[i]).0 <= r@[i].1
            <= hi && v@.subrange(r@[i].0 as int, r@[i].1 as int) == whole[i] by {
            assert(whole[i] == r@.map_values(|p: (usize, usize)| v@.subrange(p.0 as int, p.1 as int))[i]);
        }
    }
    r
}

pub proof fn lemma_decimal_all_digits(n: nat)
    ensures
        all_digits(decimal(n)),
{
    lemma_decimal_digits(n);
}

/// Trimming the end never makes a sequence longer.
pub proof fn lemma_trim_end_shorter(s: Seq<char>)
    ensures
        trim_end(s).len() <= s.len(),
    decreases s.len(),
{
    if s.len() > 0 && is_ws(s.last()) {
        lemma_trim_end_shorter(s.drop_last());
    }
}

/// Trimming the start never makes a sequence longer.
pub proof fn lemma_trim_start_len(s: Seq<char>)
    ensures
        trim_start(s).len() <= s.len(),
    decreases s.len(),
{
    if s.len() > 0 && is_ws(s[0]) {
        lemma_trim_start_len(s.drop_first());
    }
}

/// `a` and `b` hold the same characters.
pub fn str_eq(a: &str, b: &str) -> (r: bool)
    ensures
        r == (a@ == b@),
{
    let x = chars_of(a);
    let y = chars_of(b);
    if x.len() != y.len() {
        return false;
    }
    let mut i: usize = 0;
    while i < x.len()
        invariant
            x@ == a@,
            y@ == b@,
            x@.len() == y@.len(),
            i <= x@.len(),
            forall|k: int| 0 <= k < i ==> x@[k] == y@[k],
        decreases x@.len() - i,
    {
        if x[i] != y[i] {
            return false;
        }
        i = i + 1;
    }
    proof {
        assert(x@ =~= y@);
    }
    true
}

} // verus!
