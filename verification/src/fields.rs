//! Lines and whitespace-separated fields of `key: value` status text, as
//! `/proc/self/status` and `/proc/self/task/*/stat` present them.

use vstd::prelude::*;
use crate::crawl::page::{has_prefix, lemma_word_len, word_len, words};
use crate::crawl::schools::split_all;
use crate::text::{is_whitespace, is_ws, lemma_find_char, lemma_trim_start_skip, trim_start};

verus! {

/// The pieces of `v` that the bounds `r` delimit.
pub open spec fn pieces_of(v: Seq<char>, r: Seq<(usize, usize)>) -> Seq<Seq<char>> {
    r.map_values(|p: (usize, usize)| v.subrange(p.0 as int, p.1 as int))
}

/// Bounds of the pieces of `v` between `sep` characters, the last one
/// included even when empty (`str::split`).
pub fn piece_ranges(v: &Vec<char>, sep: char) -> (r: Vec<(usize, usize)>)
    ensures
        forall|i: int| 0 <= i < r@.len() ==> (#[trigger] r@[i]).0 <= r@[i].1 <= v@.len(),
        pieces_of(v@, r@) == split_all(v@, sep),
{
    let mut r: Vec<(usize, usize)> = Vec::new();
    let mut start: usize = 0;
    proof {
        assert(v@.skip(0) =~= v@);
        assert(pieces_of(v@, r@) =~= Seq::<Seq<char>>::empty());
    }
    loop
        invariant
            start <= v@.len(),
            forall|i: int| 0 <= i < r@.len() ==> (#[trigger] r@[i]).0 <= r@[i].1 <= v@.len(),
            split_all(v@, sep) == pieces_of(v@, r@) + split_all(v@.skip(start as int), sep),
        decreases v@.len() - start,
    {
        let ghost rest = v@.skip(start as int);
        let mut j = start;
        while j < v.len() && v[j] != sep
            invariant
                start <= j <= v@.len(),
                forall|k: int| start <= k < j ==> v@[k] != sep,
            decreases v@.len() - j,
        {
            j = j + 1;
        }
        proof {
            assert forall|k: int| 0 <= k < j - start implies rest[k] != sep by {
                assert(rest[k] == v@[start + k]);
            }
            lemma_find_char(rest, sep, j - start);
        }
        let ghost before = r@;
        r.push((start, j));
        proof {
            let p = v@.subrange(start as int, j as int);
            assert(pieces_of(v@, r@) =~= pieces_of(v@, before).push(p));
            if j < v@.len() {
                assert(rest.take(j - start) =~= p);
                assert(rest.skip(j - start + 1) =~= v@.skip(j + 1));
                assert(split_all(rest, sep) == seq![p] + split_all(v@.skip(j + 1), sep));
            } else {
                assert(rest =~= p);
                assert(split_all(rest, sep) == seq![p]);
            }
        }
        if j == v.len() {
            proof {
                assert(pieces_of(v@, before) + split_all(rest, sep) =~= pieces_of(v@, r@));
            }
            return r;
        }
        proof {
            let p = v@.subrange(start as int, j as int);
            assert(pieces_of(v@, before) + (seq![p] + split_all(v@.skip(j + 1), sep)) =~= pieces_of(
                v@,
                r@,
            ) + split_all(v@.skip(j + 1), sep));
        }
        start = j + 1;
    }
}

proof fn lemma_word_len_exact(t: Seq<char>, n: int)
    requires
        0 <= n <= t.len(),
        forall|k: int| 0 <= k < n ==> !is_ws(#[trigger] t[k]),
        n == t.len() || is_ws(t[n]),
    ensures
        word_len(t) == n,
    decreases n,
{
    if n > 0 {
        assert forall|k: int| 0 <= k < n - 1 implies !is_ws(#[trigger] t.drop_first()[k]) by {
            assert(t.drop_first()[k] == t[k + 1]);
        }
        if n < t.len() {
            assert(t.drop_first()[n - 1] == t[n]);
        }
        lemma_word_len_exact(t.drop_first(), n - 1);
    }
}

/// Bounds of the first whitespace-separated word of `v[lo..]`, when there is
/// one; the words after it are those of `v[b..]`.
pub fn first_word(v: &Vec<char>, lo: usize) -> (r: Option<(usize, usize)>)
    requires
        lo <= v@.len(),
    ensures
        match r {
            None => words(v@.skip(lo as int)).len() == 0,
            Some((a, b)) => {
                &&& lo <= a < b <= v@.len()
                &&& words(v@.skip(lo as int)).len() > 0
                &&& words(v@.skip(lo as int))[0] == v@.subrange(a as int, b as int)
                &&& words(v@.skip(lo as int)).drop_first() == words(v@.skip(b as int))
            },
        },
{
    let mut a = lo;
    while a < v.len() && is_whitespace(v[a])
        invariant
            lo <= a <= v@.len(),
            forall|k: int| lo <= k < a ==> is_ws(#[trigger] v@[k]),
        decreases v@.len() - a,
    {
        a = a + 1;
    }
    let ghost s = v@.skip(lo as int);
    let ghost t = v@.skip(a as int);
    proof {
        assert forall|k: int| 0 <= k < a - lo implies is_ws(#[trigger] s[k]) by {
            assert(s[k] == v@[lo + k]);
        }
        lemma_trim_start_skip(s, a - lo);
        assert(s.skip(a - lo) =~= t);
        if t.len() > 0 {
            assert(t[0] == v@[a as int]);
        }
        assert(trim_start(t) == t);
        assert(trim_start(s) == t);
    }
    if a == v.len() {
        proof {
            assert(t.len() == 0);
        }
        return None;
    }
    let mut b = a + 1;
    while b < v.len() && !is_whitespace(v[b])
        invariant
            a < b <= v@.len(),
            !is_ws(v@[a as int]),
            forall|k: int| a <= k < b ==> !is_ws(#[trigger] v@[k]),
        decreases v@.len() - b,
    {
        b = b + 1;
    }
    proof {
        assert forall|k: int| 0 <= k < b - a implies !is_ws(#[trigger] t[k]) by {
            assert(t[k] == v@[a + k]);
        }
        if b < v@.len() {
            assert(t[b - a] == v@[b as int]);
        }
        lemma_word_len_exact(t, b - a);
        lemma_word_len(t);
        assert(words(s) == seq![t.take(b - a)] + words(t.skip(b - a)));
        assert(t.take(b - a) =~= v@.subrange(a as int, b as int));
        assert(t.skip(b - a) =~= v@.skip(b as int));
        assert((seq![t.take(b - a)] + words(t.skip(b - a))).drop_first() =~= words(t.skip(b - a)));
    }
    Some((a, b))
}

/// The first word after `key` at the start of `line`, when `line` starts with
/// `key` and has a word after it.
pub open spec fn field_after(line: Seq<char>, key: Seq<char>) -> Option<Seq<char>> {
    if has_prefix(line, key) && words(line.skip(key.len() as int)).len() > 0 {
        Some(words(line.skip(key.len() as int))[0])
    } else {
        None
    }
}

/// `v[lo..]` starts with `key`.
pub fn starts_with_at(v: &Vec<char>, lo: usize, key: &Vec<char>) -> (r: bool)
    requires
        lo <= v@.len(),
    ensures
        r == has_prefix(v@.skip(lo as int), key@),
{
    let n = v.len();
    if n - lo < key.len() {
        return false;
    }
    let mut k: usize = 0;
    while k < key.len()
        invariant
            n == v@.len(),
            lo + key@.len() <= n,
            k <= key@.len(),
            forall|m: int| 0 <= m < k ==> v@[lo + m] == key@[m],
        decreases key@.len() - k,
    {
        if v[lo + k] != key[k] {
            proof {
                assert(v@.skip(lo as int).take(key@.len() as int)[k as int] != key@[k as int]);
            }
            return false;
        }
        k = k + 1;
    }
    proof {
        assert(v@.skip(lo as int).take(key@.len() as int) =~= key@);
    }
    true
}

/// Bounds of the field after `key` in the line `v[lo..hi]`.
pub fn field_bounds(v: &Vec<char>, lo: usize, hi: usize, key: &Vec<char>) -> (r: Option<(usize, usize)>)
    requires
        lo <= hi <= v@.len(),
    ensures
        match r {
            None => field_after(v@.subrange(lo as int, hi as int), key@) is None,
            Some((a, b)) => a <= b <= hi && field_after(v@.subrange(lo as int, hi as int), key@)
                == Some(v@.subrange(a as int, b as int)),
        },
{
    let line = crate::text::sub_chars(v, lo, hi);
    if !starts_with_at(&line, 0, key) {
        proof {
            assert(line@.skip(0) =~= line@);
        }
        return None;
    }
    proof {
        assert(line@.skip(0) =~= line@);
    }
    match first_word(&line, key.len()) {
        None => None,
        Some((a, b)) => {
            proof {
                assert(line@.subrange(a as int, b as int) =~= v@.subrange(lo + a, lo + b));
            }
            Some((lo + a, lo + b))
        },
    }
}

} // verus!
