//! Saved pages: file names for schools, the text of mock pages, mock urls,
//! and the conversion of fetched HTML into plain text.

use vstd::prelude::*;
use std::time::Duration;
use crate::duration::{duration_from_millis, millis_to_duration};
use crate::text::{ascii_lower, occurs_at, append_range, chars_of, find, find_chars_from, is_whitespace, is_ws, lemma_find_from, lower, lower_chars, parse_bounded, parse_unsigned, push_char, replace_all, replace_chars, string_of, trim, trim_bounds, trim_start};

verus! {

/// A Unicode control character (general category Cc).
pub open spec fn is_control(c: char) -> bool {
    (c as u32) <= 0x1f || (0x7f <= (c as u32) && (c as u32) <= 0x9f)
}

/// Characters that cannot stand in a file name become `_`.
pub open spec fn file_name_char(c: char) -> char {
    if c == '<' || c == '>' || c == ':' || c == '"' || c == '/' || c == '\\' || c == '|' || c == '?'
        || c == '*' || is_control(c) {
        '_'
    } else {
        c
    }
}

/// `s` without leading dots.
pub open spec fn strip_dots_start(s: Seq<char>) -> Seq<char>
    decreases s.len(),
{
    if s.len() > 0 && s[0] == '.' {
        strip_dots_start(s.drop_first())
    } else {
        s
    }
}

/// `s` without trailing dots.
pub open spec fn strip_dots_end(s: Seq<char>) -> Seq<char>
    decreases s.len(),
{
    if s.len() > 0 && s.last() == '.' {
        strip_dots_end(s.drop_last())
    } else {
        s
    }
}

/// The file name for a school: unsafe characters replaced, whitespace
/// trimmed, dots stripped from both ends, and `school` when nothing is left.
pub open spec fn sanitize_spec(name: Seq<char>) -> Seq<char> {
    let t = strip_dots_end(strip_dots_start(trim(name.map_values(|c: char| file_name_char(c)))));
    if t.len() == 0 {
        "school"@
    } else {
        t
    }
}

/// Every character of `s` is one that may stand in a file name.
pub open spec fn all_file_name_chars(s: Seq<char>) -> bool {
    forall|i: int| 0 <= i < s.len() ==> file_name_char(#[trigger] s[i]) == s[i]
}

proof fn lemma_safe_drop_first(s: Seq<char>)
    requires
        all_file_name_chars(s),
        s.len() > 0,
    ensures
        all_file_name_chars(s.drop_first()),
{
    assert forall|i: int| 0 <= i < s.drop_first().len() implies file_name_char(#[trigger] s.drop_first()[i])
        == s.drop_first()[i] by {
        assert(s.drop_first()[i] == s[i + 1]);
    }
}

proof fn lemma_safe_drop_last(s: Seq<char>)
    requires
        all_file_name_chars(s),
        s.len() > 0,
    ensures
        all_file_name_chars(s.drop_last()),
{
    assert forall|i: int| 0 <= i < s.drop_last().len() implies file_name_char(#[trigger] s.drop_last()[i])
        == s.drop_last()[i] by {
        assert(s.drop_last()[i] == s[i]);
    }
}

proof fn lemma_safe_trim_start(s: Seq<char>)
    requires
        all_file_name_chars(s),
    ensures
        all_file_name_chars(trim_start(s)),
    decreases s.len(),
{
    if s.len() > 0 && is_ws(s[0]) {
        lemma_safe_drop_first(s);
        lemma_safe_trim_start(s.drop_first());
    }
}

proof fn lemma_safe_trim_end(s: Seq<char>)
    requires
        all_file_name_chars(s),
    ensures
        all_file_name_chars(crate::text::trim_end(s)),
    decreases s.len(),
{
    if s.len() > 0 && is_ws(s.last()) {
        lemma_safe_drop_last(s);
        lemma_safe_trim_end(s.drop_last());
    }
}

proof fn lemma_safe_strip_start(s: Seq<char>)
    requires
        all_file_name_chars(s),
    ensures
        all_file_name_chars(strip_dots_start(s)),
    decreases s.len(),
{
    if s.len() > 0 && s[0] == '.' {
        lemma_safe_drop_first(s);
        lemma_safe_strip_start(s.drop_first());
    }
}

proof fn lemma_safe_strip_end(s: Seq<char>)
    requires
        all_file_name_chars(s),
    ensures
        all_file_name_chars(strip_dots_end(s)),
    decreases s.len(),
{
    if s.len() > 0 && s.last() == '.' {
        lemma_safe_drop_last(s);
        lemma_safe_strip_end(s.drop_last());
    }
}

/// A school's file name is never empty, and holds none of `<>:"/\|?*` and
/// no control character.
pub proof fn law_sanitized_name_is_safe(name: Seq<char>)
    ensures
        sanitize_spec(name).len() > 0,
        all_file_name_chars(sanitize_spec(name)),
{
    let m = name.map_values(|c: char| file_name_char(c));
    assert forall|i: int| 0 <= i < m.len() implies file_name_char(#[trigger] m[i]) == m[i] by {
        let c = name[i];
        assert(m[i] == file_name_char(c));
    }
    lemma_safe_trim_start(m);
    lemma_safe_trim_end(trim_start(m));
    lemma_safe_strip_start(trim(m));
    lemma_safe_strip_end(strip_dots_start(trim(m)));
    reveal_strlit("school");
    assert forall|i: int| 0 <= i < "school"@.len() implies file_name_char(#[trigger] "school"@[i]) == "school"@[i] by {
    }
}

fn file_name_char_exec(c: char) -> (r: char)
    ensures
        r == file_name_char(c),
{
    let u = c as u32;
    if c == '<' || c == '>' || c == ':' || c == '"' || c == '/' || c == '\\' || c == '|' || c == '?'
        || c == '*' || u <= 0x1f || (0x7f <= u && u <= 0x9f) {
        '_'
    } else {
        c
    }
}

proof fn lemma_strip_dots_start(s: Seq<char>, i: int)
    requires
        0 <= i <= s.len(),
        forall|k: int| 0 <= k < i ==> #[trigger] s[k] == '.',
    ensures
        strip_dots_start(s) == strip_dots_start(s.skip(i)),
    decreases i,
{
    if i > 0 {
        lemma_strip_dots_start(s, i - 1);
        assert(s.skip(i - 1).drop_first() =~= s.skip(i));
        assert(s.skip(i - 1)[0] == s[i - 1]);
    } else {
        assert(s.skip(0) =~= s);
    }
}

proof fn lemma_strip_dots_end(s: Seq<char>, j: int)
    requires
        0 <= j <= s.len(),
        forall|k: int| j <= k < s.len() ==> #[trigger] s[k] == '.',
    ensures
        strip_dots_end(s) == strip_dots_end(s.take(j)),
    decreases s.len() - j,
{
    if j < s.len() {
        lemma_strip_dots_end(s, j + 1);
        assert(s.take(j + 1).drop_last() =~= s.take(j));
        assert(s.take(j + 1).last() == s[j]);
    } else {
        assert(s.take(j) =~= s);
    }
}

pub fn sanitize_file_name(name: &str) -> (r: String)
    ensures
        r@ == sanitize_spec(name@),
{
    let v = chars_of(name);
    let mut mapped: Vec<char> = Vec::new();
    let mut i: usize = 0;
    while i < v.len()
        invariant
            i <= v@.len(),
            mapped@ == v@.take(i as int).map_values(|c: char| file_name_char(c)),
        decreases v@.len() - i,
    {
        mapped.push(file_name_char_exec(v[i]));
        i = i + 1;
        proof {
            assert(v@.take(i as int).map_values(|c: char| file_name_char(c)) =~= v@.take(i - 1).map_values(
                |c: char| file_name_char(c),
            ).push(file_name_char(v@[i - 1])));
        }
    }
    proof {
        assert(v@.take(i as int) =~= v@);
    }
    let (lo, hi) = trim_bounds(&mapped);
    let ghost t = mapped@.subrange(lo as int, hi as int);
    let mut a = lo;
    while a < hi && mapped[a] == '.'
        invariant
            lo <= a <= hi <= mapped@.len(),
            forall|k: int| lo <= k < a ==> mapped@[k] == '.',
        decreases hi - a,
    {
        a = a + 1;
    }
    proof {
        assert forall|k: int| 0 <= k < a - lo implies #[trigger] t[k] == '.' by {
            assert(t[k] == mapped@[lo + k]);
        }
        lemma_strip_dots_start(t, a - lo);
        let u = t.skip(a - lo);
        if a < hi {
            assert(u[0] == mapped@[a as int]);
        }
        assert(strip_dots_start(u) == u);
        assert(u =~= mapped@.subrange(a as int, hi as int));
    }
    let mut b = hi;
    while b > a && mapped[b - 1] == '.'
        invariant
            a <= b <= hi <= mapped@.len(),
            forall|k: int| b <= k < hi ==> mapped@[k] == '.',
        decreases b,
    {
        b = b - 1;
    }
    proof {
        let u = mapped@.subrange(a as int, hi as int);
        assert forall|k: int| b - a <= k < u.len() implies #[trigger] u[k] == '.' by {
            assert(u[k] == mapped@[a + k]);
        }
        lemma_strip_dots_end(u, b - a);
        let w = u.take(b - a);
        if b > a {
            assert(w.last() == mapped@[b - 1]);
        }
        assert(strip_dots_end(w) == w);
        assert(w =~= mapped@.subrange(a as int, b as int));
    }
    if a == b {
        String::from_str("school")
    } else {
        string_of(&mapped, a, b)
    }
}

/// `Path::join` on Unix paths: an absolute `name` replaces `dir`; otherwise
/// `name` follows `dir` after a `/`, unless `dir` is empty or already ends
/// with one.
pub open spec fn path_join(dir: Seq<char>, name: Seq<char>) -> Seq<char> {
    if name.len() > 0 && name[0] == '/' {
        name
    } else if dir.len() == 0 {
        name
    } else if dir.last() == '/' {
        dir + name
    } else {
        dir + seq!['/'] + name
    }
}

/// Where the text of a school's page is saved: the school's file name in
/// `output_dir`.
pub fn output_path(output_dir: &str, school_name: &str) -> (r: String)
    ensures
        r@ == path_join(output_dir@, sanitize_spec(school_name@)),
{
    let name = sanitize_file_name(school_name);
    let dir = chars_of(output_dir);
    let n = chars_of(name.as_str());
    if n.len() > 0 && n[0] == '/' {
        return name;
    }
    if dir.len() == 0 {
        return name;
    }
    let mut r = String::from_str(output_dir);
    if dir[dir.len() - 1] != '/' {
        push_char(&mut r, '/');
    }
    r.append(name.as_str());
    r
}

/// Removes every block from `<tag` to the following `</tag>`, matching the
/// tag names without regard to ASCII case, each block becoming one space;
/// the search starts over from the beginning after every removal.
pub open spec fn strip_blocks(s: Seq<char>, open: Seq<char>, close: Seq<char>) -> Seq<char>
    decreases s.len(),
{
    let l = lower(s);
    match find(l, open) {
        None => s,
        Some(st) => match find(l.skip(st), close) {
            None => s,
            Some(k) => {
                proof {
                    lemma_find_from(l, open, 0);
                    lemma_find_from(l.skip(st), close, 0);
                }
                if close.len() >= 2 {
                    strip_blocks(s.take(st) + seq![' '] + s.skip(st + k + close.len()), open, close)
                } else {
                    s
                }
            },
        },
    }
}

/// `<tag` and `</tag>` for a tag name.
pub open spec fn open_tag(tag: Seq<char>) -> Seq<char> {
    seq!['<'] + tag
}

pub open spec fn close_tag(tag: Seq<char>) -> Seq<char> {
    seq!['<', '/'] + tag + seq!['>']
}

fn strip_tag_blocks(input: &Vec<char>, tag: &str) -> (r: Vec<char>)
    ensures
        r@ == strip_blocks(input@, open_tag(tag@), close_tag(tag@)),
{
    let t = chars_of(tag);
    let mut open: Vec<char> = Vec::new();
    open.push('<');
    append_range(&mut open, &t, 0, t.len());
    let mut close: Vec<char> = Vec::new();
    close.push('<');
    close.push('/');
    append_range(&mut close, &t, 0, t.len());
    close.push('>');
    proof {
        assert(open@ =~= open_tag(tag@));
        assert(close@ =~= close_tag(tag@));
    }
    let mut result: Vec<char> = Vec::new();
    append_range(&mut result, input, 0, input.len());
    proof {
        assert(result@ =~= input@);
    }
    loop
        invariant
            open@ == open_tag(tag@),
            close@ == close_tag(tag@),
            strip_blocks(result@, open@, close@) == strip_blocks(input@, open@, close@),
        decreases result@.len(),
    {
        let l = lower_chars(&result);
        let llen = l.len();
        let start = match find_chars_from(&l, &open, 0) {
            None => {
                return result;
            },
            Some(st) => st,
        };
        proof {
            lemma_find_from(l@, open@, 0);
        }
        let found = find_chars_from(&l, &close, start);
        proof {
            lemma_find_from(l@, close@, start as int);
            crate::text::lemma_find_from_shift(l@, close@, start as int, start as int);
        }
        let close_start = match found {
            None => {
                return result;
            },
            Some(c) => c,
        };
        let end = close_start + close.len();
        let mut next: Vec<char> = Vec::new();
        append_range(&mut next, &result, 0, start);
        next.push(' ');
        append_range(&mut next, &result, end, result.len());
        proof {
            assert(next@ =~= result@.take(start as int) + seq![' '] + result@.skip(
                start + (close_start - start) + close@.len(),
            ));
        }
        result = next;
    }
}

/// What is left outside tags: each `<` and `>` becomes a space, and text
/// between them is dropped.
pub open spec fn untag(s: Seq<char>, in_tag: bool) -> Seq<char>
    decreases s.len(),
{
    if s.len() == 0 {
        Seq::empty()
    } else if s[0] == '<' {
        seq![' '] + untag(s.drop_first(), true)
    } else if s[0] == '>' {
        seq![' '] + untag(s.drop_first(), false)
    } else if !in_tag {
        seq![s[0]] + untag(s.drop_first(), in_tag)
    } else {
        untag(s.drop_first(), in_tag)
    }
}

fn remove_tags(s: &Vec<char>) -> (r: Vec<char>)
    ensures
        r@ == untag(s@, false),
{
    let mut r: Vec<char> = Vec::new();
    let mut in_tag = false;
    let mut i: usize = 0;
    proof {
        assert(s@.skip(0) =~= s@);
    }
    while i < s.len()
        invariant
            i <= s@.len(),
            untag(s@, false) == r@ + untag(s@.skip(i as int), in_tag),
        decreases s@.len() - i,
    {
        let ch = s[i];
        proof {
            assert(s@.skip(i as int).drop_first() =~= s@.skip(i + 1));
            assert(s@.skip(i as int)[0] == ch);
        }
        if ch == '<' {
            in_tag = true;
            r.push(' ');
        } else if ch == '>' {
            in_tag = false;
            r.push(' ');
        } else if !in_tag {
            r.push(ch);
        }
        i = i + 1;
        proof {
            assert(untag(s@, false) =~= r@ + untag(s@.skip(i as int), in_tag));
        }
    }
    proof {
        assert(untag(s@.skip(i as int), in_tag) =~= Seq::<char>::empty());
    }
    r
}

/// The basic HTML entities decoded, one after the other.
pub open spec fn decode_entities(s: Seq<char>) -> Seq<char> {
    let s1 = replace_all(s, "&nbsp;"@, " "@);
    let s2 = replace_all(s1, "&amp;"@, "&"@);
    let s3 = replace_all(s2, "&lt;"@, "<"@);
    let s4 = replace_all(s3, "&gt;"@, ">"@);
    let s5 = replace_all(s4, "&quot;"@, "\""@);
    let s6 = replace_all(s5, "&#39;"@, "'"@);
    replace_all(s6, "&apos;"@, "'"@)
}

fn replace_literal(s: &Vec<char>, from: &str, to: &str) -> (r: Vec<char>)
    requires
        from@.len() > 0,
    ensures
        r@ == replace_all(s@, from@, to@),
{
    let f = chars_of(from);
    let t = chars_of(to);
    replace_chars(s, &f, &t)
}

fn decode_basic_entities(text: &Vec<char>) -> (r: Vec<char>)
    ensures
        r@ == decode_entities(text@),
{
    proof {
        reveal_strlit("&nbsp;");
        reveal_strlit("&amp;");
        reveal_strlit("&lt;");
        reveal_strlit("&gt;");
        reveal_strlit("&quot;");
        reveal_strlit("&#39;");
        reveal_strlit("&apos;");
    }
    let s1 = replace_literal(text, "&nbsp;", " ");
    let s2 = replace_literal(&s1, "&amp;", "&");
    let s3 = replace_literal(&s2, "&lt;", "<");
    let s4 = replace_literal(&s3, "&gt;", ">");
    let s5 = replace_literal(&s4, "&quot;", "\"");
    let s6 = replace_literal(&s5, "&#39;", "'");
    replace_literal(&s6, "&apos;", "'")
}

/// Number of leading non-whitespace characters of `s`.
pub open spec fn word_len(s: Seq<char>) -> nat
    decreases s.len(),
{
    if s.len() == 0 || is_ws(s[0]) {
        0
    } else {
        1 + word_len(s.drop_first())
    }
}

/// The whitespace-separated words of `s` (`str::split_whitespace`).
pub open spec fn words(s: Seq<char>) -> Seq<Seq<char>>
    decreases s.len(),
{
    let t = trim_start(s);
    proof {
        crate::text::lemma_trim_start_len(s);
        lemma_word_len(t);
        lemma_trim_start_first(s);
    }
    if t.len() == 0 {
        Seq::empty()
    } else {
        seq![t.take(word_len(t) as int)] + words(t.skip(word_len(t) as int))
    }
}

/// Words joined by single spaces.
pub open spec fn join_words(ws: Seq<Seq<char>>) -> Seq<char>
    decreases ws.len(),
{
    if ws.len() == 0 {
        Seq::empty()
    } else if ws.len() == 1 {
        ws[0]
    } else {
        join_words(ws.drop_last()) + seq![' '] + ws.last()
    }
}

/// Whitespace runs collapsed to single spaces, ends trimmed, and a final
/// newline when anything is left.
pub open spec fn collapse_spec(s: Seq<char>) -> Seq<char> {
    let j = join_words(words(s));
    if j.len() > 0 {
        j.push('\n')
    } else {
        j
    }
}

pub proof fn lemma_word_len(t: Seq<char>)
    ensures
        word_len(t) <= t.len(),
        t.len() > 0 && !is_ws(t[0]) ==> word_len(t) >= 1,
        forall|k: int| 0 <= k < word_len(t) ==> !is_ws(#[trigger] t[k]),
        word_len(t) < t.len() ==> is_ws(t[word_len(t) as int]),
    decreases t.len(),
{
    if t.len() > 0 && !is_ws(t[0]) {
        lemma_word_len(t.drop_first());
        assert forall|k: int| 0 <= k < word_len(t) implies !is_ws(#[trigger] t[k]) by {
            if k > 0 {
                assert(t[k] == t.drop_first()[k - 1]);
            }
        }
        if word_len(t) < t.len() {
            assert(t[word_len(t) as int] == t.drop_first()[word_len(t.drop_first()) as int]);
        }
    }
}

/// `a` and `b` joined by a space, or whichever is not empty.
pub open spec fn glue(a: Seq<char>, b: Seq<char>) -> Seq<char> {
    if a.len() == 0 {
        b
    } else if b.len() == 0 {
        a
    } else {
        a + seq![' '] + b
    }
}

proof fn lemma_join_nonempty(ws: Seq<Seq<char>>)
    requires
        forall|i: int| 0 <= i < ws.len() ==> (#[trigger] ws[i]).len() > 0,
    ensures
        ws.len() > 0 <==> join_words(ws).len() > 0,
    decreases ws.len(),
{
    if ws.len() > 1 {
        lemma_join_nonempty(ws.drop_last());
    }
}

proof fn lemma_join_cons(w: Seq<char>, rest: Seq<Seq<char>>)
    requires
        w.len() > 0,
        forall|i: int| 0 <= i < rest.len() ==> (#[trigger] rest[i]).len() > 0,
    ensures
        join_words(seq![w] + rest) == glue(w, join_words(rest)),
    decreases rest.len(),
{
    if rest.len() == 0 {
        assert(seq![w] + rest =~= seq![w]);
    } else if rest.len() == 1 {
        assert((seq![w] + rest).drop_last() =~= seq![w]);
        assert(join_words(seq![w]) == w);
        assert((seq![w] + rest).last() == rest[0]);
        assert(join_words(rest) == rest[0]);
        assert(rest[0].len() > 0);
    } else {
        assert((seq![w] + rest).drop_last() =~= seq![w] + rest.drop_last());
        lemma_join_cons(w, rest.drop_last());
        lemma_join_nonempty(rest.drop_last());
        lemma_join_nonempty(rest);
        assert((seq![w] + rest).last() == rest.last());
        assert(glue(w, join_words(rest)) =~= glue(w, join_words(rest.drop_last())) + seq![' ']
            + rest.last());
    }
}

proof fn lemma_words_nonempty(s: Seq<char>)
    ensures
        forall|i: int| 0 <= i < words(s).len() ==> (#[trigger] words(s)[i]).len() > 0,
    decreases s.len(),
{
    let t = trim_start(s);
    crate::text::lemma_trim_start_len(s);
    lemma_word_len(t);
    if t.len() > 0 {
        lemma_trim_start_first(s);
        lemma_words_nonempty(t.skip(word_len(t) as int));
        assert forall|i: int| 0 <= i < words(s).len() implies (#[trigger] words(s)[i]).len() > 0 by {
            if i > 0 {
                assert(words(s)[i] == words(t.skip(word_len(t) as int))[i - 1]);
            }
        }
    }
}

pub proof fn lemma_trim_start_first(s: Seq<char>)
    ensures
        trim_start(s).len() > 0 ==> !is_ws(trim_start(s)[0]),
        trim_start(trim_start(s)) == trim_start(s),
    decreases s.len(),
{
    if s.len() > 0 && is_ws(s[0]) {
        lemma_trim_start_first(s.drop_first());
    }
}

fn collapse_whitespace(text: &Vec<char>) -> (r: Vec<char>)
    ensures
        r@ == collapse_spec(text@),
{
    let mut out: Vec<char> = Vec::new();
    let mut i: usize = 0;
    proof {
        assert(text@.skip(0) =~= text@);
    }
    loop
        invariant
            i <= text@.len(),
            join_words(words(text@)) == glue(out@, join_words(words(text@.skip(i as int)))),
        decreases text@.len() - i,
    {
        let ghost rest0 = text@.skip(i as int);
        let ghost i0 = i;
        while i < text.len() && is_whitespace(text[i])
            invariant
                i0 <= i <= text@.len(),
                rest0 == text@.skip(i0 as int),
                trim_start(rest0) == trim_start(text@.skip(i as int)),
            decreases text@.len() - i,
        {
            proof {
                assert(text@.skip(i as int).drop_first() =~= text@.skip(i + 1));
                assert(text@.skip(i as int)[0] == text@[i as int]);
            }
            i = i + 1;
        }
        let ghost rest = text@.skip(i as int);
        proof {
            if i < text@.len() {
                assert(rest[0] == text@[i as int]);
            }
            assert(trim_start(rest) == rest);
            assert(words(rest0) == words(rest)) by {
                lemma_words_trim(rest0);
                lemma_words_trim(rest);
            }
        }
        if i == text.len() {
            proof {
                assert(rest.len() == 0);
                assert(words(rest) =~= Seq::<Seq<char>>::empty());
                assert(glue(out@, join_words(Seq::<Seq<char>>::empty())) == out@);
            }
            if out.len() > 0 {
                out.push('\n');
            }
            return out;
        }
        let start = i;
        while i < text.len() && !is_whitespace(text[i])
            invariant
                start <= i <= text@.len(),
                forall|k: int| start <= k < i ==> !is_ws(#[trigger] text@[k]),
            decreases text@.len() - i,
        {
            i = i + 1;
        }
        let ghost before = out@;
        if out.len() > 0 {
            out.push(' ');
        }
        append_range(&mut out, text, start, i);
        proof {
            let w = text@.subrange(start as int, i as int);
            lemma_word_len(rest);
            assert(word_len(rest) == i - start) by {
                lemma_word_len_exact(rest, i - start);
            }
            assert(rest.take(i - start) =~= w);
            assert(rest.skip(i - start) =~= text@.skip(i as int));
            assert(words(rest) == seq![w] + words(text@.skip(i as int)));
            lemma_words_nonempty(text@.skip(i as int));
            lemma_join_cons(w, words(text@.skip(i as int)));
            lemma_join_nonempty(words(text@.skip(i as int)));
            let j = join_words(words(text@.skip(i as int)));
            assert(glue(before, glue(w, j)) =~= glue(out@, j));
        }
    }
}

proof fn lemma_words_trim(s: Seq<char>)
    ensures
        words(s) == words(trim_start(s)),
{
    lemma_trim_start_first(s);
}

proof fn lemma_word_len_exact(t: Seq<char>, n: int)
    requires
        0 <= n <= t.len(),
        forall|k: int| 0 <= k < n ==> !is_ws(#[trigger] t[k]),
        n < t.len() ==> is_ws(t[n]),
    ensures
        word_len(t) == n,
    decreases n,
{
    if n > 0 {
        lemma_word_len_exact(t.drop_first(), n - 1);
    }
}

/// The plain text of an HTML page: `script`, `style` and `noscript` blocks
/// removed, tags turned into spaces, basic entities decoded, and whitespace
/// collapsed.
pub open spec fn html_text(html: Seq<char>) -> Seq<char> {
    let a = strip_blocks(html, open_tag("script"@), close_tag("script"@));
    let b = strip_blocks(a, open_tag("style"@), close_tag("style"@));
    let c = strip_blocks(b, open_tag("noscript"@), close_tag("noscript"@));
    collapse_spec(decode_entities(untag(c, false)))
}

pub fn html_to_plain_text(html: &str) -> (r: String)
    ensures
        r@ == html_text(html@),
{
    let v = chars_of(html);
    let a = strip_tag_blocks(&v, "script");
    let b = strip_tag_blocks(&a, "style");
    let c = strip_tag_blocks(&b, "noscript");
    let d = remove_tags(&c);
    let e = decode_basic_entities(&d);
    let f = collapse_whitespace(&e);
    string_of(&f, 0, f.len())
}

/// `url` starts with `prefix`.
pub open spec fn has_prefix(url: Seq<char>, prefix: Seq<char>) -> bool {
    prefix.len() <= url.len() && url.take(prefix.len() as int) == prefix
}

/// A mock url `mock://LATENCY/BYTES`: the latency in milliseconds and the
/// page size in bytes.
pub open spec fn parse_mock_url_spec(url: Seq<char>) -> Option<(u64, usize)> {
    let prefix = "mock://"@;
    if !has_prefix(url, prefix) {
        None
    } else {
        let p = url.skip(prefix.len() as int);
        match find(p, seq!['/']) {
            None => None,
            Some(i) => match (
                parse_unsigned(p.take(i), u64::MAX as nat),
                parse_unsigned(p.skip(i + 1), usize::MAX as nat),
            ) {
                (Some(latency), Some(bytes)) => Some((latency as u64, bytes as usize)),
                _ => None,
            },
        }
    }
}

pub fn parse_mock_url(url: &str) -> (r: Option<(u64, usize)>)
    ensures
        r == parse_mock_url_spec(url@),
{
    proof {
        reveal_strlit("mock://");
    }
    let v = chars_of(url);
    let prefix = chars_of("mock://");
    if v.len() < prefix.len() {
        return None;
    }
    let mut k: usize = 0;
    while k < prefix.len()
        invariant
            v@ == url@,
            prefix@ == "mock://"@,
            prefix@.len() <= v@.len(),
            k <= prefix@.len(),
            forall|m: int| 0 <= m < k ==> v@[m] == prefix@[m],
        decreases prefix@.len() - k,
    {
        if v[k] != prefix[k] {
            proof {
                assert(v@.take(prefix@.len() as int)[k as int] != prefix@[k as int]);
            }
            return None;
        }
        k = k + 1;
    }
    proof {
        assert(v@.take(prefix@.len() as int) =~= prefix@);
    }
    let start = prefix.len();
    let ghost p = v@.skip(start as int);
    let mut j = start;
    while j < v.len() && v[j] != '/'
        invariant
            start <= j <= v@.len(),
            forall|m: int| start <= m < j ==> v@[m] != '/',
        decreases v@.len() - j,
    {
        j = j + 1;
    }
    proof {
        assert forall|m: int| 0 <= m < j - start implies p[m] != '/' by {
            assert(p[m] == v@[start + m]);
        }
        crate::text::lemma_find_char(p, '/', j - start);
    }
    if j == v.len() {
        return None;
    }
    let latency = parse_bounded(&v, start, j, u64::MAX as u128);
    let bytes = parse_bounded(&v, j + 1, v.len(), usize::MAX as u128);
    proof {
        assert(p.take(j - start) =~= v@.subrange(start as int, j as int));
        assert(p.skip(j - start + 1) =~= v@.subrange(j + 1, v@.len() as int));
    }
    match (latency, bytes) {
        (Some(l), Some(b)) => Some((l as u64, b as usize)),
        _ => None,
    }
}

/// How long a mock request takes: its url's latency, or 1 ms for a url that
/// is not a mock url.
pub fn mock_latency(url: &str) -> (d: Duration)
    ensures
        d == duration_from_millis(
            match parse_mock_url_spec(url@) {
                Some((latency, _)) => latency,
                None => 1,
            },
        ),
{
    let latency = match parse_mock_url(url) {
        Some((l, _)) => l,
        None => 1,
    };
    millis_to_duration(latency)
}

/// The block that a mock page repeats.
pub open spec fn mock_base(name: Seq<char>, url: Seq<char>) -> Seq<char> {
    name + "\n"@ + url + "\n"@ + "这是用于离线基准测试的模拟首页纯文本。\n"@
}

/// The text a mock request returns: `name`, `url` and a fixed sentence on
/// three lines, repeated `max(bytes / B, 1) + 1` times, where `B` is its
/// length in UTF-8 bytes, and cut to its first `bytes` characters.
pub open spec fn mock_text(name: Seq<char>, url: Seq<char>, bytes: nat) -> Seq<char> {
    let base = mock_base(name, url);
    let b = vstd::utf8::encode_utf8(base).len();
    let times = (if bytes / b >= 1 { bytes / b } else { 1 }) + 1;
    let total = times * base.len();
    Seq::new(if bytes < total { bytes } else { total }, |i: int| base[i % (base.len() as int)])
}

proof fn lemma_encode_nonempty(s: Seq<char>)
    requires
        s.len() > 0,
    ensures
        vstd::utf8::encode_utf8(s).len() >= 1,
{
    let head = vstd::utf8::encode_scalar(s[0] as u32);
    assert(head.len() >= 1);
    assert(vstd::utf8::encode_utf8(s) == head + vstd::utf8::encode_utf8(s.drop_first()));
}

pub fn mock_plain_text(name: &str, url: &str, bytes: usize) -> (r: String)
    requires
        vstd::utf8::encode_utf8(mock_base(name@, url@)).len() <= usize::MAX,
    ensures
        r@ == mock_text(name@, url@, bytes as nat),
{
    let mut base = String::from_str(name);
    base.append("\n");
    base.append(url);
    base.append("\n");
    base.append("这是用于离线基准测试的模拟首页纯文本。\n");
    let ghost b = base@;
    proof {
        reveal_strlit("\n");
        assert(b.len() > 0);
        lemma_encode_nonempty(b);
    }
    let base_str = base.as_str();
    let blen = base_str.len();
    proof {
        assert(base_str@ == b);
        assert(blen == vstd::utf8::encode_utf8(b).len());
    }
    let per = bytes / blen;
    let times: u128 = if per >= 1 { per as u128 } else { 1 };
    let v = chars_of(base.as_str());
    let n = v.len();
    let ghost total: int = (times + 1) * n;
    let mut out = String::new();
    let mut i: usize = 0;
    let mut pos: usize = 0;
    let mut reps: u128 = 0;
    while i < bytes && reps <= times
        invariant
            v@ == b,
            n == b.len(),
            n > 0,
            pos < n,
            i == reps * n + pos,
            reps <= times + 1,
            reps == times + 1 ==> pos == 0,
            times < u128::MAX,
            total == (times + 1) * n,
            i <= total,
            i <= bytes,
            out@ == Seq::new(i as nat, |k: int| b[k % (n as int)]),
        decreases bytes - i,
    {
        proof {
            vstd::arithmetic::div_mod::lemma_fundamental_div_mod_converse(i as int, n as int, reps as int, pos as int);
        }
        push_char(&mut out, v[pos]);
        i = i + 1;
        pos = pos + 1;
        if pos == n {
            proof {
                assert((reps + 1) * n == reps * n + n) by (nonlinear_arith);
            }
            pos = 0;
            reps = reps + 1;
        }
        proof {
            assert(i <= total) by (nonlinear_arith)
                requires
                    i == reps * n + pos,
                    reps <= times + 1,
                    reps == times + 1 ==> pos == 0,
                    pos < n,
                    total == (times + 1) * n,
            ;
            assert(out@ =~= Seq::new(i as nat, |k: int| b[k % (n as int)]));
        }
    }
    proof {
        if i < bytes {
            assert(i == total) by (nonlinear_arith)
                requires
                    i == reps * n + pos,
                    reps == times + 1,
                    pos == 0,
                    total == (times + 1) * n,
            ;
        }
    }
    out
}

/// `s` holds no `<`, so no tag starts in it.
pub open spec fn no_markup(s: Seq<char>) -> bool {
    forall|i: int| 0 <= i < s.len() ==> s[i] != '<'
}

/// A tag name of at least two lowercase ASCII letters.
pub open spec fn tag_name(t: Seq<char>) -> bool {
    2 <= t.len() && forall|i: int| 0 <= i < t.len() ==> 'a' <= #[trigger] t[i] <= 'z'
}

/// A page made of `before`, one `<tag ...>...</tag>` block whose inside
/// `inner` (attributes, `>` and body) holds no tag, and `after`.
pub open spec fn page_with_block(before: Seq<char>, tag: Seq<char>, inner: Seq<char>, after: Seq<char>) -> Seq<char> {
    before + open_tag(tag) + inner + close_tag(tag) + after
}

proof fn lemma_ascii_lower_keeps(c: char)
    ensures
        ascii_lower(c) == '<' ==> c == '<',
        ascii_lower(c) == '/' ==> c == '/',
        !('A' <= c <= 'Z') ==> ascii_lower(c) == c,
{
}

proof fn lemma_occurs_at_index(s: Seq<char>, pat: Seq<char>, m: int, j: int)
    requires
        occurs_at(s, pat, m),
        0 <= j < pat.len(),
    ensures
        s[m + j] == pat[j],
{
    assert(s.subrange(m, m + pat.len())[j] == s[m + j]);
}

proof fn lemma_strip_without_markup(s: Seq<char>, open: Seq<char>, close: Seq<char>)
    requires
        no_markup(s),
        open.len() > 0,
        open[0] == '<',
    ensures
        strip_blocks(s, open, close) == s,
{
    let l = lower(s);
    lemma_find_from(l, open, 0);
    match find(l, open) {
        Some(k) => {
            lemma_occurs_at_index(l, open, k, 0);
            lemma_ascii_lower_keeps(s[k]);
        },
        None => {},
    }
}

/// Where the characters of a page with one block stand: its only `<` are
/// those of the opening and of the closing tag.
proof fn lemma_block_layout(before: Seq<char>, tag: Seq<char>, inner: Seq<char>, after: Seq<char>)
    requires
        no_markup(before),
        no_markup(inner),
        no_markup(after),
        tag_name(tag),
    ensures
        ({
            let s = page_with_block(before, tag, inner, after);
            let a = before.len() as int;
            let c = a + 1 + tag.len() + inner.len();
            &&& s.len() == c + tag.len() + 3 + after.len()
            &&& s[a] == '<'
            &&& s[c] == '<'
            &&& s[c + 1] == '/'
            &&& s[c + 2 + tag.len()] == '>'
            &&& forall|j: int| 0 <= j < tag.len() ==> s[a + 1 + j] == tag[j] && s[c + 2 + j] == tag[j]
            &&& forall|i: int| 0 <= i < s.len() && s[i] == '<' ==> i == a || i == c
            &&& s.take(a) == before
            &&& s.skip(c + tag.len() + 3) == after
        }),
{
    let s = page_with_block(before, tag, inner, after);
    let a = before.len() as int;
    let c = a + 1 + tag.len() + inner.len();
    let ot = open_tag(tag);
    let ct = close_tag(tag);
    let s1 = before + ot;
    let s2 = s1 + inner;
    let s3 = s2 + ct;
    assert(s == s3 + after);
    assert(ot.len() == tag.len() + 1);
    assert(ct.len() == tag.len() + 3);
    assert forall|j: int| 0 <= j < tag.len() implies s[a + 1 + j] == tag[j] && s[c + 2 + j] == tag[j] by {
        assert(ot[1 + j] == tag[j]);
        assert(ct[2 + j] == tag[j]);
        assert(s[a + 1 + j] == s1[a + 1 + j]);
        assert(s[c + 2 + j] == s3[c + 2 + j]);
    }
    assert(s[a] == s1[a]);
    assert(s[c] == s3[c]);
    assert(s[c + 1] == s3[c + 1]);
    assert(s[c + 2 + tag.len()] == s3[c + 2 + tag.len()]);
    assert forall|i: int| 0 <= i < s.len() && s[i] == '<' implies i == a || i == c by {
        if i < a {
            assert(s[i] == before[i]);
        } else if a < i < a + 1 + tag.len() {
            assert(s[i] == tag[i - a - 1]);
        } else if a + 1 + tag.len() <= i < c {
            assert(s[i] == s2[i]);
            assert(s[i] == inner[i - a - 1 - tag.len()]);
        } else if c + 1 < i < c + tag.len() + 3 {
            if i < c + 2 + tag.len() {
                assert(s[i] == tag[i - c - 2]);
            } else {
                assert(s[i] == '>');
            }
        } else if c + tag.len() + 3 <= i {
            assert(s[i] == after[i - c - tag.len() - 3]);
        }
    }
    assert(s.take(a) =~= before);
    assert(s.skip(c + tag.len() + 3) =~= after);
}

proof fn lemma_find_open_tag(before: Seq<char>, tag: Seq<char>, inner: Seq<char>, after: Seq<char>)
    requires
        no_markup(before),
        no_markup(inner),
        no_markup(after),
        tag_name(tag),
    ensures
        find(lower(page_with_block(before, tag, inner, after)), open_tag(tag)) == Some(before.len() as int),
{
    let s = page_with_block(before, tag, inner, after);
    let a = before.len() as int;
    let ot = open_tag(tag);
    let l = lower(s);
    lemma_block_layout(before, tag, inner, after);
    assert(ot.len() == tag.len() + 1);
    assert(l.subrange(a, a + ot.len()) =~= ot) by {
        assert forall|j: int| 0 <= j < ot.len() implies l.subrange(a, a + ot.len())[j] == ot[j] by {
            if j > 0 {
                assert(s[a + 1 + (j - 1)] == tag[j - 1]);
                assert('a' <= tag[j - 1] <= 'z');
            }
            lemma_ascii_lower_keeps(s[a + j]);
        }
    }
    assert(occurs_at(l, ot, a));
    assert forall|m: int| 0 <= m < a implies !#[trigger] occurs_at(l, ot, m) by {
        if occurs_at(l, ot, m) {
            lemma_occurs_at_index(l, ot, m, 0);
            lemma_ascii_lower_keeps(s[m]);
        }
    }
    lemma_find_from(l, ot, 0);
}

proof fn lemma_find_close_tag(before: Seq<char>, tag: Seq<char>, inner: Seq<char>, after: Seq<char>)
    requires
        no_markup(before),
        no_markup(inner),
        no_markup(after),
        tag_name(tag),
    ensures
        find(lower(page_with_block(before, tag, inner, after)).skip(before.len() as int), close_tag(tag))
            == Some(1 + tag.len() + inner.len() as int),
{
    let s = page_with_block(before, tag, inner, after);
    let a = before.len() as int;
    let c = a + 1 + tag.len() + inner.len();
    let ct = close_tag(tag);
    let l = lower(s);
    lemma_block_layout(before, tag, inner, after);
    assert(ct.len() == tag.len() + 3);
    let r = l.skip(a);
    let k = c - a;
    assert(r.subrange(k, k + ct.len()) =~= ct) by {
        assert forall|j: int| 0 <= j < ct.len() implies r.subrange(k, k + ct.len())[j] == ct[j] by {
            assert(r[k + j] == l[c + j]);
            if 2 <= j < ct.len() - 1 {
                assert(s[c + 2 + (j - 2)] == tag[j - 2]);
                assert('a' <= tag[j - 2] <= 'z');
            }
            lemma_ascii_lower_keeps(s[c + j]);
        }
    }
    assert(occurs_at(r, ct, k));
    assert forall|m: int| 0 <= m < k implies !#[trigger] occurs_at(r, ct, m) by {
        if occurs_at(r, ct, m) {
            lemma_occurs_at_index(r, ct, m, 0);
            lemma_occurs_at_index(r, ct, m, 1);
            lemma_ascii_lower_keeps(s[a + m]);
            lemma_ascii_lower_keeps(s[a + m + 1]);
            assert(s[a + 1 + 0] == tag[0]);
            assert('a' <= tag[0] <= 'z');
        }
    }
    lemma_find_from(r, ct, 0);
}

/// Stripping a page's own block kind replaces that block by one space.
proof fn lemma_strip_own_block(before: Seq<char>, tag: Seq<char>, inner: Seq<char>, after: Seq<char>)
    requires
        no_markup(before),
        no_markup(inner),
        no_markup(after),
        tag_name(tag),
    ensures
        strip_blocks(page_with_block(before, tag, inner, after), open_tag(tag), close_tag(tag))
            == before + seq![' '] + after,
{
    let s = page_with_block(before, tag, inner, after);
    let a = before.len() as int;
    let c = a + 1 + tag.len() + inner.len();
    let ot = open_tag(tag);
    let ct = close_tag(tag);
    lemma_block_layout(before, tag, inner, after);
    lemma_find_open_tag(before, tag, inner, after);
    lemma_find_close_tag(before, tag, inner, after);
    assert(ot.len() == tag.len() + 1 && ot[0] == '<');
    assert(ct.len() == tag.len() + 3);
    let rest = before + seq![' '] + after;
    assert(s.take(a) + seq![' '] + s.skip(c + ct.len()) =~= rest);
    assert(no_markup(rest)) by {
        assert forall|i: int| 0 <= i < rest.len() implies rest[i] != '<' by {
            if i < a {
                assert(rest[i] == before[i]);
            } else if i > a {
                assert(rest[i] == after[i - a - 1]);
            }
        }
    }
    lemma_strip_without_markup(rest, ot, ct);
}

/// Stripping blocks of another kind leaves a page with one block as it is,
/// when the two tag names differ in their first two letters.
proof fn lemma_strip_other_block(
    before: Seq<char>,
    tag: Seq<char>,
    inner: Seq<char>,
    after: Seq<char>,
    other: Seq<char>,
)
    requires
        no_markup(before),
        no_markup(inner),
        no_markup(after),
        tag_name(tag),
        tag_name(other),
        tag[0] != other[0] || tag[1] != other[1],
    ensures
        strip_blocks(page_with_block(before, tag, inner, after), open_tag(other), close_tag(other))
            == page_with_block(before, tag, inner, after),
{
    let s = page_with_block(before, tag, inner, after);
    let a = before.len() as int;
    let c = a + 1 + tag.len() + inner.len();
    let oo = open_tag(other);
    let l = lower(s);
    lemma_block_layout(before, tag, inner, after);
    assert(oo.len() == other.len() + 1);
    assert(oo[1] == other[0] && oo[2] == other[1]);
    lemma_find_from(l, oo, 0);
    match find(l, oo) {
        Some(m) => {
            lemma_occurs_at_index(l, oo, m, 0);
            lemma_occurs_at_index(l, oo, m, 1);
            lemma_occurs_at_index(l, oo, m, 2);
            lemma_ascii_lower_keeps(s[m]);
            lemma_ascii_lower_keeps(s[m + 1]);
            lemma_ascii_lower_keeps(s[m + 2]);
            assert(m == a || m == c);
            if m == a {
                assert(s[a + 1 + 0] == tag[0]);
                assert(s[a + 1 + 1] == tag[1]);
                assert('a' <= tag[0] <= 'z');
                assert('a' <= tag[1] <= 'z');
            } else {
                assert('a' <= other[0] <= 'z');
            }
        },
        None => {},
    }
}

proof fn lemma_hidden_tag_names()
    ensures
        tag_name("script"@),
        tag_name("style"@),
        tag_name("noscript"@),
        "script"@[1] != "style"@[1],
        "script"@[0] != "noscript"@[0],
        "style"@[0] != "noscript"@[0],
{
    reveal_strlit("script");
    reveal_strlit("style");
    reveal_strlit("noscript");
}

/// The text of a page holding one `script`, `style` or `noscript` block
/// (`<tag ...>...</tag>`, with no other tag inside it or around it) is the
/// text of the page with that block replaced by one space: nothing between
/// the opening and the closing tag reaches the text.
pub proof fn law_hidden_block_gives_no_text(before: Seq<char>, tag: Seq<char>, inner: Seq<char>, after: Seq<char>)
    requires
        tag == "script"@ || tag == "style"@ || tag == "noscript"@,
        no_markup(before),
        no_markup(inner),
        no_markup(after),
    ensures
        html_text(page_with_block(before, tag, inner, after)) == html_text(before + seq![' '] + after),
{
    lemma_hidden_tag_names();
    let page = page_with_block(before, tag, inner, after);
    let rest = before + seq![' '] + after;
    let (sc, st, ns) = ("script"@, "style"@, "noscript"@);
    assert(no_markup(rest)) by {
        assert forall|i: int| 0 <= i < rest.len() implies rest[i] != '<' by {
            if i < before.len() {
                assert(rest[i] == before[i]);
            } else if i > before.len() {
                assert(rest[i] == after[i - before.len() - 1]);
            }
        }
    }
    assert(open_tag(sc)[0] == '<' && open_tag(st)[0] == '<' && open_tag(ns)[0] == '<');
    lemma_strip_without_markup(rest, open_tag(sc), close_tag(sc));
    lemma_strip_without_markup(rest, open_tag(st), close_tag(st));
    lemma_strip_without_markup(rest, open_tag(ns), close_tag(ns));
    lemma_strip_own_block(before, tag, inner, after);
    if tag == st {
        lemma_strip_other_block(before, tag, inner, after, sc);
    } else if tag == ns {
        lemma_strip_other_block(before, tag, inner, after, sc);
        lemma_strip_other_block(before, tag, inner, after, st);
    }
}

/// What stands inside a `script`, `style` or `noscript` block does not
/// change the text of the page.
pub proof fn law_hidden_block_content_is_ignored(
    before: Seq<char>,
    tag: Seq<char>,
    inner: Seq<char>,
    other_inner: Seq<char>,
    after: Seq<char>,
)
    requires
        tag == "script"@ || tag == "style"@ || tag == "noscript"@,
        no_markup(before),
        no_markup(inner),
        no_markup(other_inner),
        no_markup(after),
    ensures
        html_text(page_with_block(before, tag, inner, after)) == html_text(
            page_with_block(before, tag, other_inner, after),
        ),
{
    law_hidden_block_gives_no_text(before, tag, inner, after);
    law_hidden_block_gives_no_text(before, tag, other_inner, after);
}

} // verus!
