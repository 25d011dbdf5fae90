//! School lists: CSV lines, header detection, url normalization and the
//! mock schools of offline runs.

use vstd::prelude::*;
use crate::crawl::config::{CrawlConfig, ConfigView, config_view};
use crate::text::{chars_of, contains, find, find_chars_from, lemma_find_char, lemma_find_from, lower, lower_chars, push_zero_padded, string_of, sub_chars, trim, trim_bounds, trimmed, zero_padded};

verus! {

/// Scanning a CSV line from position `i`, inside quotes or not, with the
/// field read so far and the fields already finished. A doubled quote inside
/// quotes is a literal quote; a comma outside quotes ends a field; fields
/// are trimmed.
pub open spec fn csv_scan(
    s: Seq<char>,
    i: int,
    in_quotes: bool,
    field: Seq<char>,
    fields: Seq<Seq<char>>,
) -> Seq<Seq<char>>
    decreases s.len() - i,
{
    if i < 0 || i >= s.len() {
        fields.push(trim(field))
    } else if s[i] == '"' && in_quotes && i + 1 < s.len() && s[i + 1] == '"' {
        csv_scan(s, i + 2, in_quotes, field.push('"'), fields)
    } else if s[i] == '"' {
        csv_scan(s, i + 1, !in_quotes, field, fields)
    } else if s[i] == ',' && !in_quotes {
        csv_scan(s, i + 1, in_quotes, Seq::empty(), fields.push(trim(field)))
    } else {
        csv_scan(s, i + 1, in_quotes, field.push(s[i]), fields)
    }
}

/// The trimmed fields of one CSV line.
pub open spec fn csv_fields(line: Seq<char>) -> Seq<Seq<char>> {
    csv_scan(line, 0, false, Seq::empty(), Seq::empty())
}

pub open spec fn strings_view(v: Seq<String>) -> Seq<Seq<char>> {
    v.map_values(|f: String| f@)
}

pub fn split_csv_line(line: &str) -> (fields: Vec<String>)
    ensures
        strings_view(fields@) == csv_fields(line@),
{
    let v = chars_of(line);
    let mut fields: Vec<String> = Vec::new();
    let mut field: Vec<char> = Vec::new();
    let mut in_quotes = false;
    let mut i: usize = 0;
    proof {
        assert(strings_view(fields@) =~= Seq::<Seq<char>>::empty());
        assert(field@ =~= Seq::<char>::empty());
    }
    while i < v.len()
        invariant
            i <= v@.len(),
            csv_fields(line@) == csv_scan(v@, i as int, in_quotes, field@, strings_view(fields@)),
            v@ == line@,
        decreases v@.len() - i,
    {
        let ch = v[i];
        if ch == '"' && in_quotes && i + 1 < v.len() && v[i + 1] == '"' {
            field.push('"');
            i = i + 2;
        } else if ch == '"' {
            in_quotes = !in_quotes;
            i = i + 1;
        } else if ch == ',' && !in_quotes {
            let (lo, hi) = trim_bounds(&field);
            let f = string_of(&field, lo, hi);
            proof {
                assert(strings_view(fields@.push(f)) =~= strings_view(fields@).push(trim(field@)));
            }
            fields.push(f);
            field = Vec::new();
            i = i + 1;
        } else {
            field.push(ch);
            i = i + 1;
        }
    }
    let (lo, hi) = trim_bounds(&field);
    let f = string_of(&field, lo, hi);
    proof {
        assert(strings_view(fields@.push(f)) =~= strings_view(fields@).push(trim(field@)));
    }
    fields.push(f);
    fields
}

/// `s` contains `pat`, checked on characters.
pub fn contains_chars(s: &Vec<char>, pat: &Vec<char>) -> (r: bool)
    ensures
        r == contains(s@, pat@),
{
    find_chars_from(s, pat, 0).is_some()
}

/// The header words that mark a school list's first line.
pub open spec fn header_word(f: Seq<char>) -> bool {
    contains(f, "院校"@) || contains(f, "学校"@) || contains(f, "官网"@) || contains(f, "url"@)
        || contains(f, "website"@)
}

/// Trimmed and ASCII-lowercased, as header matching sees a field.
pub open spec fn normalized(f: Seq<char>) -> Seq<char> {
    lower(trim(f))
}

fn normalized_chars(f: &str) -> (r: Vec<char>)
    ensures
        r@ == normalized(f@),
{
    let v = chars_of(f);
    let (lo, hi) = trim_bounds(&v);
    let t = sub_chars(&v, lo, hi);
    lower_chars(&t)
}

fn contains_str(s: &Vec<char>, pat: &str) -> (r: bool)
    ensures
        r == contains(s@, pat@),
{
    let p = chars_of(pat);
    contains_chars(s, &p)
}

/// Some field of `row`, normalized, holds a header word.
pub open spec fn is_header_row(row: Seq<Seq<char>>) -> bool {
    exists|i: int| 0 <= i < row.len() && header_word(normalized(#[trigger] row[i]))
}

pub fn looks_like_header(row: &Vec<String>) -> (r: bool)
    ensures
        r == is_header_row(strings_view(row@)),
{
    let ghost rv = strings_view(row@);
    let mut i: usize = 0;
    while i < row.len()
        invariant
            i <= row@.len(),
            rv == strings_view(row@),
            forall|k: int| 0 <= k < i ==> !header_word(normalized(#[trigger] rv[k])),
        decreases row@.len() - i,
    {
        let f = normalized_chars(row[i].as_str());
        if contains_str(&f, "院校") || contains_str(&f, "学校") || contains_str(&f, "官网")
            || contains_str(&f, "url") || contains_str(&f, "website") {
            proof {
                assert(header_word(normalized(rv[i as int])));
            }
            return true;
        }
        i = i + 1;
    }
    false
}

/// Field `f` matches one of the header `candidates`.
pub open spec fn matches_candidate(f: Seq<char>, candidates: Seq<Seq<char>>) -> bool {
    exists|j: int| 0 <= j < candidates.len() && contains(normalized(f), lower(#[trigger] candidates[j]))
}

/// Index of the first field of `row` that matches one of `candidates`.
pub open spec fn header_pos(row: Seq<Seq<char>>, candidates: Seq<Seq<char>>) -> Option<int>
    decreases row.len(),
{
    if row.len() == 0 {
        None
    } else {
        match header_pos(row.drop_last(), candidates) {
            Some(i) => Some(i),
            None => if matches_candidate(row.last(), candidates) {
                Some(row.len() - 1)
            } else {
                None
            },
        }
    }
}

pub open spec fn strs_view(v: Seq<&str>) -> Seq<Seq<char>> {
    v.map_values(|c: &str| c@)
}

/// The first field of `row` that matches one of `candidates`.
pub fn find_header(row: &Vec<String>, candidates: &[&str]) -> (r: Option<usize>)
    ensures
        match header_pos(strings_view(row@), strs_view(candidates@)) {
            Some(i) => r == Some(i as usize),
            None => r is None,
        },
{
    let ghost rv = strings_view(row@);
    let ghost cv = strs_view(candidates@);
    let mut i: usize = 0;
    while i < row.len()
        invariant
            i <= row@.len(),
            rv == strings_view(row@),
            cv == strs_view(candidates@),
            header_pos(rv.take(i as int), cv) is None,
        decreases row@.len() - i,
    {
        let f = normalized_chars(row[i].as_str());
        let mut j: usize = 0;
        while j < candidates.len()
            invariant
                i < row@.len(),
                rv == strings_view(row@),
                cv == strs_view(candidates@),
                j <= candidates@.len(),
                header_pos(rv.take(i as int), cv) is None,
                f@ == normalized(rv[i as int]),
                forall|m: int| 0 <= m < j ==> !contains(f@, lower(#[trigger] cv[m])),
            decreases candidates@.len() - j,
        {
            let c = chars_of(candidates[j]);
            let lc = lower_chars(&c);
            if contains_chars(&f, &lc) {
                proof {
                    assert(contains(normalized(rv[i as int]), lower(cv[j as int])));
                    assert(rv.take(i + 1).drop_last() =~= rv.take(i as int));
                    assert(rv.take(i + 1).last() == rv[i as int]);
                    assert(header_pos(rv.take(i + 1), cv) == Some(i as int));
                    lemma_header_pos_prefix(rv, cv, i + 1);
                }
                return Some(i);
            }
            j = j + 1;
        }
        proof {
            assert(!matches_candidate(rv[i as int], cv));
            assert(rv.take(i + 1).drop_last() =~= rv.take(i as int));
            assert(rv.take(i + 1).last() == rv[i as int]);
        }
        i = i + 1;
    }
    proof {
        assert(rv.take(i as int) =~= rv);
    }
    None
}

proof fn lemma_header_pos_bound(row: Seq<Seq<char>>, cands: Seq<Seq<char>>)
    ensures
        header_pos(row, cands) matches Some(i) ==> 0 <= i < row.len(),
    decreases row.len(),
{
    if row.len() > 0 {
        lemma_header_pos_bound(row.drop_last(), cands);
    }
}

/// A match found in a prefix of the row is the row's first match.
proof fn lemma_header_pos_prefix(row: Seq<Seq<char>>, cands: Seq<Seq<char>>, k: int)
    requires
        0 <= k <= row.len(),
        header_pos(row.take(k), cands) is Some,
    ensures
        header_pos(row, cands) == header_pos(row.take(k), cands),
    decreases row.len() - k,
{
    if k < row.len() {
        assert(row.take(k + 1).drop_last() =~= row.take(k));
        lemma_header_pos_prefix(row, cands, k + 1);
    } else {
        assert(row.take(k) =~= row);
    }
}

/// `s` starts with `p`.
pub open spec fn starts_with(s: Seq<char>, p: Seq<char>) -> bool {
    p.len() <= s.len() && s.take(p.len() as int) == p
}

fn starts_with_str(s: &Vec<char>, p: &str) -> (r: bool)
    ensures
        r == starts_with(s@, p@),
{
    let pv = chars_of(p);
    if pv.len() > s.len() {
        return false;
    }
    let mut k: usize = 0;
    while k < pv.len()
        invariant
            pv@ == p@,
            pv@.len() <= s@.len(),
            k <= pv@.len(),
            forall|m: int| 0 <= m < k ==> s@[m] == pv@[m],
        decreases pv@.len() - k,
    {
        if s[k] != pv[k] {
            proof {
                assert(s@.take(pv@.len() as int)[k as int] != pv@[k as int]);
            }
            return false;
        }
        k = k + 1;
    }
    proof {
        assert(s@.take(pv@.len() as int) =~= pv@);
    }
    true
}

/// A url as written in a school list, with `https://` added when it names
/// no scheme (`http`, `https` or `mock`); blank stays blank.
pub open spec fn normalize_url_spec(raw: Seq<char>) -> Seq<char> {
    if starts_with(raw, "http://"@) || starts_with(raw, "https://"@) || starts_with(raw, "mock://"@) {
        raw
    } else if raw.len() == 0 {
        Seq::empty()
    } else {
        "https://"@ + raw
    }
}

/// Normalizing a url twice gives what normalizing it once gives.
pub proof fn law_normalize_url_idempotent(raw: Seq<char>)
    ensures
        normalize_url_spec(normalize_url_spec(raw)) == normalize_url_spec(raw),
{
    reveal_strlit("https://");
    reveal_strlit("http://");
    reveal_strlit("mock://");
    let n = normalize_url_spec(raw);
    if !(starts_with(raw, "http://"@) || starts_with(raw, "https://"@) || starts_with(raw, "mock://"@))
        && raw.len() > 0 {
        assert(n.take(8) =~= "https://"@);
        assert(starts_with(n, "https://"@));
    }
}

/// The schools to crawl never outnumber the configured limit.
pub proof fn law_load_respects_limit(config: ConfigView, content: Seq<char>)
    ensures
        config.limit matches Some(limit) ==> load_schools_spec(config, content).len() <= limit,
        config.mock && config.limit is None ==> load_schools_spec(config, content).len() == config.requests,
{
}

pub fn normalize_url(raw: &str) -> (r: String)
    ensures
        r@ == normalize_url_spec(raw@),
{
    let v = chars_of(raw);
    if starts_with_str(&v, "http://") || starts_with_str(&v, "https://") || starts_with_str(&v, "mock://") {
        String::from_str(raw)
    } else if v.len() == 0 {
        String::new()
    } else {
        let mut r = String::from_str("https://");
        r.append(raw);
        r
    }
}

#[derive(Debug, Clone)]
pub struct School {
    pub name: String,
    pub url: String,
}

/// What a school holds: its name and url.
pub open spec fn school_view(s: School) -> (Seq<char>, Seq<char>) {
    (s.name@, s.url@)
}

pub open spec fn schools_view(v: Seq<School>) -> Seq<(Seq<char>, Seq<char>)> {
    v.map_values(|s: School| school_view(s))
}

/// All pieces of `s` between `sep` characters.
pub open spec fn split_all(s: Seq<char>, sep: char) -> Seq<Seq<char>>
    decreases s.len(),
{
    match find(s, seq![sep]) {
        None => seq![s],
        Some(i) => {
            proof {
                lemma_find_from(s, seq![sep], 0);
            }
            seq![s.take(i)] + split_all(s.skip(i + 1), sep)
        },
    }
}

/// The trimmed lines of `ls` that are not blank, in order.
pub open spec fn nonblank(ls: Seq<Seq<char>>) -> Seq<Seq<char>>
    decreases ls.len(),
{
    if ls.len() == 0 {
        Seq::empty()
    } else {
        let rest = nonblank(ls.drop_last());
        if trim(ls.last()).len() > 0 {
            rest.push(trim(ls.last()))
        } else {
            rest
        }
    }
}

/// The CSV rows of a school list: its non-blank lines, trimmed, split into
/// fields. (Lines end at `\n`; a `\r` before it is whitespace and trimmed.)
pub open spec fn csv_rows(content: Seq<char>) -> Seq<Seq<Seq<char>>> {
    nonblank(split_all(content, '\n')).map_values(|l: Seq<char>| csv_fields(l))
}

/// The school of one row, when it has a non-blank name and url.
pub open spec fn school_of_row(row: Seq<Seq<char>>, name_idx: int, url_idx: int) -> Option<(Seq<char>, Seq<char>)> {
    if 0 <= name_idx < row.len() && 0 <= url_idx < row.len() {
        let name = trim(row[name_idx]);
        let url = normalize_url_spec(trim(row[url_idx]));
        if name.len() > 0 && url.len() > 0 {
            Some((name, url))
        } else {
            None
        }
    } else {
        None
    }
}

pub open spec fn schools_of_rows(rows: Seq<Seq<Seq<char>>>, name_idx: int, url_idx: int) -> Seq<(Seq<char>, Seq<char>)>
    decreases rows.len(),
{
    if rows.len() == 0 {
        Seq::empty()
    } else {
        let rest = schools_of_rows(rows.drop_last(), name_idx, url_idx);
        match school_of_row(rows.last(), name_idx, url_idx) {
            Some(s) => rest.push(s),
            None => rest,
        }
    }
}

pub open spec fn name_headers() -> Seq<Seq<char>> {
    seq!["院校名称"@, "学校名称"@, "学校"@, "name"@]
}

pub open spec fn url_headers() -> Seq<Seq<char>> {
    seq!["官方网站"@, "官网"@, "网址"@, "url"@, "website"@]
}

/// The schools of a CSV school list. A first row holding header words says
/// which columns hold the name and the url (the first and second column
/// when no header matches); without such a row every row is data, name
/// first and url second. Rows without a non-blank name and url are skipped.
pub open spec fn parse_schools_spec(content: Seq<char>) -> Seq<(Seq<char>, Seq<char>)> {
    let rows = csv_rows(content);
    if rows.len() == 0 {
        Seq::empty()
    } else if is_header_row(rows[0]) {
        let name_idx = match header_pos(rows[0], name_headers()) {
            Some(i) => i,
            None => 0,
        };
        let url_idx = match header_pos(rows[0], url_headers()) {
            Some(i) => i,
            None => 1,
        };
        schools_of_rows(rows.drop_first(), name_idx, url_idx)
    } else {
        schools_of_rows(rows, 0, 1)
    }
}

proof fn lemma_nonblank_concat(a: Seq<Seq<char>>, b: Seq<Seq<char>>)
    ensures
        nonblank(a + b) == nonblank(a) + nonblank(b),
    decreases b.len(),
{
    if b.len() == 0 {
        assert(a + b =~= a);
        assert(nonblank(a) + nonblank(b) =~= nonblank(a));
    } else {
        assert((a + b).drop_last() =~= a + b.drop_last());
        lemma_nonblank_concat(a, b.drop_last());
        if trim(b.last()).len() > 0 {
            assert(nonblank(a) + nonblank(b) =~= (nonblank(a) + nonblank(b.drop_last())).push(
                trim(b.last()),
            ));
        }
    }
}

pub open spec fn rows_view(v: Seq<Vec<String>>) -> Seq<Seq<Seq<char>>> {
    v.map_values(|r: Vec<String>| strings_view(r@))
}

/// The CSV rows of `content`.
pub fn csv_rows_of(content: &str) -> (rows: Vec<Vec<String>>)
    ensures
        rows_view(rows@) == csv_rows(content@),
{
    let v = chars_of(content);
    let mut rows: Vec<Vec<String>> = Vec::new();
    let mut start: usize = 0;
    proof {
        assert(v@.skip(0) =~= v@);
        assert(rows_view(rows@) =~= Seq::<Seq<Seq<char>>>::empty());
    }
    loop
        invariant
            start <= v@.len(),
            v@ == content@,
            csv_rows(content@) == rows_view(rows@) + nonblank(split_all(v@.skip(start as int), '\n')).map_values(
                |l: Seq<char>| csv_fields(l),
            ),
        decreases v@.len() - start,
    {
        let ghost rest = v@.skip(start as int);
        let mut j = start;
        while j < v.len() && v[j] != '\n'
            invariant
                start <= j <= v@.len(),
                forall|k: int| start <= k < j ==> v@[k] != '\n',
            decreases v@.len() - j,
        {
            j = j + 1;
        }
        proof {
            assert forall|k: int| 0 <= k < j - start implies rest[k] != '\n' by {
                assert(rest[k] == v@[start + k]);
            }
            lemma_find_char(rest, '\n', j - start);
        }
        let piece = sub_chars(&v, start, j);
        let (lo, hi) = trim_bounds(&piece);
        let ghost before = rows@;
        if lo < hi {
            let line = string_of(&piece, lo, hi);
            let fields = split_csv_line(line.as_str());
            rows.push(fields);
        }
        proof {
            let p = v@.subrange(start as int, j as int);
            assert(piece@ == p);
            if j < v@.len() {
                assert(rest.take(j - start) =~= p);
                assert(rest.skip(j - start + 1) =~= v@.skip(j + 1));
                assert(split_all(rest, '\n') == seq![p] + split_all(v@.skip(j + 1), '\n'));
                lemma_nonblank_concat(seq![p], split_all(v@.skip(j + 1), '\n'));
            } else {
                assert(rest =~= p);
                assert(split_all(rest, '\n') == seq![p]);
            }
            assert(seq![p].drop_last() =~= Seq::<Seq<char>>::empty());
            assert(seq![p].last() == p);
            assert(nonblank(Seq::<Seq<char>>::empty()) == Seq::<Seq<char>>::empty());
            assert(nonblank(seq![p]) =~= if trim(p).len() > 0 {
                seq![trim(p)]
            } else {
                Seq::empty()
            });
        }
        if j == v.len() {
            proof {
                assert(rows_view(rows@) =~= rows_view(before) + nonblank(split_all(rest, '\n')).map_values(
                    |l: Seq<char>| csv_fields(l),
                ));
            }
            return rows;
        }
        proof {
            let tailn = nonblank(split_all(v@.skip(j + 1), '\n'));
            let p = v@.subrange(start as int, j as int);
            assert(nonblank(split_all(rest, '\n')) == nonblank(seq![p]) + tailn);
            assert(rows_view(before) + nonblank(split_all(rest, '\n')).map_values(
                |l: Seq<char>| csv_fields(l),
            ) =~= rows_view(rows@) + tailn.map_values(|l: Seq<char>| csv_fields(l)));
        }
        start = j + 1;
    }
}

fn school_from_row(row: &Vec<String>, name_idx: usize, url_idx: usize) -> (r: Option<School>)
    ensures
        match school_of_row(strings_view(row@), name_idx as int, url_idx as int) {
            Some(v) => r matches Some(s) && school_view(s) == v,
            None => r is None,
        },
{
    if name_idx >= row.len() || url_idx >= row.len() {
        return None;
    }
    let name = trimmed(row[name_idx].as_str());
    let url_text = trimmed(row[url_idx].as_str());
    let url = normalize_url(url_text.as_str());
    if name.as_str().is_empty() || url.as_str().is_empty() {
        return None;
    }
    Some(School { name, url })
}

fn schools_from_rows(rows: &Vec<Vec<String>>, first: usize, name_idx: usize, url_idx: usize) -> (schools: Vec<School>)
    requires
        first <= rows@.len(),
    ensures
        schools_view(schools@) == schools_of_rows(rows_view(rows@).skip(first as int), name_idx as int, url_idx as int),
{
    let ghost rv = rows_view(rows@).skip(first as int);
    let mut schools: Vec<School> = Vec::new();
    let mut k = first;
    proof {
        assert(rv.take(0) =~= Seq::<Seq<Seq<char>>>::empty());
        assert(schools_view(schools@) =~= Seq::<(Seq<char>, Seq<char>)>::empty());
    }
    while k < rows.len()
        invariant
            first <= k <= rows@.len(),
            rv == rows_view(rows@).skip(first as int),
            schools_view(schools@) == schools_of_rows(rv.take(k - first), name_idx as int, url_idx as int),
        decreases rows@.len() - k,
    {
        let found = school_from_row(&rows[k], name_idx, url_idx);
        proof {
            assert(rv.take(k + 1 - first).drop_last() =~= rv.take(k - first));
            assert(rv.take(k + 1 - first).last() == strings_view(rows@[k as int]@));
        }
        match found {
            Some(school) => {
                proof {
                    assert(schools_view(schools@.push(school)) =~= schools_view(schools@).push(school_view(school)));
                }
                schools.push(school);
            },
            None => {},
        }
        k = k + 1;
    }
    proof {
        assert(rv.take(k - first) =~= rv);
    }
    schools
}

/// The schools of a CSV school list (see `parse_schools_spec`).
#[verifier::spinoff_prover]
pub fn parse_schools(content: &str) -> (schools: Vec<School>)
    ensures
        schools_view(schools@) == parse_schools_spec(content@),
{
    let rows = csv_rows_of(content);
    let ghost rv = csv_rows(content@);
    if rows.len() == 0 {
        proof {
            assert(schools_view(Seq::<School>::empty()) =~= Seq::<(Seq<char>, Seq<char>)>::empty());
        }
        return Vec::new();
    }
    proof {
        assert(rv[0] == strings_view(rows@[0]@));
    }
    if looks_like_header(&rows[0]) {
        let names: &[&str] = &["院校名称", "学校名称", "学校", "name"];
        let urls: &[&str] = &["官方网站", "官网", "网址", "url", "website"];
        proof {
            assert(strs_view(names@) =~= name_headers());
            assert(strs_view(urls@) =~= url_headers());
            lemma_header_pos_bound(rv[0], name_headers());
            lemma_header_pos_bound(rv[0], url_headers());
        }
        let width = rows[0].len();
        let found_name = find_header(&rows[0], names);
        let found_url = find_header(&rows[0], urls);
        proof {
            assert(strings_view(rows@[0]@) == rv[0]);
            assert(rv[0].len() == width);
            assert(strs_view(names@) == name_headers());
            assert(header_pos(strings_view(rows@[0]@), strs_view(names@)) == header_pos(rv[0], name_headers()));
            assert(header_pos(strings_view(rows@[0]@), strs_view(urls@)) == header_pos(rv[0], url_headers()));
        }
        let name_idx = match found_name {
            Some(i) => i,
            None => 0,
        };
        let url_idx = match found_url {
            Some(i) => i,
            None => 1,
        };
        let schools = schools_from_rows(&rows, 1, name_idx, url_idx);
        proof {
            assert(rv.skip(1) =~= rv.drop_first());
            assert(name_idx as int == match header_pos(rv[0], name_headers()) {
                Some(i) => i,
                None => 0,
            });
            assert(url_idx as int == match header_pos(rv[0], url_headers()) {
                Some(i) => i,
                None => 1,
            });
            assert(is_header_row(rv[0]));
        }
        schools
    } else {
        let schools = schools_from_rows(&rows, 0, 0, 1);
        proof {
            assert(rv.skip(0) =~= rv);
            assert(!is_header_row(rv[0]));
        }
        schools
    }
}

pub open spec fn mock_seed(i: int) -> Seq<char> {
    if i == 0 {
        "mock://25/1024"@
    } else if i == 1 {
        "mock://35/2048"@
    } else {
        "mock://45/3072"@
    }
}

/// The `i`-th mock school: a numbered name and one of three mock urls in turn.
pub open spec fn mock_school(i: int) -> (Seq<char>, Seq<char>) {
    ("模拟学校"@ + zero_padded((i + 1) as nat, 3), mock_seed(i % 3))
}

fn mock_seed_str(i: usize) -> (r: &'static str)
    requires
        i < 3,
    ensures
        r@ == mock_seed(i as int),
{
    if i == 0 {
        "mock://25/1024"
    } else if i == 1 {
        "mock://35/2048"
    } else {
        "mock://45/3072"
    }
}

/// `requests` mock schools, whose urls the crawler answers offline.
pub fn mock_schools(requests: usize) -> (schools: Vec<School>)
    ensures
        schools@.len() == requests,
        forall|i: int| 0 <= i < requests ==> school_view(#[trigger] schools@[i]) == mock_school(i),
{
    let mut schools: Vec<School> = Vec::new();
    let mut i: usize = 0;
    while i < requests
        invariant
            i <= requests,
            schools@.len() == i,
            forall|k: int| 0 <= k < i ==> school_view(#[trigger] schools@[k]) == mock_school(k),
        decreases requests - i,
    {
        let mut name = String::from_str("模拟学校");
        push_zero_padded(&mut name, (i + 1) as u128, 3);
        let url = String::from_str(mock_seed_str(i % 3));
        schools.push(School { name, url });
        i = i + 1;
    }
    schools
}

/// The schools to crawl: the mock schools, or the schools of the list
/// `content` (the text of the configured input file), cut to the limit.
pub open spec fn load_schools_spec(config: ConfigView, content: Seq<char>) -> Seq<(Seq<char>, Seq<char>)> {
    let all = if config.mock {
        Seq::new(config.requests as nat, |i: int| mock_school(i))
    } else {
        parse_schools_spec(content)
    };
    match config.limit {
        Some(limit) => if limit < all.len() {
            all.take(limit as int)
        } else {
            all
        },
        None => all,
    }
}

/// The schools to crawl. `content` is the text of `config.input`; it is not
/// read in mock mode.
pub fn load_schools(config: &CrawlConfig, content: &str) -> (schools: Vec<School>)
    ensures
        schools_view(schools@) == load_schools_spec(config_view(*config), content@),
{
    let mut schools = if config.mock {
        let s = mock_schools(config.requests);
        proof {
            assert(schools_view(s@) =~= Seq::new(config.requests as nat, |i: int| mock_school(i)));
        }
        s
    } else {
        parse_schools(content)
    };
    let ghost all = schools_view(schools@);
    match config.limit {
        Some(limit) => {
            schools.truncate(limit);
            proof {
                if limit < all.len() {
                    assert(schools_view(schools@) =~= all.take(limit as int));
                }
            }
        },
        None => {},
    }
    schools
}


proof fn lemma_rows_schools_nonblank(rows: Seq<Seq<Seq<char>>>, name_idx: int, url_idx: int)
    ensures
        forall|i: int|
            0 <= i < schools_of_rows(rows, name_idx, url_idx).len() ==> (#[trigger] schools_of_rows(
                rows,
                name_idx,
                url_idx,
            )[i]).0.len() > 0 && schools_of_rows(rows, name_idx, url_idx)[i].1.len() > 0,
    decreases rows.len(),
{
    if rows.len() > 0 {
        let rest = schools_of_rows(rows.drop_last(), name_idx, url_idx);
        lemma_rows_schools_nonblank(rows.drop_last(), name_idx, url_idx);
        let all = schools_of_rows(rows, name_idx, url_idx);
        assert forall|i: int| 0 <= i < all.len() implies (#[trigger] all[i]).0.len() > 0 && all[i].1.len() > 0 by {
            if i < rest.len() {
                assert(all[i] == rest[i]);
            }
        }
    }
}

/// Every school read from a list has a non-empty name and a non-empty url:
/// a row whose name or url field is blank gives no school.
pub proof fn law_parsed_schools_are_complete(content: Seq<char>)
    ensures
        forall|i: int|
            0 <= i < parse_schools_spec(content).len() ==> (#[trigger] parse_schools_spec(content)[i]).0.len() > 0
                && parse_schools_spec(content)[i].1.len() > 0,
{
    let rows = csv_rows(content);
    if rows.len() > 0 {
        lemma_rows_schools_nonblank(rows, 0, 1);
        lemma_rows_schools_nonblank(rows.drop_first(), 0, 1);
        if is_header_row(rows[0]) {
            let name_idx = match header_pos(rows[0], name_headers()) {
                Some(i) => i,
                None => 0,
            };
            let url_idx = match header_pos(rows[0], url_headers()) {
                Some(i) => i,
                None => 1,
            };
            lemma_rows_schools_nonblank(rows.drop_first(), name_idx, url_idx);
        }
    }
}

/// A row whose url field is blank adds no school to those of the rows
/// before it, whatever its name.
pub proof fn law_row_without_url_is_skipped(
    rows: Seq<Seq<Seq<char>>>,
    row: Seq<Seq<char>>,
    name_idx: int,
    url_idx: int,
)
    requires
        0 <= url_idx < row.len(),
        trim(row[url_idx]).len() == 0,
    ensures
        schools_of_rows(rows.push(row), name_idx, url_idx) == schools_of_rows(rows, name_idx, url_idx),
{
    assert(rows.push(row).drop_last() =~= rows);
    assert(normalize_url_spec(trim(row[url_idx])).len() == 0);
    assert(school_of_row(row, name_idx, url_idx) is None);
}

} // verus!
