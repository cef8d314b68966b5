use std::io::Read;

use vstd::prelude::*;

use crate::text::{
    ascii_lower_seq, chars_eq, chars_of, first_index, first_index_of, is_white_space, is_whitespace,
    lower_chars, sub_chars,
};

verus! {

// ---------------------------------------------------------------------------
// Order of host names.

/// Lexicographic order of character sequences by code point (the order of
/// Rust strings, which compare their UTF-8 bytes).
pub open spec fn lex_lt(a: Seq<char>, b: Seq<char>) -> bool
    decreases a.len(),
{
    if a.len() == 0 {
        b.len() > 0
    } else if b.len() == 0 {
        false
    } else if a[0] != b[0] {
        a[0] < b[0]
    } else {
        lex_lt(a.skip(1), b.skip(1))
    }
}

pub open spec fn lex_le(a: Seq<char>, b: Seq<char>) -> bool {
    a == b || lex_lt(a, b)
}

/// Every entry is at most the ones after it.
pub open spec fn sorted(v: Seq<Seq<char>>) -> bool {
    forall|i: int, j: int| 0 <= i < j < v.len() ==> lex_le(#[trigger] v[i], #[trigger] v[j])
}

/// Every entry is below the ones after it: sorted, with no entry twice.
pub open spec fn strictly_sorted(v: Seq<Seq<char>>) -> bool {
    forall|i: int, j: int| 0 <= i < j < v.len() ==> lex_lt(#[trigger] v[i], #[trigger] v[j])
}

pub open spec fn strings_view(v: Seq<String>) -> Seq<Seq<char>> {
    v.map_values(|s: String| s@)
}

proof fn lemma_lex_irreflexive(a: Seq<char>)
    ensures
        !lex_lt(a, a),
    decreases a.len(),
{
    if a.len() > 0 {
        lemma_lex_irreflexive(a.skip(1));
    }
}

proof fn lemma_lex_asymmetric(a: Seq<char>, b: Seq<char>)
    ensures
        !(lex_lt(a, b) && lex_lt(b, a)),
    decreases a.len(),
{
    if a.len() > 0 && b.len() > 0 && a[0] == b[0] {
        lemma_lex_asymmetric(a.skip(1), b.skip(1));
    }
}

proof fn lemma_lex_total(a: Seq<char>, b: Seq<char>)
    ensures
        lex_lt(a, b) || a == b || lex_lt(b, a),
    decreases a.len(),
{
    if a.len() > 0 && b.len() > 0 && a[0] == b[0] {
        lemma_lex_total(a.skip(1), b.skip(1));
        if a.skip(1) == b.skip(1) {
            assert(a =~= seq![a[0]] + a.skip(1));
            assert(b =~= seq![b[0]] + b.skip(1));
        }
    } else if a.len() > 0 && b.len() > 0 {
    } else if a.len() == 0 && b.len() == 0 {
        assert(a =~= b);
    }
}

proof fn lemma_lex_transitive(a: Seq<char>, b: Seq<char>, c: Seq<char>)
    requires
        lex_lt(a, b),
        lex_lt(b, c),
    ensures
        lex_lt(a, c),
    decreases a.len(),
{
    if a.len() > 0 && b.len() > 0 && c.len() > 0 && a[0] == b[0] && b[0] == c[0] {
        lemma_lex_transitive(a.skip(1), b.skip(1), c.skip(1));
    }
}

/// The order of two character sequences: negative, zero or positive.
fn lex_order(a: &Vec<char>, b: &Vec<char>) -> (r: i8)
    ensures
        r < 0 <==> lex_lt(a@, b@),
        r == 0 <==> a@ == b@,
        r > 0 <==> lex_lt(b@, a@),
{
    let mut i: usize = 0;
    assert(a@.skip(0) =~= a@);
    assert(b@.skip(0) =~= b@);
    while i < a.len() && i < b.len() && a[i] == b[i]
        invariant
            i <= a@.len(),
            i <= b@.len(),
            a@.take(i as int) == b@.take(i as int),
            lex_lt(a@, b@) == lex_lt(a@.skip(i as int), b@.skip(i as int)),
            lex_lt(b@, a@) == lex_lt(b@.skip(i as int), a@.skip(i as int)),
        decreases a@.len() - i,
    {
        assert(a@.skip(i as int).skip(1) =~= a@.skip(i + 1));
        assert(b@.skip(i as int).skip(1) =~= b@.skip(i + 1));
        assert(a@.take(i + 1) =~= a@.take(i as int).push(a@[i as int]));
        assert(b@.take(i + 1) =~= b@.take(i as int).push(b@[i as int]));
        i = i + 1;
    }
    proof {
        lemma_lex_irreflexive(a@);
        lemma_lex_asymmetric(a@, b@);
        lemma_lex_total(a@, b@);
    }
    if i < a.len() && i < b.len() {
        assert(a@[i as int] != b@[i as int]);
        assert(a@ != b@);
        if a[i] < b[i] {
            -1
        } else {
            1
        }
    } else if i < a.len() {
        assert(a@ != b@);
        1
    } else if i < b.len() {
        assert(a@ != b@);
        -1
    } else {
        assert(a@ =~= a@.take(i as int));
        assert(b@ =~= b@.take(i as int));
        0
    }
}

/// Whether `key` is an entry of the sorted `list` (binary search).
pub fn sorted_contains(list: &[String], key: &Vec<char>) -> (b: bool)
    requires
        sorted(strings_view(list@)),
    ensures
        b == strings_view(list@).contains(key@),
{
    let ghost v = strings_view(list@);
    let mut lo: usize = 0;
    let mut hi: usize = list.len();
    while lo < hi
        invariant
            v == strings_view(list@),
            sorted(v),
            lo <= hi <= v.len(),
            forall|i: int| 0 <= i < lo ==> lex_lt(#[trigger] v[i], key@),
            forall|i: int| hi <= i < v.len() ==> lex_lt(key@, #[trigger] v[i]),
        decreases hi - lo,
    {
        let mid = lo + (hi - lo) / 2;
        let probe = chars_of(list[mid].as_str());
        assert(probe@ == v[mid as int]);
        let o = lex_order(&probe, key);
        if o == 0 {
            return true;
        } else if o < 0 {
            assert forall|i: int| 0 <= i < mid + 1 implies lex_lt(#[trigger] v[i], key@) by {
                if i < mid {
                    assert(lex_le(v[i], v[mid as int]));
                    if v[i] != v[mid as int] {
                        lemma_lex_transitive(v[i], v[mid as int], key@);
                    }
                }
            }
            lo = mid + 1;
        } else {
            assert forall|i: int| mid <= i < v.len() implies lex_lt(key@, #[trigger] v[i]) by {
                if i > mid {
                    assert(lex_le(v[mid as int], v[i]));
                    if v[i] != v[mid as int] {
                        lemma_lex_transitive(key@, v[mid as int], v[i]);
                    }
                }
            }
            hi = mid;
        }
    }
    proof {
        if v.contains(key@) {
            let k = choose|k: int| 0 <= k < v.len() && v[k] == key@;
            lemma_lex_irreflexive(key@);
        }
    }
    false
}

// ---------------------------------------------------------------------------
// Blocked hosts.

/// The host with its trailing dots removed.
pub open spec fn trim_dots(s: Seq<char>) -> Seq<char>
    decreases s.len(),
{
    if s.len() > 0 && s.last() == '.' {
        trim_dots(s.drop_last())
    } else {
        s
    }
}

/// The host as looked up: no trailing dots, ASCII lower case.
pub open spec fn normal_host(host: Seq<char>) -> Seq<char> {
    ascii_lower_seq(trim_dots(host))
}

/// Index of the first dot of `s`, if any.
pub open spec fn first_dot(s: Seq<char>) -> Option<int>
    decreases s.len(),
{
    if s.len() == 0 {
        None
    } else if s[0] == '.' {
        Some(0)
    } else {
        match first_dot(s.skip(1)) {
            Some(i) => Some(i + 1),
            None => None,
        }
    }
}

/// `s` or one of the suffixes after its dots is listed.
pub open spec fn suffix_listed(s: Seq<char>, list: Seq<Seq<char>>) -> bool
    decreases s.len(),
{
    list.contains(s) || match first_dot(s) {
        Some(i) => if 0 <= i < s.len() {
            suffix_listed(s.skip(i + 1), list)
        } else {
            false
        },
        None => false,
    }
}

proof fn lemma_first_dot(s: Seq<char>)
    ensures
        match first_dot(s) {
            Some(i) => 0 <= i < s.len() && s[i] == '.' && forall|j: int| 0 <= j < i ==> s[j] != '.',
            None => forall|j: int| 0 <= j < s.len() ==> s[j] != '.',
        },
    decreases s.len(),
{
    if s.len() > 0 && s[0] != '.' {
        lemma_first_dot(s.skip(1));
        match first_dot(s.skip(1)) {
            Some(i) => {
                assert forall|j: int| 0 <= j < i + 1 implies s[j] != '.' by {
                    if j > 0 {
                        assert(s[j] == s.skip(1)[j - 1]);
                    }
                }
            },
            None => {
                assert forall|j: int| 0 <= j < s.len() implies s[j] != '.' by {
                    if j > 0 {
                        assert(s[j] == s.skip(1)[j - 1]);
                    }
                }
            },
        }
    }
}

/// The position of the first dot of `s` at or after `from`.
fn find_dot(s: &Vec<char>, from: usize) -> (r: Option<usize>)
    requires
        from <= s@.len(),
    ensures
        match r {
            Some(i) => from <= i < s@.len() && s@[i as int] == '.' && forall|j: int|
                from <= j < i ==> s@[j] != '.',
            None => forall|j: int| from <= j < s@.len() ==> s@[j] != '.',
        },
{
    let mut i = from;
    while i < s.len()
        invariant
            from <= i <= s@.len(),
            forall|j: int| from <= j < i ==> s@[j] != '.',
        decreases s@.len() - i,
    {
        if s[i] == '.' {
            return Some(i);
        }
        i = i + 1;
    }
    None
}

proof fn lemma_first_dot_is(s: Seq<char>, i: Option<int>)
    requires
        match i {
            Some(k) => 0 <= k < s.len() && s[k] == '.' && forall|j: int| 0 <= j < k ==> s[j] != '.',
            None => forall|j: int| 0 <= j < s.len() ==> s[j] != '.',
        },
    ensures
        first_dot(s) == i,
{
    lemma_first_dot(s);
    match (first_dot(s), i) {
        (Some(a), Some(b)) => {
            if a < b {
                assert(s[a] == '.');
            } else if b < a {
                assert(s[b] == '.');
            }
        },
        (Some(a), None) => {
            assert(s[a] == '.');
        },
        (None, Some(b)) => {
            assert(s[b] == '.');
        },
        (None, None) => {},
    }
}

/// Whether `host` is blocked: it, or a domain it is under, is listed. The
/// host is looked up without trailing dots and in ASCII lower case.
pub fn is_blocked(host: &str, list: &[String]) -> (b: bool)
    requires
        sorted(strings_view(list@)),
    ensures
        b == suffix_listed(normal_host(host@), strings_view(list@)),
{
    let mut h = chars_of(host);
    while h.len() > 0 && h[h.len() - 1] == '.'
        invariant
            trim_dots(h@) == trim_dots(host@),
        decreases h@.len(),
    {
        h.pop();
    }
    let h = lower_chars(&h);
    let ghost full = h@;
    let ghost v = strings_view(list@);
    let mut start: usize = 0;
    assert(full.skip(0) =~= full);
    while start <= h.len()
        invariant
            full == h@,
            full == normal_host(host@),
            start <= full.len(),
            v == strings_view(list@),
            sorted(v),
            suffix_listed(full, v) == suffix_listed(full.skip(start as int), v),
        decreases full.len() - start,
    {
        let mut suffix: Vec<char> = Vec::new();
        let mut k = start;
        while k < h.len()
            invariant
                start <= k <= h@.len(),
                suffix@ == h@.subrange(start as int, k as int),
            decreases h@.len() - k,
        {
            suffix.push(h[k]);
            assert(h@.subrange(start as int, k + 1) =~= h@.subrange(start as int, k as int).push(h@[k as int]));
            k = k + 1;
        }
        assert(suffix@ =~= full.skip(start as int));
        if sorted_contains(list, &suffix) {
            return true;
        }
        let ghost s = full.skip(start as int);
        match find_dot(&h, start) {
            Some(dot) => {
                proof {
                    lemma_first_dot_is(s, Some(dot - start));
                    assert(s.skip(dot - start + 1) =~= full.skip(dot + 1));
                }
                start = dot + 1;
            },
            None => {
                proof {
                    lemma_first_dot_is(s, None);
                }
                return false;
            },
        }
    }
    false
}

/// Listing a domain blocks every host under it: for a listed `domain` and
/// any labels `sub`, the host `sub.domain` is blocked.
pub proof fn lemma_subdomain_blocked(sub: Seq<char>, domain: Seq<char>, list: Seq<Seq<char>>)
    requires
        list.contains(domain),
    ensures
        suffix_listed(sub + seq!['.'] + domain, list),
    decreases sub.len(),
{
    let s = sub + seq!['.'] + domain;
    lemma_first_dot(s);
    lemma_first_dot(sub);
    match first_dot(sub) {
        Some(i) => {
            lemma_first_dot_is(s, Some(i));
            let rest = sub.skip(i + 1);
            lemma_subdomain_blocked(rest, domain, list);
            assert(s.skip(i + 1) =~= rest + seq!['.'] + domain);
            assert(suffix_listed(s.skip(i + 1), list));
        },
        None => {
            lemma_first_dot_is(s, Some(sub.len() as int));
            assert(s.skip(sub.len() as int + 1) =~= domain);
            assert(suffix_listed(domain, list));
        },
    }
}


// ---------------------------------------------------------------------------
// The blocklist.

/// The text that flate2's `GzDecoder` reads from the gzip stream `data`.
pub uninterp spec fn gunzip_text(data: Seq<u8>) -> Seq<char>;

/// Reads the gzip stream `data` to a string with flate2's `GzDecoder` and
/// `read_to_string`; the result is `gunzip_text(data)`. On a decoding error
/// it is whatever `read_to_string` left in the buffer, a function of `data`
/// as well; nothing more is claimed of it.
#[verifier::external_body]
fn gunzip(data: &[u8]) -> (text: String)
    ensures
        text@ == gunzip_text(data@),
{
    let mut text = String::new();
    let _ = flate2::read::GzDecoder::new(data).read_to_string(&mut text);
    text
}

/// Sorts strings with `sort_unstable`: std orders strings by their bytes,
/// which for UTF-8 is the order of their characters (`lex_le`). The result
/// holds the same strings.
#[verifier::external_body]
fn sort_strings(v: &mut Vec<String>)
    ensures
        strings_view(final(v)@).to_multiset() == strings_view(old(v)@).to_multiset(),
        sorted(strings_view(final(v)@)),
{
    v.sort_unstable();
}

/// `s` without leading whitespace.
pub open spec fn trim_start(s: Seq<char>) -> Seq<char>
    decreases s.len(),
{
    if s.len() > 0 && is_white_space(s[0]) {
        trim_start(s.skip(1))
    } else {
        s
    }
}

/// `s` without trailing whitespace.
pub open spec fn trim_end(s: Seq<char>) -> Seq<char>
    decreases s.len(),
{
    if s.len() > 0 && is_white_space(s.last()) {
        trim_end(s.drop_last())
    } else {
        s
    }
}

/// `s` without leading and trailing whitespace.
pub open spec fn trim_ws(s: Seq<char>) -> Seq<char> {
    trim_end(trim_start(s))
}

/// The lines of `s`, split at each newline (the last one possibly empty).
pub open spec fn split_lines(s: Seq<char>) -> Seq<Seq<char>>
    decreases s.len(),
{
    if s.len() == 0 {
        seq![Seq::empty()]
    } else {
        let p = split_lines(s.drop_last());
        if s.last() == '\n' {
            p.push(Seq::empty())
        } else {
            p.update(p.len() - 1, p.last().push(s.last()))
        }
    }
}

/// A line names a host: not blank once trimmed, and not a `#` comment.
pub open spec fn is_entry(line: Seq<char>) -> bool {
    let t = trim_ws(line);
    t.len() > 0 && t[0] != '#'
}

/// The trimmed host lines, in order.
pub open spec fn list_entries(lines: Seq<Seq<char>>) -> Seq<Seq<char>>
    decreases lines.len(),
{
    if lines.len() == 0 {
        Seq::empty()
    } else {
        list_entries(lines.drop_last()) + if is_entry(lines.last()) {
            seq![trim_ws(lines.last())]
        } else {
            Seq::empty()
        }
    }
}

/// Removes leading and trailing whitespace (see `trim_ws`).
fn trim_chars(s: &Vec<char>) -> (r: Vec<char>)
    ensures
        r@ == trim_ws(s@),
{
    let n = s.len();
    let mut a: usize = 0;
    assert(s@.skip(0) =~= s@);
    while a < n && is_whitespace(s[a])
        invariant
            n == s@.len(),
            a <= n,
            trim_start(s@) == trim_start(s@.skip(a as int)),
        decreases n - a,
    {
        assert(s@.skip(a as int).skip(1) =~= s@.skip(a + 1));
        a = a + 1;
    }
    let ghost t = s@.skip(a as int);
    assert(trim_start(t) == t);
    let mut b: usize = n;
    assert(t =~= s@.subrange(a as int, b as int));
    while b > a && is_whitespace(s[b - 1])
        invariant
            n == s@.len(),
            a <= b <= n,
            trim_end(t) == trim_end(s@.subrange(a as int, b as int)),
        decreases b,
    {
        assert(s@.subrange(a as int, b as int).drop_last() =~= s@.subrange(a as int, b - 1));
        b = b - 1;
    }
    let mut r: Vec<char> = Vec::new();
    let mut k = a;
    while k < b
        invariant
            a <= k <= b <= n,
            n == s@.len(),
            r@ == s@.subrange(a as int, k as int),
        decreases b - k,
    {
        r.push(s[k]);
        assert(s@.subrange(a as int, k + 1) =~= s@.subrange(a as int, k as int).push(s@[k as int]));
        k = k + 1;
    }
    r
}

/// Appends the line to the entries if it names a host.
fn add_entry(out: &mut Vec<String>, line: &Vec<char>)
    ensures
        strings_view(final(out)@) == strings_view(old(out)@) + if is_entry(line@) {
            seq![trim_ws(line@)]
        } else {
            Seq::<Seq<char>>::empty()
        },
{
    let t = trim_chars(line);
    if t.len() > 0 && t[0] != '#' {
        out.push(crate::text::string_from_chars(&t));
        assert(strings_view(out@) =~= strings_view(old(out)@) + seq![trim_ws(line@)]);
    } else {
        assert(strings_view(out@) =~= strings_view(old(out)@));
    }
}

/// The host names of a blocklist text in file order: its lines, trimmed,
/// without blank lines and `#` comments (see `list_entries`).
pub fn list_lines(text: &str) -> (r: Vec<String>)
    ensures
        strings_view(r@) == list_entries(split_lines(text@)),
{
    let t = chars_of(text);
    let mut out: Vec<String> = Vec::new();
    let mut line: Vec<char> = Vec::new();
    let ghost mut done: Seq<Seq<char>> = Seq::empty();
    let mut i: usize = 0;
    assert(t@.take(0) =~= Seq::<char>::empty());
    assert(split_lines(Seq::<char>::empty()) =~= seq![Seq::<char>::empty()]);
    while i < t.len()
        invariant
            i <= t@.len(),
            t@ == text@,
            split_lines(t@.take(i as int)) == done.push(line@),
            strings_view(out@) == list_entries(done),
        decreases t@.len() - i,
    {
        let c = t[i];
        proof {
            let p = t@.take(i + 1);
            assert(p.drop_last() == t@.take(i as int));
            assert(p.last() == c);
        }
        if c == '\n' {
            add_entry(&mut out, &line);
            proof {
                let d2 = done.push(line@);
                assert(d2.drop_last() == done);
                assert(d2.last() == line@);
                done = d2;
            }
            line = Vec::new();
            assert(split_lines(t@.take(i + 1)) =~= done.push(line@));
        } else {
            line.push(c);
            assert(split_lines(t@.take(i + 1)) =~= done.push(line@));
        }
        i = i + 1;
    }
    assert(t@.take(t@.len() as int) == t@);
    add_entry(&mut out, &line);
    proof {
        let d2 = done.push(line@);
        assert(d2.drop_last() == done);
        assert(d2.last() == line@);
    }
    out
}

/// The blocklist of a text: its host names (see `list_lines`), sorted, each
/// once.
pub fn list_from_text(text: &str) -> (r: Vec<String>)
    ensures
        strictly_sorted(strings_view(r@)),
        forall|x: Seq<char>|
            strings_view(r@).contains(x) <==> list_entries(split_lines(text@)).contains(x),
{
    let mut v = list_lines(text);
    let ghost entries = strings_view(v@);
    sort_strings(&mut v);
    let ghost sv = strings_view(v@);
    proof {
        broadcast use vstd::seq_lib::group_to_multiset_ensures;
        assert forall|x: Seq<char>| sv.contains(x) <==> entries.contains(x) by {
            assert(sv.contains(x) <==> sv.to_multiset().count(x) > 0);
            assert(entries.contains(x) <==> entries.to_multiset().count(x) > 0);
        }
    }
    let mut out: Vec<String> = Vec::new();
    let mut i: usize = 0;
    while i < v.len()
        invariant
            sv == strings_view(v@),
            sorted(sv),
            i <= sv.len(),
            strictly_sorted(strings_view(out@)),
            forall|x: Seq<char>|
                strings_view(out@).contains(x) <==> sv.take(i as int).contains(x),
            out@.len() > 0 ==> i > 0 && strings_view(out@).last() == sv[i - 1],
        decreases sv.len() - i,
    {
        let ghost ov = strings_view(out@);
        let fresh = out.len() == 0 || !(out[out.len() - 1] == v[i]);
        if fresh {
            proof {
                assert forall|a: int, b: int| 0 <= a < b < ov.len() + 1 implies lex_lt(
                    #[trigger] ov.push(sv[i as int])[a],
                    #[trigger] ov.push(sv[i as int])[b],
                ) by {
                    if b == ov.len() {
                        let last = ov[ov.len() - 1];
                        assert(last == sv[i - 1]);
                        assert(lex_le(sv[i - 1], sv[i as int]));
                        assert(lex_lt(last, sv[i as int]));
                        if a < ov.len() - 1 {
                            assert(lex_lt(ov[a], ov[ov.len() - 1]));
                            lemma_lex_transitive(ov[a], last, sv[i as int]);
                        }
                    }
                }
            }
            out.push(v[i].clone());
            assert(strings_view(out@) =~= ov.push(sv[i as int]));
        } else {
            assert(ov[ov.len() - 1] == sv[i as int]);
        }
        proof {
            let ti = sv.take(i + 1);
            let nv = strings_view(out@);
            assert(ti =~= sv.take(i as int).push(sv[i as int]));
            assert forall|x: Seq<char>| nv.contains(x) <==> ti.contains(x) by {
                if ti.contains(x) {
                    let k = choose|k: int| 0 <= k < ti.len() && ti[k] == x;
                    if k < i {
                        assert(sv.take(i as int)[k] == x);
                        assert(sv.take(i as int).contains(x));
                        assert(ov.contains(x));
                        let k2 = choose|k2: int| 0 <= k2 < ov.len() && ov[k2] == x;
                        assert(nv[k2] == x);
                    } else if fresh {
                        assert(nv[ov.len() as int] == x);
                    } else {
                        assert(nv[ov.len() - 1] == x);
                    }
                }
                if nv.contains(x) {
                    let k = choose|k: int| 0 <= k < nv.len() && nv[k] == x;
                    if k < ov.len() {
                        assert(ov[k] == x);
                        assert(ov.contains(x));
                        assert(sv.take(i as int).contains(x));
                        let k2 = choose|k2: int| 0 <= k2 < sv.take(i as int).len() && sv.take(i as int)[k2] == x;
                        assert(ti[k2] == x);
                    } else {
                        assert(ti[i as int] == x);
                    }
                }
            }
        }
        i = i + 1;
    }
    assert(sv.take(sv.len() as int) =~= sv);
    out
}

/// Decompresses the bundled gzip blocklist and parses it (see
/// `list_from_text`).
pub fn load_list(gz: &[u8]) -> (r: Vec<String>)
    ensures
        strictly_sorted(strings_view(r@)),
        forall|x: Seq<char>|
            strings_view(r@).contains(x) <==> list_entries(split_lines(gunzip_text(gz@))).contains(x),
{
    let text = gunzip(gz);
    list_from_text(text.as_str())
}

/// A strictly sorted list is sorted.
pub proof fn lemma_strictly_sorted(v: Seq<Seq<char>>)
    requires
        strictly_sorted(v),
    ensures
        sorted(v),
{
    assert forall|i: int, j: int| 0 <= i < j < v.len() implies lex_le(#[trigger] v[i], #[trigger] v[j]) by {
        assert(lex_lt(v[i], v[j]));
    }
}

// ---------------------------------------------------------------------------
// Proxy requests.

/// `s` without its leading whitespace (see `trim_start`), as an index.
pub open spec fn ws_run(s: Seq<char>, from: int) -> int
    decreases s.len() - from,
{
    if 0 <= from < s.len() && is_white_space(s[from]) {
        ws_run(s, from + 1)
    } else {
        from
    }
}

/// The end of the run of non-whitespace characters starting at `from`.
pub open spec fn word_run(s: Seq<char>, from: int) -> int
    decreases s.len() - from,
{
    if 0 <= from < s.len() && !is_white_space(s[from]) {
        word_run(s, from + 1)
    } else {
        from
    }
}

/// The first whitespace-separated word of `s` (empty if there is none).
pub open spec fn first_word(s: Seq<char>) -> Seq<char> {
    let a = ws_run(s, 0);
    s.subrange(a, word_run(s, a))
}

/// What follows the first word of `s`.
pub open spec fn after_word(s: Seq<char>) -> Seq<char> {
    s.skip(word_run(s, ws_run(s, 0)))
}

/// Index of the last `c` in `s`.
pub open spec fn last_index_of(s: Seq<char>, c: char) -> Option<int>
    decreases s.len(),
{
    if s.len() == 0 {
        None
    } else if s.last() == c {
        Some(s.len() - 1)
    } else {
        last_index_of(s.drop_last(), c)
    }
}

/// The host of `host:port`: what comes before the last colon, if any.
pub open spec fn host_of(host_port: Seq<char>) -> Seq<char> {
    match last_index_of(host_port, ':') {
        Some(i) => host_port.take(i),
        None => host_port,
    }
}

/// What the proxy does with a request.
pub enum ProxyPlan {
    /// Answer 403 and close.
    Refuse,
    /// Open a tunnel to `addr` (a CONNECT request).
    Tunnel { addr: String },
    /// Connect to `addr` and send `request` (the request line in origin
    /// form), then the headers.
    Forward { addr: String, request: String },
}

pub enum PlanView {
    Refuse,
    Tunnel(Seq<char>),
    Forward(Seq<char>, Seq<char>),
}

impl View for ProxyPlan {
    type V = PlanView;

    open spec fn view(&self) -> PlanView {
        match self {
            ProxyPlan::Refuse => PlanView::Refuse,
            ProxyPlan::Tunnel { addr } => PlanView::Tunnel(addr@),
            ProxyPlan::Forward { addr, request } => PlanView::Forward(addr@, request@),
        }
    }
}

/// The target of an absolute-form request without `http://`.
pub open spec fn target_rest(target: Seq<char>) -> Seq<char> {
    if crate::text::has_prefix(target, "http://"@) {
        target.skip(7)
    } else {
        target
    }
}

/// `host[:port]` of the rest of a target: up to the first slash.
pub open spec fn target_host_port(rest: Seq<char>) -> Seq<char> {
    match first_index_of(rest, '/') {
        Some(i) => rest.take(i),
        None => rest,
    }
}

/// The path of the rest of a target: from the first slash on, `/` if none.
pub open spec fn target_path(rest: Seq<char>) -> Seq<char> {
    match first_index_of(rest, '/') {
        Some(i) => rest.skip(i),
        None => "/"@,
    }
}

/// The plan for a request line: a CONNECT to a blocked host, or a request
/// for a blocked host, is refused; other CONNECTs are tunnelled to their
/// target; other requests go to their host (port 80 by default) with the
/// request line rewritten to origin form.
pub open spec fn request_plan(line: Seq<char>, list: Seq<Seq<char>>) -> PlanView {
    let method = first_word(line);
    let target = first_word(after_word(line));
    if method == "CONNECT"@ {
        if suffix_listed(normal_host(host_of(target)), list) {
            PlanView::Refuse
        } else {
            PlanView::Tunnel(target)
        }
    } else {
        let rest = target_rest(target);
        let host_port = target_host_port(rest);
        if suffix_listed(normal_host(host_of(host_port)), list) {
            PlanView::Refuse
        } else {
            let addr = if host_port.contains(':') {
                host_port
            } else {
                host_port + ":80"@
            };
            PlanView::Forward(addr, method + " "@ + target_path(rest) + " HTTP/1.1\r\n"@)
        }
    }
}

/// The first word of `s[from..]` as `(start, end)` indices.
fn word_at(s: &Vec<char>, from: usize) -> (r: (usize, usize))
    requires
        from <= s@.len(),
    ensures
        r.0 == ws_run(s@, from as int),
        r.1 == word_run(s@, r.0 as int),
        from <= r.0 <= r.1 <= s@.len(),
{
    let mut a = from;
    while a < s.len() && is_whitespace(s[a])
        invariant
            from <= a <= s@.len(),
            ws_run(s@, from as int) == ws_run(s@, a as int),
        decreases s@.len() - a,
    {
        a = a + 1;
    }
    let mut b = a;
    while b < s.len() && !is_whitespace(s[b])
        invariant
            a <= b <= s@.len(),
            word_run(s@, a as int) == word_run(s@, b as int),
        decreases s@.len() - b,
    {
        b = b + 1;
    }
    (a, b)
}

proof fn lemma_runs_shift(s: Seq<char>, k: int, from: int)
    requires
        0 <= k <= s.len(),
        0 <= from,
    ensures
        ws_run(s.skip(k), from) + k == ws_run(s, from + k),
        word_run(s.skip(k), from) + k == word_run(s, from + k),
    decreases s.len() - k - from,
{
    if from < s.len() - k {
        assert(s.skip(k)[from] == s[from + k]);
        lemma_runs_shift(s, k, from + 1);
    }
}

/// Index of the last `c` in `s` (see `last_index_of`).
fn last_index(s: &Vec<char>, c: char) -> (r: Option<usize>)
    ensures
        match r {
            Some(i) => i < s@.len() && last_index_of(s@, c) == Some(i as int),
            None => last_index_of(s@, c) is None,
        },
{
    let mut n = s.len();
    assert(s@.take(n as int) =~= s@);
    while n > 0 && s[n - 1] != c
        invariant
            n <= s@.len(),
            last_index_of(s@, c) == last_index_of(s@.take(n as int), c),
        decreases n,
    {
        assert(s@.take(n as int).drop_last() =~= s@.take(n - 1));
        n = n - 1;
    }
    if n == 0 {
        assert(s@.take(0) =~= Seq::<char>::empty());
        None
    } else {
        Some(n - 1)
    }
}

fn has_colon(s: &Vec<char>) -> (r: bool)
    ensures
        r == s@.contains(':'),
{
    let mut i: usize = 0;
    while i < s.len()
        invariant
            i <= s@.len(),
            forall|j: int| 0 <= j < i ==> s@[j] != ':',
        decreases s@.len() - i,
    {
        if s[i] == ':' {
            assert(s@[i as int] == ':');
            return true;
        }
        i = i + 1;
    }
    false
}

/// The host of `host:port` (see `host_of`).
fn host_part(hp: &Vec<char>) -> (r: Vec<char>)
    ensures
        r@ == host_of(hp@),
{
    match last_index(hp, ':') {
        Some(i) => sub_chars(hp, 0, i),
        None => sub_chars(hp, 0, hp.len()),
    }
}

/// Whether the host given as characters is blocked (see `is_blocked`).
fn host_blocked(host: &Vec<char>, list: &[String]) -> (b: bool)
    requires
        sorted(strings_view(list@)),
    ensures
        b == suffix_listed(normal_host(host@), strings_view(list@)),
{
    let s = crate::text::string_from_chars(host);
    is_blocked(s.as_str(), list)
}

/// Decides what to do with a proxy request from its request line (see
/// `request_plan`).
pub fn plan_request(line: &str, list: &[String]) -> (p: ProxyPlan)
    requires
        sorted(strings_view(list@)),
    ensures
        p@ == request_plan(line@, strings_view(list@)),
{
    let l = chars_of(line);
    let (ma, mb) = word_at(&l, 0);
    let method = sub_chars(&l, ma, mb);
    let (ta, tb) = word_at(&l, mb);
    let target = sub_chars(&l, ta, tb);
    proof {
        let rest = l@.skip(mb as int);
        lemma_runs_shift(l@, mb as int, 0);
        let a = ws_run(rest, 0);
        lemma_runs_shift(l@, mb as int, a);
        assert(rest.subrange(a, word_run(rest, a)) =~= l@.subrange(ta as int, tb as int));
        assert(method@ == first_word(line@));
        assert(after_word(line@) == rest);
    }
    if chars_eq(&method, &chars_of("CONNECT")) {
        let host = host_part(&target);
        if host_blocked(&host, list) {
            ProxyPlan::Refuse
        } else {
            ProxyPlan::Tunnel { addr: crate::text::string_from_chars(&target) }
        }
    } else {
        let prefix = chars_of("http://");
        proof {
            reveal_strlit("http://");
        }
        let rest = if crate::text::starts_with(&target, &prefix) {
            sub_chars(&target, 7, target.len())
        } else {
            sub_chars(&target, 0, target.len())
        };
        assert(rest@ == target_rest(target@));
        let (host_port, path) = match first_index(&rest, '/') {
            Some(i) => (sub_chars(&rest, 0, i), sub_chars(&rest, i, rest.len())),
            None => (sub_chars(&rest, 0, rest.len()), chars_of("/")),
        };
        assert(host_port@ == target_host_port(rest@));
        assert(path@ == target_path(rest@));
        let host = host_part(&host_port);
        if host_blocked(&host, list) {
            ProxyPlan::Refuse
        } else {
            let mut addr = host_port;
            if !has_colon(&addr) {
                crate::text::push_str(&mut addr, ":80");
            }
            let mut req = method;
            crate::text::push_str(&mut req, " ");
            crate::text::extend_chars(&mut req, &path);
            crate::text::push_str(&mut req, " HTTP/1.1\r\n");
            ProxyPlan::Forward {
                addr: crate::text::string_from_chars(&addr),
                request: crate::text::string_from_chars(&req),
            }
        }
    }
}

/// Whether a request line asks for a tunnel (its method is `CONNECT`); the
/// headers of such a request are skipped before it is answered.
pub fn is_connect(line: &str) -> (b: bool)
    ensures
        b == (first_word(line@) == "CONNECT"@),
{
    let l = chars_of(line);
    let (a, b) = word_at(&l, 0);
    let method = sub_chars(&l, a, b);
    chars_eq(&method, &chars_of("CONNECT"))
}

/// What the proxy does with a request header line.
#[derive(Clone, Copy, Debug, PartialEq, Eq, Structural)]
pub enum HeaderAction {
    /// Drop it (`Connection` and `Proxy-Connection`, in any case).
    Skip,
    /// The headers are over.
    End,
    /// Send it on.
    Forward,
}

/// A line that ends the headers: empty (nothing read) or a bare line end.
pub open spec fn ends_headers(line: Seq<char>) -> bool {
    line.len() == 0 || line == "\r\n"@ || line == "\n"@
}

pub open spec fn header_action_of(line: Seq<char>) -> HeaderAction {
    let lower = ascii_lower_seq(line);
    if crate::text::has_prefix(lower, "connection:"@) || crate::text::has_prefix(
        lower,
        "proxy-connection:"@,
    ) {
        HeaderAction::Skip
    } else if ends_headers(line) {
        HeaderAction::End
    } else {
        HeaderAction::Forward
    }
}

/// Whether a header line read while skipping the headers of a CONNECT
/// request ends them (see `ends_headers`).
pub fn is_header_end(line: &str) -> (b: bool)
    ensures
        b == ends_headers(line@),
{
    let l = chars_of(line);
    l.len() == 0 || chars_eq(&l, &chars_of("\r\n")) || chars_eq(&l, &chars_of("\n"))
}

/// What to do with a header line of a forwarded request (see
/// `header_action_of`): the proxy closes the connection after one request,
/// so the client's connection headers are dropped.
pub fn header_action(line: &str) -> (a: HeaderAction)
    ensures
        a == header_action_of(line@),
{
    let lower = lower_chars(&chars_of(line));
    if crate::text::starts_with(&lower, &chars_of("connection:")) || crate::text::starts_with(
        &lower,
        &chars_of("proxy-connection:"),
    ) {
        HeaderAction::Skip
    } else if is_header_end(line) {
        HeaderAction::End
    } else {
        HeaderAction::Forward
    }
}
} // verus!
