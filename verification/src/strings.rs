//! Functions on strings that compute what `text` defines.

use vstd::prelude::*;
use crate::seqs;
use crate::text;

verus! {

/// The characters of a string.
pub fn to_chars(s: &str) -> (r: Vec<char>)
    ensures
        r@ == s@,
{
    let mut out: Vec<char> = Vec::new();
    for c in it: s.chars()
        invariant
            out@ == s@.take(it.index()),
            it.seq() == s@,
    {
        out.push(c);
        proof {
            seqs::lemma_take_next(s@, it.index());
        }
    }
    proof {
        seqs::lemma_take_all(s@);
    }
    out
}

/// The string of the given characters.
pub fn from_chars(v: &Vec<char>) -> (r: String)
    ensures
        r@ == v@,
{
    let mut out = String::new();
    let mut i: usize = 0;
    while i < v.len()
        invariant
            i <= v.len(),
            out@ == v@.take(i as int),
        decreases v.len() - i,
    {
        out.push(v[i]);
        proof {
            seqs::lemma_take_next(v@, i as int);
        }
        i += 1;
    }
    proof {
        seqs::lemma_take_all(v@);
    }
    out
}

/// Whether a character is white space.
pub fn is_white(c: char) -> (r: bool)
    ensures
        r == text::is_white(c),
{
    let n: u32 = c as u32;
    (9 <= n && n <= 13) || n == 0x20 || n == 0x85 || n == 0xa0 || n == 0x1680 || (0x2000 <= n && n
        <= 0x200a) || n == 0x2028 || n == 0x2029 || n == 0x202f || n == 0x205f || n == 0x3000
}

/// Whether two strings hold the same characters.
pub fn same(a: &str, b: &str) -> (r: bool)
    ensures
        r == (a@ == b@),
{
    let x = a.to_owned();
    let y = b.to_owned();
    x == y
}

fn lead_white(v: &Vec<char>) -> (r: usize)
    ensures
        r <= v.len(),
        text::trim_start(v@) == v@.skip(r as int),
{
    let mut i: usize = 0;
    proof {
        assert(v@.skip(0) =~= v@);
    }
    while i < v.len() && is_white(v[i])
        invariant
            i <= v.len(),
            text::trim_start(v@) == text::trim_start(v@.skip(i as int)),
        decreases v.len() - i,
    {
        proof {
            assert(v@.skip(i as int).skip(1) =~= v@.skip(i + 1));
        }
        i += 1;
    }
    i
}

/// `str::trim`.
pub fn trim(s: &str) -> (r: &str)
    ensures
        r@ == text::trim(s@),
{
    let v = to_chars(s);
    let i = lead_white(&v);
    let mut j: usize = v.len();
    let ghost t = v@.skip(i as int);
    proof {
        assert(v@.subrange(i as int, j as int) =~= t);
    }
    while j > i && is_white(v[j - 1])
        invariant
            i <= j <= v.len(),
            text::trim_end(t) == text::trim_end(v@.subrange(i as int, j as int)),
        decreases j,
    {
        proof {
            assert(v@.subrange(i as int, j as int).drop_last() =~= v@.subrange(i as int, j - 1));
        }
        j -= 1;
    }
    s.substring_char(i, j)
}

/// `str::trim_start_matches` with a character.
pub fn strip_lead(s: &str, c: char) -> (r: &str)
    ensures
        r@ == text::strip_lead(s@, c),
{
    let v = to_chars(s);
    let mut i: usize = 0;
    proof {
        assert(v@.skip(0) =~= v@);
    }
    while i < v.len() && v[i] == c
        invariant
            i <= v.len(),
            text::strip_lead(v@, c) == text::strip_lead(v@.skip(i as int), c),
        decreases v.len() - i,
    {
        proof {
            assert(v@.skip(i as int).skip(1) =~= v@.skip(i + 1));
        }
        i += 1;
    }
    proof {
        assert(s@.subrange(i as int, s@.len() as int) =~= v@.skip(i as int));
    }
    s.substring_char(i, v.len())
}

/// `str::trim_end_matches` with a character.
pub fn strip_tail(s: &str, c: char) -> (r: &str)
    ensures
        r@ == text::strip_tail(s@, c),
{
    let v = to_chars(s);
    let mut j: usize = v.len();
    proof {
        seqs::lemma_take_all(v@);
    }
    while j > 0 && v[j - 1] == c
        invariant
            j <= v.len(),
            text::strip_tail(v@, c) == text::strip_tail(v@.take(j as int), c),
        decreases j,
    {
        proof {
            assert(v@.take(j as int).drop_last() =~= v@.take(j - 1));
        }
        j -= 1;
    }
    proof {
        assert(s@.subrange(0, j as int) =~= v@.take(j as int));
    }
    s.substring_char(0, j)
}

/// `str::trim_matches` with a character.
pub fn strip_both(s: &str, c: char) -> (r: &str)
    ensures
        r@ == text::strip_both(s@, c),
{
    strip_tail(strip_lead(s, c), c)
}

/// `str::trim_start_matches` with `*.`.
pub fn strip_wildcards(s: &str) -> (r: &str)
    ensures
        r@ == text::strip_wildcards(s@),
{
    let v = to_chars(s);
    let mut i: usize = 0;
    proof {
        assert(v@.skip(0) =~= v@);
    }
    while v.len() - i > 1 && v[i] == '*' && v[i + 1] == '.'
        invariant
            i <= v.len(),
            text::strip_wildcards(v@) == text::strip_wildcards(v@.skip(i as int)),
        decreases v.len() - i,
    {
        proof {
            assert(v@.skip(i as int).skip(2) =~= v@.skip(i + 2));
        }
        i += 2;
    }
    proof {
        assert(s@.subrange(i as int, s@.len() as int) =~= v@.skip(i as int));
    }
    s.substring_char(i, v.len())
}

/// Whether a string starts with another.
pub fn starts_with(s: &str, p: &str) -> (r: bool)
    ensures
        r == p@.is_prefix_of(s@),
{
    let v = to_chars(s);
    let w = to_chars(p);
    if w.len() > v.len() {
        return false;
    }
    let mut i: usize = 0;
    while i < w.len()
        invariant
            i <= w.len() <= v.len(),
            v@ == s@,
            w@ == p@,
            forall|j: int| 0 <= j < i ==> v@[j] == w@[j],
        decreases w.len() - i,
    {
        if v[i] != w[i] {
            proof {
                assert(s@.subrange(0, w@.len() as int)[i as int] != p@[i as int]);
            }
            return false;
        }
        i += 1;
    }
    proof {
        assert(p@ =~= s@.subrange(0, p@.len() as int));
    }
    true
}

/// Whether a string ends with another.
pub fn ends_with(s: &str, p: &str) -> (r: bool)
    ensures
        r == p@.is_suffix_of(s@),
{
    let v = to_chars(s);
    let w = to_chars(p);
    if w.len() > v.len() {
        return false;
    }
    let d: usize = v.len() - w.len();
    let mut i: usize = 0;
    while i < w.len()
        invariant
            i <= w.len() <= v.len(),
            d == v.len() - w.len(),
            v@ == s@,
            w@ == p@,
            forall|j: int| 0 <= j < i ==> v@[d + j] == w@[j],
        decreases w.len() - i,
    {
        if v[d + i] != w[i] {
            proof {
                assert(s@.subrange(d as int, s@.len() as int)[i as int] != p@[i as int]);
            }
            return false;
        }
        i += 1;
    }
    proof {
        assert(p@ =~= s@.subrange(d as int, s@.len() as int));
    }
    true
}

/// The rest of a string after a prefix, if it has the prefix.
pub fn strip_prefix<'a>(s: &'a str, p: &str) -> (r: Option<&'a str>)
    ensures
        r is Some <==> p@.is_prefix_of(s@),
        r matches Some(t) ==> t@ == s@.skip(p@.len() as int),
{
    if starts_with(s, p) {
        let n = s.unicode_len();
        let k = p.unicode_len();
        proof {
            assert(s@.subrange(k as int, n as int) =~= s@.skip(k as int));
        }
        Some(s.substring_char(k, n))
    } else {
        None
    }
}

fn one_of(c: char, seps: &[char]) -> (r: bool)
    ensures
        r == seps@.contains(c),
{
    let mut i: usize = 0;
    while i < seps.len()
        invariant
            i <= seps.len(),
            forall|j: int| 0 <= j < i ==> seps@[j] != c,
        decreases seps.len() - i,
    {
        if seps[i] == c {
            return true;
        }
        i += 1;
    }
    false
}

fn first_of(v: &Vec<char>, from: usize, seps: &[char]) -> (r: usize)
    requires
        from <= v.len(),
    ensures
        from <= r <= v.len(),
        r - from == text::first_of(v@.skip(from as int), seps@),
{
    let mut i: usize = from;
    while i < v.len() && !one_of(v[i], seps)
        invariant
            from <= i <= v.len(),
            forall|j: int| from <= j < i ==> !seps@.contains(#[trigger] v@[j]),
        decreases v.len() - i,
    {
        i += 1;
    }
    proof {
        let t = v@.skip(from as int);
        assert forall|j: int| 0 <= j < i - from implies !seps@.contains(#[trigger] t[j]) by {
            assert(t[j] == v@[from + j]);
        }
        text::lemma_first_of_is(t, seps@, i - from);
    }
    i
}

/// Whether a string holds a character.
pub fn has_char(s: &str, c: char) -> (r: bool)
    ensures
        r == s@.contains(c),
{
    let v = to_chars(s);
    one_of(c, v.as_slice())
}

/// The text before the first of the given characters.
pub fn before_any<'a>(s: &'a str, seps: &[char]) -> (r: &'a str)
    ensures
        r@ == text::before_any(s@, seps@),
{
    let v = to_chars(s);
    proof {
        assert(v@.skip(0) =~= v@);
    }
    let i = first_of(&v, 0, seps);
    proof {
        assert(s@.subrange(0, i as int) =~= s@.take(i as int));
    }
    s.substring_char(0, i)
}

/// `str::split_once` with a character.
pub fn split_once<'a>(s: &'a str, c: char) -> (r: Option<(&'a str, &'a str)>)
    ensures
        match r {
            Some((a, b)) => text::split_once(s@, c) == Some((a@, b@)),
            None => text::split_once(s@, c) is None,
        },
{
    let v = to_chars(s);
    let seps: [char; 1] = [c];
    proof {
        assert(v@.skip(0) =~= v@);
        assert(seps@ =~= seq![c]);
    }
    let i = first_of(&v, 0, &seps);
    if i < v.len() {
        proof {
            assert(s@.subrange(0, i as int) =~= s@.take(i as int));
            assert(s@.subrange(i + 1, s@.len() as int) =~= s@.skip(i + 1));
        }
        Some((s.substring_char(0, i), s.substring_char(i + 1, v.len())))
    } else {
        None
    }
}

/// `str::rsplit_once` with a character.
pub fn rsplit_once<'a>(s: &'a str, c: char) -> (r: Option<(&'a str, &'a str)>)
    ensures
        match r {
            Some((a, b)) => text::rsplit_once(s@, c) == Some((a@, b@)),
            None => text::rsplit_once(s@, c) is None,
        },
{
    let v = to_chars(s);
    let mut i: usize = v.len();
    while i > 0 && v[i - 1] != c
        invariant
            i <= v.len(),
            forall|j: int| i <= j < v@.len() ==> #[trigger] v@[j] != c,
        decreases i,
    {
        i -= 1;
    }
    proof {
        text::lemma_last_of_is(s@, c, i - 1);
    }
    if i > 0 {
        proof {
            assert(s@.subrange(0, i - 1) =~= s@.take(i - 1));
            assert(s@.subrange(i as int, s@.len() as int) =~= s@.skip(i as int));
        }
        Some((s.substring_char(0, i - 1), s.substring_char(i, v.len())))
    } else {
        None
    }
}

/// `str::split` with a character.
pub fn split<'a>(s: &'a str, c: char) -> (r: Vec<&'a str>)
    ensures
        seqs::views(r@) == text::split(s@, c),
{
    let v = to_chars(s);
    let seps: [char; 1] = [c];
    let mut out: Vec<&'a str> = Vec::new();
    let mut from: usize = 0;
    proof {
        assert(seps@ =~= seq![c]);
        assert(v@.skip(0) =~= v@);
        assert(seqs::views(out@) + text::split(s@, c) =~= text::split(s@, c));
    }
    loop
        invariant_except_break
            v@ == s@,
            seps@ == seq![c],
            from <= v.len(),
            seqs::views(out@) + text::split(v@.skip(from as int), c) == text::split(s@, c),
        ensures
            seqs::views(out@) == text::split(s@, c),
        decreases v.len() - from,
    {
        let ghost before = seqs::views(out@);
        let ghost rest = v@.skip(from as int);
        let i = first_of(&v, from, &seps);
        let piece = s.substring_char(from, i);
        out.push(piece);
        proof {
            seqs::lemma_views_push(out@.drop_last(), piece);
            assert(out@.drop_last().push(piece) =~= out@);
            assert(out@.drop_last() =~= out@.take(out@.len() - 1));
            assert(seqs::views(out@) =~= before.push(piece@));
            assert(piece@ =~= rest.take(i - from));
        }
        if i < v.len() {
            proof {
                assert(rest.skip(i - from + 1) =~= v@.skip(i + 1));
                assert(before + (seq![piece@] + text::split(v@.skip(i + 1), c)) =~= seqs::views(out@)
                    + text::split(v@.skip(i + 1), c));
            }
            from = i + 1;
        } else {
            proof {
                assert(piece@ =~= rest);
                assert(before + seq![piece@] =~= seqs::views(out@));
            }
            break;
        }
    }
    out
}

/// The pieces between the occurrences of a character, trimmed, without the empty ones.
pub fn items<'a>(s: &'a str, c: char) -> (r: Vec<&'a str>)
    ensures
        seqs::views(r@) == text::items(s@, c),
{
    let pieces = split(s, c);
    let mut out: Vec<&'a str> = Vec::new();
    let mut i: usize = 0;
    let ghost all = seqs::views(pieces@);
    while i < pieces.len()
        invariant
            i <= pieces.len(),
            all == seqs::views(pieces@),
            seqs::views(out@) == seqs::flat(all.take(i as int), text::trimmed_item()),
        decreases pieces.len() - i,
    {
        let piece = trim(pieces[i]);
        proof {
            seqs::lemma_flat_next(all, text::trimmed_item(), i as int);
            seqs::lemma_views_push(out@, piece);
        }
        if !piece.is_empty() {
            out.push(piece);
        }
        proof {
            assert(seqs::views(out@) =~= seqs::flat(all.take(i + 1), text::trimmed_item()));
        }
        i += 1;
    }
    proof {
        seqs::lemma_take_all(all);
    }
    out
}

/// `str::lines`.
pub fn lines<'a>(s: &'a str) -> (r: Vec<&'a str>)
    ensures
        seqs::views(r@) == text::lines(s@),
{
    let v = to_chars(s);
    let seps: [char; 1] = ['\n'];
    let mut out: Vec<&'a str> = Vec::new();
    let mut from: usize = 0;
    proof {
        assert(seps@ =~= seq!['\n']);
        assert(v@.skip(0) =~= v@);
        assert(seqs::views(out@) + text::lines(s@) =~= text::lines(s@));
    }
    while from < v.len()
        invariant
            v@ == s@,
            seps@ == seq!['\n'],
            from <= v.len(),
            seqs::views(out@) + text::lines(v@.skip(from as int)) == text::lines(s@),
        decreases v.len() - from,
    {
        let ghost before = seqs::views(out@);
        let ghost rest = v@.skip(from as int);
        let i = first_of(&v, from, &seps);
        if i < v.len() {
            let end: usize = if i > from && v[i - 1] == '\r' {
                i - 1
            } else {
                i
            };
            let line = s.substring_char(from, end);
            proof {
                seqs::lemma_views_push(out@, line);
                let cut = rest.take(i - from);
                assert(cut.len() > 0 ==> cut.last() == v@[i - 1]);
                assert(line@ =~= text::without_cr(cut));
                assert(rest.skip(i - from + 1) =~= v@.skip(i + 1));
                assert(before + (seq![line@] + text::lines(v@.skip(i + 1))) =~= before.push(line@)
                    + text::lines(v@.skip(i + 1)));
            }
            out.push(line);
            from = i + 1;
        } else {
            let line = s.substring_char(from, i);
            proof {
                seqs::lemma_views_push(out@, line);
                assert(line@ =~= rest);
                assert(v@.skip(v@.len() as int).len() == 0);
                assert(before + seq![line@] =~= before.push(line@) + text::lines(
                    v@.skip(v@.len() as int),
                ));
            }
            out.push(line);
            from = v.len();
        }
    }
    proof {
        assert(v@.skip(from as int).len() == 0);
        assert(seqs::views(out@) + text::lines(v@.skip(from as int)) =~= seqs::views(out@));
    }
    out
}

/// `str::split_whitespace`.
pub fn words<'a>(s: &'a str) -> (r: Vec<&'a str>)
    ensures
        seqs::views(r@) == text::words(s@),
{
    let v = to_chars(s);
    let mut out: Vec<&'a str> = Vec::new();
    let mut from: usize = 0;
    proof {
        assert(v@.skip(0) =~= v@);
        assert(seqs::views(out@) + text::words(s@) =~= text::words(s@));
    }
    while from < v.len()
        invariant
            v@ == s@,
            from <= v.len(),
            seqs::views(out@) + text::words(v@.skip(from as int)) == text::words(s@),
        decreases v.len() - from,
    {
        let ghost before = seqs::views(out@);
        let ghost rest = v@.skip(from as int);
        if is_white(v[from]) {
            proof {
                assert(rest.skip(1) =~= v@.skip(from + 1));
            }
            from += 1;
        } else {
            let mut i: usize = from;
            while i < v.len() && !is_white(v[i])
                invariant
                    from <= i <= v.len(),
                    forall|j: int| from <= j < i ==> !text::is_white(#[trigger] v@[j]),
                decreases v.len() - i,
            {
                i += 1;
            }
            let word = s.substring_char(from, i);
            proof {
                assert forall|j: int| 0 <= j < i - from implies !text::is_white(#[trigger] rest[j]) by {
                    assert(rest[j] == v@[from + j]);
                }
                text::lemma_word_len_is(rest, i - from);
                assert(!text::is_white(v@[from as int]));
                assert(i > from);
                seqs::lemma_views_push(out@, word);
                assert(word@ =~= rest.take(i - from));
                assert(rest.skip(i - from) =~= v@.skip(i as int));
                assert(before + (seq![word@] + text::words(v@.skip(i as int))) =~= before.push(
                    word@,
                ) + text::words(v@.skip(i as int)));
            }
            out.push(word);
            from = i;
        }
    }
    proof {
        assert(v@.skip(from as int).len() == 0);
        assert(seqs::views(out@) + text::words(v@.skip(from as int)) =~= seqs::views(out@));
    }
    out
}

fn occurs_at(v: &Vec<char>, w: &Vec<char>, at: usize) -> (r: bool)
    requires
        at <= v.len(),
    ensures
        r == w@.is_prefix_of(v@.skip(at as int)),
{
    if w.len() > v.len() - at {
        return false;
    }
    let ghost t = v@.skip(at as int);
    let mut i: usize = 0;
    while i < w.len()
        invariant
            at <= v.len(),
            i <= w.len() <= v.len() - at,
            t == v@.skip(at as int),
            forall|j: int| 0 <= j < i ==> t[j] == w@[j],
        decreases w.len() - i,
    {
        if v[at + i] != w[i] {
            proof {
                assert(t[i as int] != w@[i as int]);
                assert(t.subrange(0, w@.len() as int)[i as int] != w@[i as int]);
            }
            return false;
        }
        i += 1;
    }
    proof {
        assert(w@ =~= t.subrange(0, w@.len() as int));
    }
    true
}

/// The index, in characters, at which a string first occurs in another.
pub fn find(s: &str, needle: &str) -> (r: Option<usize>)
    ensures
        match r {
            Some(i) => text::find(s@, needle@) == Some(i as int) && i + needle@.len() <= s@.len(),
            None => text::find(s@, needle@) is None,
        },
{
    let v = to_chars(s);
    let w = to_chars(needle);
    let mut i: usize = 0;
    proof {
        assert(v@.skip(0) =~= v@);
    }
    loop
        invariant
            v@ == s@,
            w@ == needle@,
            i <= v.len(),
            match text::find(v@.skip(i as int), w@) {
                Some(k) => text::find(s@, needle@) == Some(k + i),
                None => text::find(s@, needle@) is None,
            },
        decreases v.len() - i,
    {
        if occurs_at(&v, &w, i) {
            return Some(i);
        }
        if i == v.len() {
            return None;
        }
        proof {
            assert(v@.skip(i as int).skip(1) =~= v@.skip(i + 1));
        }
        i += 1;
    }
}

/// Whether a string occurs in another.
pub fn contains(s: &str, needle: &str) -> (r: bool)
    ensures
        r == (text::find(s@, needle@) is Some),
{
    find(s, needle).is_some()
}

/// The text after the first occurrence of a string.
pub fn after<'a>(s: &'a str, needle: &str) -> (r: Option<&'a str>)
    ensures
        match r {
            Some(t) => text::after(s@, needle@) == Some(t@),
            None => text::after(s@, needle@) is None,
        },
{
    match find(s, needle) {
        Some(i) => {
            let n = s.unicode_len();
            let k = i + needle.unicode_len();
            proof {
                assert(s@.subrange(k as int, n as int) =~= s@.skip(k as int));
            }
            Some(s.substring_char(k, n))
        },
        None => None,
    }
}

fn lower_char(c: char) -> (r: char)
    ensures
        r == text::lower_char(c),
{
    if 'A' <= c && c <= 'Z' {
        (c as u8 + 32) as char
    } else {
        c
    }
}

/// The text in lower case.
pub fn to_lower(s: &str) -> (r: String)
    ensures
        r@ == text::to_lower(s@),
{
    s.to_lowercase()
}

/// The text in upper case.
pub fn to_upper(s: &str) -> (r: String)
    ensures
        r@ == text::to_upper(s@),
{
    s.to_uppercase()
}

/// `str::to_ascii_lowercase`.
pub fn lower_ascii(s: &str) -> (r: String)
    ensures
        r@ == text::lower_ascii(s@),
{
    let v = to_chars(s);
    let mut out = String::new();
    let mut i: usize = 0;
    while i < v.len()
        invariant
            i <= v.len(),
            v@ == s@,
            out@ == text::lower_ascii(s@).take(i as int),
        decreases v.len() - i,
    {
        out.push(lower_char(v[i]));
        proof {
            seqs::lemma_take_next(text::lower_ascii(s@), i as int);
        }
        i += 1;
    }
    proof {
        seqs::lemma_take_all(text::lower_ascii(s@));
    }
    out
}

/// `str::eq_ignore_ascii_case`.
pub fn same_ignoring_case(a: &str, b: &str) -> (r: bool)
    ensures
        r == text::same_ignoring_case(a@, b@),
{
    lower_ascii(a) == lower_ascii(b)
}

/// Replaces each of the given characters.
pub fn replace_any(s: &str, from: &[char], to: char) -> (r: String)
    ensures
        r@ == text::replace_any(s@, from@, to),
{
    let v = to_chars(s);
    let mut out = String::new();
    let mut i: usize = 0;
    while i < v.len()
        invariant
            i <= v.len(),
            v@ == s@,
            out@ == text::replace_any(s@, from@, to).take(i as int),
        decreases v.len() - i,
    {
        if one_of(v[i], from) {
            out.push(to);
        } else {
            out.push(v[i]);
        }
        proof {
            seqs::lemma_take_next(text::replace_any(s@, from@, to), i as int);
        }
        i += 1;
    }
    proof {
        seqs::lemma_take_all(text::replace_any(s@, from@, to));
    }
    out
}

/// The decimal digits of a number.
pub fn decimal(n: u64) -> (r: String)
    ensures
        r@ == text::decimal(n as nat),
    decreases n,
{
    if n < 10 {
        let mut out = String::new();
        out.push((48u8 + n as u8) as char);
        proof {
            assert(out@ =~= text::decimal(n as nat));
        }
        out
    } else {
        let mut out = decimal(n / 10);
        out.push((48u8 + (n % 10) as u8) as char);
        out
    }
}

pub fn digit_value(c: char, radix: u64) -> (r: Option<u64>)
    requires
        radix == 10 || radix == 16,
    ensures
        match r {
            Some(d) => text::digit_value(c, radix as int) == Some(d as int) && d < radix,
            None => text::digit_value(c, radix as int) is None,
        },
{
    if '0' <= c && c <= '9' {
        Some(c as u64 - '0' as u64)
    } else if radix == 16 && 'a' <= c && c <= 'f' {
        Some(c as u64 - 'a' as u64 + 10)
    } else if radix == 16 && 'A' <= c && c <= 'F' {
        Some(c as u64 - 'A' as u64 + 10)
    } else {
        None
    }
}

/// The unsigned number up to a bound that a string denotes, to the base 10 or 16.
pub fn number(s: &str, radix: u64, max: u64) -> (r: Option<u64>)
    requires
        radix == 10 || radix == 16,
    ensures
        match r {
            Some(v) => text::number(s@, radix as int, max as int) == Some(v as int) && v <= max,
            None => text::number(s@, radix as int, max as int) is None,
        },
{
    let v = to_chars(s);
    let start: usize = if v.len() > 1 && v[0] == '+' {
        1
    } else {
        0
    };
    let ghost digits = v@.skip(start as int);
    proof {
        assert(v@.skip(0) =~= v@);
    }
    if start == v.len() {
        return None;
    }
    let mut value: u64 = 0;
    let mut i: usize = start;
    while i < v.len()
        invariant
            start <= i <= v.len(),
            start <= 1,
            radix == 10 || radix == 16,
            digits == v@.skip(start as int),
            text::digits_value(digits.take(i - start), radix as int) == Some(value as int),
            value <= max,
            text::number(s@, radix as int, max as int) == match text::digits_value(
                digits,
                radix as int,
            ) {
                Some(v) => if v <= max {
                    Some(v)
                } else {
                    None
                },
                None => None,
            },
        decreases v.len() - i,
    {
        proof {
            seqs::lemma_take_next(digits, i - start);
            text::lemma_digits_prefix(digits, radix as int, i - start + 1);
        }
        match digit_value(v[i], radix) {
            Some(d) => {
                let wide: u128 = value as u128 * radix as u128 + d as u128;
                if wide > max as u128 {
                    return None;
                }
                value = wide as u64;
            },
            None => {
                return None;
            },
        }
        i += 1;
    }
    proof {
        seqs::lemma_take_all(digits);
    }
    Some(value)
}

/// The strings with `sep` between them.
pub fn join(pieces: &Vec<String>, sep: &str) -> (r: String)
    ensures
        r@ == text::join(seqs::views(pieces@), sep@),
{
    let ghost all = seqs::views(pieces@);
    if pieces.len() == 0 {
        proof {
            reveal_strlit("");
            assert(""@ =~= Seq::<char>::empty());
        }
        return "".to_owned();
    }
    let mut out: String = pieces[0].clone();
    let mut i: usize = 1;
    proof {
        assert(all.take(1).len() == 1);
    }
    while i < pieces.len()
        invariant
            1 <= i <= pieces.len(),
            all == seqs::views(pieces@),
            out@ == text::join(all.take(i as int), sep@),
        decreases pieces.len() - i,
    {
        proof {
            seqs::lemma_take_next(all, i as int);
            assert(all[i as int] == pieces@[i as int]@);
        }
        out = out.concat(sep).concat(pieces[i].as_str());
        i += 1;
    }
    proof {
        seqs::lemma_take_all(all);
    }
    out
}

/// `str::parse::<u16>`.
pub fn parse_u16(s: &str) -> (r: Option<u16>)
    ensures
        match r {
            Some(v) => text::number(s@, 10, u16::MAX as int) == Some(v as int),
            None => text::number(s@, 10, u16::MAX as int) is None,
        },
{
    match number(s, 10, 65535) {
        Some(v) => Some(v as u16),
        None => None,
    }
}

/// `str::parse::<u32>`.
pub fn parse_u32(s: &str) -> (r: Option<u32>)
    ensures
        match r {
            Some(v) => text::number(s@, 10, u32::MAX as int) == Some(v as int),
            None => text::number(s@, 10, u32::MAX as int) is None,
        },
{
    match number(s, 10, 4294967295) {
        Some(v) => Some(v as u32),
        None => None,
    }
}

/// `Debug` of a `str`.
#[verifier::external_body]
pub(crate) fn quote(s: &str) -> (r: String)
    ensures
        r@ == text::quoted(s@),
{
    format!("{:?}", s)
}

} // verus!
