//! Text, as sequences of characters: what trimming, splitting, searching, case mapping and
//! numbers mean, and the functions that compute it.

use vstd::prelude::*;
use crate::seqs;

verus! {

/// What `str::to_lowercase` makes of a text.
pub uninterp spec fn lowercase(s: Seq<char>) -> Seq<char>;

/// What `str::to_uppercase` makes of a text.
pub uninterp spec fn uppercase(s: Seq<char>) -> Seq<char>;

/// What `Debug` of a `str` makes of a text: the text in quotation marks, with the characters
/// escaped that cannot stand between them or be shown.
pub uninterp spec fn quoted(s: Seq<char>) -> Seq<char>;

/// `str::to_lowercase`: the Unicode lowercase mapping. On ASCII text it is the mapping of the
/// letters `A` to `Z`.
pub assume_specification[ str::to_lowercase ](s: &str) -> (r: String)
    ensures
        r@ == lowercase(s@),
        ascii(s@) ==> r@ == lower_ascii(s@),
;

/// `str::to_uppercase`: the Unicode uppercase mapping. On ASCII text it is the mapping of the
/// letters `a` to `z`.
pub assume_specification[ str::to_uppercase ](s: &str) -> (r: String)
    ensures
        r@ == uppercase(s@),
        ascii(s@) ==> r@ == upper_ascii(s@),
;

/// `String::push`: appends one character.
pub assume_specification[ String::push ](s: &mut String, c: char)
    ensures
        final(s)@ == old(s)@.push(c),
;

// ---------------------------------------------------------------------------------------------
// Meaning
// ---------------------------------------------------------------------------------------------
/// White space: the characters with the Unicode property `White_Space`.
pub open spec fn is_white(c: char) -> bool {
    let n = c as u32;
    9 <= n <= 13 || n == 0x20 || n == 0x85 || n == 0xa0 || n == 0x1680 || 0x2000 <= n <= 0x200a
        || n == 0x2028 || n == 0x2029 || n == 0x202f || n == 0x205f || n == 0x3000
}

pub open spec fn ascii(s: Seq<char>) -> bool {
    forall|i: int| 0 <= i < s.len() ==> (#[trigger] s[i] as u32) < 128
}

pub open spec fn lower_char(c: char) -> char {
    if 'A' <= c && c <= 'Z' {
        (c as u8 + 32) as char
    } else {
        c
    }
}

pub open spec fn upper_char(c: char) -> char {
    if 'a' <= c && c <= 'z' {
        (c as u8 - 32) as char
    } else {
        c
    }
}

/// The text with the ASCII letters in lower case.
pub open spec fn lower_ascii(s: Seq<char>) -> Seq<char> {
    Seq::new(s.len(), |i: int| lower_char(s[i]))
}

/// The text with the ASCII letters in upper case.
pub open spec fn upper_ascii(s: Seq<char>) -> Seq<char> {
    Seq::new(s.len(), |i: int| upper_char(s[i]))
}

/// The text in lower case.
pub open spec fn to_lower(s: Seq<char>) -> Seq<char> {
    if ascii(s) {
        lower_ascii(s)
    } else {
        lowercase(s)
    }
}

/// The text in upper case.
pub open spec fn to_upper(s: Seq<char>) -> Seq<char> {
    if ascii(s) {
        upper_ascii(s)
    } else {
        uppercase(s)
    }
}

/// Equality up to the case of ASCII letters.
pub open spec fn same_ignoring_case(a: Seq<char>, b: Seq<char>) -> bool {
    lower_ascii(a) == lower_ascii(b)
}

/// Without the leading white space.
pub open spec fn trim_start(s: Seq<char>) -> Seq<char>
    decreases s.len(),
{
    if s.len() > 0 && is_white(s[0]) {
        trim_start(s.skip(1))
    } else {
        s
    }
}

/// Without the trailing white space.
pub open spec fn trim_end(s: Seq<char>) -> Seq<char>
    decreases s.len(),
{
    if s.len() > 0 && is_white(s.last()) {
        trim_end(s.drop_last())
    } else {
        s
    }
}

/// Without the white space at both ends.
pub open spec fn trim(s: Seq<char>) -> Seq<char> {
    trim_end(trim_start(s))
}

/// Without the leading occurrences of `c`.
pub open spec fn strip_lead(s: Seq<char>, c: char) -> Seq<char>
    decreases s.len(),
{
    if s.len() > 0 && s[0] == c {
        strip_lead(s.skip(1), c)
    } else {
        s
    }
}

/// Without the trailing occurrences of `c`.
pub open spec fn strip_tail(s: Seq<char>, c: char) -> Seq<char>
    decreases s.len(),
{
    if s.len() > 0 && s.last() == c {
        strip_tail(s.drop_last(), c)
    } else {
        s
    }
}

/// Without the occurrences of `c` at both ends.
pub open spec fn strip_both(s: Seq<char>, c: char) -> Seq<char> {
    strip_tail(strip_lead(s, c), c)
}

/// Without the leading occurrences of `*.`.
pub open spec fn strip_wildcards(s: Seq<char>) -> Seq<char>
    decreases s.len(),
{
    if s.len() > 1 && s[0] == '*' && s[1] == '.' {
        strip_wildcards(s.skip(2))
    } else {
        s
    }
}

/// The index of the first character that is one of `seps`, or the length.
pub open spec fn first_of(s: Seq<char>, seps: Seq<char>) -> int
    decreases s.len(),
{
    if s.len() == 0 || seps.contains(s[0]) {
        0
    } else {
        1 + first_of(s.skip(1), seps)
    }
}

/// The text before the first character that is one of `seps`, or all of it.
pub open spec fn before_any(s: Seq<char>, seps: Seq<char>) -> Seq<char> {
    s.take(first_of(s, seps))
}

/// The texts before and after the first `c`.
pub open spec fn split_once(s: Seq<char>, c: char) -> Option<(Seq<char>, Seq<char>)> {
    let i = first_of(s, seq![c]);
    if i < s.len() {
        Some((s.take(i), s.skip(i + 1)))
    } else {
        None
    }
}

/// The index of the last `c`, or -1.
pub open spec fn last_of(s: Seq<char>, c: char) -> int
    decreases s.len(),
{
    if s.len() == 0 {
        -1
    } else if s.last() == c {
        s.len() - 1
    } else {
        last_of(s.drop_last(), c)
    }
}

/// The texts before and after the last `c`.
pub open spec fn rsplit_once(s: Seq<char>, c: char) -> Option<(Seq<char>, Seq<char>)> {
    let i = last_of(s, c);
    if i >= 0 {
        Some((s.take(i), s.skip(i + 1)))
    } else {
        None
    }
}

/// The pieces between the occurrences of `c`.
pub open spec fn split(s: Seq<char>, c: char) -> Seq<Seq<char>>
    decreases s.len(),
{
    let i = first_of(s, seq![c]);
    if 0 <= i < s.len() {
        seq![s.take(i)] + split(s.skip(i + 1), c)
    } else {
        seq![s]
    }
}

/// The pieces between the occurrences of `c`, trimmed, without the empty ones.
pub open spec fn items(s: Seq<char>, c: char) -> Seq<Seq<char>> {
    seqs::flat(split(s, c), trimmed_item())
}

pub open spec fn trimmed_item() -> spec_fn(Seq<char>) -> Seq<Seq<char>> {
    |piece: Seq<char>| if trim(piece).len() > 0 { seq![trim(piece)] } else { Seq::empty() }
}

/// The lines of a text. A line ends with a line feed, which with a carriage return before it is
/// not part of the line; the last line need not end so.
pub open spec fn lines(s: Seq<char>) -> Seq<Seq<char>>
    decreases s.len(),
{
    let i = first_of(s, seq!['\n']);
    if s.len() == 0 {
        Seq::empty()
    } else if 0 <= i < s.len() {
        seq![without_cr(s.take(i))] + lines(s.skip(i + 1))
    } else {
        seq![s]
    }
}

pub open spec fn without_cr(s: Seq<char>) -> Seq<char> {
    if s.len() > 0 && s.last() == '\r' {
        s.drop_last()
    } else {
        s
    }
}

/// The length of the longest prefix without white space.
pub open spec fn word_len(s: Seq<char>) -> int
    decreases s.len(),
{
    if s.len() == 0 || is_white(s[0]) {
        0
    } else {
        1 + word_len(s.skip(1))
    }
}

/// The words of a text, which white space separates.
pub open spec fn words(s: Seq<char>) -> Seq<Seq<char>>
    decreases s.len(),
{
    if s.len() == 0 {
        Seq::empty()
    } else if is_white(s[0]) {
        words(s.skip(1))
    } else {
        let n = word_len(s);
        if 0 < n <= s.len() {
            seq![s.take(n)] + words(s.skip(n))
        } else {
            Seq::empty()
        }
    }
}

/// The index at which `needle` first occurs.
pub open spec fn find(s: Seq<char>, needle: Seq<char>) -> Option<int>
    decreases s.len(),
{
    if needle.is_prefix_of(s) {
        Some(0)
    } else if s.len() == 0 {
        None
    } else {
        match find(s.skip(1), needle) {
            Some(i) => Some(i + 1),
            None => None,
        }
    }
}

/// The text after the first occurrence of `needle`.
pub open spec fn after(s: Seq<char>, needle: Seq<char>) -> Option<Seq<char>> {
    match find(s, needle) {
        Some(i) => Some(s.skip(i + needle.len())),
        None => None,
    }
}

/// The pieces with `sep` between them.
pub open spec fn join(pieces: Seq<Seq<char>>, sep: Seq<char>) -> Seq<char>
    decreases pieces.len(),
{
    if pieces.len() == 0 {
        Seq::empty()
    } else if pieces.len() == 1 {
        pieces[0]
    } else {
        join(pieces.drop_last(), sep) + sep + pieces.last()
    }
}

/// The text with each of the characters `from` replaced by `to`.
pub open spec fn replace_any(s: Seq<char>, from: Seq<char>, to: char) -> Seq<char> {
    Seq::new(s.len(), |i: int| if from.contains(s[i]) { to } else { s[i] })
}

pub open spec fn digit_char(d: int) -> char {
    (48 + d) as char
}

/// The decimal digits of a number.
pub open spec fn decimal(n: nat) -> Seq<char>
    decreases n,
{
    if n < 10 {
        seq![digit_char(n as int)]
    } else {
        decimal(n / 10).push(digit_char((n % 10) as int))
    }
}

/// The value of a digit to the base 10 or 16.
pub open spec fn digit_value(c: char, radix: int) -> Option<int> {
    if '0' <= c && c <= '9' {
        Some(c as int - '0' as int)
    } else if radix == 16 && 'a' <= c && c <= 'f' {
        Some(c as int - 'a' as int + 10)
    } else if radix == 16 && 'A' <= c && c <= 'F' {
        Some(c as int - 'A' as int + 10)
    } else {
        None
    }
}

/// The number that a sequence of digits denotes.
pub open spec fn digits_value(s: Seq<char>, radix: int) -> Option<int>
    decreases s.len(),
{
    if s.len() == 0 {
        Some(0)
    } else {
        match (digits_value(s.drop_last(), radix), digit_value(s.last(), radix)) {
            (Some(v), Some(d)) => Some(v * radix + d),
            _ => None,
        }
    }
}

/// The unsigned number up to `max` that a text denotes: digits, at least one, after an optional
/// plus sign.
pub open spec fn number(s: Seq<char>, radix: int, max: int) -> Option<int> {
    let digits = if s.len() > 1 && s[0] == '+' {
        s.skip(1)
    } else {
        s
    };
    if digits.len() == 0 {
        None
    } else {
        match digits_value(digits, radix) {
            Some(v) => if v <= max {
                Some(v)
            } else {
                None
            },
            None => None,
        }
    }
}

// ---------------------------------------------------------------------------------------------
// Facts
// ---------------------------------------------------------------------------------------------
pub proof fn lemma_first_of(s: Seq<char>, seps: Seq<char>)
    ensures
        0 <= first_of(s, seps) <= s.len(),
        first_of(s, seps) < s.len() ==> seps.contains(s[first_of(s, seps)]),
        forall|j: int| 0 <= j < first_of(s, seps) ==> !seps.contains(#[trigger] s[j]),
    decreases s.len(),
{
    if s.len() > 0 && !seps.contains(s[0]) {
        lemma_first_of(s.skip(1), seps);
        assert forall|j: int| 0 <= j < first_of(s, seps) implies !seps.contains(#[trigger] s[j]) by {
            if j > 0 {
                assert(s.skip(1)[j - 1] == s[j]);
            }
        }
    }
}

pub proof fn lemma_first_of_is(s: Seq<char>, seps: Seq<char>, i: int)
    requires
        0 <= i <= s.len(),
        i < s.len() ==> seps.contains(s[i]),
        forall|j: int| 0 <= j < i ==> !seps.contains(#[trigger] s[j]),
    ensures
        first_of(s, seps) == i,
{
    lemma_first_of(s, seps);
    let f = first_of(s, seps);
    if f < i {
        assert(!seps.contains(s[f]));
    } else if i < f {
        assert(!seps.contains(s[i]));
    }
}

/// Whether a text holds no white space.
pub open spec fn solid(s: Seq<char>) -> bool {
    forall|i: int| 0 <= i < s.len() ==> !is_white(#[trigger] s[i])
}

/// Whether the last line of a text, if it has any, ends with a line feed.
pub open spec fn closed_lines(s: Seq<char>) -> bool {
    s.len() == 0 || s.last() == '\n'
}

/// A line put behind closed lines is one line more.
pub proof fn lemma_lines_append(a: Seq<char>, line: Seq<char>)
    requires
        closed_lines(a),
        solid(line),
    ensures
        lines(a + line.push('\n')) == lines(a).push(line),
    decreases a.len(),
{
    let b = line.push('\n');
    let nl = seq!['\n'];
    assert(nl[0] == '\n');
    if a.len() == 0 {
        assert(a + b =~= b);
        lemma_first_of_is(b, nl, line.len() as int);
        assert(b.take(line.len() as int) =~= line);
        assert(without_cr(line) == line);
        assert(b.skip(b.len() as int).len() == 0);
        assert(lines(b.skip(b.len() as int)) =~= Seq::empty());
        assert(lines(b) =~= seq![line]);
        assert(lines(a).push(line) =~= seq![line]);
    } else {
        lemma_first_of(a, nl);
        let i = first_of(a, nl);
        if i == a.len() {
            assert(!nl.contains(a[a.len() - 1]));
        }
        let s = a + b;
        assert forall|j: int| 0 <= j < i implies !nl.contains(#[trigger] s[j]) by {
            assert(s[j] == a[j]);
        }
        lemma_first_of_is(s, nl, i);
        let rest = a.skip(i + 1);
        assert(s.take(i) =~= a.take(i));
        assert(s.skip(i + 1) =~= rest + b);
        assert(rest.len() > 0 ==> rest.last() == a.last());
        lemma_lines_append(rest, line);
        let head = seq![without_cr(a.take(i))];
        assert(lines(s) == head + lines(rest).push(line));
        assert(head + lines(rest).push(line) =~= (head + lines(rest)).push(line));
    }
}

/// Trimming shortens from both ends.
pub proof fn lemma_trim_start(s: Seq<char>)
    ensures
        trim_start(s).len() <= s.len(),
        trim_start(s) == s.skip(s.len() - trim_start(s).len()),
        trim_start(s).len() > 0 ==> !is_white(trim_start(s)[0]),
        forall|j: int|
            0 <= j < s.len() - trim_start(s).len() ==> is_white(#[trigger] s[j]),
    decreases s.len(),
{
    if s.len() > 0 && is_white(s[0]) {
        lemma_trim_start(s.skip(1));
        let k = s.skip(1).len() - trim_start(s.skip(1)).len();
        assert(s.skip(1).skip(k) =~= s.skip(k + 1));
        assert forall|j: int| 0 <= j < k + 1 implies is_white(#[trigger] s[j]) by {
            if j > 0 {
                assert(s.skip(1)[j - 1] == s[j]);
            }
        }
    } else {
        assert(s.skip(0) =~= s);
    }
}

pub proof fn lemma_trim_end(s: Seq<char>)
    ensures
        trim_end(s).len() <= s.len(),
        trim_end(s) == s.take(trim_end(s).len() as int),
        trim_end(s).len() > 0 ==> !is_white(trim_end(s).last()),
        forall|j: int| trim_end(s).len() <= j < s.len() ==> is_white(#[trigger] s[j]),
    decreases s.len(),
{
    if s.len() > 0 && is_white(s.last()) {
        let t = s.drop_last();
        lemma_trim_end(t);
        assert(t.take(trim_end(t).len() as int) =~= s.take(trim_end(t).len() as int));
        assert forall|j: int| trim_end(s).len() <= j < s.len() implies is_white(
            #[trigger] s[j],
        ) by {
            if j < t.len() {
                assert(t[j] == s[j]);
            }
        }
    } else {
        assert(s.take(s.len() as int) =~= s);
    }
}

/// Trimmed text starts and ends without white space.
pub proof fn lemma_trim(s: Seq<char>)
    ensures
        trim(s).len() <= s.len(),
        trim(s).len() > 0 ==> !is_white(trim(s)[0]) && !is_white(trim(s).last()),
{
    lemma_trim_start(s);
    lemma_trim_end(trim_start(s));
}

proof fn lemma_same_chars(a: Seq<char>, b: Seq<char>)
    requires
        same_ignoring_case(a, b),
    ensures
        a.len() == b.len(),
        forall|i: int|
            0 <= i < a.len() ==> lower_char(#[trigger] a[i]) == lower_char(b[i]) && is_white(a[i])
                == is_white(b[i]),
{
    assert(lower_ascii(a).len() == lower_ascii(b).len());
    assert forall|i: int| 0 <= i < a.len() implies lower_char(#[trigger] a[i]) == lower_char(b[i])
        && is_white(a[i]) == is_white(b[i]) by {
        assert(lower_ascii(a)[i] == lower_ascii(b)[i]);
    }
}

proof fn lemma_same_part(a: Seq<char>, b: Seq<char>, i: int, j: int)
    requires
        same_ignoring_case(a, b),
        0 <= i <= j <= a.len(),
    ensures
        same_ignoring_case(a.subrange(i, j), b.subrange(i, j)),
{
    lemma_same_chars(a, b);
    assert(lower_ascii(a.subrange(i, j)) =~= lower_ascii(b.subrange(i, j)));
}

proof fn lemma_trim_start_ignores_case(a: Seq<char>, b: Seq<char>)
    requires
        same_ignoring_case(a, b),
    ensures
        same_ignoring_case(trim_start(a), trim_start(b)),
    decreases a.len(),
{
    lemma_same_chars(a, b);
    if a.len() > 0 && is_white(a[0]) {
        lemma_same_part(a, b, 1, a.len() as int);
        assert(is_white(b[0]));
        lemma_trim_start_ignores_case(a.skip(1), b.skip(1));
    } else if b.len() > 0 {
        assert(is_white(a[0]) == is_white(b[0]));
    }
}

proof fn lemma_trim_end_ignores_case(a: Seq<char>, b: Seq<char>)
    requires
        same_ignoring_case(a, b),
    ensures
        same_ignoring_case(trim_end(a), trim_end(b)),
    decreases a.len(),
{
    lemma_same_chars(a, b);
    if a.len() > 0 {
        let n = a.len() - 1;
        assert(is_white(a[n]) == is_white(b[n]));
        if is_white(a[n]) {
            lemma_same_part(a, b, 0, n);
            lemma_trim_end_ignores_case(a.drop_last(), b.drop_last());
        }
    }
}

/// Trimming keeps texts the same up to case.
pub proof fn lemma_trim_ignores_case(a: Seq<char>, b: Seq<char>)
    requires
        same_ignoring_case(a, b),
    ensures
        same_ignoring_case(trim(a), trim(b)),
{
    lemma_trim_start_ignores_case(a, b);
    lemma_trim_end_ignores_case(trim_start(a), trim_start(b));
}

/// Stripping a character that is no letter keeps texts the same up to case.
pub proof fn lemma_strip_tail_ignores_case(a: Seq<char>, b: Seq<char>, c: char)
    requires
        same_ignoring_case(a, b),
        !('a' <= c && c <= 'z'),
        !('A' <= c && c <= 'Z'),
    ensures
        same_ignoring_case(strip_tail(a, c), strip_tail(b, c)),
    decreases a.len(),
{
    lemma_same_chars(a, b);
    if a.len() > 0 {
        let n = a.len() - 1;
        assert(lower_char(a[n]) == lower_char(b[n]));
        assert(a[n] == c <==> b[n] == c);
        if a[n] == c {
            lemma_same_part(a, b, 0, n);
            lemma_strip_tail_ignores_case(a.drop_last(), b.drop_last(), c);
        }
    }
}

/// A character that is no white space stays where it is appended.
pub proof fn lemma_trim_start_append(a: Seq<char>, c: char)
    requires
        !is_white(c),
    ensures
        trim_start(a + seq![c]) == trim_start(a) + seq![c],
    decreases a.len(),
{
    let b = a + seq![c];
    if a.len() > 0 {
        assert(b[0] == a[0]);
        if is_white(a[0]) {
            lemma_trim_start_append(a.skip(1), c);
            assert(b.skip(1) =~= a.skip(1) + seq![c]);
        }
    } else {
        assert(b[0] == c);
    }
}

pub proof fn lemma_last_of(s: Seq<char>, c: char)
    ensures
        -1 <= last_of(s, c) < s.len(),
        last_of(s, c) >= 0 ==> s[last_of(s, c)] == c,
        forall|j: int| last_of(s, c) < j < s.len() ==> #[trigger] s[j] != c,
    decreases s.len(),
{
    if s.len() > 0 && s.last() != c {
        lemma_last_of(s.drop_last(), c);
        assert forall|j: int| last_of(s, c) < j < s.len() implies #[trigger] s[j] != c by {
            if j < s.len() - 1 {
                assert(s.drop_last()[j] == s[j]);
            }
        }
    }
}

pub proof fn lemma_last_of_is(s: Seq<char>, c: char, i: int)
    requires
        -1 <= i < s.len(),
        i >= 0 ==> s[i] == c,
        forall|j: int| i < j < s.len() ==> #[trigger] s[j] != c,
    ensures
        last_of(s, c) == i,
{
    lemma_last_of(s, c);
}

pub proof fn lemma_word_len(s: Seq<char>)
    ensures
        0 <= word_len(s) <= s.len(),
        word_len(s) < s.len() ==> is_white(s[word_len(s)]),
        forall|j: int| 0 <= j < word_len(s) ==> !is_white(#[trigger] s[j]),
    decreases s.len(),
{
    if s.len() > 0 && !is_white(s[0]) {
        lemma_word_len(s.skip(1));
        assert forall|j: int| 0 <= j < word_len(s) implies !is_white(#[trigger] s[j]) by {
            if j > 0 {
                assert(s.skip(1)[j - 1] == s[j]);
            }
        }
    }
}

pub proof fn lemma_word_len_is(s: Seq<char>, i: int)
    requires
        0 <= i <= s.len(),
        i < s.len() ==> is_white(s[i]),
        forall|j: int| 0 <= j < i ==> !is_white(#[trigger] s[j]),
    ensures
        word_len(s) == i,
{
    lemma_word_len(s);
    let f = word_len(s);
    if f < i {
        assert(!is_white(s[f]));
    } else if i < f {
        assert(!is_white(s[i]));
    }
}

pub proof fn lemma_find(s: Seq<char>, needle: Seq<char>)
    ensures
        find(s, needle) matches Some(i) ==> 0 <= i <= s.len() - needle.len()
            && s.subrange(i, i + needle.len()) == needle,
    decreases s.len(),
{
    if needle.is_prefix_of(s) {
        assert(s.subrange(0, needle.len() as int) =~= needle);
    } else if s.len() > 0 {
        lemma_find(s.skip(1), needle);
        if let Some(i) = find(s.skip(1), needle) {
            assert(s.skip(1).subrange(i, i + needle.len()) =~= s.subrange(
                i + 1,
                i + 1 + needle.len(),
            ));
        }
    }
}

/// A digit sequence denotes a number that is not negative.
pub proof fn lemma_digits_value(s: Seq<char>, radix: int)
    requires
        radix == 10 || radix == 16,
    ensures
        digits_value(s, radix) matches Some(v) ==> v >= 0,
    decreases s.len(),
{
    if s.len() > 0 {
        lemma_digits_value(s.drop_last(), radix);
        if let Some(v) = digits_value(s.drop_last(), radix) {
            assert(v >= 0 ==> v * radix >= 0) by (nonlinear_arith)
                requires
                    radix > 0,
            ;
        }
    }
}

/// A longer digit sequence denotes no smaller a number, and none if its prefix denotes none.
pub proof fn lemma_digits_prefix(s: Seq<char>, radix: int, i: int)
    requires
        radix == 10 || radix == 16,
        0 <= i <= s.len(),
    ensures
        digits_value(s, radix) matches Some(v) ==> digits_value(s.take(i), radix) is Some
            && digits_value(s.take(i), radix)->0 <= v,
    decreases s.len() - i,
{
    if i < s.len() {
        lemma_digits_prefix(s, radix, i + 1);
        seqs::lemma_take_next(s, i);
        lemma_digits_value(s.take(i), radix);
        if let Some(v) = digits_value(s.take(i), radix) {
            assert(v >= 0 ==> v * radix >= v) by (nonlinear_arith)
                requires
                    radix >= 10,
            ;
        }
    } else {
        seqs::lemma_take_all(s);
    }
}

/// The digits of a number denote it.
pub proof fn lemma_decimal(n: nat)
    ensures
        decimal(n).len() > 0,
        digits_value(decimal(n), 10) == Some(n as int),
        forall|i: int|
            0 <= i < decimal(n).len() ==> '0' <= #[trigger] decimal(n)[i]
                && decimal(n)[i] <= '9',
    decreases n,
{
    let s = decimal(n);
    if n < 10 {
        let c = digit_char(n as int);
        assert(s.last() == c);
        assert(s.drop_last().len() == 0);
        assert(digits_value(s.drop_last(), 10) == Some(0int));
        assert(digit_value(c, 10) == Some(n as int));
    } else {
        lemma_decimal(n / 10);
        let c = digit_char((n % 10) as int);
        assert(s.last() == c);
        assert(s.drop_last() =~= decimal(n / 10));
        assert(digit_value(c, 10) == Some((n % 10) as int));
    }
}

} // verus!
