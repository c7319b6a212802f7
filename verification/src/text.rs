//! Text as sequences of characters: the small set of string operations that
//! the parsers and the routing rules are written in.
//!
//! Specifications speak of `Seq<char>`, the view of `str` and `String`.
//! Executable code takes the characters out with [`chars_of`], works on
//! slices of `char`, and goes back with [`string_of`].

use vstd::prelude::*;
use vstd::utf8::*;

verus! {

// ---------------------------------------------------------------------------
// Functions of the standard library
// ---------------------------------------------------------------------------

/// `String::push` appends one character.
pub assume_specification[ String::push ](s: &mut String, c: char)
    ensures
        final(s)@ == old(s)@.push(c),
;

/// A character has the Unicode `White_Space` property.
pub open spec fn has_white_space(c: char) -> bool {
    let n = c as u32;
    ||| 9 <= n <= 13
    ||| n == 0x20 || n == 0x85 || n == 0xa0 || n == 0x1680
    ||| 0x2000 <= n <= 0x200a
    ||| n == 0x2028 || n == 0x2029 || n == 0x202f || n == 0x205f || n == 0x3000
}

/// `char::is_whitespace`, which answers by the Unicode `White_Space` property.
#[verifier::external_body]
fn char_is_whitespace(c: char) -> (r: bool)
    ensures
        r == has_white_space(c),
{
    c.is_whitespace()
}

/// `str::from_utf8`: the text that the bytes encode, and nothing when they are
/// not valid UTF-8.
#[verifier::external_body]
fn str_from_utf8(bytes: &[u8]) -> (r: Option<&str>)
    ensures
        r is Some <==> valid_utf8(bytes@),
        r matches Some(s) ==> s@ == decode_utf8(bytes@),
{
    core::str::from_utf8(bytes).ok()
}

/// The text that `str::to_lowercase` makes of a text.
pub uninterp spec fn lowercase(s: Seq<char>) -> Seq<char>;

/// `str::to_lowercase`. On ASCII text it lowers the capitals and no more.
#[verifier::external_body]
pub(crate) fn lowercase_str(s: &str) -> (r: String)
    ensures
        r@ == lowercase(s@),
        is_ascii_chars(s@) ==> r@ == lowered(s@),
{
    s.to_lowercase()
}

// ---------------------------------------------------------------------------
// Between strings and characters
// ---------------------------------------------------------------------------

/// The characters of a string.
pub fn chars_of(s: &str) -> (r: Vec<char>)
    ensures
        r@ == s@,
{
    let mut r: Vec<char> = Vec::new();
    for c in it: s.chars()
        invariant
            r@ == it.seq().take(it.index() as int),
            it.seq() == s@,
    {
        r.push(c);
        assert(it.seq().take(it.index() + 1) == it.seq().take(it.index() as int).push(c));
    }
    assert(s@.take(s@.len() as int) == s@);
    r
}

/// The string made of the given characters.
pub fn string_of(chars: &[char]) -> (r: String)
    ensures
        r@ == chars@,
{
    let mut r = String::new();
    let mut i: usize = 0;
    while i < chars.len()
        invariant
            i <= chars@.len(),
            r@ == chars@.take(i as int),
        decreases chars@.len() - i,
    {
        r.push(chars[i]);
        assert(chars@.take(i + 1) == chars@.take(i as int).push(chars@[i as int]));
        i += 1;
    }
    assert(chars@.take(i as int) == chars@);
    r
}

/// The characters that the bytes encode in UTF-8, or `None` when they are not
/// valid UTF-8.
pub fn chars_of_utf8(bytes: &[u8]) -> (r: Option<Vec<char>>)
    ensures
        r is Some <==> valid_utf8(bytes@),
        r matches Some(v) ==> v@ == decode_utf8(bytes@),
{
    match str_from_utf8(bytes) {
        Some(s) => Some(chars_of(s)),
        None => None,
    }
}

// ---------------------------------------------------------------------------
// Characters
// ---------------------------------------------------------------------------

pub open spec fn is_ascii_upper(c: char) -> bool {
    'A' <= c <= 'Z'
}

pub open spec fn is_ascii_lower(c: char) -> bool {
    'a' <= c <= 'z'
}

pub open spec fn is_ascii_alpha(c: char) -> bool {
    is_ascii_upper(c) || is_ascii_lower(c)
}

pub open spec fn is_digit(c: char) -> bool {
    '0' <= c <= '9'
}

/// The lower-case form of an ASCII capital; every other character unchanged.
pub open spec fn lower(c: char) -> char {
    if is_ascii_upper(c) {
        (c as u32 + 32) as char
    } else {
        c
    }
}

/// A text with its ASCII capitals in lower case.
pub open spec fn lowered(s: Seq<char>) -> Seq<char> {
    s.map_values(|c: char| lower(c))
}

/// Lower-casing is idempotent.
pub proof fn lowered_idempotent(s: Seq<char>)
    ensures
        lowered(lowered(s)) == lowered(s),
{
    assert(lowered(lowered(s)) =~= lowered(s));
}

/// Lower-case form of one character.
pub fn lower_char(c: char) -> (r: char)
    ensures
        r == lower(c),
{
    if c >= 'A' && c <= 'Z' {
        ((c as u8) + 32) as char
    } else {
        c
    }
}

/// Lower-case form of a text.
pub fn lower_chars(s: &[char]) -> (r: Vec<char>)
    ensures
        r@ == lowered(s@),
{
    let mut r: Vec<char> = Vec::new();
    let mut i: usize = 0;
    while i < s.len()
        invariant
            i <= s@.len(),
            r@ == lowered(s@.take(i as int)),
        decreases s@.len() - i,
    {
        r.push(lower_char(s[i]));
        assert(lowered(s@.take(i + 1)) =~= lowered(s@.take(i as int)).push(lower(s@[i as int])));
        i += 1;
    }
    assert(s@.take(i as int) == s@);
    r
}

// ---------------------------------------------------------------------------
// Comparing and cutting
// ---------------------------------------------------------------------------

/// Whether two texts are equal.
pub fn chars_eq(a: &[char], b: &[char]) -> (r: bool)
    ensures
        r == (a@ == b@),
{
    if a.len() != b.len() {
        return false;
    }
    let mut i: usize = 0;
    while i < a.len()
        invariant
            a@.len() == b@.len(),
            i <= a@.len(),
            forall|j: int| 0 <= j < i ==> a@[j] == b@[j],
        decreases a@.len() - i,
    {
        if a[i] != b[i] {
            return false;
        }
        i += 1;
    }
    assert(a@ =~= b@);
    true
}

/// Whether a text equals a string.
pub fn chars_eq_str(a: &[char], b: &str) -> (r: bool)
    ensures
        r == (a@ == b@),
{
    let b = chars_of(b);
    chars_eq(a, b.as_slice())
}

/// Whether two strings are equal.
pub fn str_eq(a: &str, b: &str) -> (r: bool)
    ensures
        r == (a@ == b@),
{
    let a = chars_of(a);
    chars_eq_str(a.as_slice(), b)
}

/// A copy of part of a text.
pub fn slice_chars(s: &[char], from: usize, to: usize) -> (r: Vec<char>)
    requires
        from <= to <= s@.len(),
    ensures
        r@ == s@.subrange(from as int, to as int),
{
    let mut r: Vec<char> = Vec::new();
    let mut i: usize = from;
    while i < to
        invariant
            from <= i <= to <= s@.len(),
            r@ == s@.subrange(from as int, i as int),
        decreases to - i,
    {
        r.push(s[i]);
        assert(s@.subrange(from as int, i + 1) =~= s@.subrange(from as int, i as int).push(
            s@[i as int],
        ));
        i += 1;
    }
    r
}

/// Whether `pat` stands in `s` at position `i`.
pub open spec fn occurs_at<T>(s: Seq<T>, pat: Seq<T>, i: int) -> bool {
    &&& 0 <= i
    &&& i + pat.len() <= s.len()
    &&& s.subrange(i, i + pat.len()) == pat
}

/// The first position at or after `i` where `pat` stands in `s`.
pub open spec fn find_from<T>(s: Seq<T>, pat: Seq<T>, i: int) -> Option<int>
    decreases s.len() + 1 - i,
{
    if i < 0 || i + pat.len() > s.len() {
        None
    } else if occurs_at(s, pat, i) {
        Some(i)
    } else {
        find_from(s, pat, i + 1)
    }
}

/// `find_from` gives the least position where the pattern stands.
pub proof fn lemma_find_from<T>(s: Seq<T>, pat: Seq<T>, i: int)
    requires
        0 <= i,
    ensures
        find_from(s, pat, i) matches Some(k) ==> i <= k && occurs_at(s, pat, k) && (forall|j: int|
            i <= j < k ==> !occurs_at(s, pat, j)),
        find_from(s, pat, i) is None ==> (forall|j: int| i <= j ==> !occurs_at(s, pat, j)),
    decreases s.len() + 1 - i,
{
    if i + pat.len() > s.len() {
    } else if occurs_at(s, pat, i) {
    } else {
        lemma_find_from(s, pat, i + 1);
    }
}

/// What is found is found at the same place when more follows.
pub proof fn lemma_find_from_extends<T>(s: Seq<T>, more: Seq<T>, pat: Seq<T>, i: int)
    requires
        0 <= i,
        find_from(s, pat, i) is Some,
    ensures
        find_from(s + more, pat, i) == find_from(s, pat, i),
    decreases s.len() + 1 - i,
{
    assert((s + more).subrange(i, i + pat.len()) =~= s.subrange(i, i + pat.len()));
    if !occurs_at(s, pat, i) {
        lemma_find_from_extends(s, more, pat, i + 1);
    }
}

/// The pieces of `s` between the occurrences of `pat`, found from the left.
pub open spec fn split_at_each<T>(s: Seq<T>, pat: Seq<T>) -> Seq<Seq<T>>
    decreases s.len(),
{
    match find_from(s, pat, 0) {
        Some(k) => if 0 <= k && 0 < pat.len() && k + pat.len() <= s.len() {
            seq![s.take(k)] + split_at_each(s.skip(k + pat.len()), pat)
        } else {
            seq![s]
        },
        None => seq![s],
    }
}

/// The first position at or after `from` where `pat` stands in `s`.
pub fn find_chars(s: &[char], pat: &[char], from: usize) -> (r: Option<usize>)
    requires
        from <= s@.len(),
    ensures
        r matches Some(k) ==> find_from(s@, pat@, from as int) == Some(k as int),
        r is None ==> find_from(s@, pat@, from as int) is None,
{
    let mut i: usize = from;
    while i <= s.len() && pat.len() <= s.len() - i
        invariant
            from <= i <= s@.len() + 1,
            find_from(s@, pat@, from as int) == find_from(s@, pat@, i as int),
        decreases s@.len() + 1 - i,
    {
        let mut j: usize = 0;
        while j < pat.len() && s[i + j] == pat[j]
            invariant
                j <= pat@.len(),
                i + pat.len() <= s.len(),
                forall|k: int| 0 <= k < j ==> s@[i + k] == pat@[k],
            decreases pat@.len() - j,
        {
            j += 1;
        }
        if j == pat.len() {
            assert(s@.subrange(i as int, i + pat@.len()) =~= pat@);
            return Some(i);
        }
        assert(s@.subrange(i as int, i + pat@.len())[j as int] != pat@[j as int]);
        if i == s.len() {
            return None;
        }
        i += 1;
    }
    None
}

/// The views of a vector of texts.
pub open spec fn texts(v: Seq<Vec<char>>) -> Seq<Seq<char>> {
    v.map_values(|t: Vec<char>| t@)
}

/// The views of a vector of strings.
pub open spec fn names(v: Seq<String>) -> Seq<Seq<char>> {
    v.map_values(|t: String| t@)
}

/// The view of an optional text.
pub open spec fn opt_text(s: Option<&str>) -> Option<Seq<char>> {
    match s {
        Some(t) => Some(t@),
        None => None,
    }
}

/// Whether a text is in a list.
pub fn list_contains(list: &[String], s: &str) -> (r: bool)
    ensures
        r == names(list@).contains(s@),
{
    let mut i: usize = 0;
    while i < list.len()
        invariant
            i <= list@.len(),
            forall|k: int| 0 <= k < i ==> (#[trigger] list@[k])@ != s@,
        decreases list@.len() - i,
    {
        if str_eq(list[i].as_str(), s) {
            assert(names(list@)[i as int] == s@);
            return true;
        }
        i += 1;
    }
    proof {
        if names(list@).contains(s@) {
            let k = choose|k: int| 0 <= k < names(list@).len() && names(list@)[k] == s@;
            assert(list@[k]@ == s@);
        }
    }
    false
}

/// A copy of a text.
pub fn copy_str(s: &str) -> (r: String)
    ensures
        r@ == s@,
{
    s.to_owned()
}

/// Appends a text.
pub fn push_str(out: &mut String, s: &str)
    ensures
        final(out)@ == old(out)@ + s@,
{
    let chars = chars_of(s);
    let ghost start = out@;
    let mut i: usize = 0;
    assert(start =~= start + chars@.take(0));
    while i < chars.len()
        invariant
            i <= chars@.len(),
            out@ == start + chars@.take(i as int),
        decreases chars@.len() - i,
    {
        out.push(chars[i]);
        assert(start + chars@.take(i + 1) =~= (start + chars@.take(i as int)).push(
            chars@[i as int],
        ));
        i += 1;
    }
    assert(chars@.take(i as int) =~= chars@);
}

/// The pieces of `s` between the occurrences of `pat`.
pub fn split_chars(s: &[char], pat: &[char]) -> (r: Vec<Vec<char>>)
    requires
        pat@.len() > 0,
    ensures
        texts(r@) == split_at_each(s@, pat@),
{
    let mut r: Vec<Vec<char>> = Vec::new();
    let mut start: usize = 0;
    assert(texts(r@) + split_at_each(s@.skip(0), pat@) =~= split_at_each(s@, pat@)) by {
        assert(s@.skip(0) =~= s@);
    }
    loop
        invariant
            pat@.len() > 0,
            start <= s@.len(),
            texts(r@) + split_at_each(s@.skip(start as int), pat@) == split_at_each(s@, pat@),
        decreases s@.len() - start,
    {
        let rest = slice_chars(s, start, s.len());
        assert(rest@ =~= s@.skip(start as int));
        proof {
            lemma_find_from(rest@, pat@, 0);
        }
        match find_chars(rest.as_slice(), pat, 0) {
            Some(k) => {
                let piece = slice_chars(rest.as_slice(), 0, k);
                assert(piece@ =~= rest@.take(k as int));
                let ghost before = r@;
                r.push(piece);
                assert(texts(r@) =~= texts(before) + seq![rest@.take(k as int)]);
                assert(rest@.skip(k + pat@.len()) =~= s@.skip(start + k + pat@.len()));
                assert(texts(r@) + split_at_each(s@.skip(start + k + pat@.len()), pat@) =~= texts(
                    before,
                ) + split_at_each(rest@, pat@));
                start = start + k + pat.len();
            },
            None => {
                let ghost before = r@;
                r.push(rest);
                assert(texts(r@) =~= texts(before) + seq![s@.skip(start as int)]);
                return r;
            },
        }
    }
}

/// Whether `pat` stands somewhere in `s`.
pub open spec fn contains_seq<T>(s: Seq<T>, pat: Seq<T>) -> bool {
    exists|i: int| #[trigger] occurs_at(s, pat, i)
}

/// Whether `pat` stands somewhere in `s`.
pub fn chars_contain(s: &[char], pat: &[char]) -> (r: bool)
    ensures
        r == contains_seq(s@, pat@),
{
    proof {
        lemma_find_from(s@, pat@, 0);
    }
    find_chars(s, pat, 0).is_some()
}

/// Whether `s` ends with `suffix`.
pub open spec fn ends_with_seq<T>(s: Seq<T>, suffix: Seq<T>) -> bool {
    occurs_at(s, suffix, s.len() - suffix.len())
}

/// Whether `s` ends with `suffix`.
pub fn chars_end_with(s: &[char], suffix: &[char]) -> (r: bool)
    ensures
        r == ends_with_seq(s@, suffix@),
{
    if s.len() < suffix.len() {
        return false;
    }
    let at = s.len() - suffix.len();
    let tail = slice_chars(s, at, s.len());
    chars_eq(tail.as_slice(), suffix)
}

/// `s` without the characters at its start that satisfy `drop`.
pub open spec fn trimmed_start(s: Seq<char>, drop: spec_fn(char) -> bool) -> Seq<char>
    decreases s.len(),
{
    if s.len() > 0 && drop(s[0]) {
        trimmed_start(s.drop_first(), drop)
    } else {
        s
    }
}

/// `s` without the characters at its end that satisfy `drop`.
pub open spec fn trimmed_end(s: Seq<char>, drop: spec_fn(char) -> bool) -> Seq<char>
    decreases s.len(),
{
    if s.len() > 0 && drop(s.last()) {
        trimmed_end(s.drop_last(), drop)
    } else {
        s
    }
}

/// `s` without the white space at its two ends.
pub open spec fn trimmed(s: Seq<char>) -> Seq<char> {
    trimmed_end(trimmed_start(s, |c: char| has_white_space(c)), |c: char| has_white_space(c))
}

/// `s` without the white space at its two ends.
pub fn trim_chars(s: &[char]) -> (r: Vec<char>)
    ensures
        r@ == trimmed(s@),
{
    let ghost ws = |c: char| has_white_space(c);
    let mut from: usize = 0;
    assert(s@.skip(0) =~= s@);
    while from < s.len() && char_is_whitespace(s[from])
        invariant
            ws == (|c: char| has_white_space(c)),
            from <= s@.len(),
            trimmed_start(s@, ws) == trimmed_start(s@.skip(from as int), ws),
        decreases s@.len() - from,
    {
        assert(s@.skip(from as int).drop_first() =~= s@.skip(from + 1));
        from += 1;
    }
    assert(trimmed_start(s@, ws) == s@.skip(from as int));
    let mut to: usize = s.len();
    assert(s@.subrange(from as int, to as int) =~= s@.skip(from as int));
    while from < to && char_is_whitespace(s[to - 1])
        invariant
            ws == (|c: char| has_white_space(c)),
            from <= to <= s@.len(),
            trimmed(s@) == trimmed_end(s@.subrange(from as int, to as int), ws),
        decreases to,
    {
        assert(s@.subrange(from as int, to as int).drop_last() =~= s@.subrange(
            from as int,
            to - 1,
        ));
        to -= 1;
    }
    slice_chars(s, from, to)
}

/// The last position of `c` in `s`.
pub open spec fn find_last(s: Seq<char>, c: char) -> Option<int>
    decreases s.len(),
{
    if s.len() == 0 {
        None
    } else if s.last() == c {
        Some(s.len() - 1)
    } else {
        find_last(s.drop_last(), c)
    }
}

/// The last position of `c` in `s`.
pub fn find_last_char(s: &[char], c: char) -> (r: Option<usize>)
    ensures
        r matches Some(k) ==> k < s@.len() && find_last(s@, c) == Some(k as int),
        r is None ==> find_last(s@, c) is None,
{
    let mut n: usize = s.len();
    assert(s@.take(n as int) =~= s@);
    while n > 0
        invariant
            n <= s@.len(),
            find_last(s@, c) == find_last(s@.take(n as int), c),
        decreases n,
    {
        if s[n - 1] == c {
            return Some(n - 1);
        }
        assert(s@.take(n as int).drop_last() =~= s@.take(n - 1));
        n -= 1;
    }
    None
}

/// Whether two texts are equal once their ASCII capitals are in lower case.
pub open spec fn same_ignoring_case(a: Seq<char>, b: Seq<char>) -> bool {
    lowered(a) == lowered(b)
}

/// Whether two texts are equal up to the case of ASCII letters.
pub fn chars_eq_ignoring_case(a: &[char], b: &[char]) -> (r: bool)
    ensures
        r == same_ignoring_case(a@, b@),
{
    let a = lower_chars(a);
    let b = lower_chars(b);
    chars_eq(a.as_slice(), b.as_slice())
}

// ---------------------------------------------------------------------------
// What the operations are for
// ---------------------------------------------------------------------------

/// Pieces with a separator between them.
pub open spec fn joined<T>(parts: Seq<Seq<T>>, sep: Seq<T>) -> Seq<T>
    decreases parts.len(),
{
    if parts.len() == 0 {
        Seq::empty()
    } else if parts.len() == 1 {
        parts[0]
    } else {
        parts[0] + sep + joined(parts.drop_first(), sep)
    }
}

/// A separator that ends in something that it holds nowhere else.
pub open spec fn is_separator<T>(sep: Seq<T>) -> bool {
    sep.len() > 0 && forall|j: int| 0 <= j < sep.len() - 1 ==> sep[j] != sep.last()
}

proof fn lemma_first_separator<T>(part: Seq<T>, sep: Seq<T>, rest: Seq<T>, i: int)
    requires
        is_separator(sep),
        !part.contains(sep.last()),
        0 <= i <= part.len(),
    ensures
        find_from(part + sep + rest, sep, i) == Some(part.len() as int),
    decreases part.len() - i,
{
    let s = part + sep + rest;
    if i == part.len() {
        assert(s.subrange(i, i + sep.len()) =~= sep);
    } else {
        if occurs_at(s, sep, i) {
            let j = i + sep.len() - 1;
            assert(s.subrange(i, i + sep.len())[sep.len() - 1] == s[j]);
            if j < part.len() {
                assert(part[j] == sep.last());
            } else {
                assert(s[j] == sep[j - part.len()]);
            }
        }
        lemma_first_separator(part, sep, rest, i + 1);
    }
}

proof fn lemma_no_separator<T>(part: Seq<T>, sep: Seq<T>)
    requires
        is_separator(sep),
        !part.contains(sep.last()),
    ensures
        find_from(part, sep, 0) is None,
{
    lemma_find_from(part, sep, 0);
    if let Some(k) = find_from(part, sep, 0) {
        assert(part.subrange(k, k + sep.len())[sep.len() - 1] == part[k + sep.len() - 1]);
    }
}

/// Pieces that were joined are the pieces that come out when the text is split.
pub proof fn splitting_undoes_joining<T>(parts: Seq<Seq<T>>, sep: Seq<T>)
    requires
        parts.len() > 0,
        is_separator(sep),
        forall|i: int| 0 <= i < parts.len() ==> !(#[trigger] parts[i]).contains(sep.last()),
    ensures
        split_at_each(joined(parts, sep), sep) == parts,
    decreases parts.len(),
{
    if parts.len() == 1 {
        lemma_no_separator(parts[0], sep);
        assert(seq![parts[0]] =~= parts);
    } else {
        let rest = parts.drop_first();
        let tail = joined(rest, sep);
        let s = parts[0] + sep + tail;
        assert forall|i: int| 0 <= i < rest.len() implies !(#[trigger] rest[i]).contains(
            sep.last(),
        ) by {
            assert(rest[i] == parts[i + 1]);
        }
        lemma_first_separator(parts[0], sep, tail, 0);
        let k = parts[0].len() as int;
        assert(s.take(k) =~= parts[0]);
        assert(s.skip(k + sep.len()) =~= tail);
        splitting_undoes_joining(rest, sep);
        assert(seq![parts[0]] + rest =~= parts);
    }
}

/// What is found in a text is found where it stands first.
pub proof fn separator_is_found_first<T>(part: Seq<T>, sep: Seq<T>, rest: Seq<T>)
    requires
        is_separator(sep),
        !part.contains(sep.last()),
    ensures
        find_from(part + sep + rest, sep, 0) == Some(part.len() as int),
        find_from(part, sep, 0) is None,
{
    lemma_first_separator(part, sep, rest, 0);
    lemma_no_separator(part, sep);
}

/// Lower case is the same text with each of the 26 ASCII capitals replaced by the
/// letter 32 further on.
pub proof fn lowering_changes_capitals_only(s: Seq<char>, i: int)
    requires
        0 <= i < s.len(),
    ensures
        lowered(s).len() == s.len(),
        65 <= s[i] as u32 <= 90 ==> lowered(s)[i] as u32 == s[i] as u32 + 32,
        !(65 <= s[i] as u32 <= 90) ==> lowered(s)[i] == s[i],
{
}

pub proof fn lemma_trimmed_start(pad: Seq<char>, core: Seq<char>, drop: spec_fn(char) -> bool)
    requires
        forall|i: int| 0 <= i < pad.len() ==> drop(#[trigger] pad[i]),
        core.len() > 0 ==> !drop(core[0]),
    ensures
        trimmed_start(pad + core, drop) == core,
    decreases pad.len(),
{
    if pad.len() > 0 {
        assert((pad + core)[0] == pad[0]);
        assert((pad + core).drop_first() =~= pad.drop_first() + core);
        lemma_trimmed_start(pad.drop_first(), core, drop);
    } else {
        assert(pad + core =~= core);
    }
}

pub proof fn lemma_trimmed_end(core: Seq<char>, pad: Seq<char>, drop: spec_fn(char) -> bool)
    requires
        forall|i: int| 0 <= i < pad.len() ==> drop(#[trigger] pad[i]),
        core.len() > 0 ==> !drop(core.last()),
    ensures
        trimmed_end(core + pad, drop) == core,
    decreases pad.len(),
{
    if pad.len() > 0 {
        assert((core + pad).last() == pad.last());
        assert((core + pad).drop_last() =~= core + pad.drop_last());
        lemma_trimmed_end(core, pad.drop_last(), drop);
    } else {
        assert(core + pad =~= core);
    }
}

/// A text is white space alone.
pub open spec fn is_blank(s: Seq<char>) -> bool {
    forall|i: int| 0 <= i < s.len() ==> has_white_space(#[trigger] s[i])
}

/// Without the white space around it, a text is what stands between.
pub proof fn trimming_leaves_the_core(before: Seq<char>, core: Seq<char>, behind: Seq<char>)
    requires
        is_blank(before),
        is_blank(behind),
        core.len() > 0 ==> !has_white_space(core[0]) && !has_white_space(core.last()),
    ensures
        trimmed(before + core + behind) == core,
{
    let drop = |c: char| has_white_space(c);
    if core.len() > 0 {
        assert((core + behind)[0] == core[0]);
        assert(before + core + behind =~= before + (core + behind));
        lemma_trimmed_start(before, core + behind, drop);
        lemma_trimmed_end(core, behind, drop);
    } else {
        let pad = before + behind;
        assert(before + core + behind =~= pad + core);
        lemma_trimmed_start(pad, core, drop);
        lemma_trimmed_end(core, Seq::empty(), drop);
        assert(core + Seq::<char>::empty() =~= core);
    }
}

/// Two texts that differ in the case of ASCII letters alone.
pub open spec fn differ_in_case_alone(a: Seq<char>, b: Seq<char>) -> bool {
    &&& a.len() == b.len()
    &&& forall|i: int|
        #![trigger a[i]]
        #![trigger b[i]]
        0 <= i < a.len() ==> a[i] == b[i] || (65 <= a[i] as u32 <= 90 && b[i] as u32 == a[i] as u32
            + 32) || (65 <= b[i] as u32 <= 90 && a[i] as u32 == b[i] as u32 + 32)
}

/// Texts are the same ignoring case exactly when they differ in the case of ASCII
/// letters alone.
pub proof fn case_is_ignored(a: Seq<char>, b: Seq<char>)
    ensures
        same_ignoring_case(a, b) <==> differ_in_case_alone(a, b),
{
    if differ_in_case_alone(a, b) {
        assert(lowered(a) =~= lowered(b));
    }
    if same_ignoring_case(a, b) {
        assert(lowered(a).len() == lowered(b).len());
        assert forall|i: int|
            #![trigger a[i]]
            #![trigger b[i]]
            0 <= i < a.len() implies a[i] == b[i] || (65 <= a[i] as u32 <= 90 && b[i] as u32 == a[i] as u32
            + 32) || (65 <= b[i] as u32 <= 90 && a[i] as u32 == b[i] as u32 + 32) by {
            assert(lowered(a)[i] == lowered(b)[i]);
            assert(lowered(a)[i] == lower(a[i]));
            assert(lowered(b)[i] == lower(b[i]));
        }
    }
}

} // verus!
