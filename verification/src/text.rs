//! Strings as sequences of characters, and the operations the server needs on
//! them: comparing, searching, trimming, splitting, and decimal and
//! hexadecimal numerals.

use vstd::prelude::*;
use vstd::string::*;
use vstd::utf8::*;

verus! {

// ---------------------------------------------------------------------------
// Standard-library strings
// ---------------------------------------------------------------------------

/// `String::push` appends the given character to the end of the string.
pub assume_specification[ String::push ](s: &mut String, c: char)
    ensures
        final(s)@ == old(s)@.push(c),
;

/// Name for what `str::to_lowercase` makes of a text: the Unicode lowercase
/// mapping of the whole string.
pub uninterp spec fn lowercase(s: Seq<char>) -> Seq<char>;

/// Name for what `str::to_uppercase` makes of a text: the Unicode uppercase
/// mapping of the whole string.
pub uninterp spec fn uppercase(s: Seq<char>) -> Seq<char>;

/// Name for what `String::from_utf8_lossy` makes of a byte string.
pub uninterp spec fn utf8_lossy(bytes: Seq<u8>) -> Seq<char>;

/// Calls `str::to_lowercase`. The result is named by [`lowercase`]; of a text
/// in ASCII, and of the characters in ASCII that a text begins with, it is stated
/// outright: `A` to `Z` become `a` to `z`, and all else stays.
#[verifier::external_body]
fn to_lower(s: &str) -> (r: String)
    ensures
        r@ == lowercase(s@),
        is_ascii_chars(s@) ==> r@ == ascii_lower(s@),
        forall|k: int|
            0 <= k <= s@.len() && is_ascii_chars(#[trigger] s@.take(k)) ==> k <= r@.len()
                && r@.take(k) == ascii_lower(s@.take(k)),
{
    s.to_lowercase()
}

/// Calls `str::to_uppercase`. The result is named by [`uppercase`]; of a text
/// in ASCII it is stated outright: `a` to `z` become `A` to `Z`, and all else
/// stays.
#[verifier::external_body]
fn to_upper(s: &str) -> (r: String)
    ensures
        r@ == uppercase(s@),
        is_ascii_chars(s@) ==> r@ == ascii_upper(s@),
{
    s.to_uppercase()
}

/// Calls `core::str::from_utf8`: a byte string that is well-formed UTF-8 is
/// the encoding of exactly one text, and any other is refused.
#[verifier::external_body]
pub(crate) fn utf8_text(bytes: &[u8]) -> (r: Option<&str>)
    ensures
        r is Some <==> valid_utf8(bytes@),
        r matches Some(s) ==> s@ == decode_utf8(bytes@),
{
    core::str::from_utf8(bytes).ok()
}

/// Calls `String::from_utf8_lossy`. The result is named by [`utf8_lossy`]; a
/// byte string that is well-formed UTF-8 is decoded as it stands, since there
/// is nothing to replace in it.
#[verifier::external_body]
fn utf8_text_lossy(bytes: &[u8]) -> (r: String)
    ensures
        r@ == utf8_lossy(bytes@),
        valid_utf8(bytes@) ==> r@ == decode_utf8(bytes@),
{
    String::from_utf8_lossy(bytes).into_owned()
}

/// How many characters in ASCII a text begins with.
pub open spec fn ascii_len(s: Seq<char>) -> int
    decreases s.len(),
{
    if s.len() == 0 || !('\0' <= s[0] <= '\u{7f}') {
        0
    } else {
        1 + ascii_len(s.drop_first())
    }
}

/// The lowercase of a text: spelled out for ASCII, and named from the first
/// character beyond it on.
pub open spec fn lower(s: Seq<char>) -> Seq<char> {
    if is_ascii_chars(s) {
        ascii_lower(s)
    } else {
        ascii_lower(s.take(ascii_len(s))) + lowercase(s).skip(ascii_len(s))
    }
}

proof fn lemma_ascii_len(s: Seq<char>, k: int)
    requires
        0 <= k <= s.len(),
        is_ascii_chars(s.take(k)),
    ensures
        k <= ascii_len(s) <= s.len(),
        is_ascii_chars(s.take(ascii_len(s))),
    decreases s.len(),
{
    if s.len() > 0 {
        if k > 0 {
            assert(s.take(k)[0] == s[0]);
        }
        if '\0' <= s[0] <= '\u{7f}' {
            let rest = s.drop_first();
            let j = if k > 0 {
                k - 1
            } else {
                0
            };
            assert forall|i: int| 0 <= i < j implies '\0' <= #[trigger] rest.take(j)[i]
                <= '\u{7f}' by {
                assert(rest.take(j)[i] == s.take(k)[i + 1]);
            }
            lemma_ascii_len(rest, j);
            let n = ascii_len(s);
            assert forall|i: int| 0 <= i < n implies '\0' <= #[trigger] s.take(n)[i]
                <= '\u{7f}' by {
                if i > 0 {
                    assert(n - 1 == ascii_len(rest));
                    assert(s.take(n)[i] == rest.take(ascii_len(rest))[i - 1]);
                } else {
                    assert(s.take(n)[0] == s[0]);
                }
            }
        }
    }
}

/// The lowercase of a text begins with that of the characters in ASCII it begins
/// with.
pub proof fn lemma_lower_start(s: Seq<char>, k: int)
    requires
        0 <= k <= s.len(),
        is_ascii_chars(s.take(k)),
    ensures
        k <= lower(s).len(),
        lower(s).take(k) == ascii_lower(s.take(k)),
{
    lemma_ascii_len(s, k);
    assert(lower(s).take(k) =~= ascii_lower(s.take(k)));
}

/// The uppercase of a text: spelled out for ASCII, and named beyond it.
pub open spec fn upper(s: Seq<char>) -> Seq<char> {
    if is_ascii_chars(s) {
        ascii_upper(s)
    } else {
        uppercase(s)
    }
}

/// The text that bytes are read as: what they encode where they are
/// well-formed UTF-8, and the named repair of it where they are not.
pub open spec fn decoded(bytes: Seq<u8>) -> Seq<char> {
    if valid_utf8(bytes) {
        decode_utf8(bytes)
    } else {
        utf8_lossy(bytes)
    }
}

/// The lowercase of a string.
pub fn lower_text(s: &str) -> (r: String)
    ensures
        r@ == lower(s@),
{
    let r = to_lower(s);
    proof {
        assert(is_ascii_chars(s@.take(0)));
        lemma_ascii_len(s@, 0);
        let n = ascii_len(s@);
        assert(r@ =~= r@.take(n) + r@.skip(n));
    }
    r
}

/// The uppercase of a string.
pub fn upper_text(s: &str) -> (r: String)
    ensures
        r@ == upper(s@),
{
    to_upper(s)
}

/// The string that bytes are read as.
pub fn decoded_text(bytes: &[u8]) -> (r: String)
    ensures
        r@ == decoded(bytes@),
{
    utf8_text_lossy(bytes)
}

// ---------------------------------------------------------------------------
// Whole strings
// ---------------------------------------------------------------------------

/// The characters of a string, in order.
pub fn chars_of(s: &str) -> (v: Vec<char>)
    ensures
        v@ == s@,
{
    let mut v: Vec<char> = Vec::new();
    for c in it: s.chars()
        invariant
            v@ == s@.take(it.index()),
            it.seq() == s@,
    {
        v.push(c);
    }
    v
}

/// The string made of the given characters.
pub fn from_chars(v: &[char]) -> (s: String)
    ensures
        s@ == v@,
{
    let mut s = String::new();
    let mut i: usize = 0;
    while i < v.len()
        invariant
            i <= v@.len(),
            s@ == v@.take(i as int),
        decreases v@.len() - i,
    {
        s.push(v[i]);
        i = i + 1;
    }
    assert(v@.take(v@.len() as int) == v@);
    s
}

/// A copy of a string slice.
pub fn owned(s: &str) -> (r: String)
    ensures
        r@ == s@,
{
    s.to_string()
}

/// Appends bytes to a vector.
pub fn extend(v: &mut Vec<u8>, more: &[u8])
    ensures
        final(v)@ == old(v)@ + more@,
{
    let ghost before = v@;
    v.extend_from_slice(more);
    assert(v@ =~= before + more@);
}

/// One string behind another.
pub fn joined(a: &str, b: &str) -> (r: String)
    ensures
        r@ == a@ + b@,
{
    let mut r = a.to_string();
    r.append(b);
    r
}

/// Two strings are equal exactly when their encodings are.
pub proof fn lemma_same_bytes(a: Seq<char>, b: Seq<char>)
    ensures
        encode_utf8(a) == encode_utf8(b) <==> a == b,
{
    encode_utf8_decode_utf8(a);
    encode_utf8_decode_utf8(b);
}

/// Whether two byte strings are equal.
pub fn same_bytes(a: &[u8], b: &[u8]) -> (r: bool)
    ensures
        r == (a@ == b@),
{
    if a.len() != b.len() {
        return false;
    }
    let mut i: usize = 0;
    while i < a.len()
        invariant
            i <= a@.len(),
            a@.len() == b@.len(),
            forall|j: int| 0 <= j < i ==> a@[j] == b@[j],
        decreases a@.len() - i,
    {
        if a[i] != b[i] {
            return false;
        }
        i = i + 1;
    }
    assert(a@ =~= b@);
    true
}

/// Whether two strings are equal.
pub fn same(a: &str, b: &str) -> (r: bool)
    ensures
        r == (a@ == b@),
{
    proof {
        lemma_same_bytes(a@, b@);
    }
    same_bytes(a.as_bytes(), b.as_bytes())
}

// ---------------------------------------------------------------------------
// Characters
// ---------------------------------------------------------------------------

/// The characters with the Unicode property `White_Space`.
pub open spec fn is_white(c: char) -> bool {
    ||| '\u{9}' <= c <= '\u{d}'
    ||| c == ' '
    ||| c == '\u{85}'
    ||| c == '\u{a0}'
    ||| c == '\u{1680}'
    ||| '\u{2000}' <= c <= '\u{200a}'
    ||| c == '\u{2028}'
    ||| c == '\u{2029}'
    ||| c == '\u{202f}'
    ||| c == '\u{205f}'
    ||| c == '\u{3000}'
}

/// Whether a character is white space.
pub fn white(c: char) -> (r: bool)
    ensures
        r == is_white(c),
{
    ('\u{9}' <= c && c <= '\u{d}') || c == ' ' || c == '\u{85}' || c == '\u{a0}' || c == '\u{1680}'
        || ('\u{2000}' <= c && c <= '\u{200a}') || c == '\u{2028}' || c == '\u{2029}'
        || c == '\u{202f}' || c == '\u{205f}' || c == '\u{3000}'
}

/// An ASCII capital becomes the small letter; every other character stays.
pub open spec fn ascii_lower_char(c: char) -> char {
    if 'A' <= c <= 'Z' {
        (c as u32 + 32) as u32 as char
    } else {
        c
    }
}

/// An ASCII small letter becomes the capital; every other character stays.
pub open spec fn ascii_upper_char(c: char) -> char {
    if 'a' <= c <= 'z' {
        (c as u32 - 32) as u32 as char
    } else {
        c
    }
}

/// A text with its ASCII capitals made small.
pub open spec fn ascii_lower(s: Seq<char>) -> Seq<char> {
    s.map_values(|c: char| ascii_lower_char(c))
}

/// A text with its ASCII small letters made capitals.
pub open spec fn ascii_upper(s: Seq<char>) -> Seq<char> {
    s.map_values(|c: char| ascii_upper_char(c))
}

/// The small letter of an ASCII capital.
pub fn ascii_lower_of(c: char) -> (r: char)
    ensures
        r == ascii_lower_char(c),
{
    if 'A' <= c && c <= 'Z' {
        (c as u8 + 32u8) as char
    } else {
        c
    }
}

/// Whether two texts are equal but for the case of ASCII letters.
pub open spec fn equal_ignoring_case(a: Seq<char>, b: Seq<char>) -> bool {
    ascii_lower(a) == ascii_lower(b)
}

/// Decides [`equal_ignoring_case`].
pub fn eq_ignore_case(a: &str, b: &str) -> (r: bool)
    ensures
        r == equal_ignoring_case(a@, b@),
{
    let x = chars_of(a);
    let y = chars_of(b);
    if x.len() != y.len() {
        proof {
            assert(ascii_lower(a@).len() != ascii_lower(b@).len());
        }
        return false;
    }
    let mut i: usize = 0;
    while i < x.len()
        invariant
            i <= x@.len(),
            x@.len() == y@.len(),
            x@ == a@,
            y@ == b@,
            forall|j: int| 0 <= j < i ==> ascii_lower_char(x@[j]) == ascii_lower_char(y@[j]),
        decreases x@.len() - i,
    {
        if ascii_lower_of(x[i]) != ascii_lower_of(y[i]) {
            proof {
                assert(ascii_lower(a@)[i as int] != ascii_lower(b@)[i as int]);
            }
            return false;
        }
        i = i + 1;
    }
    proof {
        assert(ascii_lower(a@) =~= ascii_lower(b@));
    }
    true
}

// ---------------------------------------------------------------------------
// Searching
// ---------------------------------------------------------------------------

/// The position of the first `x` in `s`, or the length of `s` when there is none.
pub open spec fn index_of<T>(s: Seq<T>, x: T) -> int
    decreases s.len(),
{
    if s.len() == 0 {
        0
    } else if s[0] == x {
        0
    } else {
        1 + index_of(s.drop_first(), x)
    }
}

/// [`index_of`] is where the first `x` stands, if there is one.
pub proof fn lemma_index_of<T>(s: Seq<T>, x: T)
    ensures
        0 <= index_of(s, x) <= s.len(),
        index_of(s, x) < s.len() ==> s[index_of(s, x)] == x,
        forall|j: int| 0 <= j < index_of(s, x) ==> s[j] != x,
        index_of(s, x) < s.len() <==> s.contains(x),
    decreases s.len(),
{
    if s.len() > 0 && s[0] != x {
        let rest = s.drop_first();
        lemma_index_of(rest, x);
        assert forall|j: int| 0 <= j < index_of(s, x) implies s[j] != x by {
            if j > 0 {
                assert(rest[j - 1] == s[j]);
            }
        }
        if s.contains(x) {
            let j = choose|j: int| 0 <= j < s.len() && s[j] == x;
            assert(rest[j - 1] == x);
        }
    }
}

/// A position that holds the first `x` is [`index_of`].
pub proof fn lemma_index_of_is<T>(s: Seq<T>, x: T, i: int)
    requires
        0 <= i <= s.len(),
        i < s.len() ==> s[i] == x,
        forall|j: int| 0 <= j < i ==> s[j] != x,
    ensures
        index_of(s, x) == i,
{
    lemma_index_of(s, x);
}

/// The position of the first `c`, or the length.
pub fn find_char(s: &[char], c: char) -> (i: usize)
    ensures
        i == index_of(s@, c),
        i <= s@.len(),
{
    let mut i: usize = 0;
    while i < s.len()
        invariant
            i <= s@.len(),
            forall|j: int| 0 <= j < i ==> s@[j] != c,
        decreases s@.len() - i,
    {
        if s[i] == c {
            proof {
                lemma_index_of_is(s@, c, i as int);
            }
            return i;
        }
        i = i + 1;
    }
    proof {
        lemma_index_of_is(s@, c, i as int);
    }
    i
}

/// The position just behind the last `x` in `s`, or zero when there is none.
pub open spec fn after_last<T>(s: Seq<T>, x: T) -> int
    decreases s.len(),
{
    if s.len() == 0 {
        0
    } else if s.last() == x {
        s.len() as int
    } else {
        after_last(s.drop_last(), x)
    }
}

/// [`after_last`] is the position behind the last `x`, if there is one.
pub proof fn lemma_after_last<T>(s: Seq<T>, x: T)
    ensures
        0 <= after_last(s, x) <= s.len(),
        after_last(s, x) > 0 ==> s[after_last(s, x) - 1] == x,
        forall|j: int| after_last(s, x) <= j < s.len() ==> s[j] != x,
    decreases s.len(),
{
    if s.len() > 0 && s.last() != x {
        lemma_after_last(s.drop_last(), x);
        assert forall|j: int| after_last(s, x) <= j < s.len() implies s[j] != x by {
            if j < s.len() - 1 {
                assert(s.drop_last()[j] == s[j]);
            }
        }
    }
}

/// The position just behind the last `c`, or zero.
pub fn find_after_last(s: &[char], c: char) -> (i: usize)
    ensures
        i == after_last(s@, c),
        i <= s@.len(),
{
    let mut i: usize = s.len();
    assert(s@.take(i as int) == s@);
    while i > 0
        invariant
            i <= s@.len(),
            after_last(s@, c) == after_last(s@.take(i as int), c),
        decreases i,
    {
        proof {
            assert(s@.take(i as int).last() == s@[i - 1]);
            assert(s@.take(i as int).drop_last() == s@.take(i - 1));
            lemma_after_last(s@, c);
        }
        if s[i - 1] == c {
            return i;
        }
        i = i - 1;
    }
    i
}

/// Whether `s` begins with `p`.
pub open spec fn starts_with<T>(s: Seq<T>, p: Seq<T>) -> bool {
    p.len() <= s.len() && s.take(p.len() as int) == p
}

/// Whether `s` ends with `p`.
pub open spec fn ends_with<T>(s: Seq<T>, p: Seq<T>) -> bool {
    p.len() <= s.len() && s.skip(s.len() - p.len()) == p
}

/// Whether `p` stands in `s` at position `i`.
pub open spec fn match_at<T>(s: Seq<T>, p: Seq<T>, i: int) -> bool {
    0 <= i && i + p.len() <= s.len() && s.subrange(i, i + p.len()) == p
}

/// The first position from `from` on at which `p` stands in `s`.
pub open spec fn find_seq<T>(s: Seq<T>, p: Seq<T>, from: int) -> Option<int>
    decreases s.len() + 1 - from,
{
    if from < 0 || from + p.len() > s.len() {
        None
    } else if match_at(s, p, from) {
        Some(from)
    } else {
        find_seq(s, p, from + 1)
    }
}

/// [`find_seq`] is the least match from `from` on, if there is any.
pub proof fn lemma_find_seq<T>(s: Seq<T>, p: Seq<T>, from: int)
    requires
        0 <= from,
    ensures
        find_seq(s, p, from) matches Some(i) ==> from <= i && match_at(s, p, i) && forall|j: int|
            from <= j < i ==> !#[trigger] match_at(s, p, j),
        find_seq(s, p, from) is None ==> forall|j: int| from <= j ==> !#[trigger] match_at(s, p, j),
    decreases s.len() + 1 - from,
{
    if from + p.len() <= s.len() && !match_at(s, p, from) {
        lemma_find_seq(s, p, from + 1);
    }
}

/// The least match is [`find_seq`].
pub proof fn lemma_find_seq_is<T>(s: Seq<T>, p: Seq<T>, from: int, i: int)
    requires
        0 <= from <= i,
        match_at(s, p, i),
        forall|j: int| from <= j < i ==> !#[trigger] match_at(s, p, j),
    ensures
        find_seq(s, p, from) == Some(i),
{
    lemma_find_seq(s, p, from);
}

/// Whether `p` stands somewhere in `s`.
pub open spec fn contains_seq<T>(s: Seq<T>, p: Seq<T>) -> bool {
    find_seq(s, p, 0) is Some
}

/// Whether the characters `p` stand in `s` at position `i`.
pub fn chars_match_at(s: &[char], p: &[char], i: usize) -> (r: bool)
    requires
        i + p@.len() <= s@.len(),
    ensures
        r == match_at(s@, p@, i as int),
{
    let mut j: usize = 0;
    while j < p.len()
        invariant
            j <= p@.len(),
            i + p@.len() <= s.len(),
            forall|k: int| 0 <= k < j ==> s@[i + k] == p@[k],
        decreases p@.len() - j,
    {
        if s[i + j] != p[j] {
            proof {
                assert(s@.subrange(i as int, i + p@.len())[j as int] != p@[j as int]);
            }
            return false;
        }
        j = j + 1;
    }
    proof {
        assert(s@.subrange(i as int, i + p@.len()) =~= p@);
    }
    true
}

/// Whether a string begins with another.
pub fn has_prefix(s: &str, p: &str) -> (r: bool)
    ensures
        r == starts_with(s@, p@),
{
    let a = chars_of(s);
    let b = chars_of(p);
    if b.len() > a.len() {
        return false;
    }
    proof {
        assert(s@.take(p@.len() as int) == s@.subrange(0, p@.len() as int));
    }
    chars_match_at(&a, &b, 0)
}

/// Whether a string ends with another.
pub fn has_suffix(s: &str, p: &str) -> (r: bool)
    ensures
        r == ends_with(s@, p@),
{
    let a = chars_of(s);
    let b = chars_of(p);
    if b.len() > a.len() {
        return false;
    }
    proof {
        assert(s@.skip(s@.len() - p@.len()) == s@.subrange(s@.len() - p@.len(), s@.len() as int));
    }
    chars_match_at(&a, &b, a.len() - b.len())
}

/// Whether a string stands somewhere in another.
pub fn contains_text(s: &str, p: &str) -> (r: bool)
    ensures
        r == contains_seq(s@, p@),
{
    let a = chars_of(s);
    let b = chars_of(p);
    let mut i: usize = 0;
    while i <= a.len() && b.len() <= a.len() - i
        invariant
            0 <= i <= a@.len() + 1,
            a@ == s@,
            b@ == p@,
            find_seq(s@, p@, 0) == find_seq(s@, p@, i as int),
        decreases a@.len() + 1 - i,
    {
        if chars_match_at(&a, &b, i) {
            return true;
        }
        if i == a.len() {
            proof {
                assert(s@.subrange(i as int, i as int) =~= p@);
            }
            return false;
        }
        i = i + 1;
    }
    false
}

/// The first match in a text is the first match in every longer text that it
/// begins.
pub proof fn lemma_find_seq_longer<T>(s: Seq<T>, t: Seq<T>, p: Seq<T>, from: int)
    requires
        0 <= from,
    ensures
        find_seq(s, p, from) matches Some(i) ==> find_seq(s + t, p, from) == Some(i),
{
    lemma_find_seq(s, p, from);
    if let Some(i) = find_seq(s, p, from) {
        assert((s + t).subrange(i, i + p.len()) =~= s.subrange(i, i + p.len()));
        assert forall|j: int| from <= j < i implies !#[trigger] match_at(s + t, p, j) by {
            assert(!match_at(s, p, j));
            assert((s + t).subrange(j, j + p.len()) =~= s.subrange(j, j + p.len()));
        }
        lemma_find_seq_is(s + t, p, from, i);
    }
}

/// Finding from a position on is finding in what begins there.
pub proof fn lemma_find_seq_from<T>(s: Seq<T>, p: Seq<T>, from: int)
    requires
        0 <= from <= s.len(),
    ensures
        find_seq(s, p, from) == match find_seq(s.skip(from), p, 0) {
            Some(i) => Some(from + i),
            None => None,
        },
{
    let t = s.skip(from);
    lemma_find_seq(s, p, from);
    lemma_find_seq(t, p, 0);
    assert forall|j: int| 0 <= j implies match_at(t, p, j) == #[trigger] match_at(s, p, from + j) by {
        if j + p.len() <= t.len() {
            assert(t.subrange(j, j + p.len()) =~= s.subrange(from + j, from + j + p.len()));
        }
    }
    if let Some(i) = find_seq(t, p, 0) {
        assert forall|j: int| from <= j < from + i implies !#[trigger] match_at(s, p, j) by {
            assert(match_at(t, p, j - from) == match_at(s, p, from + (j - from)));
        }
        assert(match_at(s, p, from + i));
        lemma_find_seq_is(s, p, from, from + i);
    } else if let Some(i) = find_seq(s, p, from) {
        assert(match_at(t, p, i - from) == match_at(s, p, from + (i - from)));
    }
}

/// The first position from `from` on at which the bytes `p` stand in `s`.
pub fn find_bytes(s: &[u8], p: &[u8], from: usize) -> (r: Option<usize>)
    requires
        p@.len() > 0,
        from <= s@.len(),
    ensures
        r matches Some(i) ==> find_seq(s@, p@, from as int) == Some(i as int) && i + p@.len()
            <= s.len(),
        r is None ==> find_seq(s@, p@, from as int) is None,
{
    let mut i: usize = from;
    while p.len() <= s.len() - i
        invariant
            from <= i <= s@.len(),
            p@.len() > 0,
            find_seq(s@, p@, from as int) == find_seq(s@, p@, i as int),
        decreases s@.len() - i,
    {
        let mut j: usize = 0;
        while j < p.len() && s[i + j] == p[j]
            invariant
                j <= p@.len(),
                i + p@.len() <= s.len(),
                forall|k: int| 0 <= k < j ==> s@[i + k] == p@[k],
            decreases p@.len() - j,
        {
            j = j + 1;
        }
        if j == p.len() {
            assert(s@.subrange(i as int, i + p@.len()) =~= p@);
            return Some(i);
        }
        assert(s@.subrange(i as int, i + p@.len())[j as int] != p@[j as int]);
        i = i + 1;
    }
    None
}

// ---------------------------------------------------------------------------
// Trimming and splitting
// ---------------------------------------------------------------------------

/// A text without its leading white space.
pub open spec fn trim_start(s: Seq<char>) -> Seq<char>
    decreases s.len(),
{
    if s.len() > 0 && is_white(s[0]) {
        trim_start(s.drop_first())
    } else {
        s
    }
}

/// A text without its trailing white space.
pub open spec fn trim_end(s: Seq<char>) -> Seq<char>
    decreases s.len(),
{
    if s.len() > 0 && is_white(s.last()) {
        trim_end(s.drop_last())
    } else {
        s
    }
}

/// A text without white space at either end.
pub open spec fn trim(s: Seq<char>) -> Seq<char> {
    trim_end(trim_start(s))
}

/// A string without white space at either end.
pub fn trimmed<'a>(s: &'a str) -> (r: &'a str)
    ensures
        r@ == trim(s@),
{
    let v = chars_of(s);
    let mut i: usize = 0;
    assert(s@.skip(0) == s@);
    while i < v.len() && white(v[i])
        invariant
            i <= v@.len(),
            v@ == s@,
            trim_start(s@) == trim_start(s@.skip(i as int)),
        decreases v@.len() - i,
    {
        proof {
            assert(s@.skip(i as int).drop_first() == s@.skip(i + 1));
        }
        i = i + 1;
    }
    let ghost t = s@.skip(i as int);
    let mut j: usize = v.len();
    assert(t.take(j - i) == t);
    while i < j && white(v[j - 1])
        invariant
            i <= j <= v@.len(),
            v@ == s@,
            t == s@.skip(i as int),
            trim_end(t) == trim_end(t.take(j - i)),
        decreases j,
    {
        proof {
            assert(t.take(j - i).last() == s@[j - 1]);
            assert(t.take(j - i).drop_last() == t.take(j - i - 1));
        }
        j = j - 1;
    }
    proof {
        assert(t.take(j - i) == s@.subrange(i as int, j as int));
        if i < j {
            assert(t.take(j - i).last() == s@[j - 1]);
        }
    }
    s.substring_char(i, j)
}

/// The pieces of `s` between the occurrences of `c`; there is one more piece
/// than there are occurrences.
pub open spec fn split_on(s: Seq<char>, c: char) -> Seq<Seq<char>>
    decreases s.len(),
{
    let i = index_of(s, c);
    if 0 <= i < s.len() {
        seq![s.take(i)] + split_on(s.skip(i + 1), c)
    } else {
        seq![s]
    }
}

/// The pieces of `s` between the occurrences of the text `sep`.
pub open spec fn split_at_seq(s: Seq<char>, sep: Seq<char>) -> Seq<Seq<char>>
    decreases s.len(),
{
    match find_seq(s, sep, 0) {
        Some(i) => if 0 <= i && i + sep.len() <= s.len() && sep.len() > 0 {
            seq![s.take(i)] + split_at_seq(s.skip(i + sep.len()), sep)
        } else {
            seq![s]
        },
        None => seq![s],
    }
}

/// The views of a list of string slices.
pub open spec fn str_views(v: Seq<&str>) -> Seq<Seq<char>> {
    v.map_values(|s: &str| s@)
}

/// The lines of a string whose lines end in a carriage return and a line feed.
pub fn split_crlf<'a>(s: &'a str) -> (r: Vec<&'a str>)
    ensures
        str_views(r@) == split_at_seq(s@, seq!['\r', '\n']),
        r@.len() > 0,
{
    let ghost sep = seq!['\r', '\n'];
    let v = chars_of(s);
    let mut out: Vec<&'a str> = Vec::new();
    let mut start: usize = 0;
    let mut i: usize = 0;
    proof {
        assert(s@.skip(0) == s@);
        assert(str_views(out@) + split_at_seq(s@, sep) =~= split_at_seq(s@, sep));
    }
    while i < v.len()
        invariant
            start <= i <= v@.len(),
            v@ == s@,
            sep == seq!['\r', '\n'],
            str_views(out@) + split_at_seq(s@.skip(start as int), sep) == split_at_seq(s@, sep),
            forall|j: int| 0 <= j < i - start ==> !#[trigger] match_at(
                s@.skip(start as int),
                sep,
                j,
            ),
        decreases v@.len() - i,
    {
        let ghost rest = s@.skip(start as int);
        if v[i] == '\r' && i + 1 < v.len() && v[i + 1] == '\n' {
            let ghost before = out@;
            out.push(s.substring_char(start, i));
            proof {
                assert(rest.subrange(i - start, i - start + 2) =~= sep);
                lemma_find_seq_is(rest, sep, 0, i - start);
                assert(rest.take(i - start) =~= s@.subrange(start as int, i as int));
                assert(rest.skip(i - start + 2) =~= s@.skip(i + 2));
                assert(str_views(out@) =~= str_views(before).push(rest.take(i - start)));
                assert(str_views(out@) + split_at_seq(s@.skip(i + 2), sep) =~= str_views(before) + (
                seq![rest.take(i - start)] + split_at_seq(s@.skip(i + 2), sep)));
            }
            i = i + 2;
            start = i;
        } else {
            proof {
                if match_at(rest, sep, i - start) {
                    assert(rest.subrange(i - start, i - start + 2)[0] == s@[i as int]);
                    assert(rest.subrange(i - start, i - start + 2)[1] == s@[i + 1]);
                }
            }
            i = i + 1;
        }
    }
    let ghost rest = s@.skip(start as int);
    let ghost before = out@;
    out.push(s.substring_char(start, v.len()));
    proof {
        lemma_find_seq(rest, sep, 0);
        assert(s@.subrange(start as int, s@.len() as int) =~= rest);
        assert(str_views(out@) =~= str_views(before) + seq![rest]);
    }
    out
}

/// The views of a list of strings.
pub open spec fn views(v: Seq<String>) -> Seq<Seq<char>> {
    v.map_values(|s: String| s@)
}

/// The view of an optional string.
pub open spec fn opt(o: Option<String>) -> Option<Seq<char>> {
    match o {
        Some(s) => Some(s@),
        None => None,
    }
}

/// The view of an optional string slice.
pub open spec fn opt_str(o: Option<&str>) -> Option<Seq<char>> {
    match o {
        Some(s) => Some(s@),
        None => None,
    }
}

/// The pieces of a string between the occurrences of a character.
pub fn split_text(s: &str, c: char) -> (r: Vec<String>)
    ensures
        views(r@) == split_on(s@, c),
{
    let v = chars_of(s);
    let mut out: Vec<String> = Vec::new();
    let mut start: usize = 0;
    proof {
        assert(s@.skip(0) == s@);
        assert(views(out@) + split_on(s@, c) =~= split_on(s@, c));
    }
    loop
        invariant
            start <= v@.len(),
            v@ == s@,
            views(out@) + split_on(s@.skip(start as int), c) == split_on(s@, c),
        decreases v@.len() - start,
    {
        let ghost rest = s@.skip(start as int);
        let tail: &[char] = &v[start..v.len()];
        let n: usize = find_char(tail, c);
        proof {
            assert(tail@ == rest);
            lemma_index_of(rest, c);
        }
        if n == tail.len() {
            let ghost before = out@;
            out.push(from_chars(tail));
            proof {
                assert(views(out@) =~= views(before).push(rest));
                assert(views(out@) =~= views(before) + seq![rest]);
            }
            return out;
        }
        let ghost before = out@;
        out.push(from_chars(&tail[0..n]));
        proof {
            assert(tail@.subrange(0, n as int) =~= rest.take(n as int));
            assert(views(out@) =~= views(before).push(rest.take(n as int)));
            assert(rest.skip(n + 1) =~= s@.skip(start + n + 1));
            assert(views(out@) + split_on(s@.skip(start + n + 1), c) =~= views(before) + (seq![
                rest.take(n as int),
            ] + split_on(rest.skip(n + 1), c)));
        }
        start = start + n + 1;
    }
}

/// The lines of a text: they end in a line feed, or in a carriage return and a
/// line feed. The last need not end, and is none where it is empty.
pub open spec fn text_lines(s: Seq<char>) -> Seq<Seq<char>> {
    let pieces = split_on(s, '\n');
    Seq::new(
        if pieces.last().len() == 0 {
            (pieces.len() - 1) as nat
        } else {
            pieces.len()
        },
        |i: int|
            if i < pieces.len() - 1 {
                strip_cr(pieces[i])
            } else {
                pieces[i]
            },
    )
}

/// A text without the carriage return at its end, if one is there.
pub open spec fn strip_cr(s: Seq<char>) -> Seq<char> {
    if s.len() > 0 && s.last() == '\r' {
        s.drop_last()
    } else {
        s
    }
}

/// The lines of a string.
pub fn lines_of(s: &str) -> (r: Vec<String>)
    ensures
        views(r@) == text_lines(s@),
{
    let pieces = split_text(s, '\n');
    let ghost all = views(pieces@);
    proof {
        lemma_split_on_pieces(s@, '\n');
    }
    let last: usize = pieces.len() - 1;
    assert(all[last as int] == pieces@[last as int]@);
    let count: usize = if chars_of(pieces[last].as_str()).len() == 0 {
        last
    } else {
        pieces.len()
    };
    let mut out: Vec<String> = Vec::new();
    let mut i: usize = 0;
    while i < count
        invariant
            i <= count <= pieces@.len(),
            count == text_lines(s@).len(),
            all == views(pieces@),
            all == split_on(s@, '\n'),
            views(out@) == text_lines(s@).take(i as int),
        decreases count - i,
    {
        let piece: &str = pieces[i].as_str();
        assert(all[i as int] == piece@);
        let ghost before = out@;
        if i + 1 < pieces.len() && has_suffix(piece, "\r") {
            proof {
                reveal_strlit("\r");
                assert(piece@.skip(piece@.len() - 1)[0] == piece@.last());
                assert(piece@.drop_last() =~= piece@.subrange(0, piece@.len() - 1));
            }
            let n: usize = chars_of(piece).len();
            out.push(owned(piece.substring_char(0, n - 1)));
        } else {
            proof {
                reveal_strlit("\r");
                if piece@.len() > 0 && piece@.last() == '\r' {
                    assert(piece@.skip(piece@.len() - 1) =~= "\r"@);
                }
            }
            out.push(owned(piece));
        }
        proof {
            assert(views(out@) =~= views(before).push(text_lines(s@)[i as int]));
            assert(text_lines(s@).take(i + 1) =~= text_lines(s@).take(i as int).push(
                text_lines(s@)[i as int],
            ));
        }
        i = i + 1;
    }
    assert(text_lines(s@).take(i as int) =~= text_lines(s@));
    out
}

// ---------------------------------------------------------------------------
// Numerals
// ---------------------------------------------------------------------------

/// Whether a character is a decimal digit.
pub open spec fn is_digit(c: char) -> bool {
    '0' <= c <= '9'
}

/// Whether a character is a hexadecimal digit, of either case.
pub open spec fn is_hex_digit(c: char) -> bool {
    is_digit(c) || 'a' <= c <= 'f' || 'A' <= c <= 'F'
}

/// The value of a digit.
pub open spec fn digit_value(c: char) -> nat {
    if is_digit(c) {
        (c as int - '0' as int) as nat
    } else if 'a' <= c <= 'f' {
        (c as int - 'a' as int + 10) as nat
    } else {
        (c as int - 'A' as int + 10) as nat
    }
}

/// Whether `s` consists of digits of the given base, ten or sixteen.
pub open spec fn all_digits(s: Seq<char>, base: nat) -> bool {
    forall|i: int| 0 <= i < s.len() ==> if base == 10 {
        is_digit(#[trigger] s[i])
    } else {
        is_hex_digit(s[i])
    }
}

/// The number that a string of digits writes in the given base.
pub open spec fn numeral_value(s: Seq<char>, base: nat) -> nat
    decreases s.len(),
{
    if s.len() == 0 {
        0
    } else {
        numeral_value(s.drop_last(), base) * base + digit_value(s.last())
    }
}

/// The number that a text writes in the given base: one or more digits, with
/// one plus sign allowed in front.
pub open spec fn parse_number(s: Seq<char>, base: nat) -> Option<nat> {
    let digits = if s.len() > 0 && s[0] == '+' {
        s.skip(1)
    } else {
        s
    };
    if digits.len() > 0 && all_digits(digits, base) {
        Some(numeral_value(digits, base))
    } else {
        None
    }
}

/// The number that a text writes, where it is at most `max`.
pub open spec fn parse_bounded(s: Seq<char>, base: nat, max: nat) -> Option<nat> {
    match parse_number(s, base) {
        Some(n) => if n <= max {
            Some(n)
        } else {
            None
        },
        None => None,
    }
}

/// Reads a number in base ten or sixteen, of at most `max`.
pub fn parse_unsigned(s: &str, base: u64, max: u64) -> (r: Option<u64>)
    requires
        base == 10 || base == 16,
    ensures
        r matches Some(n) ==> parse_bounded(s@, base as nat, max as nat) == Some(n as nat),
        r is None ==> parse_bounded(s@, base as nat, max as nat) is None,
{
    let v = chars_of(s);
    let start: usize = if v.len() > 0 && v[0] == '+' {
        1
    } else {
        0
    };
    if start == v.len() {
        return None;
    }
    let ghost digits = s@.skip(start as int);
    proof {
        assert(s@.skip(0) == s@);
    }
    let mut i: usize = start;
    let mut n: u64 = 0;
    let mut over: bool = false;
    while i < v.len()
        invariant
            start <= i <= v@.len(),
            v@ == s@,
            base == 10 || base == 16,
            digits == s@.skip(start as int),
            digits.len() > 0,
            parse_number(s@, base as nat) == if all_digits(digits, base as nat) {
                Some(numeral_value(digits, base as nat))
            } else {
                None::<nat>
            },
            all_digits(digits.take(i - start), base as nat),
            over ==> numeral_value(digits.take(i - start), base as nat) > max,
            !over ==> numeral_value(digits.take(i - start), base as nat) == n && n <= max,
        decreases v@.len() - i,
    {
        let c: char = v[i];
        proof {
            assert(digits[i - start] == c);
            assert(digits.take(i - start + 1).drop_last() == digits.take(i - start));
            assert(digits.take(i - start + 1).last() == c);
        }
        let d: u64 = if '0' <= c && c <= '9' {
            c as u64 - '0' as u64
        } else if base == 16 && 'a' <= c && c <= 'f' {
            c as u64 - 'a' as u64 + 10
        } else if base == 16 && 'A' <= c && c <= 'F' {
            c as u64 - 'A' as u64 + 10
        } else {
            return None;
        };
        assert(d == digit_value(c));
        let ghost before = numeral_value(digits.take(i - start), base as nat);
        assert(numeral_value(digits.take(i - start + 1), base as nat) == before * base + d);
        if over {
            assert(before * base + d > max) by (nonlinear_arith)
                requires
                    before > max,
                    base >= 10,
                    d >= 0,
            ;
        } else if d > max || n > (max - d) / base {
            over = true;
            proof {
                lemma_too_large(before, base as nat, d as nat, max as nat);
            }
        } else {
            proof {
                lemma_small_enough(before, base as nat, d as nat, max as nat);
            }
            n = n * base + d;
        }
        proof {
            assert forall|k: int| 0 <= k < digits.take(i - start + 1).len() implies if base == 10 {
                is_digit(#[trigger] digits.take(i - start + 1)[k])
            } else {
                is_hex_digit(digits.take(i - start + 1)[k])
            } by {
                if k < i - start {
                    assert(digits.take(i - start)[k] == digits.take(i - start + 1)[k]);
                }
            }
        }
        i = i + 1;
    }
    proof {
        assert(digits.take(digits.len() as int) == digits);
    }
    if over {
        None
    } else {
        Some(n)
    }
}

proof fn lemma_too_large(n: nat, base: nat, d: nat, max: nat)
    requires
        base >= 10,
        d > max || n > (max - d) / (base as int),
    ensures
        n * base + d > max,
{
    if d <= max {
        let q = (max - d) / (base as int);
        assert(n * base + d > max) by (nonlinear_arith)
            requires
                base >= 10,
                n >= q + 1,
                q == (max - d) / (base as int),
        ;
    } else {
        assert(n * base >= 0) by (nonlinear_arith);
    }
}

proof fn lemma_small_enough(n: nat, base: nat, d: nat, max: nat)
    requires
        base >= 10,
        d <= max,
        n <= (max - d) / (base as int),
    ensures
        n * base + d <= max,
        n * base <= max,
{
    let q = (max - d) / (base as int);
    assert(n * base + d <= max) by (nonlinear_arith)
        requires
            base >= 10,
            n <= q,
            q == (max - d) / (base as int),
    ;
}

/// The digit that writes a number below ten.
pub open spec fn decimal_digit(d: nat) -> char {
    ('0' as int + d) as char
}

/// The decimal numeral of a number, without leading zeros.
pub open spec fn decimal(n: nat) -> Seq<char>
    decreases n,
{
    if n < 10 {
        seq![decimal_digit(n)]
    } else {
        decimal(n / 10).push(decimal_digit(n % 10))
    }
}

/// Writes a number in decimal.
pub fn decimal_text(n: u64) -> (s: String)
    ensures
        s@ == decimal(n as nat),
    decreases n,
{
    let mut s: String = if n < 10 {
        String::new()
    } else {
        decimal_text(n / 10)
    };
    let d: u8 = (n % 10) as u8;
    s.push((48u8 + d) as char);
    proof {
        if n < 10 {
            assert(s@ =~= seq![decimal_digit(n as nat)]);
        }
    }
    s
}

/// A decimal numeral reads back as the number it writes.
pub proof fn lemma_decimal_reads_back(n: nat)
    ensures
        parse_number(decimal(n), 10) == Some(n),
        all_digits(decimal(n), 10),
        numeral_value(decimal(n), 10) == n,
        decimal(n).len() > 0,
        is_ascii_chars(decimal(n)),
    decreases n,
{
    let s = decimal(n);
    if n >= 10 {
        lemma_decimal_reads_back(n / 10);
        assert(s.drop_last() =~= decimal(n / 10));
    } else {
        assert(s.drop_last() =~= Seq::<char>::empty());
        assert(numeral_value(s.drop_last(), 10) == 0);
    }
}

/// A number in decimal, with a sign where it is negative.
pub open spec fn signed(n: int) -> Seq<char> {
    if n < 0 {
        "-"@ + decimal((-n) as nat)
    } else {
        decimal(n as nat)
    }
}

/// Writes a number in decimal, with a sign where it is negative.
pub fn signed_text(n: i32) -> (r: String)
    ensures
        r@ == signed(n as int),
{
    if n < 0 {
        joined("-", decimal_text((-(n as i64)) as u64).as_str())
    } else {
        decimal_text(n as u64)
    }
}

// ---------------------------------------------------------------------------
// Encodings
// ---------------------------------------------------------------------------

/// The encoding of a text is that of its parts, one behind the other.
pub proof fn lemma_encode_parts(a: Seq<char>, b: Seq<char>)
    ensures
        encode_utf8(a + b) == encode_utf8(a) + encode_utf8(b),
    decreases a.len(),
{
    if a.len() == 0 {
        assert(a + b =~= b);
        assert(encode_utf8(a) + encode_utf8(b) =~= encode_utf8(b));
    } else {
        lemma_encode_parts(a.drop_first(), b);
        assert((a + b).drop_first() =~= a.drop_first() + b);
        assert((a + b)[0] == a[0]);
        assert(encode_utf8(a + b) =~= encode_utf8(a) + encode_utf8(b));
    }
}

proof fn lemma_wide_bytes(c: u32)
    by (bit_vector)
    ensures
        0xC0u8 | ((c >> 6) & 0x1F) as u8 >= 0x80,
        0xE0u8 | ((c >> 12) & 0x0F) as u8 >= 0x80,
        0xF0u8 | ((c >> 18) & 0x7) as u8 >= 0x80,
        0x80u8 | (c & 0x3F) as u8 >= 0x80,
        0x80u8 | ((c >> 6) & 0x3F) as u8 >= 0x80,
        0x80u8 | ((c >> 12) & 0x3F) as u8 >= 0x80,
        c <= 0x7F ==> (c & 0x7F) == c,
{
}

/// An ASCII byte stands in the encoding of a text only for its own character.
pub proof fn lemma_encode_without(s: Seq<char>, x: char)
    requires
        x as u32 <= 0x7F,
        !s.contains(x),
    ensures
        forall|i: int| 0 <= i < encode_utf8(s).len() ==> #[trigger] encode_utf8(s)[i] != x as u8,
    decreases s.len(),
{
    if s.len() > 0 {
        let rest = s.drop_first();
        let c = s[0];
        assert(s.contains(c));
        assert forall|y: char| rest.contains(y) implies s.contains(y) by {
            let k = choose|k: int| 0 <= k < rest.len() && rest[k] == y;
            assert(s[k + 1] == y);
        }
        lemma_encode_without(rest, x);
        lemma_wide_bytes(c as u32);
        char_is_scalar(c);
        let first = encode_scalar(c as u32);
        assert forall|i: int| 0 <= i < encode_utf8(s).len() implies #[trigger] encode_utf8(s)[i]
            != x as u8 by {
            if i < first.len() {
                assert(encode_utf8(s)[i] == first[i]);
                if c as u32 == x as u32 {
                    char_u32_cast(c, c as u32);
                    char_u32_cast(x, x as u32);
                }
            } else {
                assert(encode_utf8(s)[i] == encode_utf8(rest)[i - first.len()]);
            }
        }
    }
}

// ---------------------------------------------------------------------------
// Laws
// ---------------------------------------------------------------------------

/// There is always a piece, and no piece holds what the text is cut at.
pub proof fn lemma_split_on_pieces(s: Seq<char>, c: char)
    ensures
        split_on(s, c).len() > 0,
        forall|i: int| 0 <= i < split_on(s, c).len() ==> !(#[trigger] split_on(s, c)[i]).contains(c),
    decreases s.len(),
{
    let i = index_of(s, c);
    lemma_index_of(s, c);
    if i < s.len() {
        let rest = s.skip(i + 1);
        lemma_split_on_pieces(rest, c);
        let all = split_on(s, c);
        assert forall|k: int| 0 <= k < all.len() implies !(#[trigger] all[k]).contains(c) by {
            if k == 0 {
                assert(all[0] == s.take(i));
            } else {
                assert(all[k] == split_on(rest, c)[k - 1]);
            }
        }
    }
}

/// A text is one piece where it does not hold what it is cut at; and two texts
/// with that between them have the pieces of the one and then of the other.
pub proof fn lemma_split_on_parts(a: Seq<char>, c: char, b: Seq<char>)
    ensures
        !a.contains(c) ==> split_on(a, c) == seq![a],
        split_on(a + seq![c] + b, c) == split_on(a, c) + split_on(b, c),
    decreases a.len(),
{
    let s = a + seq![c] + b;
    lemma_index_of(a, c);
    let i = index_of(a, c);
    if i < a.len() {
        let rest = a.skip(i + 1);
        lemma_split_on_parts(rest, c, b);
        assert forall|j: int| 0 <= j < i implies s[j] != c by {
            assert(s[j] == a[j]);
        }
        lemma_index_of_is(s, c, i);
        assert(s.take(i) =~= a.take(i));
        assert(s.skip(i + 1) =~= rest + seq![c] + b);
        assert(split_on(s, c) =~= split_on(a, c) + split_on(b, c));
    } else {
        assert forall|j: int| 0 <= j < a.len() implies s[j] != c by {
            assert(s[j] == a[j]);
        }
        lemma_index_of_is(s, c, a.len() as int);
        assert(s.take(a.len() as int) =~= a);
        assert(s.skip(a.len() as int + 1) =~= b);
        assert(split_on(s, c) =~= split_on(a, c) + split_on(b, c));
    }
}

/// The first line of a text is what goes before its first line feed, without a
/// carriage return there; and the others are the lines of what follows.
pub proof fn lemma_lines(a: Seq<char>, b: Seq<char>)
    requires
        !a.contains('\n'),
    ensures
        text_lines(a + seq!['\n'] + b) == seq![strip_cr(a)] + text_lines(b),
        text_lines(a + seq!['\r', '\n'] + b) == seq![a] + text_lines(b),
        a.len() > 0 ==> text_lines(a) == seq![a],
        text_lines(Seq::empty()).len() == 0,
{
    lemma_split_on_parts(a, '\n', b);
    lemma_split_on_pieces(b, '\n');
    assert(text_lines(a + seq!['\n'] + b) =~= seq![strip_cr(a)] + text_lines(b));
    let r = a + seq!['\r'];
    if r.contains('\n') {
        let j = choose|j: int| 0 <= j < r.len() && r[j] == '\n';
        assert(a[j] == '\n');
    }
    lemma_split_on_parts(r, '\n', b);
    assert(r + seq!['\n'] + b =~= a + seq!['\r', '\n'] + b);
    assert(r.drop_last() =~= a);
    assert(text_lines(r + seq!['\n'] + b) =~= seq![a] + text_lines(b));
    if a.len() > 0 {
        assert(text_lines(a) =~= seq![a]);
    }
    let e = Seq::<char>::empty();
    lemma_split_on_parts(e, '\n', e);
    assert(!e.contains('\n'));
    assert(split_on(e, '\n') =~= seq![e]);
}

/// Whether a text is white space throughout.
pub open spec fn all_white(s: Seq<char>) -> bool {
    forall|i: int| 0 <= i < s.len() ==> is_white(#[trigger] s[i])
}

/// What is left of a text, once it is trimmed, is the text without the white
/// space around it.
pub proof fn lemma_trimmed(before: Seq<char>, s: Seq<char>, after: Seq<char>)
    requires
        all_white(before),
        all_white(after),
        s.len() > 0 ==> !is_white(s[0]) && !is_white(s.last()),
    ensures
        trim(before + s + after) == s,
    decreases before.len() + after.len(),
{
    let t = before + s + after;
    if before.len() > 0 {
        let less = before.drop_first();
        assert forall|i: int| 0 <= i < less.len() implies is_white(#[trigger] less[i]) by {
            assert(less[i] == before[i + 1]);
        }
        lemma_trimmed(less, s, after);
        assert(t[0] == before[0]);
        assert(t.drop_first() =~= less + s + after);
    } else if s.len() == 0 {
        if after.len() > 0 {
            let less = after.drop_last();
            assert forall|i: int| 0 <= i < less.len() implies is_white(#[trigger] less[i]) by {
                assert(less[i] == after[i]);
            }
            lemma_all_white_trimmed(t);
        } else {
            assert(t =~= s);
        }
        assert(trim(t) =~= s);
    } else {
        assert(t[0] == s[0]);
        assert(trim_start(t) == t);
        lemma_trim_end_white(s, after);
        assert(t =~= s + after);
    }
}

proof fn lemma_all_white_trimmed(t: Seq<char>)
    requires
        all_white(t),
    ensures
        trim_start(t).len() == 0,
    decreases t.len(),
{
    if t.len() > 0 {
        let less = t.drop_first();
        assert forall|i: int| 0 <= i < less.len() implies is_white(#[trigger] less[i]) by {
            assert(less[i] == t[i + 1]);
        }
        assert(is_white(t[0]));
        lemma_all_white_trimmed(less);
    }
}

proof fn lemma_trim_end_white(s: Seq<char>, after: Seq<char>)
    requires
        all_white(after),
        s.len() > 0,
        !is_white(s.last()),
    ensures
        trim_end(s + after) == s,
    decreases after.len(),
{
    let t = s + after;
    if after.len() > 0 {
        let less = after.drop_last();
        assert forall|i: int| 0 <= i < less.len() implies is_white(#[trigger] less[i]) by {
            assert(less[i] == after[i]);
        }
        lemma_trim_end_white(s, less);
        assert(t.last() == after.last());
        assert(is_white(after[after.len() - 1]));
        assert(t.drop_last() =~= s + less);
    } else {
        assert(t =~= s);
    }
}

/// A text begins with another exactly where it is the other and then something,
/// ends with it exactly where it is something and then the other, and holds it
/// exactly where it stands between two texts.
pub proof fn lemma_starts_and_ends<T>(s: Seq<T>, p: Seq<T>)
    ensures
        forall|r: Seq<T>| starts_with(#[trigger] (p + r), p),
        forall|r: Seq<T>| ends_with(#[trigger] (r + p), p),
        starts_with(s, p) ==> s == p + s.skip(p.len() as int),
        ends_with(s, p) ==> s == s.take(s.len() - p.len()) + p,
        !starts_with(s, p) ==> forall|r: Seq<T>| s != #[trigger] (p + r),
        !ends_with(s, p) ==> forall|r: Seq<T>| s != #[trigger] (r + p),
{
    assert forall|r: Seq<T>| starts_with(#[trigger] (p + r), p) by {
        assert((p + r).take(p.len() as int) =~= p);
    }
    assert forall|r: Seq<T>| ends_with(#[trigger] (r + p), p) by {
        assert((r + p).skip(r.len() as int) =~= p);
    }
    if starts_with(s, p) {
        assert(s =~= s.take(p.len() as int) + s.skip(p.len() as int));
    }
    if ends_with(s, p) {
        assert(s =~= s.take(s.len() - p.len()) + s.skip(s.len() - p.len()));
    }
}

/// A text that stands between two others is held by the whole; and where a text
/// holds another, it stands at some place in it.
pub proof fn lemma_contains<T>(a: Seq<T>, p: Seq<T>, b: Seq<T>, s: Seq<T>)
    ensures
        contains_seq(a + p + b, p),
        contains_seq(s, p) ==> exists|i: int|
            0 <= i && i + p.len() <= s.len() && #[trigger] s.subrange(i, i + p.len()) == p,
{
    let t = a + p + b;
    let n = a.len() as int;
    lemma_find_seq(t, p, 0);
    assert(t.subrange(n, n + p.len()) =~= p);
    assert(match_at(t, p, n));
    lemma_find_seq(s, p, 0);
    if contains_seq(s, p) {
        let i = find_seq(s, p, 0)->0;
        assert(s.subrange(i, i + p.len()) == p);
    }
}

/// Texts are equal but for the case of ASCII letters exactly where they are as
/// long as each other, and each character is the other's, or its capital or
/// small letter.
pub proof fn lemma_ignoring_case(a: Seq<char>, b: Seq<char>)
    ensures
        equal_ignoring_case(a, b) <==> a.len() == b.len() && forall|i: int|
            #![trigger a[i]]
            #![trigger b[i]]
            0 <= i < a.len() ==> a[i] == b[i] || ('A' <= a[i] <= 'Z' && b[i] as int == a[i] as int
                + 32) || ('A' <= b[i] <= 'Z' && a[i] as int == b[i] as int + 32),
{
    let x = ascii_lower(a);
    let y = ascii_lower(b);
    if equal_ignoring_case(a, b) {
        assert(x.len() == a.len() && y.len() == b.len());
        assert forall|i: int|
            #![trigger a[i]]
            #![trigger b[i]]
            0 <= i < a.len() implies a[i] == b[i] || ('A' <= a[i] <= 'Z' && b[i] as int
            == a[i] as int + 32) || ('A' <= b[i] <= 'Z' && a[i] as int == b[i] as int + 32) by {
            assert(x[i] == y[i]);
            assert(x[i] == ascii_lower_char(a[i]) && y[i] == ascii_lower_char(b[i]));
        }
    }
    if a.len() == b.len() && forall|i: int|
        #![trigger a[i]]
        #![trigger b[i]]
        0 <= i < a.len() ==> a[i] == b[i] || ('A' <= a[i] <= 'Z' && b[i] as int == a[i] as int + 32)
            || ('A' <= b[i] <= 'Z' && a[i] as int == b[i] as int + 32) {
        assert forall|i: int| 0 <= i < x.len() implies x[i] == y[i] by {
            assert(a[i] == b[i] || ('A' <= a[i] <= 'Z' && b[i] as int == a[i] as int + 32) || ('A'
                <= b[i] <= 'Z' && a[i] as int == b[i] as int + 32));
        }
        assert(x =~= y);
    }
}

/// A number is read where it is at most the bound, and nothing is read of a
/// larger one; a plus sign in front makes no difference, and nothing else may
/// stand there.
pub proof fn lemma_bounded(n: nat, max: nat, other: Seq<char>)
    ensures
        parse_bounded(decimal(n), 10, max) == if n <= max {
            Some(n)
        } else {
            None
        },
        parse_bounded(seq!['+'] + decimal(n), 10, max) == parse_bounded(decimal(n), 10, max),
        (other.len() > 0 && !(other[0] == '+' || '0' <= other[0] <= '9')) ==> parse_bounded(
            other,
            10,
            max,
        ) is None,
        parse_bounded(Seq::empty(), 10, max) is None,
{
    lemma_decimal_reads_back(n);
    let s = decimal(n);
    assert(is_digit(s[0]));
    assert((seq!['+'] + s).skip(1) =~= s);
    if other.len() > 0 && !(other[0] == '+' || '0' <= other[0] <= '9') {
        assert(!is_digit(other[0]));
    }
}

/// Decimal numerals have no leading zeros and are digits alone, and those of
/// different numbers differ.
pub proof fn lemma_decimal_shape(n: nat, m: nat)
    ensures
        decimal(n) == decimal(m) ==> n == m,
        forall|i: int| 0 <= i < decimal(n).len() ==> '0' <= #[trigger] decimal(n)[i] <= '9',
        n > 0 ==> decimal(n)[0] != '0',
        decimal(0) == seq!['0'],
    decreases n,
{
    lemma_decimal_reads_back(n);
    lemma_decimal_reads_back(m);
    assert forall|i: int| 0 <= i < decimal(n).len() implies '0' <= #[trigger] decimal(n)[i]
        <= '9' by {
        assert(is_digit(decimal(n)[i]));
    }
    if n >= 10 {
        lemma_decimal_shape(n / 10, m);
        lemma_decimal_reads_back(n / 10);
        assert(decimal(n)[0] == decimal(n / 10)[0]);
    }
    assert(decimal(0) =~= seq!['0']);
}

/// What begins with no white space begins with the same once it is trimmed.
pub proof fn lemma_trim_keeps_first(s: Seq<char>)
    requires
        s.len() > 0,
        !is_white(s[0]),
    ensures
        trim(s).len() > 0,
        trim(s)[0] == s[0],
    decreases s.len(),
{
    assert(trim_start(s) == s);
    if is_white(s.last()) {
        assert(s.len() > 1);
        lemma_trim_keeps_first(s.drop_last());
        assert(s.drop_last()[0] == s[0]);
        assert(trim_start(s.drop_last()) == s.drop_last());
    }
}

/// In small letters, a text holds a word that stands in it, whatever the case of
/// the letters.
pub proof fn lemma_word_held(a: Seq<char>, word: Seq<char>, b: Seq<char>, p: Seq<char>)
    requires
        is_ascii_chars(a + word + b),
        ascii_lower(word) == p,
    ensures
        contains_seq(lower(a + word + b), p),
{
    let s = a + word + b;
    assert(ascii_lower(s) =~= ascii_lower(a) + ascii_lower(word) + ascii_lower(b));
    lemma_contains(ascii_lower(a), p, ascii_lower(b), s);
}

/// What is left of a text, once it is trimmed, is empty exactly where the text is
/// white space throughout.
pub proof fn lemma_trimmed_away(s: Seq<char>)
    ensures
        trim(s).len() == 0 <==> all_white(s),
    decreases s.len(),
{
    if all_white(s) {
        lemma_all_white_trimmed(s);
    } else if is_white(s[0]) {
        let rest = s.drop_first();
        lemma_trimmed_away(rest);
        let i = choose|i: int| 0 <= i < s.len() && !is_white(#[trigger] s[i]);
        assert(rest[i - 1] == s[i]);
    } else {
        lemma_trim_keeps_first(s);
    }
}

/// The characters that are white space, by their code points.
pub proof fn lemma_white(c: char)
    ensures
        is_white(c) <==> {
            let n = c as u32;
            ||| 9 <= n <= 13
            ||| n == 32
            ||| n == 133
            ||| n == 160
            ||| n == 5760
            ||| 8192 <= n <= 8202
            ||| n == 8232
            ||| n == 8233
            ||| n == 8239
            ||| n == 8287
            ||| n == 12288
        },
{
    char_is_scalar(c);
}

/// In small letters, and in capital ones, a text in ASCII has its letters changed,
/// each at its place, and everything else stays.
pub proof fn lemma_letters(s: Seq<char>)
    requires
        is_ascii_chars(s),
    ensures
        lower(s).len() == s.len(),
        upper(s).len() == s.len(),
        forall|i: int|
            #![trigger s[i]]
            0 <= i < s.len() ==> lower(s)[i] as int == if 65 <= s[i] as int <= 90 {
                s[i] as int + 32
            } else {
                s[i] as int
            },
        forall|i: int|
            #![trigger s[i]]
            0 <= i < s.len() ==> upper(s)[i] as int == if 97 <= s[i] as int <= 122 {
                s[i] as int - 32
            } else {
                s[i] as int
            },
{
    assert forall|i: int|
        #![trigger s[i]]
        0 <= i < s.len() implies lower(s)[i] as int == if 65 <= s[i] as int <= 90 {
        s[i] as int + 32
    } else {
        s[i] as int
    } by {
        assert(lower(s)[i] == ascii_lower_char(s[i]));
    }
    assert forall|i: int|
        #![trigger s[i]]
        0 <= i < s.len() implies upper(s)[i] as int == if 97 <= s[i] as int <= 122 {
        s[i] as int - 32
    } else {
        s[i] as int
    } by {
        assert(upper(s)[i] == ascii_upper_char(s[i]));
    }
}

/// One digit more makes a numeral ten times as large, and adds the digit; zeros in
/// front make no difference.
pub proof fn lemma_numeral(s: Seq<char>, d: nat)
    requires
        d < 10,
    ensures
        numeral_value(s.push(('0' as int + d) as char), 10) == numeral_value(s, 10) * 10 + d,
        numeral_value(seq!['0'] + s, 10) == numeral_value(s, 10),
        numeral_value(Seq::<char>::empty(), 10) == 0,
    decreases s.len(),
{
    let c = ('0' as int + d) as char;
    assert(s.push(c).drop_last() =~= s);
    assert(is_digit(c));
    let z = seq!['0'] + s;
    if s.len() == 0 {
        assert(z.drop_last() =~= s);
        assert(z.last() == '0');
    } else {
        lemma_numeral(s.drop_last(), d);
        assert(z.drop_last() =~= seq!['0'] + s.drop_last());
        assert(z.last() == s.last());
    }
}

/// A text is a number only where every character of it is a digit, but for one
/// plus sign in front; and then it is read as what its digits say, where that is
/// within the bound.
pub proof fn lemma_numbers_only(s: Seq<char>, i: int, max: nat)
    ensures
        0 < i < s.len() && !('0' <= s[i] <= '9') ==> parse_bounded(s, 10, max) is None,
        parse_bounded(seq!['+'], 10, max) is None,
        s.len() > 0 && (forall|k: int| 0 <= k < s.len() ==> '0' <= #[trigger] s[k] <= '9')
            && numeral_value(s, 10) <= max ==> parse_bounded(s, 10, max) == Some(
            numeral_value(s, 10),
        ),
        s.len() > 0 && (forall|k: int| 0 <= k < s.len() ==> '0' <= #[trigger] s[k] <= '9')
            && numeral_value(s, 10) > max ==> parse_bounded(s, 10, max) is None,
{
    if 0 < i < s.len() && !('0' <= s[i] <= '9') {
        assert(!is_digit(s[i]));
        assert(s.skip(1)[i - 1] == s[i]);
        assert(!all_digits(s.skip(1), 10)) by {
            assert(!is_digit(s.skip(1)[i - 1]));
        }
        assert(!all_digits(s, 10));
    }
    assert(seq!['+'].skip(1) =~= Seq::empty());
    if s.len() > 0 && (forall|k: int| 0 <= k < s.len() ==> '0' <= #[trigger] s[k] <= '9') {
        assert('0' <= s[0] <= '9');
        assert(all_digits(s, 10));
    }
}

/// Numbers below zero have a sign in front of what they would be above it.
pub proof fn lemma_signed(n: nat)
    ensures
        signed(n as int) == decimal(n),
        n > 0 ==> signed(-(n as int)) == seq!['-'] + decimal(n),
{
    reveal_strlit("-");
    assert("-"@ =~= seq!['-']);
}

/// Bytes that encode a text are read as the text.
pub proof fn lemma_decoded(s: Seq<char>)
    ensures
        decoded(encode_utf8(s)) == s,
{
    encode_utf8_valid_utf8(s);
    encode_utf8_decode_utf8(s);
}

} // verus!
