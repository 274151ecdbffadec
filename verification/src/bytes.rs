//! Byte strings: searching, comparing, trimming and joining them, with
//! what each function does stated over `Seq<u8>`.

use vstd::prelude::*;
use vstd::slice::slice_subrange;
use vstd::string::StringSliceAdditionalSpecFns;
use vstd::utf8::{
    encode_utf8, is_leading_byte_width_1, partial_valid_utf8_extend_ascii_block, valid_utf8,
};

verus! {

/// The byte that ends a line.
pub const NEWLINE: u8 = 10;

/// The byte between the parts of a path.
pub const SLASH: u8 = 47;

/// The byte before the extension of a file name.
pub const DOT: u8 = 46;

/// The byte between the names of a list.
pub const COMMA: u8 = 44;

/// The byte between a key and its value.
pub const EQUALS: u8 = 61;

/// The byte that a section header begins with.
pub const OPEN_BRACKET: u8 = 91;

/// A single quote.
pub const QUOTE: u8 = 39;

/// The index of the first `b` in `s`, or `s.len()` where `s` holds none.
pub open spec fn first_index<T>(s: Seq<T>, b: T) -> int
    decreases s.len(),
{
    if s.len() == 0 {
        0
    } else if s[0] == b {
        0
    } else {
        1 + first_index(s.drop_first(), b)
    }
}

/// `first_index` is in range, points at a `b` unless it is `s.len()`, and
/// no `b` stands before it.
pub proof fn lemma_first_index<T>(s: Seq<T>, b: T)
    ensures
        0 <= first_index(s, b) <= s.len(),
        first_index(s, b) < s.len() ==> s[first_index(s, b)] == b,
        forall|j: int| 0 <= j < first_index(s, b) ==> s[j] != b,
    decreases s.len(),
{
    if s.len() > 0 && s[0] != b {
        let t = s.drop_first();
        lemma_first_index(t, b);
        assert forall|j: int| 0 <= j < first_index(s, b) implies s[j] != b by {
            if j > 0 {
                assert(s[j] == t[j - 1]);
            }
        }
    }
}

/// An index with the properties of `lemma_first_index` is `first_index`.
pub proof fn lemma_first_index_unique<T>(s: Seq<T>, b: T, i: int)
    requires
        0 <= i <= s.len(),
        i < s.len() ==> s[i] == b,
        forall|j: int| 0 <= j < i ==> s[j] != b,
    ensures
        first_index(s, b) == i,
{
    lemma_first_index(s, b);
    let k = first_index(s, b);
    if k < i {
        assert(s[k] != b);
    }
    if i < k {
        assert(s[i] != b);
    }
}

/// Finds the first `needle` in `haystack` with `memchr::memchr`: the crate
/// returns the index of the first occurrence, or `None` where there is none.
#[verifier::external_body]
pub(crate) fn find_byte(needle: u8, haystack: &[u8]) -> (found: Option<usize>)
    ensures
        match found {
            Some(i) => i < haystack@.len() && i == first_index(haystack@, needle),
            None => first_index(haystack@, needle) == haystack@.len(),
        },
{
    memchr::memchr(needle, haystack)
}

/// The index of the last `b` in `s`, or -1 where `s` holds none.
pub open spec fn last_index(s: Seq<u8>, b: u8) -> int
    decreases s.len(),
{
    if s.len() == 0 {
        -1
    } else if s.last() == b {
        s.len() - 1
    } else {
        last_index(s.drop_last(), b)
    }
}

/// Finds the last `b` in `s`.
pub fn find_last(s: &[u8], b: u8) -> (found: Option<usize>)
    ensures
        match found {
            Some(i) => i == last_index(s@, b) && i < s@.len(),
            None => last_index(s@, b) == -1,
        },
{
    let mut end: usize = s.len();
    assert(s@.take(end as int) =~= s@);
    while end > 0
        invariant
            end <= s@.len(),
            last_index(s@, b) == last_index(s@.take(end as int), b),
        decreases end,
    {
        let ghost upto = s@.take(end as int);
        assert(upto.last() == s@[end - 1]);
        assert(upto.drop_last() =~= s@.take(end - 1));
        if s[end - 1] == b {
            return Some(end - 1);
        }
        end -= 1;
    }
    None
}

/// Whether two byte strings hold the same bytes.
pub fn bytes_eq(a: &[u8], b: &[u8]) -> (same: bool)
    ensures
        same == (a@ == b@),
{
    if a.len() != b.len() {
        return false;
    }
    let mut i: usize = 0;
    while i < a.len()
        invariant
            a@.len() == b@.len(),
            i <= a@.len(),
            forall|j: int| 0 <= j < i ==> a@[j] == b@[j],
        decreases a@.len() - i,
    {
        if a[i] != b[i] {
            return false;
        }
        i += 1;
    }
    assert(a@ =~= b@);
    true
}

/// Whether `a` comes before `b` in the order of byte strings: at the first
/// place where they differ `a` has the smaller byte, or `a` ends there and
/// `b` goes on.
pub open spec fn lex_less(a: Seq<u8>, b: Seq<u8>) -> bool
    decreases a.len(),
{
    if b.len() == 0 {
        false
    } else if a.len() == 0 {
        true
    } else if a[0] != b[0] {
        a[0] < b[0]
    } else {
        lex_less(a.drop_first(), b.drop_first())
    }
}

/// No byte string comes before itself, and of two none comes before the
/// other both ways.
pub proof fn lemma_lex_asymmetric(a: Seq<u8>, b: Seq<u8>)
    ensures
        !(lex_less(a, b) && lex_less(b, a)),
        !lex_less(a, a),
    decreases a.len(),
{
    if a.len() > 0 {
        lemma_lex_asymmetric(a.drop_first(), a.drop_first());
        if b.len() > 0 && a[0] == b[0] {
            lemma_lex_asymmetric(a.drop_first(), b.drop_first());
        }
    }
}

/// Of two byte strings that differ one comes before the other.
pub proof fn lemma_lex_total(a: Seq<u8>, b: Seq<u8>)
    ensures
        a == b || lex_less(a, b) || lex_less(b, a),
    decreases a.len(),
{
    if a.len() == 0 || b.len() == 0 {
        if a.len() == 0 && b.len() == 0 {
            assert(a =~= b);
        }
    } else if a[0] == b[0] {
        lemma_lex_total(a.drop_first(), b.drop_first());
        if a.drop_first() == b.drop_first() {
            assert(a =~= seq![a[0]] + a.drop_first());
            assert(b =~= seq![b[0]] + b.drop_first());
        }
    }
}

/// What comes before a byte string comes before all that it comes before.
pub proof fn lemma_lex_transitive(a: Seq<u8>, b: Seq<u8>, c: Seq<u8>)
    requires
        lex_less(a, b),
        lex_less(b, c),
    ensures
        lex_less(a, c),
    decreases a.len(),
{
    if a.len() > 0 && a[0] == b[0] && b[0] == c[0] {
        lemma_lex_transitive(a.drop_first(), b.drop_first(), c.drop_first());
    }
}

/// Whether `a` comes before `b` in the order of byte strings.
pub fn bytes_less(a: &[u8], b: &[u8]) -> (yes: bool)
    ensures
        yes == lex_less(a@, b@),
{
    let mut i: usize = 0;
    assert(a@.skip(0) =~= a@);
    assert(b@.skip(0) =~= b@);
    while i < a.len() && i < b.len()
        invariant
            i <= a@.len(),
            i <= b@.len(),
            lex_less(a@, b@) == lex_less(a@.skip(i as int), b@.skip(i as int)),
        decreases a@.len() - i,
    {
        proof {
            assert(a@.skip(i as int)[0] == a@[i as int]);
            assert(b@.skip(i as int)[0] == b@[i as int]);
            assert(a@.skip(i as int).drop_first() =~= a@.skip(i + 1));
            assert(b@.skip(i as int).drop_first() =~= b@.skip(i + 1));
        }
        if a[i] != b[i] {
            return a[i] < b[i];
        }
        i += 1;
    }
    i < b.len()
}

/// Whether `s` begins with `prefix`.
pub open spec fn has_prefix(s: Seq<u8>, prefix: Seq<u8>) -> bool {
    prefix.len() <= s.len() && s.subrange(0, prefix.len() as int) == prefix
}

/// Whether `s` begins with `prefix`.
pub fn starts_with(s: &[u8], prefix: &[u8]) -> (yes: bool)
    ensures
        yes == has_prefix(s@, prefix@),
{
    if prefix.len() > s.len() {
        return false;
    }
    bytes_eq(slice_subrange(s, 0, prefix.len()), prefix)
}

/// Whether `needle` stands in `hay` at `at`.
pub open spec fn stands_at(hay: Seq<u8>, needle: Seq<u8>, at: int) -> bool {
    0 <= at && at + needle.len() <= hay.len() && hay.subrange(at, at + needle.len()) == needle
}

/// Whether `needle` stands somewhere in `hay`.
pub open spec fn contains_run(hay: Seq<u8>, needle: Seq<u8>) -> bool {
    exists|at: int| stands_at(hay, needle, at)
}

/// Whether `needle` stands somewhere in `hay`.
pub fn contains_bytes(hay: &[u8], needle: &[u8]) -> (yes: bool)
    ensures
        yes == contains_run(hay@, needle@),
{
    let length: usize = hay.len();
    let width: usize = needle.len();
    if width > length {
        return false;
    }
    let last: usize = length - width;
    let mut at: usize = 0;
    loop
        invariant
            at <= last,
            length == hay@.len(),
            width == needle@.len(),
            last + width == length,
            forall|j: int| 0 <= j < at ==> !stands_at(hay@, needle@, j),
        decreases last - at,
    {
        if bytes_eq(slice_subrange(hay, at, at + width), needle) {
            assert(stands_at(hay@, needle@, at as int));
            return true;
        }
        if at == last {
            return false;
        }
        at += 1;
    }
}

/// The whitespace of ASCII: space, tab, line feed, form feed, carriage return.
pub open spec fn is_space(b: u8) -> bool {
    b == 32 || b == 9 || b == 10 || b == 12 || b == 13
}

/// Whether `b` is whitespace of ASCII.
pub fn is_ascii_space(b: u8) -> (yes: bool)
    ensures
        yes == is_space(b),
{
    b == 32 || b == 9 || b == 10 || b == 12 || b == 13
}

/// `s` without its leading whitespace.
pub open spec fn trim_start(s: Seq<u8>) -> Seq<u8>
    decreases s.len(),
{
    if s.len() > 0 && is_space(s[0]) {
        trim_start(s.drop_first())
    } else {
        s
    }
}

/// `s` without its trailing whitespace.
pub open spec fn trim_end(s: Seq<u8>) -> Seq<u8>
    decreases s.len(),
{
    if s.len() > 0 && is_space(s.last()) {
        trim_end(s.drop_last())
    } else {
        s
    }
}

/// `s` without the whitespace at either end.
pub open spec fn trim(s: Seq<u8>) -> Seq<u8> {
    trim_end(trim_start(s))
}

/// Skipping leading whitespace one byte at a time reaches `trim_start`.
proof fn lemma_trim_start_skip(s: Seq<u8>, k: int)
    requires
        0 <= k <= s.len(),
        forall|j: int| 0 <= j < k ==> is_space(s[j]),
    ensures
        trim_start(s) == trim_start(s.skip(k)),
    decreases k,
{
    if k > 0 {
        assert(s.drop_first() =~= s.skip(1));
        assert(s.skip(1).skip(k - 1) =~= s.skip(k));
        assert forall|j: int| 0 <= j < k - 1 implies is_space(s.skip(1)[j]) by {
            assert(s.skip(1)[j] == s[j + 1]);
        }
        lemma_trim_start_skip(s.skip(1), k - 1);
    } else {
        assert(s.skip(0) =~= s);
    }
}

/// Dropping trailing whitespace one byte at a time reaches `trim_end`.
proof fn lemma_trim_end_take(s: Seq<u8>, k: int)
    requires
        0 <= k <= s.len(),
        forall|j: int| k <= j < s.len() ==> is_space(s[j]),
    ensures
        trim_end(s) == trim_end(s.take(k)),
    decreases s.len() - k,
{
    if k < s.len() {
        assert(s.drop_last() =~= s.take(s.len() - 1));
        assert(s.take(s.len() - 1).take(k) =~= s.take(k));
        lemma_trim_end_take(s.take(s.len() - 1), k);
    } else {
        assert(s.take(k) =~= s);
    }
}

/// The part of `s` between its leading and its trailing whitespace.
pub fn trim_ascii(s: &[u8]) -> (t: &[u8])
    ensures
        t@ == trim(s@),
{
    let mut start: usize = 0;
    while start < s.len() && is_ascii_space(s[start])
        invariant
            start <= s@.len(),
            forall|j: int| 0 <= j < start ==> is_space(s@[j]),
        decreases s@.len() - start,
    {
        start += 1;
    }
    let mut end: usize = s.len();
    while end > start && is_ascii_space(s[end - 1])
        invariant
            start <= end <= s@.len(),
            forall|j: int| end <= j < s@.len() ==> is_space(s@[j]),
        decreases end,
    {
        end -= 1;
    }
    proof {
        lemma_trim_start_skip(s@, start as int);
        let rest = s@.skip(start as int);
        let k = end - start;
        assert forall|j: int| k <= j < rest.len() implies is_space(rest[j]) by {
            assert(rest[j] == s@[j + start]);
        }
        lemma_trim_end_take(rest, k);
        assert(rest.take(k) =~= s@.subrange(start as int, end as int));
        if start < s@.len() {
            assert(!is_space(rest[0]));
        }
        if k > 0 {
            assert(rest.take(k).last() == s@[end - 1]);
        }
    }
    slice_subrange(s, start, end)
}

/// `s` without the single quotes at its start.
pub open spec fn unquote_start(s: Seq<u8>) -> Seq<u8>
    decreases s.len(),
{
    if s.len() > 0 && s[0] == QUOTE {
        unquote_start(s.drop_first())
    } else {
        s
    }
}

/// `s` without the single quotes at its end.
pub open spec fn unquote_end(s: Seq<u8>) -> Seq<u8>
    decreases s.len(),
{
    if s.len() > 0 && s.last() == QUOTE {
        unquote_end(s.drop_last())
    } else {
        s
    }
}

/// `s` without the single quotes at either end.
pub open spec fn unquoted(s: Seq<u8>) -> Seq<u8> {
    unquote_end(unquote_start(s))
}

/// Skipping leading quotes one byte at a time reaches `unquote_start`.
proof fn lemma_unquote_start_skip(s: Seq<u8>, k: int)
    requires
        0 <= k <= s.len(),
        forall|j: int| 0 <= j < k ==> s[j] == QUOTE,
    ensures
        unquote_start(s) == unquote_start(s.skip(k)),
    decreases k,
{
    if k > 0 {
        assert(s.drop_first() =~= s.skip(1));
        assert(s.skip(1).skip(k - 1) =~= s.skip(k));
        assert forall|j: int| 0 <= j < k - 1 implies s.skip(1)[j] == QUOTE by {
            assert(s.skip(1)[j] == s[j + 1]);
        }
        lemma_unquote_start_skip(s.skip(1), k - 1);
    } else {
        assert(s.skip(0) =~= s);
    }
}

/// Dropping trailing quotes one byte at a time reaches `unquote_end`.
proof fn lemma_unquote_end_take(s: Seq<u8>, k: int)
    requires
        0 <= k <= s.len(),
        forall|j: int| k <= j < s.len() ==> s[j] == QUOTE,
    ensures
        unquote_end(s) == unquote_end(s.take(k)),
    decreases s.len() - k,
{
    if k < s.len() {
        assert(s.drop_last() =~= s.take(s.len() - 1));
        assert(s.take(s.len() - 1).take(k) =~= s.take(k));
        lemma_unquote_end_take(s.take(s.len() - 1), k);
    } else {
        assert(s.take(k) =~= s);
    }
}

/// The part of `s` between the single quotes at its start and at its end.
pub fn trim_quotes(s: &[u8]) -> (t: &[u8])
    ensures
        t@ == unquoted(s@),
{
    let mut start: usize = 0;
    while start < s.len() && s[start] == QUOTE
        invariant
            start <= s@.len(),
            forall|j: int| 0 <= j < start ==> s@[j] == QUOTE,
        decreases s@.len() - start,
    {
        start += 1;
    }
    let mut end: usize = s.len();
    while end > start && s[end - 1] == QUOTE
        invariant
            start <= end <= s@.len(),
            forall|j: int| end <= j < s@.len() ==> s@[j] == QUOTE,
        decreases end,
    {
        end -= 1;
    }
    proof {
        lemma_unquote_start_skip(s@, start as int);
        let rest = s@.skip(start as int);
        let k = end - start;
        assert forall|j: int| k <= j < rest.len() implies rest[j] == QUOTE by {
            assert(rest[j] == s@[j + start]);
        }
        lemma_unquote_end_take(rest, k);
        assert(rest.take(k) =~= s@.subrange(start as int, end as int));
        if start < s@.len() {
            assert(rest[0] != QUOTE);
        }
        if k > 0 {
            assert(rest.take(k).last() == s@[end - 1]);
        }
    }
    slice_subrange(s, start, end)
}

/// `b` in lower case, where it is a capital letter of ASCII.
pub open spec fn lower_byte(b: u8) -> u8 {
    if 65 <= b <= 90 {
        (b + 32) as u8
    } else {
        b
    }
}

/// `s` with its capital letters of ASCII in lower case.
pub open spec fn lower(s: Seq<u8>) -> Seq<u8> {
    s.map_values(|b: u8| lower_byte(b))
}

/// Puts the capital letters of ASCII in `s` in lower case.
pub fn to_lower(s: &[u8]) -> (low: Vec<u8>)
    ensures
        low@ == lower(s@),
{
    let mut low: Vec<u8> = Vec::new();
    let mut i: usize = 0;
    while i < s.len()
        invariant
            i <= s@.len(),
            low@.len() == i,
            forall|j: int| 0 <= j < i ==> low@[j] == lower_byte(s@[j]),
        decreases s@.len() - i,
    {
        let b: u8 = s[i];
        if 65 <= b && b <= 90 {
            low.push(b + 32);
        } else {
            low.push(b);
        }
        i += 1;
    }
    assert(low@ =~= lower(s@));
    low
}

/// Reads `bytes` as text with `std::str::from_utf8`, which succeeds on valid
/// UTF-8 and on nothing else, and hands back the same bytes.
#[verifier::external_body]
pub(crate) fn utf8_str<'a>(bytes: &'a [u8]) -> (text: Option<&'a str>)
    ensures
        text is Some <==> valid_utf8(bytes@),
        text matches Some(t) ==> t.spec_bytes() == bytes@,
{
    std::str::from_utf8(bytes).ok()
}

/// The bytes of `text`.
pub open spec fn string_bytes(text: String) -> Seq<u8> {
    encode_utf8(text@)
}

/// Copies text that is valid UTF-8 into a `String`.
pub fn utf8_string(bytes: &[u8]) -> (text: Option<String>)
    ensures
        text is Some <==> valid_utf8(bytes@),
        text matches Some(t) ==> string_bytes(t) == bytes@,
{
    match utf8_str(bytes) {
        Some(text) => Some(text.to_owned()),
        None => None,
    }
}

/// The bytes of each of `texts`.
pub open spec fn string_views(texts: Seq<String>) -> Seq<Seq<u8>> {
    texts.map_values(|t: String| string_bytes(t))
}

/// Bytes of ASCII alone are text.
pub proof fn lemma_ascii_is_text(bytes: Seq<u8>)
    requires
        forall|i: int| 0 <= i < bytes.len() ==> #[trigger] bytes[i] < 128,
    ensures
        valid_utf8(bytes),
{
    assert(bytes.subrange(0, 0) =~= Seq::<u8>::empty());
    assert(valid_utf8(bytes.subrange(0, 0)));
    assert forall|i: int| 0 <= 0 <= i < bytes.len() <= bytes.len() implies #[trigger]
        is_leading_byte_width_1(bytes[i]) by {
        assert(bytes[i] < 128);
    }
    partial_valid_utf8_extend_ascii_block(bytes, 0, bytes.len() as int);
    assert(bytes.subrange(0, bytes.len() as int) =~= bytes);
}

/// The digits that write `n` in decimal, without leading zeros.
pub open spec fn decimal_digits(n: nat) -> Seq<u8>
    decreases n,
{
    if n < 10 {
        seq![(48 + n) as u8]
    } else {
        decimal_digits(n / 10).push((48 + n % 10) as u8)
    }
}

/// The digits of a number are digits, and at least one.
pub proof fn lemma_decimal_digits(n: nat)
    ensures
        decimal_digits(n).len() >= 1,
        forall|i: int|
            0 <= i < decimal_digits(n).len() ==> 48 <= #[trigger] decimal_digits(n)[i] <= 57,
    decreases n,
{
    if n >= 10 {
        lemma_decimal_digits(n / 10);
    }
}

/// Writes `n` in decimal.
pub fn to_decimal(n: u16) -> (digits: Vec<u8>)
    ensures
        digits@ == decimal_digits(n as nat),
    decreases n,
{
    if n < 10 {
        let mut digits: Vec<u8> = Vec::new();
        digits.push(48 + n as u8);
        assert(digits@ =~= decimal_digits(n as nat));
        digits
    } else {
        let mut digits = to_decimal(n / 10);
        digits.push(48 + (n % 10) as u8);
        digits
    }
}

/// What each path of `list` holds.
pub open spec fn path_views(list: Seq<Vec<u8>>) -> Seq<Seq<u8>> {
    list.map_values(|p: Vec<u8>| p@)
}

/// `dir` as the start of the paths below it: with one `/` at its end, unless
/// it is empty, which stands for the working directory.
pub open spec fn dir_prefix(dir: Seq<u8>) -> Seq<u8> {
    if dir.len() == 0 || dir.last() == SLASH {
        dir
    } else {
        dir.push(SLASH)
    }
}

/// The path of `name` in the directory `dir`.
pub open spec fn join(dir: Seq<u8>, name: Seq<u8>) -> Seq<u8> {
    dir_prefix(dir) + name
}

/// Builds the path of `name` in the directory `dir`.
pub fn join_path(dir: &[u8], name: &[u8]) -> (path: Vec<u8>)
    ensures
        path@ == join(dir@, name@),
{
    let mut path: Vec<u8> = Vec::new();
    path.extend_from_slice(dir);
    if dir.len() > 0 && dir[dir.len() - 1] != SLASH {
        path.push(SLASH);
    }
    path.extend_from_slice(name);
    assert(path@ =~= join(dir@, name@));
    path
}

/// `a` followed by `b`.
pub fn append(a: &[u8], b: &[u8]) -> (both: Vec<u8>)
    ensures
        both@ == a@ + b@,
{
    let mut both: Vec<u8> = Vec::new();
    both.extend_from_slice(a);
    both.extend_from_slice(b);
    assert(both@ =~= a@ + b@);
    both
}

} // verus!
