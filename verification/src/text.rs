//! Character-level text operations with their mathematical meaning.
//!
//! Strings are handled as sequences of `char`; every operation here states its
//! result over `Seq<char>` so that callers can specify parsing rules exactly.

use vstd::prelude::*;

verus! {

// ---------------------------------------------------------------------------
// Character classes
// ---------------------------------------------------------------------------

/// Unicode `White_Space`, the property `char::is_whitespace` tests.
pub open spec fn is_ws(c: char) -> bool {
    let u = c as u32;
    ||| (0x9 <= u && u <= 0xd)
    ||| u == 0x20
    ||| u == 0x85
    ||| u == 0xa0
    ||| u == 0x1680
    ||| (0x2000 <= u && u <= 0x200a)
    ||| u == 0x2028
    ||| u == 0x2029
    ||| u == 0x202f
    ||| u == 0x205f
    ||| u == 0x3000
}

/// Unicode general category `Cc`, the property `char::is_control` tests.
pub open spec fn is_control(c: char) -> bool {
    let u = c as u32;
    u <= 0x1f || (0x7f <= u && u <= 0x9f)
}

pub open spec fn is_ascii_lower(c: char) -> bool {
    'a' <= c && c <= 'z'
}

pub open spec fn is_ascii_upper(c: char) -> bool {
    'A' <= c && c <= 'Z'
}

pub open spec fn is_ascii_digit(c: char) -> bool {
    '0' <= c && c <= '9'
}

pub open spec fn is_ascii_alnum(c: char) -> bool {
    is_ascii_lower(c) || is_ascii_upper(c) || is_ascii_digit(c)
}

/// `char::to_ascii_lowercase`.
pub open spec fn lower_char(c: char) -> char {
    if is_ascii_upper(c) {
        ((c as u32) + 32) as char
    } else {
        c
    }
}

/// `str::to_ascii_lowercase`.
pub open spec fn lower_seq(s: Seq<char>) -> Seq<char> {
    s.map_values(|c: char| lower_char(c))
}

/// A set of characters that trimming and splitting work with.
pub enum CharClass {
    Whitespace,
    Exactly(char),
    Either(char, char),
}

pub open spec fn in_class(cls: CharClass, c: char) -> bool {
    match cls {
        CharClass::Whitespace => is_ws(c),
        CharClass::Exactly(a) => c == a,
        CharClass::Either(a, b) => c == a || c == b,
    }
}

/// Whether `c` belongs to the class.
pub fn class_contains(cls: &CharClass, c: char) -> (r: bool)
    ensures
        r == in_class(*cls, c),
{
    match cls {
        CharClass::Whitespace => {
            let u = c as u32;
            (0x9 <= u && u <= 0xd) || u == 0x20 || u == 0x85 || u == 0xa0 || u == 0x1680 || (0x2000
                <= u && u <= 0x200a) || u == 0x2028 || u == 0x2029 || u == 0x202f || u == 0x205f
                || u == 0x3000
        },
        CharClass::Exactly(a) => c == *a,
        CharClass::Either(a, b) => c == *a || c == *b,
    }
}

/// `char::is_control`.
pub fn is_control_char(c: char) -> (r: bool)
    ensures
        r == is_control(c),
{
    let u = c as u32;
    u <= 0x1f || (0x7f <= u && u <= 0x9f)
}

/// `char::to_ascii_lowercase`.
pub fn lower_char_exec(c: char) -> (r: char)
    ensures
        r == lower_char(c),
{
    if 'A' <= c && c <= 'Z' {
        let b: u8 = (c as u32 + 32) as u8;
        b as char
    } else {
        c
    }
}

// ---------------------------------------------------------------------------
// Sequence definitions
// ---------------------------------------------------------------------------

/// `str::trim_start_matches` with a class of characters.
pub open spec fn trim_start_class(s: Seq<char>, cls: CharClass) -> Seq<char>
    decreases s.len(),
{
    if s.len() > 0 && in_class(cls, s[0]) {
        trim_start_class(s.drop_first(), cls)
    } else {
        s
    }
}

/// `str::trim_end_matches` with a class of characters.
pub open spec fn trim_end_class(s: Seq<char>, cls: CharClass) -> Seq<char>
    decreases s.len(),
{
    if s.len() > 0 && in_class(cls, s.last()) {
        trim_end_class(s.drop_last(), cls)
    } else {
        s
    }
}

/// `str::trim_matches` with a class of characters.
pub open spec fn trim_class(s: Seq<char>, cls: CharClass) -> Seq<char> {
    trim_end_class(trim_start_class(s, cls), cls)
}

/// `str::trim`.
pub open spec fn trim(s: Seq<char>) -> Seq<char> {
    trim_class(s, CharClass::Whitespace)
}

/// `str::starts_with`.
pub open spec fn starts_with(s: Seq<char>, p: Seq<char>) -> bool {
    p.len() <= s.len() && s.subrange(0, p.len() as int) == p
}

/// `str::ends_with`.
pub open spec fn ends_with(s: Seq<char>, p: Seq<char>) -> bool {
    p.len() <= s.len() && s.subrange(s.len() - p.len(), s.len() as int) == p
}

/// `str::strip_prefix`, returning the input when the prefix is absent.
pub open spec fn strip_prefix_or_self(s: Seq<char>, p: Seq<char>) -> Seq<char> {
    if starts_with(s, p) {
        s.subrange(p.len() as int, s.len() as int)
    } else {
        s
    }
}

/// `str::strip_suffix`, returning the input when the suffix is absent.
pub open spec fn strip_suffix_or_self(s: Seq<char>, p: Seq<char>) -> Seq<char> {
    if ends_with(s, p) {
        s.subrange(0, s.len() - p.len())
    } else {
        s
    }
}

/// `str::trim_end_matches` with a non-empty string pattern: every trailing
/// repetition of `p` is removed.
pub open spec fn trim_end_pattern(s: Seq<char>, p: Seq<char>) -> Seq<char>
    decreases s.len(),
{
    if p.len() > 0 && ends_with(s, p) {
        trim_end_pattern(s.subrange(0, s.len() - p.len()), p)
    } else {
        s
    }
}

/// Index of the first character of `s` in `cls`, or -1.
pub open spec fn find_class(s: Seq<char>, cls: CharClass) -> int
    decreases s.len(),
{
    if s.len() == 0 {
        -1
    } else if in_class(cls, s[0]) {
        0
    } else {
        let r = find_class(s.drop_first(), cls);
        if r < 0 {
            -1
        } else {
            r + 1
        }
    }
}

/// Index of the first occurrence of `c`, or -1.
pub open spec fn find_char(s: Seq<char>, c: char) -> int {
    find_class(s, CharClass::Exactly(c))
}

/// Index of the last occurrence of `c`, or -1.
pub open spec fn rfind_char(s: Seq<char>, c: char) -> int
    decreases s.len(),
{
    if s.len() == 0 {
        -1
    } else if s.last() == c {
        s.len() - 1
    } else {
        rfind_char(s.drop_last(), c)
    }
}

/// Index of the first occurrence of the non-empty pattern `p`, or -1.
pub open spec fn find_pattern(s: Seq<char>, p: Seq<char>) -> int
    decreases s.len(),
{
    if s.len() < p.len() || p.len() == 0 {
        -1
    } else if starts_with(s, p) {
        0
    } else {
        let r = find_pattern(s.drop_first(), p);
        if r < 0 {
            -1
        } else {
            r + 1
        }
    }
}

/// Whether `c` occurs in `s`.
pub open spec fn contains_char(s: Seq<char>, c: char) -> bool {
    exists|i: int| 0 <= i < s.len() && s[i] == c
}

/// Number of occurrences of `c`.
pub open spec fn count_char(s: Seq<char>, c: char) -> nat
    decreases s.len(),
{
    if s.len() == 0 {
        0
    } else {
        count_char(s.drop_last(), c) + if s.last() == c {
            1nat
        } else {
            0nat
        }
    }
}

/// `str::split` at every character of `cls`.
pub open spec fn split_class(s: Seq<char>, cls: CharClass) -> Seq<Seq<char>>
    decreases s.len(),
{
    let i = find_class(s, cls);
    if i < 0 || i >= s.len() {
        seq![s]
    } else {
        seq![s.subrange(0, i)] + split_class(s.subrange(i + 1, s.len() as int), cls)
    }
}

/// The pieces of `s` between occurrences of `c`, empty pieces dropped.
pub open spec fn nonempty_pieces(s: Seq<char>, c: char) -> Seq<Seq<char>> {
    drop_empty(split_class(s, CharClass::Exactly(c)))
}

/// The non-empty parts, in order.
pub open spec fn drop_empty(parts: Seq<Seq<char>>) -> Seq<Seq<char>>
    decreases parts.len(),
{
    if parts.len() == 0 {
        parts
    } else if parts.last().len() == 0 {
        drop_empty(parts.drop_last())
    } else {
        drop_empty(parts.drop_last()).push(parts.last())
    }
}

/// `[..].join(sep)` for a single-character separator.
pub open spec fn join_with(parts: Seq<Seq<char>>, sep: char) -> Seq<char>
    decreases parts.len(),
{
    if parts.len() == 0 {
        Seq::empty()
    } else if parts.len() == 1 {
        parts[0]
    } else {
        join_with(parts.drop_last(), sep).push(sep) + parts.last()
    }
}

/// `str::replace` of one character by another.
pub open spec fn replace_char(s: Seq<char>, from: char, to: char) -> Seq<char> {
    s.map_values(|c: char| if c == from { to } else { c })
}

// ---------------------------------------------------------------------------
// Lemmas
// ---------------------------------------------------------------------------

pub proof fn lemma_trim_start(s: Seq<char>, cls: CharClass, i: int)
    requires
        0 <= i <= s.len(),
        forall|j: int| 0 <= j < i ==> in_class(cls, #[trigger] s[j]),
        i < s.len() ==> !in_class(cls, s[i]),
    ensures
        trim_start_class(s, cls) == s.subrange(i, s.len() as int),
    decreases i,
{
    if i == 0 {
        assert(s.subrange(0, s.len() as int) =~= s);
    } else {
        let t = s.drop_first();
        assert forall|j: int| 0 <= j < i - 1 implies in_class(cls, #[trigger] t[j]) by {
            assert(t[j] == s[j + 1]);
        }
        lemma_trim_start(t, cls, i - 1);
        assert(t.subrange(i - 1, t.len() as int) =~= s.subrange(i, s.len() as int));
    }
}

pub proof fn lemma_trim_end(s: Seq<char>, cls: CharClass, k: int)
    requires
        0 <= k <= s.len(),
        forall|j: int| k <= j < s.len() ==> in_class(cls, #[trigger] s[j]),
        k > 0 ==> !in_class(cls, s[k - 1]),
    ensures
        trim_end_class(s, cls) == s.subrange(0, k),
    decreases s.len() - k,
{
    if k == s.len() {
        assert(s.subrange(0, k) =~= s);
    } else {
        let t = s.drop_last();
        assert forall|j: int| k <= j < t.len() implies in_class(cls, #[trigger] t[j]) by {
            assert(t[j] == s[j]);
        }
        assert(in_class(cls, s[s.len() - 1]));
        lemma_trim_end(t, cls, k);
        assert(t.subrange(0, k) =~= s.subrange(0, k));
    }
}

/// What `find_class` returns.
pub proof fn lemma_find_class(s: Seq<char>, cls: CharClass)
    ensures
        -1 <= find_class(s, cls) < s.len(),
        find_class(s, cls) == -1 <==> (forall|j: int| 0 <= j < s.len() ==> !in_class(cls, #[trigger] s[j])),
        find_class(s, cls) >= 0 ==> in_class(cls, s[find_class(s, cls)]),
        forall|j: int| 0 <= j < find_class(s, cls) ==> !in_class(cls, #[trigger] s[j]),
    decreases s.len(),
{
    if s.len() > 0 && !in_class(cls, s[0]) {
        let t = s.drop_first();
        lemma_find_class(t, cls);
        assert forall|j: int| 0 < j < s.len() implies s[j] == #[trigger] t[j - 1] by {}
        if find_class(t, cls) == -1 {
            assert forall|j: int| 0 <= j < s.len() implies !in_class(cls, #[trigger] s[j]) by {
                if j > 0 {
                    assert(s[j] == t[j - 1]);
                }
            }
        } else {
            assert forall|j: int| 0 <= j < find_class(s, cls) implies !in_class(cls, #[trigger] s[j]) by {
                if j > 0 {
                    assert(s[j] == t[j - 1]);
                }
            }
        }
    }
}

/// A first occurrence found by a scan is what `find_class` returns.
pub proof fn lemma_find_class_at(s: Seq<char>, cls: CharClass, i: int)
    requires
        0 <= i <= s.len(),
        forall|j: int| 0 <= j < i ==> !in_class(cls, #[trigger] s[j]),
        i < s.len() ==> in_class(cls, s[i]),
    ensures
        find_class(s, cls) == if i < s.len() { i } else { -1 },
{
    lemma_find_class(s, cls);
    let f = find_class(s, cls);
    if i < s.len() {
        if f == -1 {
            assert(!in_class(cls, s[i]));
        } else if f < i {
            assert(!in_class(cls, s[f]));
        } else if f > i {
            assert(!in_class(cls, s[i]));
        }
    }
}

pub proof fn lemma_rfind_char(s: Seq<char>, c: char)
    ensures
        -1 <= rfind_char(s, c) < s.len(),
        rfind_char(s, c) == -1 <==> !contains_char(s, c),
        rfind_char(s, c) >= 0 ==> s[rfind_char(s, c)] == c,
        forall|j: int| rfind_char(s, c) < j < s.len() ==> #[trigger] s[j] != c,
    decreases s.len(),
{
    if s.len() > 0 && s.last() != c {
        let t = s.drop_last();
        lemma_rfind_char(t, c);
        assert forall|j: int| 0 <= j < t.len() implies s[j] == #[trigger] t[j] by {}
        assert forall|j: int| rfind_char(s, c) < j < s.len() implies #[trigger] s[j] != c by {
            if j < t.len() {
                assert(s[j] == t[j]);
            }
        }
        if rfind_char(t, c) == -1 {
            if contains_char(s, c) {
                let j = choose|j: int| 0 <= j < s.len() && s[j] == c;
                assert(t[j] == c);
            }
        } else {
            assert(contains_char(s, c)) by {
                assert(s[rfind_char(t, c)] == c);
            }
        }
    } else if s.len() > 0 {
        assert(s[s.len() - 1] == c);
    }
}

pub proof fn lemma_find_pattern(s: Seq<char>, p: Seq<char>)
    ensures
        -1 <= find_pattern(s, p),
        find_pattern(s, p) >= 0 ==> find_pattern(s, p) + p.len() <= s.len() && s.subrange(
            find_pattern(s, p),
            find_pattern(s, p) + p.len(),
        ) == p,
        find_pattern(s, p) >= 0 ==> p.len() > 0,
        p.len() > 0 ==> forall|j: int|
            0 <= j && j + p.len() <= s.len() && (find_pattern(s, p) < 0 || j < find_pattern(s, p))
                ==> #[trigger] s.subrange(j, j + p.len()) != p,
    decreases s.len(),
{
    if s.len() >= p.len() && p.len() > 0 && !starts_with(s, p) {
        let t = s.drop_first();
        lemma_find_pattern(t, p);
        assert forall|j: int|
            0 <= j && j + p.len() <= s.len() && (find_pattern(s, p) < 0 || j < find_pattern(s, p))
                implies #[trigger] s.subrange(j, j + p.len()) != p by {
            if j == 0 {
                assert(s.subrange(0, p.len() as int) != p);
            } else {
                assert(s.subrange(j, j + p.len()) =~= t.subrange(j - 1, j - 1 + p.len()));
            }
        }
        if find_pattern(t, p) >= 0 {
            let f = find_pattern(t, p);
            assert(s.subrange(f + 1, f + 1 + p.len()) =~= t.subrange(f, f + p.len()));
        }
    }
}


// ---------------------------------------------------------------------------
// Executable operations
// ---------------------------------------------------------------------------

/// The characters of a string, in order.
pub fn chars_of(s: &str) -> (r: Vec<char>)
    ensures
        r@ == s@,
{
    let mut r: Vec<char> = Vec::new();
    for c in it: s.chars()
        invariant
            r@ == it.seq().take(it.index() as int),
            it.seq() == s@,
    {
        r.push(c);
    }
    r
}

/// Builds a `String` from characters.
pub fn string_of(v: &[char]) -> (r: String)
    ensures
        r@ == v@,
{
    let mut r = String::new();
    let mut i: usize = 0;
    while i < v.len()
        invariant
            i <= v@.len(),
            r@ == v@.subrange(0, i as int),
        decreases v@.len() - i,
    {
        push_char(&mut r, v[i]);
        i = i + 1;
        proof {
            assert(r@ =~= v@.subrange(0, i as int));
        }
    }
    proof {
        assert(r@ =~= v@);
    }
    r
}

/// `String::push`: the string afterwards holds its old characters followed
/// by `c`.
#[verifier::external_body]
pub(crate) fn push_char(s: &mut String, c: char)
    ensures
        final(s)@ == old(s)@.push(c),
{
    s.push(c);
}

/// The character sequences held by a list of character vectors.
pub open spec fn views(v: Seq<Vec<char>>) -> Seq<Seq<char>> {
    v.map_values(|x: Vec<char>| x@)
}

pub proof fn lemma_views_push(s: Seq<Vec<char>>, x: Vec<char>)
    ensures
        views(s.push(x)) == views(s).push(x@),
{
    assert(views(s.push(x)) =~= views(s).push(x@));
}

/// `v[a..b]` as a new vector.
pub fn slice_chars(v: &[char], a: usize, b: usize) -> (r: Vec<char>)
    requires
        a <= b <= v@.len(),
    ensures
        r@ == v@.subrange(a as int, b as int),
{
    let mut r: Vec<char> = Vec::new();
    let mut i = a;
    while i < b
        invariant
            a <= i <= b <= v@.len(),
            r@ == v@.subrange(a as int, i as int),
        decreases b - i,
    {
        r.push(v[i]);
        i = i + 1;
        proof {
            assert(r@ =~= v@.subrange(a as int, i as int));
        }
    }
    r
}

/// `v[a..]` as a new vector.
pub fn tail(v: &[char], a: usize) -> (r: Vec<char>)
    requires
        a <= v@.len(),
    ensures
        r@ == v@.subrange(a as int, v@.len() as int),
{
    slice_chars(v, a, v.len())
}

/// Appends `src` to `dst`.
pub fn append_chars(dst: &mut Vec<char>, src: &[char])
    ensures
        final(dst)@ == old(dst)@ + src@,
{
    let mut i: usize = 0;
    while i < src.len()
        invariant
            i <= src@.len(),
            dst@ == old(dst)@ + src@.subrange(0, i as int),
        decreases src@.len() - i,
    {
        dst.push(src[i]);
        i = i + 1;
        proof {
            assert(dst@ =~= old(dst)@ + src@.subrange(0, i as int));
        }
    }
    proof {
        assert(src@.subrange(0, src@.len() as int) =~= src@);
    }
}

/// `a` followed by `b`.
pub fn concat(a: &[char], b: &[char]) -> (r: Vec<char>)
    ensures
        r@ == a@ + b@,
{
    let mut r = slice_chars(a, 0, a.len());
    proof {
        assert(a@.subrange(0, a@.len() as int) =~= a@);
    }
    append_chars(&mut r, b);
    r
}

/// Whether two character sequences are equal.
pub fn eq_chars(a: &[char], b: &[char]) -> (r: bool)
    ensures
        r == (a@ == b@),
{
    if a.len() != b.len() {
        return false;
    }
    let mut i: usize = 0;
    while i < a.len()
        invariant
            a@.len() == b@.len(),
            i <= a@.len(),
            forall|j: int| 0 <= j < i ==> a@[j] == b@[j],
        decreases a@.len() - i,
    {
        if a[i] != b[i] {
            return false;
        }
        i = i + 1;
    }
    proof {
        assert(a@ =~= b@);
    }
    true
}

/// Whether `v` starts with `p`.
pub fn starts_with_exec(v: &[char], p: &[char]) -> (r: bool)
    ensures
        r == starts_with(v@, p@),
{
    if p.len() > v.len() {
        return false;
    }
    let mut i: usize = 0;
    while i < p.len()
        invariant
            p@.len() <= v@.len(),
            i <= p@.len(),
            forall|j: int| 0 <= j < i ==> v@[j] == p@[j],
        decreases p@.len() - i,
    {
        if v[i] != p[i] {
            proof {
                assert(v@.subrange(0, p@.len() as int)[i as int] != p@[i as int]);
            }
            return false;
        }
        i = i + 1;
    }
    proof {
        assert(v@.subrange(0, p@.len() as int) =~= p@);
    }
    true
}

/// Whether `v` ends with `p`.
pub fn ends_with_exec(v: &[char], p: &[char]) -> (r: bool)
    ensures
        r == ends_with(v@, p@),
{
    if p.len() > v.len() {
        return false;
    }
    let n = v.len();
    let off = n - p.len();
    let mut i: usize = 0;
    while i < p.len()
        invariant
            p@.len() <= v@.len(),
            off == v@.len() - p@.len(),
            off + p@.len() == v@.len(),
            n == v@.len(),
            n <= usize::MAX,
            i <= p@.len(),
            forall|j: int| 0 <= j < i ==> v@[off + j] == p@[j],
        decreases p@.len() - i,
    {
        if v[off + i] != p[i] {
            proof {
                assert(v@.subrange(off as int, v@.len() as int)[i as int] != p@[i as int]);
            }
            return false;
        }
        i = i + 1;
    }
    proof {
        assert(v@.subrange(off as int, v@.len() as int) =~= p@);
    }
    true
}

/// `str::strip_prefix`.
pub fn strip_prefix(v: &[char], p: &[char]) -> (r: Option<Vec<char>>)
    ensures
        r.is_some() == starts_with(v@, p@),
        r.is_some() ==> r.unwrap()@ == v@.subrange(p@.len() as int, v@.len() as int),
{
    if starts_with_exec(v, p) {
        Some(tail(v, p.len()))
    } else {
        None
    }
}

/// `v` without the prefix `p`, or `v` when it lacks it.
pub fn strip_prefix_or_self_exec(v: &[char], p: &[char]) -> (r: Vec<char>)
    ensures
        r@ == strip_prefix_or_self(v@, p@),
{
    match strip_prefix(v, p) {
        Some(t) => t,
        None => slice_chars(v, 0, v.len()),
    }
}

/// `v` without the suffix `p`, or `v` when it lacks it.
pub fn strip_suffix_or_self_exec(v: &[char], p: &[char]) -> (r: Vec<char>)
    ensures
        r@ == strip_suffix_or_self(v@, p@),
{
    if ends_with_exec(v, p) {
        slice_chars(v, 0, v.len() - p.len())
    } else {
        slice_chars(v, 0, v.len())
    }
}

/// `v` with the characters of `cls` trimmed from both ends.
pub fn trim_class_exec(v: &[char], cls: &CharClass) -> (r: Vec<char>)
    ensures
        r@ == trim_class(v@, *cls),
{
    let mut i: usize = 0;
    while i < v.len() && class_contains(cls, v[i])
        invariant
            i <= v@.len(),
            forall|j: int| 0 <= j < i ==> in_class(*cls, #[trigger] v@[j]),
        decreases v@.len() - i,
    {
        i = i + 1;
    }
    proof {
        lemma_trim_start(v@, *cls, i as int);
    }
    let ghost t = v@.subrange(i as int, v@.len() as int);
    let mut k: usize = v.len();
    while k > i && class_contains(cls, v[k - 1])
        invariant
            i <= k <= v@.len(),
            forall|j: int| k <= j < v@.len() ==> in_class(*cls, #[trigger] v@[j]),
        decreases k,
    {
        k = k - 1;
    }
    proof {
        let kk = k - i;
        assert forall|j: int| kk <= j < t.len() implies in_class(*cls, #[trigger] t[j]) by {
            assert(t[j] == v@[j + i]);
        }
        if kk > 0 {
            assert(t[kk - 1] == v@[k - 1]);
        }
        lemma_trim_end(t, *cls, kk);
        assert(t.subrange(0, kk) =~= v@.subrange(i as int, k as int));
    }
    slice_chars(v, i, k)
}

/// `str::trim`.
pub fn trim_ws(v: &[char]) -> (r: Vec<char>)
    ensures
        r@ == trim(v@),
{
    trim_class_exec(v, &CharClass::Whitespace)
}

/// `v` with the characters of `cls` trimmed from its end.
pub fn trim_end_class_exec(v: &[char], cls: &CharClass) -> (r: Vec<char>)
    ensures
        r@ == trim_end_class(v@, *cls),
{
    let mut k: usize = v.len();
    while k > 0 && class_contains(cls, v[k - 1])
        invariant
            k <= v@.len(),
            forall|j: int| k <= j < v@.len() ==> in_class(*cls, #[trigger] v@[j]),
        decreases k,
    {
        k = k - 1;
    }
    proof {
        lemma_trim_end(v@, *cls, k as int);
    }
    slice_chars(v, 0, k)
}

/// `v` with every trailing repetition of `p` removed.
pub fn trim_end_pattern_exec(v: &[char], p: &[char]) -> (r: Vec<char>)
    ensures
        r@ == trim_end_pattern(v@, p@),
{
    let mut cur = slice_chars(v, 0, v.len());
    proof {
        assert(v@.subrange(0, v@.len() as int) =~= v@);
    }
    while p.len() > 0 && ends_with_exec(&cur, p)
        invariant
            trim_end_pattern(cur@, p@) == trim_end_pattern(v@, p@),
        decreases cur@.len(),
    {
        cur = slice_chars(&cur, 0, cur.len() - p.len());
    }
    cur
}

/// Index of the first character of `cls`.
pub fn find_class_exec(v: &[char], cls: &CharClass) -> (r: Option<usize>)
    ensures
        match r {
            Some(i) => i as int == find_class(v@, *cls) && i < v@.len() && v@.len() <= usize::MAX,
            None => find_class(v@, *cls) == -1,
        },
{
    let mut i: usize = 0;
    while i < v.len()
        invariant
            i <= v@.len(),
            forall|j: int| 0 <= j < i ==> !in_class(*cls, #[trigger] v@[j]),
        decreases v@.len() - i,
    {
        if class_contains(cls, v[i]) {
            proof {
                lemma_find_class_at(v@, *cls, i as int);
            }
            return Some(i);
        }
        i = i + 1;
    }
    proof {
        lemma_find_class_at(v@, *cls, i as int);
    }
    None
}

/// Index of the first occurrence of `c`.
pub fn find_char_exec(v: &[char], c: char) -> (r: Option<usize>)
    ensures
        match r {
            Some(i) => i as int == find_char(v@, c) && i < v@.len() && v@.len() <= usize::MAX,
            None => find_char(v@, c) == -1,
        },
{
    find_class_exec(v, &CharClass::Exactly(c))
}

/// Whether any character belongs to `cls`.
pub fn contains_class_exec(v: &[char], cls: &CharClass) -> (r: bool)
    ensures
        r == exists|j: int| 0 <= j < v@.len() && in_class(*cls, #[trigger] v@[j]),
{
    proof {
        lemma_find_class(v@, *cls);
    }
    match find_class_exec(v, cls) {
        Some(_) => true,
        None => false,
    }
}

/// Whether `c` occurs.
pub fn contains_char_exec(v: &[char], c: char) -> (r: bool)
    ensures
        r == contains_char(v@, c),
{
    let r = contains_class_exec(v, &CharClass::Exactly(c));
    proof {
        if r {
            let j = choose|j: int| 0 <= j < v@.len() && in_class(CharClass::Exactly(c), #[trigger] v@[j]);
            assert(v@[j] == c);
        }
    }
    r
}

/// Index of the last occurrence of `c`.
pub fn rfind_char_exec(v: &[char], c: char) -> (r: Option<usize>)
    ensures
        match r {
            Some(i) => i as int == rfind_char(v@, c) && i < v@.len() && v@.len() <= usize::MAX,
            None => rfind_char(v@, c) == -1,
        },
{
    let mut k: usize = v.len();
    while k > 0
        invariant
            k <= v@.len(),
            forall|j: int| k <= j < v@.len() ==> #[trigger] v@[j] != c,
        decreases k,
    {
        if v[k - 1] == c {
            proof {
                lemma_rfind_char(v@, c);
                let f = rfind_char(v@, c);
                if f != k - 1 {
                    if f < k - 1 {
                        assert(v@[k - 1] != c);
                    } else {
                        assert(v@[f] == c);
                    }
                }
            }
            return Some(k - 1);
        }
        k = k - 1;
    }
    proof {
        lemma_rfind_char(v@, c);
        if rfind_char(v@, c) >= 0 {
            assert(v@[rfind_char(v@, c)] == c);
        }
    }
    None
}

/// Index of the first occurrence of the non-empty pattern `p`.
pub fn find_pattern_exec(v: &[char], p: &[char]) -> (r: Option<usize>)
    ensures
        match r {
            Some(i) => i as int == find_pattern(v@, p@) && i + p@.len() <= v@.len() && v@.len() <= usize::MAX,
            None => find_pattern(v@, p@) == -1,
        },
{
    proof {
        lemma_find_pattern(v@, p@);
    }
    if p.len() == 0 || p.len() > v.len() {
        return None;
    }
    let n = v.len();
    let last = n - p.len();
    let mut i: usize = 0;
    while i <= last
        invariant
            0 < p@.len() <= v@.len(),
            last + p@.len() == v@.len(),
            n == v@.len(),
            n <= usize::MAX,
            i <= last + 1,
            forall|j: int| 0 <= j < i ==> #[trigger] v@.subrange(j, j + p@.len()) != p@,
        decreases last + 1 - i,
    {
        let t = slice_chars(v, i, i + p.len());
        if eq_chars(&t, p) {
            proof {
                lemma_find_pattern(v@, p@);
                let f = find_pattern(v@, p@);
                if f < 0 || f > i {
                    assert(v@.subrange(i as int, i + p@.len()) == p@);
                } else if f < i {
                    assert(v@.subrange(f, f + p@.len()) != p@);
                }
            }
            return Some(i);
        }
        i = i + 1;
    }
    proof {
        let f = find_pattern(v@, p@);
        if f >= 0 {
            assert(v@.subrange(f, f + p@.len()) == p@);
        }
    }
    None
}

/// Number of occurrences of `c`.
pub fn count_char_exec(v: &[char], c: char) -> (r: usize)
    ensures
        r == count_char(v@, c),
{
    let mut n: usize = 0;
    let mut i: usize = 0;
    while i < v.len()
        invariant
            i <= v@.len(),
            n == count_char(v@.subrange(0, i as int), c),
            n <= i,
        decreases v@.len() - i,
    {
        proof {
            assert(v@.subrange(0, i + 1).drop_last() =~= v@.subrange(0, i as int));
        }
        if v[i] == c {
            n = n + 1;
        }
        i = i + 1;
    }
    proof {
        assert(v@.subrange(0, v@.len() as int) =~= v@);
    }
    n
}

/// `str::to_ascii_lowercase`.
pub fn lower_exec(v: &[char]) -> (r: Vec<char>)
    ensures
        r@ == lower_seq(v@),
{
    let mut r: Vec<char> = Vec::new();
    let mut i: usize = 0;
    while i < v.len()
        invariant
            i <= v@.len(),
            r@ == lower_seq(v@.subrange(0, i as int)),
        decreases v@.len() - i,
    {
        let c = lower_char_exec(v[i]);
        r.push(c);
        i = i + 1;
        proof {
            assert(r@ =~= lower_seq(v@.subrange(0, i as int)));
        }
    }
    proof {
        assert(v@.subrange(0, v@.len() as int) =~= v@);
    }
    r
}

/// `str::replace` of one character by another.
pub fn replace_char_exec(v: &[char], from: char, to: char) -> (r: Vec<char>)
    ensures
        r@ == replace_char(v@, from, to),
{
    let mut r: Vec<char> = Vec::new();
    let mut i: usize = 0;
    while i < v.len()
        invariant
            i <= v@.len(),
            r@ == replace_char(v@.subrange(0, i as int), from, to),
        decreases v@.len() - i,
    {
        let c = v[i];
        r.push(if c == from { to } else { c });
        i = i + 1;
        proof {
            assert(r@ =~= replace_char(v@.subrange(0, i as int), from, to));
        }
    }
    proof {
        assert(v@.subrange(0, v@.len() as int) =~= v@);
    }
    r
}

/// Whether any character is a control character.
pub fn any_control(v: &[char]) -> (r: bool)
    ensures
        r == exists|j: int| 0 <= j < v@.len() && is_control(#[trigger] v@[j]),
{
    let mut i: usize = 0;
    while i < v.len()
        invariant
            i <= v@.len(),
            forall|j: int| 0 <= j < i ==> !is_control(#[trigger] v@[j]),
        decreases v@.len() - i,
    {
        if is_control_char(v[i]) {
            return true;
        }
        i = i + 1;
    }
    false
}

pub proof fn lemma_split_class_unfold(s: Seq<char>, cls: CharClass)
    ensures
        split_class(s, cls) == (if find_class(s, cls) < 0 {
            seq![s]
        } else {
            seq![s.subrange(0, find_class(s, cls))] + split_class(
                s.subrange(find_class(s, cls) + 1, s.len() as int),
                cls,
            )
        }),
{
    lemma_find_class(s, cls);
}

/// The pieces of a split hold no character of the class split at.
pub proof fn lemma_split_pieces_outside_class(s: Seq<char>, cls: CharClass)
    ensures
        forall|k: int, j: int|
            0 <= k < split_class(s, cls).len() && 0 <= j < split_class(s, cls)[k].len() ==> !in_class(
                cls,
                #[trigger] split_class(s, cls)[k][j],
            ),
    decreases s.len(),
{
    lemma_split_class_unfold(s, cls);
    lemma_find_class(s, cls);
    let i = find_class(s, cls);
    let parts = split_class(s, cls);
    if i < 0 {
        assert(parts =~= seq![s]);
    } else {
        let rest = s.subrange(i + 1, s.len() as int);
        lemma_split_pieces_outside_class(rest, cls);
        assert forall|k: int, j: int| 0 <= k < parts.len() && 0 <= j < parts[k].len() implies !in_class(
            cls,
            #[trigger] parts[k][j],
        ) by {
            if k > 0 {
                assert(parts[k] == split_class(rest, cls)[k - 1]);
            } else {
                assert(parts[0][j] == s[j]);
            }
        }
    }
}

/// `str::split` at every character of `cls`.
pub fn split_class_exec(v: &[char], cls: &CharClass) -> (r: Vec<Vec<char>>)
    ensures
        views(r@) == split_class(v@, *cls),
    decreases v@.len(),
{
    proof {
        lemma_split_class_unfold(v@, *cls);
    }
    match find_class_exec(v, cls) {
        None => {
            let mut r: Vec<Vec<char>> = Vec::new();
            r.push(slice_chars(v, 0, v.len()));
            proof {
                assert(v@.subrange(0, v@.len() as int) =~= v@);
                assert(views(r@) =~= seq![v@]);
            }
            r
        },
        Some(i) => {
            let n = v.len();
            assert(i < n);
            let head = slice_chars(v, 0, i);
            let rest = tail(v, i + 1);
            let mut rest_parts = split_class_exec(&rest, cls);
            let mut r: Vec<Vec<char>> = Vec::new();
            r.push(head);
            let ghost r0 = r@;
            let ghost rp = rest_parts@;
            r.append(&mut rest_parts);
            proof {
                assert(r@ == r0 + rp);
                assert(views(r@) =~= seq![v@.subrange(0, i as int)] + views(rp));
            }
            r
        },
    }
}

/// Drops the empty pieces, keeping the order of the rest.
pub fn drop_empty_exec(parts: &Vec<Vec<char>>) -> (r: Vec<Vec<char>>)
    ensures
        views(r@) == drop_empty(views(parts@)),
{
    let mut r: Vec<Vec<char>> = Vec::new();
    let mut k: usize = 0;
    while k < parts.len()
        invariant
            k <= parts@.len(),
            views(r@) == drop_empty(views(parts@).subrange(0, k as int)),
        decreases parts@.len() - k,
    {
        proof {
            assert(views(parts@).subrange(0, k + 1).drop_last() =~= views(parts@).subrange(
                0,
                k as int,
            ));
            assert(views(parts@).subrange(0, k + 1).last() == parts@[k as int]@);
        }
        if parts[k].len() > 0 {
            r.push(slice_chars(&parts[k], 0, parts[k].len()));
            proof {
                assert(parts@[k as int]@.subrange(0, parts@[k as int]@.len() as int)
                    =~= parts@[k as int]@);
                assert(views(r@) =~= drop_empty(views(parts@).subrange(0, k + 1)));
            }
        }
        k = k + 1;
    }
    proof {
        assert(views(parts@).subrange(0, parts@.len() as int) =~= views(parts@));
    }
    r
}

/// Joins pieces with a one-character separator.
pub fn join_exec(parts: &[Vec<char>], sep: char) -> (r: Vec<char>)
    ensures
        r@ == join_with(views(parts@), sep),
{
    let mut r: Vec<char> = Vec::new();
    let mut k: usize = 0;
    while k < parts.len()
        invariant
            k <= parts@.len(),
            r@ == join_with(views(parts@).subrange(0, k as int), sep),
        decreases parts@.len() - k,
    {
        proof {
            assert(views(parts@).subrange(0, k + 1).drop_last() =~= views(parts@).subrange(
                0,
                k as int,
            ));
        }
        if k > 0 {
            r.push(sep);
        }
        append_chars(&mut r, &parts[k]);
        k = k + 1;
        proof {
            if k == 1 {
                assert(r@ =~= parts@[0]@);
            }
        }
    }
    proof {
        assert(views(parts@).subrange(0, parts@.len() as int) =~= views(parts@));
    }
    r
}

// ---------------------------------------------------------------------------
// Decimal numbers
// ---------------------------------------------------------------------------

/// The ASCII digit for `d < 10`.
pub open spec fn digit_char(d: nat) -> char {
    (48 + d) as char
}

/// Decimal digits of `n` without leading zeros, as `Display` writes an
/// unsigned integer.
pub open spec fn decimal(n: nat) -> Seq<char>
    decreases n,
{
    if n < 10 {
        seq![digit_char(n)]
    } else {
        decimal(n / 10).push(digit_char(n % 10))
    }
}

fn digit_exec(d: u64) -> (r: char)
    requires
        d < 10,
    ensures
        r == digit_char(d as nat),
{
    match d {
        0 => '0',
        1 => '1',
        2 => '2',
        3 => '3',
        4 => '4',
        5 => '5',
        6 => '6',
        7 => '7',
        8 => '8',
        _ => '9',
    }
}

/// The decimal digits of `n`.
pub fn decimal_chars(n: u64) -> (r: Vec<char>)
    ensures
        r@ == decimal(n as nat),
    decreases n,
{
    if n < 10 {
        let mut r: Vec<char> = Vec::new();
        r.push(digit_exec(n));
        r
    } else {
        let mut r = decimal_chars(n / 10);
        r.push(digit_exec(n % 10));
        r
    }
}

/// Appends the characters of `s`.
pub fn push_str_chars(dst: &mut Vec<char>, s: &str)
    ensures
        final(dst)@ == old(dst)@ + s@,
{
    let c = chars_of(s);
    append_chars(dst, &c);
}

} // verus!
