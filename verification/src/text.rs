//! Character-level string helpers used by the rest of the library.
//!
//! Strings are handled as sequences of `char`: every operation here is given
//! a spec function over `Seq<char>` and an executable version proved to match it.

use vstd::prelude::*;

verus! {

broadcast use vstd::string::group_string_axioms;

// ───────────────────────── outside calls ─────────────────────────

/// Whether every character of `s` is ASCII.
pub open spec fn all_ascii(s: Seq<char>) -> bool {
    forall|i: int| 0 <= i < s.len() ==> (#[trigger] s[i] as u32) < 128
}

/// The Unicode lower-case mapping of a string (`str::to_lowercase`).
pub uninterp spec fn unicode_lowercase(s: Seq<char>) -> Seq<char>;

/// Appends one character to a `String` (`String::push`).
/// Claims that the view of the string grows by exactly that character.
#[verifier::external_body]
pub(crate) fn push_char(s: &mut String, c: char)
    ensures
        final(s)@ == old(s)@.push(c),
{
    s.push(c);
}

/// `str::to_lowercase`; claims that the result is the Unicode lower-case
/// mapping of the argument, a function of the argument alone, and that on
/// ASCII text it lowers `A`..`Z` and leaves every other character as it is
/// (the Unicode mapping agrees with `to_ascii_lowercase` there).
#[verifier::external_body]
pub(crate) fn to_lowercase(s: &str) -> (r: String)
    ensures
        r@ == unicode_lowercase(s@),
        all_ascii(s@) ==> r@ == s@.map_values(|c: char| ascii_lower(c)),
{
    s.to_lowercase()
}

// ───────────────────────── white space ─────────────────────────

/// Whether `c` has the Unicode `White_Space` property (`char::is_whitespace`):
/// U+0009..U+000D, U+0020, U+0085, U+00A0, U+1680, U+2000..U+200A, U+2028,
/// U+2029, U+202F, U+205F and U+3000.
pub open spec fn unicode_white_space(c: char) -> bool {
    let u = c as u32;
    ||| 0x09 <= u <= 0x0D
    ||| u == 0x20
    ||| u == 0x85
    ||| u == 0xA0
    ||| u == 0x1680
    ||| 0x2000 <= u <= 0x200A
    ||| u == 0x2028
    ||| u == 0x2029
    ||| u == 0x202F
    ||| u == 0x205F
    ||| u == 0x3000
}

/// Whether `c` is white space in the sense of `char::is_whitespace` (the
/// Unicode `White_Space` property).
pub(crate) fn is_white_space(c: char) -> (b: bool)
    ensures
        b == unicode_white_space(c),
{
    let u = c as u32;
    (0x09 <= u && u <= 0x0D) || u == 0x20 || u == 0x85 || u == 0xA0 || u == 0x1680 || (0x2000
        <= u && u <= 0x200A) || u == 0x2028 || u == 0x2029 || u == 0x202F || u == 0x205F || u
        == 0x3000
}

// ───────────────────────── conversions ─────────────────────────

/// The characters of a string slice, in order.
pub fn chars_of(s: &str) -> (v: Vec<char>)
    ensures
        v@ == s@,
{
    let mut v: Vec<char> = Vec::new();
    for c in it: s.chars()
        invariant
            v@ == it.seq().take(it.index() as int),
            it.seq() == s@,
    {
        v.push(c);
    }
    v
}

/// A `String` holding exactly the given characters.
pub fn string_of(cs: &Vec<char>) -> (s: String)
    ensures
        s@ == cs@,
{
    let mut s = String::new();
    let mut i: usize = 0;
    while i < cs.len()
        invariant
            i <= cs.len(),
            s@ == cs@.take(i as int),
        decreases cs.len() - i,
    {
        push_char(&mut s, cs[i]);
        i = i + 1;
        assert(cs@.take(i as int) == cs@.take(i - 1).push(cs@[i - 1]));
    }
    assert(cs@.take(cs.len() as int) == cs@);
    s
}

/// A copy of `s[a..b]`.
pub fn copy_range(s: &Vec<char>, a: usize, b: usize) -> (r: Vec<char>)
    requires
        a <= b <= s.len(),
    ensures
        r@ == s@.subrange(a as int, b as int),
{
    let mut r: Vec<char> = Vec::new();
    let mut i: usize = a;
    while i < b
        invariant
            a <= i <= b <= s.len(),
            r@ == s@.subrange(a as int, i as int),
        decreases b - i,
    {
        r.push(s[i]);
        i = i + 1;
        assert(s@.subrange(a as int, i as int) == s@.subrange(a as int, i - 1).push(s@[i - 1]));
    }
    r
}

/// Appends all of `w` to `v`.
pub fn append_chars(v: &mut Vec<char>, w: &Vec<char>)
    ensures
        final(v)@ == old(v)@ + w@,
{
    let mut i: usize = 0;
    while i < w.len()
        invariant
            i <= w.len(),
            v@ == old(v)@ + w@.take(i as int),
        decreases w.len() - i,
    {
        v.push(w[i]);
        i = i + 1;
        assert(w@.take(i as int) == w@.take(i - 1).push(w@[i - 1]));
    }
    assert(w@.take(w.len() as int) == w@);
}

/// Appends all characters of `w` to `v`.
pub fn append_str(v: &mut Vec<char>, w: &str)
    ensures
        final(v)@ == old(v)@ + w@,
{
    let cs = chars_of(w);
    append_chars(v, &cs);
}

/// Whether two character sequences are equal.
pub fn chars_equal(a: &Vec<char>, b: &Vec<char>) -> (r: bool)
    ensures
        r == (a@ == b@),
{
    if a.len() != b.len() {
        return false;
    }
    let mut i: usize = 0;
    while i < a.len()
        invariant
            a.len() == b.len(),
            i <= a.len(),
            forall|j: int| 0 <= j < i ==> a@[j] == b@[j],
        decreases a.len() - i,
    {
        if a[i] != b[i] {
            return false;
        }
        i = i + 1;
    }
    assert(a@ =~= b@);
    true
}

/// Whether two string slices hold the same characters.
pub fn str_equal(a: &str, b: &str) -> (r: bool)
    ensures
        r == (a@ == b@),
{
    let x = chars_of(a);
    let y = chars_of(b);
    chars_equal(&x, &y)
}

// ───────────────────────── trimming ─────────────────────────

/// A class of characters that trimming removes.
#[derive(Clone, Copy)]
pub enum CharClass {
    /// Unicode white space (as `str::trim` removes).
    WhiteSpace,
    /// One given character (as `str::trim_matches(c)` removes).
    Exactly(char),
}

pub open spec fn in_class(c: char, k: CharClass) -> bool {
    match k {
        CharClass::WhiteSpace => unicode_white_space(c),
        CharClass::Exactly(d) => c == d,
    }
}

pub fn char_in_class(c: char, k: CharClass) -> (b: bool)
    ensures
        b == in_class(c, k),
{
    match k {
        CharClass::WhiteSpace => is_white_space(c),
        CharClass::Exactly(d) => c == d,
    }
}

/// Number of leading characters of `s` that are in class `k`.
pub open spec fn lead_count(s: Seq<char>, k: CharClass) -> nat
    decreases s.len(),
{
    if s.len() > 0 && in_class(s[0], k) {
        1 + lead_count(s.drop_first(), k)
    } else {
        0
    }
}

/// Number of trailing characters of `s` that are in class `k`.
pub open spec fn trail_count(s: Seq<char>, k: CharClass) -> nat
    decreases s.len(),
{
    if s.len() > 0 && in_class(s.last(), k) {
        1 + trail_count(s.drop_last(), k)
    } else {
        0
    }
}

pub proof fn lemma_lead_count_bound(s: Seq<char>, k: CharClass)
    ensures
        lead_count(s, k) <= s.len(),
    decreases s.len(),
{
    if s.len() > 0 && in_class(s[0], k) {
        lemma_lead_count_bound(s.drop_first(), k);
    }
}

pub proof fn lemma_trail_count_bound(s: Seq<char>, k: CharClass)
    ensures
        trail_count(s, k) <= s.len(),
    decreases s.len(),
{
    if s.len() > 0 && in_class(s.last(), k) {
        lemma_trail_count_bound(s.drop_last(), k);
    }
}

/// `s` without its leading characters of class `k` (`trim_start_matches`).
pub open spec fn trim_start_spec(s: Seq<char>, k: CharClass) -> Seq<char> {
    s.skip(lead_count(s, k) as int)
}

/// `s` without its trailing characters of class `k` (`trim_end_matches`).
pub open spec fn trim_end_spec(s: Seq<char>, k: CharClass) -> Seq<char> {
    s.take(s.len() - trail_count(s, k))
}

/// `s` without leading and trailing characters of class `k` (`trim`, `trim_matches`).
pub open spec fn trim_spec(s: Seq<char>, k: CharClass) -> Seq<char> {
    trim_end_spec(trim_start_spec(s, k), k)
}

proof fn lemma_lead_stops(s: Seq<char>, k: CharClass)
    ensures
        lead_count(s, k) < s.len() ==> !in_class(s[lead_count(s, k) as int], k),
    decreases s.len(),
{
    if s.len() > 0 && in_class(s[0], k) {
        lemma_lead_stops(s.drop_first(), k);
        if lead_count(s, k) < s.len() {
            assert(s[lead_count(s, k) as int] == s.drop_first()[lead_count(s.drop_first(), k) as int]);
        }
    }
}

proof fn lemma_trail_stops(s: Seq<char>, k: CharClass)
    ensures
        trail_count(s, k) < s.len() ==> !in_class(s[s.len() - 1 - trail_count(s, k)], k),
    decreases s.len(),
{
    if s.len() > 0 && in_class(s.last(), k) {
        lemma_trail_stops(s.drop_last(), k);
        if trail_count(s, k) < s.len() {
            assert(s[s.len() - 1 - trail_count(s, k)] == s.drop_last()[s.drop_last().len() - 1 - trail_count(s.drop_last(), k)]);
        }
    }
}

/// Appending a character outside the class does not change how many
/// leading characters are in it.
pub proof fn lemma_lead_count_push(s: Seq<char>, c: char, k: CharClass)
    requires
        !in_class(c, k),
    ensures
        lead_count(s.push(c), k) == lead_count(s, k),
    decreases s.len(),
{
    if s.len() > 0 {
        assert(s.push(c)[0] == s[0]);
        assert(s.push(c).drop_first() =~= s.drop_first().push(c));
        lemma_lead_count_push(s.drop_first(), c, k);
    } else {
        assert(s.push(c)[0] == c);
    }
}

/// Trimming the start of a text followed by a character outside the class
/// trims the text and keeps that character.
pub proof fn lemma_trim_start_push(s: Seq<char>, c: char, k: CharClass)
    requires
        !in_class(c, k),
    ensures
        trim_start_spec(s.push(c), k) == trim_start_spec(s, k).push(c),
{
    lemma_lead_count_push(s, c, k);
    lemma_lead_count_bound(s, k);
    assert(s.push(c).skip(lead_count(s, k) as int) =~= s.skip(lead_count(s, k) as int).push(c));
}

/// A text whose last character is outside the class (or an empty text) is
/// its own end-trimming.
pub proof fn lemma_trim_end_keeps(s: Seq<char>, k: CharClass)
    requires
        s.len() == 0 || !in_class(s.last(), k),
    ensures
        trim_end_spec(s, k) == s,
{
    assert(s.take(s.len() as int) =~= s);
}

/// End-trimming ignores one more character of the class at the end.
pub proof fn lemma_trim_end_push_in_class(s: Seq<char>, c: char, k: CharClass)
    requires
        in_class(c, k),
    ensures
        trim_end_spec(s.push(c), k) == trim_end_spec(s, k),
{
    assert(s.push(c).drop_last() =~= s);
    lemma_trail_count_bound(s, k);
    assert(s.push(c).take(s.len() - trail_count(s, k)) =~= s.take(s.len() - trail_count(s, k)));
}

/// A trimmed text that is not empty neither starts nor ends with a
/// character of the trimmed class.
pub proof fn lemma_trim_ends(s: Seq<char>, k: CharClass)
    ensures
        trim_spec(s, k).len() > 0 ==> !in_class(trim_spec(s, k)[0], k) && !in_class(trim_spec(s, k).last(), k),
{
    let u = trim_start_spec(s, k);
    lemma_lead_count_bound(s, k);
    lemma_lead_stops(s, k);
    lemma_trail_count_bound(u, k);
    lemma_trail_stops(u, k);
    let t = trim_spec(s, k);
    if t.len() > 0 {
        assert(u[0] == s[lead_count(s, k) as int]);
        assert(t[0] == u[0]);
        assert(t.last() == u[u.len() - 1 - trail_count(u, k)]);
    }
}

/// Number of leading characters of class `k`.
pub fn lead_len(s: &Vec<char>, k: CharClass) -> (n: usize)
    ensures
        n == lead_count(s@, k),
        n <= s.len(),
{
    let mut i: usize = 0;
    assert(s@.skip(0) =~= s@);
    while i < s.len() && char_in_class(s[i], k)
        invariant
            i <= s.len(),
            lead_count(s@, k) == i + lead_count(s@.skip(i as int), k),
        decreases s.len() - i,
    {
        assert(s@.skip(i as int).drop_first() =~= s@.skip(i + 1));
        i = i + 1;
    }
    proof {
        if i < s.len() {
            assert(s@.skip(i as int)[0] == s@[i as int]);
        }
    }
    i
}

/// Number of trailing characters of class `k`.
pub fn trail_len(s: &Vec<char>, k: CharClass) -> (n: usize)
    ensures
        n == trail_count(s@, k),
        n <= s.len(),
{
    let mut i: usize = 0;
    assert(s@.take(s.len() as int) =~= s@);
    while i < s.len() && char_in_class(s[s.len() - 1 - i], k)
        invariant
            i <= s.len(),
            trail_count(s@, k) == i + trail_count(s@.take(s.len() - i), k),
        decreases s.len() - i,
    {
        assert(s@.take(s.len() - i).drop_last() =~= s@.take(s.len() - i - 1));
        i = i + 1;
    }
    proof {
        if i < s.len() {
            assert(s@.take(s.len() - i).last() == s@[s.len() - 1 - i]);
        } else {
            assert(s@.take(0) =~= Seq::<char>::empty());
        }
    }
    i
}

/// `trim_start_matches` for the class `k`.
pub fn trim_start_chars(s: &Vec<char>, k: CharClass) -> (r: Vec<char>)
    ensures
        r@ == trim_start_spec(s@, k),
{
    let a = lead_len(s, k);
    copy_range(s, a, s.len())
}

/// `trim_end_matches` for the class `k`.
pub fn trim_end_chars(s: &Vec<char>, k: CharClass) -> (r: Vec<char>)
    ensures
        r@ == trim_end_spec(s@, k),
{
    let b = trail_len(s, k);
    copy_range(s, 0, s.len() - b)
}

/// `trim` / `trim_matches` for the class `k`.
pub fn trim_chars(s: &Vec<char>, k: CharClass) -> (r: Vec<char>)
    ensures
        r@ == trim_spec(s@, k),
{
    let t = trim_start_chars(s, k);
    trim_end_chars(&t, k)
}

/// `str::trim`: the string without leading and trailing Unicode white space.
pub fn trim_str(s: &str) -> (r: String)
    ensures
        r@ == trim_spec(s@, CharClass::WhiteSpace),
{
    let cs = chars_of(s);
    let t = trim_chars(&cs, CharClass::WhiteSpace);
    string_of(&t)
}

// ───────────────────────── searching ─────────────────────────

/// The first position at or after `i` where `p` occurs in `s`.
pub open spec fn find_from(s: Seq<char>, p: Seq<char>, i: int) -> Option<int>
    decreases s.len() + 1 - i,
{
    if i < 0 || i + p.len() > s.len() {
        None
    } else if s.subrange(i, i + p.len()) == p {
        Some(i)
    } else {
        find_from(s, p, i + 1)
    }
}

/// The first position where `p` occurs in `s` (`str::find`).
pub open spec fn find_spec(s: Seq<char>, p: Seq<char>) -> Option<int> {
    find_from(s, p, 0)
}

pub proof fn lemma_find_from_bounds(s: Seq<char>, p: Seq<char>, i: int)
    ensures
        find_from(s, p, i) matches Some(j) ==> i <= j && j + p.len() <= s.len()
            && s.subrange(j, j + p.len()) == p,
    decreases s.len() + 1 - i,
{
    if i < 0 || i + p.len() > s.len() {
    } else if s.subrange(i, i + p.len()) == p {
    } else {
        lemma_find_from_bounds(s, p, i + 1);
    }
}

/// Whether `p` occurs in `s` at position `i`.
pub fn occurs_at(s: &Vec<char>, p: &Vec<char>, i: usize) -> (r: bool)
    requires
        i + p.len() <= s.len(),
    ensures
        r == (s@.subrange(i as int, i + p.len()) == p@),
{
    let mut j: usize = 0;
    while j < p.len()
        invariant
            i + p.len() <= s.len(),
            j <= p.len(),
            forall|t: int| 0 <= t < j ==> s@[i + t] == p@[t],
        decreases p.len() - j,
    {
        if s[i + j] != p[j] {
            assert(s@.subrange(i as int, i + p.len())[j as int] != p@[j as int]);
            return false;
        }
        j = j + 1;
    }
    assert(s@.subrange(i as int, i + p.len()) =~= p@);
    true
}

/// `str::find` for a pattern of characters.
pub fn find_chars(s: &Vec<char>, p: &Vec<char>) -> (r: Option<usize>)
    ensures
        match r {
            Some(j) => find_spec(s@, p@) == Some(j as int),
            None => find_spec(s@, p@) is None,
        },
{
    if p.len() > s.len() {
        return None;
    }
    if p.len() == 0 {
        assert(s@.subrange(0, 0) =~= p@);
        return Some(0);
    }
    let mut i: usize = 0;
    while i <= s.len() - p.len()
        invariant
            1 <= p.len() <= s.len(),
            i <= s.len() - p.len() + 1,
            find_spec(s@, p@) == find_from(s@, p@, i as int),
        decreases s.len() - i,
    {
        if occurs_at(s, p, i) {
            return Some(i);
        }
        i = i + 1;
    }
    None
}

/// Whether `p` occurs in `s` (`str::contains`).
pub fn contains_chars(s: &Vec<char>, p: &Vec<char>) -> (r: bool)
    ensures
        r == (find_spec(s@, p@) is Some),
{
    match find_chars(s, p) {
        Some(_) => true,
        None => false,
    }
}

/// The last position of `c` in `s` before position `n`.
pub open spec fn rfind_before(s: Seq<char>, c: char, n: int) -> Option<int>
    decreases n,
{
    if n <= 0 || n > s.len() {
        None
    } else if s[n - 1] == c {
        Some(n - 1)
    } else {
        rfind_before(s, c, n - 1)
    }
}

/// The last position of `c` in `s` (`str::rfind`).
pub open spec fn rfind_spec(s: Seq<char>, c: char) -> Option<int> {
    rfind_before(s, c, s.len() as int)
}

pub proof fn lemma_rfind_before_bounds(s: Seq<char>, c: char, n: int)
    ensures
        rfind_before(s, c, n) matches Some(j) ==> 0 <= j < n && j < s.len() && s[j] == c,
    decreases n,
{
    if n <= 0 || n > s.len() {
    } else if s[n - 1] == c {
    } else {
        lemma_rfind_before_bounds(s, c, n - 1);
    }
}

/// Nothing after the position `rfind_before` finds is `c`.
pub proof fn lemma_rfind_after(s: Seq<char>, c: char, n: int)
    requires
        n <= s.len(),
    ensures
        rfind_before(s, c, n) matches Some(j) ==> forall|i: int| j < i < n ==> #[trigger] s[i] != c,
    decreases n,
{
    if n > 0 && s[n - 1] != c {
        lemma_rfind_after(s, c, n - 1);
    }
}

/// When `rfind_before` finds nothing, no character before `n` is `c`.
pub proof fn lemma_rfind_none(s: Seq<char>, c: char, n: int)
    requires
        n <= s.len(),
    ensures
        rfind_before(s, c, n) is None ==> forall|i: int| 0 <= i < n ==> #[trigger] s[i] != c,
    decreases n,
{
    if n > 0 && s[n - 1] != c {
        lemma_rfind_none(s, c, n - 1);
    }
}

/// `str::rfind` for one character.
pub fn rfind_char(s: &Vec<char>, c: char) -> (r: Option<usize>)
    ensures
        match r {
            Some(j) => rfind_spec(s@, c) == Some(j as int) && j < s.len(),
            None => rfind_spec(s@, c) is None,
        },
{
    let mut n: usize = s.len();
    while n > 0
        invariant
            n <= s.len(),
            rfind_spec(s@, c) == rfind_before(s@, c, n as int),
        decreases n,
    {
        if s[n - 1] == c {
            return Some(n - 1);
        }
        n = n - 1;
    }
    None
}

/// Whether `s` begins with `p`.
pub open spec fn starts_with_spec(s: Seq<char>, p: Seq<char>) -> bool {
    p.len() <= s.len() && s.take(p.len() as int) == p
}

/// Whether `s` ends with `p`.
pub open spec fn ends_with_spec(s: Seq<char>, p: Seq<char>) -> bool {
    p.len() <= s.len() && s.skip(s.len() - p.len()) == p
}

/// `str::starts_with`.
pub fn starts_with_chars(s: &Vec<char>, p: &Vec<char>) -> (r: bool)
    ensures
        r == starts_with_spec(s@, p@),
{
    if p.len() > s.len() {
        return false;
    }
    let r = occurs_at(s, p, 0);
    assert(s@.subrange(0, p.len() as int) == s@.take(p.len() as int));
    r
}

/// `str::ends_with`.
pub fn ends_with_chars(s: &Vec<char>, p: &Vec<char>) -> (r: bool)
    ensures
        r == ends_with_spec(s@, p@),
{
    if p.len() > s.len() {
        return false;
    }
    let r = occurs_at(s, p, s.len() - p.len());
    assert(s@.subrange(s.len() - p.len(), s.len() as int) == s@.skip(s.len() - p.len()));
    r
}

// ───────────────────────── splitting ─────────────────────────

/// The pieces of `s` between occurrences of `c` (`str::split(c)`).
pub open spec fn split_spec(s: Seq<char>, c: char) -> Seq<Seq<char>>
    decreases s.len(),
{
    if s.len() == 0 {
        seq![Seq::<char>::empty()]
    } else {
        let pre = split_spec(s.drop_last(), c);
        if s.last() == c {
            pre.push(Seq::<char>::empty())
        } else {
            pre.update(pre.len() - 1, pre.last().push(s.last()))
        }
    }
}

pub proof fn lemma_split_nonempty(s: Seq<char>, c: char)
    ensures
        split_spec(s, c).len() >= 1,
    decreases s.len(),
{
    if s.len() > 0 {
        lemma_split_nonempty(s.drop_last(), c);
    }
}

/// Pieces joined with `c` between them.
pub open spec fn join_with(pieces: Seq<Seq<char>>, c: char) -> Seq<char>
    decreases pieces.len(),
{
    if pieces.len() == 0 {
        Seq::<char>::empty()
    } else if pieces.len() == 1 {
        pieces[0]
    } else {
        join_with(pieces.drop_last(), c) + seq![c] + pieces.last()
    }
}

/// Splitting at `c` leaves no `c` inside a piece, and joining the pieces
/// with `c` gives the text back.
pub proof fn law_split_then_join(s: Seq<char>, c: char)
    ensures
        forall|i: int, j: int|
            0 <= i < split_spec(s, c).len() && 0 <= j < split_spec(s, c)[i].len() ==> #[trigger] split_spec(s, c)[i][j] != c,
        join_with(split_spec(s, c), c) == s,
    decreases s.len(),
{
    if s.len() == 0 {
        assert(split_spec(s, c) =~= seq![Seq::<char>::empty()]);
    } else {
        let d = s.drop_last();
        let x = s.last();
        law_split_then_join(d, c);
        lemma_split_nonempty(d, c);
        let pre = split_spec(d, c);
        let t = split_spec(s, c);
        if x == c {
            assert(t == pre.push(Seq::<char>::empty()));
            assert(t.drop_last() =~= pre);
            assert forall|i: int, j: int| 0 <= i < t.len() && 0 <= j < t[i].len() implies #[trigger] t[i][j] != c by {
                assert(t[i] == pre[i]);
            }
            assert(join_with(t, c) =~= s);
        } else {
            assert(t == pre.update(pre.len() - 1, pre.last().push(x)));
            assert forall|i: int, j: int| 0 <= i < t.len() && 0 <= j < t[i].len() implies #[trigger] t[i][j] != c by {
                if i < pre.len() - 1 {
                    assert(t[i] == pre[i]);
                } else {
                    assert(t[i] == pre.last().push(x));
                    if j < pre.last().len() {
                        assert(t[i][j] == pre[pre.len() - 1][j]);
                    }
                }
            }
            if pre.len() == 1 {
                assert(join_with(t, c) == t[0]);
                assert(join_with(pre, c) == pre[0]);
                assert(join_with(t, c) =~= s);
            } else {
                assert(t.drop_last() =~= pre.drop_last());
                assert(t.last() == pre.last().push(x));
                let jp = join_with(pre.drop_last(), c);
                assert(join_with(pre, c) == jp + seq![c] + pre.last());
                assert(join_with(t, c) == jp + seq![c] + pre.last().push(x));
                assert(d.push(x) =~= s);
                assert(jp + seq![c] + pre.last().push(x) =~= (jp + seq![c] + pre.last()).push(x));
                assert(join_with(t, c) =~= s);
            }
        }
    }
}

/// `str::split(c)`, collected.
pub fn split_char(s: &Vec<char>, c: char) -> (r: Vec<Vec<char>>)
    ensures
        r@.len() == split_spec(s@, c).len(),
        forall|i: int| 0 <= i < r@.len() ==> #[trigger] r@[i]@ == split_spec(s@, c)[i],
{
    let mut done: Vec<Vec<char>> = Vec::new();
    let mut cur: Vec<char> = Vec::new();
    let mut i: usize = 0;
    while i < s.len()
        invariant
            i <= s.len(),
            done@.len() + 1 == split_spec(s@.take(i as int), c).len(),
            forall|j: int| 0 <= j < done@.len() ==> #[trigger] done@[j]@ == split_spec(s@.take(i as int), c)[j],
            cur@ == split_spec(s@.take(i as int), c).last(),
        decreases s.len() - i,
    {
        proof {
            let t = s@.take(i + 1);
            assert(t.drop_last() =~= s@.take(i as int));
            assert(t.last() == s@[i as int]);
            lemma_split_nonempty(s@.take(i as int), c);
        }
        if s[i] == c {
            let finished = cur;
            done.push(finished);
            cur = Vec::new();
        } else {
            cur.push(s[i]);
        }
        i = i + 1;
    }
    assert(s@.take(s.len() as int) =~= s@);
    done.push(cur);
    proof {
        lemma_split_nonempty(s@, c);
        assert forall|j: int| 0 <= j < done@.len() implies #[trigger] done@[j]@ == split_spec(s@, c)[j] by {
        }
    }
    done
}

// ───────────────────────── ASCII helpers ─────────────────────────

pub open spec fn is_ascii_alnum(c: char) -> bool {
    ('0' <= c && c <= '9') || ('a' <= c && c <= 'z') || ('A' <= c && c <= 'Z')
}

/// The ASCII lower-case of one character (`char::to_ascii_lowercase`).
pub open spec fn ascii_lower(c: char) -> char {
    if 'A' <= c && c <= 'Z' {
        ((c as u32) + 32) as char
    } else {
        c
    }
}

pub fn ascii_lower_char(c: char) -> (r: char)
    ensures
        r == ascii_lower(c),
{
    if 'A' <= c && c <= 'Z' {
        let b = (c as u32) + 32;
        let u = b as u8;
        assert(u as u32 == b);
        u as char
    } else {
        c
    }
}

/// `s` keeping only its ASCII letters and digits.
pub open spec fn keep_ascii_alnum(s: Seq<char>) -> Seq<char>
    decreases s.len(),
{
    if s.len() == 0 {
        Seq::<char>::empty()
    } else if is_ascii_alnum(s.last()) {
        keep_ascii_alnum(s.drop_last()).push(s.last())
    } else {
        keep_ascii_alnum(s.drop_last())
    }
}

// ───────────────────────── ordering ─────────────────────────

/// Lexicographic order on character sequences by code point, which is the
/// order of `String`'s `Ord` (UTF-8 preserves code-point order).
pub open spec fn lex_lt(a: Seq<char>, b: Seq<char>) -> bool
    decreases a.len(),
{
    if a.len() == 0 {
        b.len() > 0
    } else if b.len() == 0 {
        false
    } else if a[0] != b[0] {
        a[0] < b[0]
    } else {
        lex_lt(a.drop_first(), b.drop_first())
    }
}

pub proof fn lemma_lex_irreflexive(a: Seq<char>)
    ensures
        !lex_lt(a, a),
    decreases a.len(),
{
    if a.len() > 0 {
        lemma_lex_irreflexive(a.drop_first());
    }
}

pub proof fn lemma_lex_asymmetric(a: Seq<char>, b: Seq<char>)
    requires
        lex_lt(a, b),
    ensures
        !lex_lt(b, a),
    decreases a.len(),
{
    if a.len() > 0 && b.len() > 0 && a[0] == b[0] {
        lemma_lex_asymmetric(a.drop_first(), b.drop_first());
    }
}

pub proof fn lemma_lex_transitive(a: Seq<char>, b: Seq<char>, c: Seq<char>)
    requires
        lex_lt(a, b),
        lex_lt(b, c),
    ensures
        lex_lt(a, c),
    decreases a.len(),
{
    if a.len() > 0 && b.len() > 0 && c.len() > 0 && a[0] == b[0] && b[0] == c[0] {
        lemma_lex_transitive(a.drop_first(), b.drop_first(), c.drop_first());
    }
}

pub proof fn lemma_lex_total(a: Seq<char>, b: Seq<char>)
    requires
        a != b,
    ensures
        lex_lt(a, b) || lex_lt(b, a),
    decreases a.len(),
{
    if a.len() > 0 && b.len() > 0 && a[0] == b[0] {
        if a.drop_first() == b.drop_first() {
            assert(a =~= seq![a[0]] + a.drop_first());
            assert(b =~= seq![b[0]] + b.drop_first());
            assert(false);
        } else {
            lemma_lex_total(a.drop_first(), b.drop_first());
        }
    } else if a.len() == 0 && b.len() == 0 {
        assert(a =~= b);
    }
}

/// `a < b` for strings given as characters.
pub fn lex_less(a: &Vec<char>, b: &Vec<char>) -> (r: bool)
    ensures
        r == lex_lt(a@, b@),
{
    let mut i: usize = 0;
    assert(a@.skip(0) =~= a@);
    assert(b@.skip(0) =~= b@);
    while i < a.len() && i < b.len() && a[i] == b[i]
        invariant
            i <= a.len(),
            i <= b.len(),
            lex_lt(a@, b@) == lex_lt(a@.skip(i as int), b@.skip(i as int)),
        decreases a.len() - i,
    {
        assert(a@.skip(i as int).drop_first() =~= a@.skip(i + 1));
        assert(b@.skip(i as int).drop_first() =~= b@.skip(i + 1));
        i = i + 1;
    }
    if i == a.len() {
        i < b.len()
    } else if i == b.len() {
        false
    } else {
        assert(a@.skip(i as int)[0] == a@[i as int]);
        assert(b@.skip(i as int)[0] == b@[i as int]);
        a[i] < b[i]
    }
}

} // verus!
