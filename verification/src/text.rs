//! Character-level string helpers shared by the other modules.
//!
//! Text is modelled as `Seq<char>`, the view that vstd gives `str` and
//! `String`.

use vstd::prelude::*;

verus! {

/// `p` occurs in `s` starting at index `i`.
pub open spec fn occurs_at(s: Seq<char>, p: Seq<char>, i: int) -> bool {
    &&& 0 <= i
    &&& i + p.len() <= s.len()
    &&& s.subrange(i, i + p.len()) == p
}

/// The first index at or after `i` where `p` occurs in `s`.
pub open spec fn find_from(s: Seq<char>, p: Seq<char>, i: nat) -> Option<int>
    decreases s.len() - i,
{
    if i + p.len() > s.len() {
        None
    } else if p.len() == 0 || s.subrange(i as int, (i + p.len()) as int) == p {
        Some(i as int)
    } else {
        find_from(s, p, i + 1)
    }
}

/// The first index where `p` occurs in `s`.
pub open spec fn find_first(s: Seq<char>, p: Seq<char>) -> Option<int> {
    find_from(s, p, 0)
}

/// `s` begins with `p`.
pub open spec fn starts_with(s: Seq<char>, p: Seq<char>) -> bool {
    p.len() <= s.len() && s.subrange(0, p.len() as int) == p
}

/// `s` ends with `p`.
pub open spec fn ends_with(s: Seq<char>, p: Seq<char>) -> bool {
    p.len() <= s.len() && s.subrange(s.len() - p.len(), s.len() as int) == p
}

/// `p` occurs somewhere in `s`.
pub open spec fn contains_seq(s: Seq<char>, p: Seq<char>) -> bool {
    find_first(s, p) is Some
}

pub proof fn lemma_find_from(s: Seq<char>, p: Seq<char>, i: nat)
    ensures
        find_from(s, p, i) matches Some(j) ==> {
            &&& i <= j
            &&& occurs_at(s, p, j)
            &&& forall|k: int| i <= k < j ==> !occurs_at(s, p, k)
        },
        find_from(s, p, i) is None ==> forall|k: int| i <= k ==> !occurs_at(s, p, k),
    decreases s.len() - i,
{
    if i + p.len() > s.len() {
    } else if p.len() == 0 || s.subrange(i as int, (i + p.len()) as int) == p {
        if p.len() == 0 {
            assert(s.subrange(i as int, i as int) =~= p);
        }
    } else {
        lemma_find_from(s, p, i + 1);
    }
}

/// Characterisation of `find_first` by the occurrences of `p` in `s`.
pub proof fn lemma_find_first(s: Seq<char>, p: Seq<char>)
    ensures
        find_first(s, p) matches Some(j) ==> {
            &&& occurs_at(s, p, j)
            &&& forall|k: int| 0 <= k < j ==> !occurs_at(s, p, k)
        },
        find_first(s, p) is None ==> forall|k: int| !occurs_at(s, p, k),
{
    lemma_find_from(s, p, 0);
}

/// An occurrence with no earlier occurrence is the first one.
pub proof fn lemma_find_first_is(s: Seq<char>, p: Seq<char>, j: int)
    requires
        occurs_at(s, p, j),
        forall|k: int| 0 <= k < j ==> !occurs_at(s, p, k),
    ensures
        find_first(s, p) == Some(j),
{
    lemma_find_first(s, p);
    if let Some(j2) = find_first(s, p) {
        if j2 < j {
            assert(!occurs_at(s, p, j2));
        }
        if j < j2 {
            assert(!occurs_at(s, p, j));
        }
    }
}

/// Without occurrences there is no first one.
pub proof fn lemma_find_first_none(s: Seq<char>, p: Seq<char>)
    requires
        forall|k: int| !occurs_at(s, p, k),
    ensures
        find_first(s, p) is None,
{
    lemma_find_first(s, p);
    if let Some(j) = find_first(s, p) {
        assert(occurs_at(s, p, j));
    }
}

/// A first occurrence inside `s` stays the first one when text is appended.
pub proof fn lemma_find_first_append(s: Seq<char>, p: Seq<char>, x: Seq<char>)
    requires
        find_first(s, p) is Some,
    ensures
        find_first(s + x, p) == find_first(s, p),
{
    lemma_find_first(s, p);
    let j = find_first(s, p)->0;
    assert((s + x).subrange(j, j + p.len()) =~= s.subrange(j, j + p.len()));
    assert forall|k: int| 0 <= k < j implies !occurs_at(s + x, p, k) by {
        if occurs_at(s + x, p, k) {
            assert((s + x).subrange(k, k + p.len()) =~= s.subrange(k, k + p.len()));
            assert(occurs_at(s, p, k));
        }
    }
    lemma_find_first_is(s + x, p, j);
}

/// Copies the characters of `s` into a vector.
pub fn chars_of(s: &str) -> (r: Vec<char>)
    ensures
        r@ == s@,
{
    let mut out: Vec<char> = Vec::new();
    for c in it: s.chars()
        invariant
            out@ == it.seq().take(it.index() as int),
            it.seq() == s@,
    {
        out.push(c);
    }
    out
}

/// Builds a `String` from characters with `String::from_iter`.
#[verifier::external_body]
pub(crate) fn string_of(chars: &[char]) -> (r: String)
    ensures
        r@ == chars@,
{
    String::from_iter(chars.iter())
}

/// Copies a string slice into an owned `String` with `str::to_string`.
pub fn owned(s: &str) -> (r: String)
    ensures
        r@ == s@,
{
    s.to_owned()
}

/// The characters `s[start..end]`.
pub fn slice_chars(s: &[char], start: usize, end: usize) -> (r: Vec<char>)
    requires
        start <= end <= s@.len(),
    ensures
        r@ == s@.subrange(start as int, end as int),
{
    let mut out: Vec<char> = Vec::new();
    let mut i = start;
    while i < end
        invariant
            start <= i <= end <= s@.len(),
            out@ == s@.subrange(start as int, i as int),
        decreases end - i,
    {
        out.push(s[i]);
        i += 1;
        assert(out@ =~= s@.subrange(start as int, i as int));
    }
    out
}

/// `a` and `b` hold the same characters.
pub fn chars_eq(a: &[char], b: &[char]) -> (r: bool)
    ensures
        r == (a@ == b@),
{
    if a.len() != b.len() {
        return false;
    }
    let mut i: usize = 0;
    while i < a.len()
        invariant
            a@.len() == b@.len(),
            i <= a@.len(),
            forall|k: int| 0 <= k < i ==> a@[k] == b@[k],
        decreases a.len() - i,
    {
        if a[i] != b[i] {
            return false;
        }
        i += 1;
    }
    assert(a@ =~= b@);
    true
}

/// `p` occurs in `s` at index `i`.
pub fn occurs_at_exec(s: &[char], p: &[char], i: usize) -> (r: bool)
    ensures
        r == occurs_at(s@, p@, i as int),
{
    if i > s.len() || p.len() > s.len() - i {
        return false;
    }
    let mut k: usize = 0;
    while k < p.len()
        invariant
            i + p.len() <= s.len(),
            k <= p.len(),
            forall|m: int| 0 <= m < k ==> s@[i + m] == p@[m],
        decreases p.len() - k,
    {
        if s[i + k] != p[k] {
            assert(s@.subrange(i as int, i + p@.len())[k as int] != p@[k as int]);
            return false;
        }
        k += 1;
    }
    assert(s@.subrange(i as int, i + p@.len()) =~= p@);
    true
}

/// The first index where `p` occurs in `s`.
pub fn find_chars(s: &[char], p: &[char]) -> (r: Option<usize>)
    ensures
        r matches Some(i) ==> find_first(s@, p@) == Some(i as int),
        r is None ==> find_first(s@, p@) is None,
{
    let mut i: usize = 0;
    while i <= s.len()
        invariant
            i <= s@.len() + 1,
            find_first(s@, p@) == find_from(s@, p@, i as nat),
        decreases s.len() + 1 - i,
    {
        if p.len() > s.len() - i {
            return None;
        }
        if p.len() == 0 || occurs_at_exec(s, p, i) {
            return Some(i);
        }
        i += 1;
    }
    None
}

/// `s` starts with `p`.
pub fn starts_with_exec(s: &[char], p: &[char]) -> (r: bool)
    ensures
        r == starts_with(s@, p@),
{
    occurs_at_exec(s, p, 0)
}

/// `s` ends with `p`.
pub fn ends_with_exec(s: &[char], p: &[char]) -> (r: bool)
    ensures
        r == ends_with(s@, p@),
{
    if p.len() > s.len() {
        return false;
    }
    occurs_at_exec(s, p, s.len() - p.len())
}


/// The Unicode `White_Space` property, which `char::is_whitespace` and
/// `str::trim` test.
pub open spec fn is_white_space(c: char) -> bool {
    let u = c as u32;
    ||| 0x09 <= u <= 0x0D
    ||| u == 0x20
    ||| u == 0x85
    ||| u == 0xA0
    ||| u == 0x1680
    ||| 0x2000 <= u <= 0x200A
    ||| u == 0x2028
    ||| u == 0x2029
    ||| u == 0x202F
    ||| u == 0x205F
    ||| u == 0x3000
}

pub fn char_is_white_space(c: char) -> (r: bool)
    ensures
        r == is_white_space(c),
{
    let u = c as u32;
    (0x09 <= u && u <= 0x0D) || u == 0x20 || u == 0x85 || u == 0xA0 || u == 0x1680 || (0x2000
        <= u && u <= 0x200A) || u == 0x2028 || u == 0x2029 || u == 0x202F || u == 0x205F || u
        == 0x3000
}

/// Index of the first character of `s` that is not white space (or `s.len()`).
pub open spec fn trim_start_index(s: Seq<char>, i: nat) -> nat
    decreases s.len() - i,
{
    if i >= s.len() {
        s.len()
    } else if is_white_space(s[i as int]) {
        trim_start_index(s, i + 1)
    } else {
        i
    }
}

/// Index one past the last character of `s[..e]` that is not white space.
pub open spec fn trim_end_index(s: Seq<char>, e: nat) -> nat
    decreases e,
{
    if e == 0 || e > s.len() {
        0
    } else if is_white_space(s[e - 1]) {
        trim_end_index(s, (e - 1) as nat)
    } else {
        e
    }
}

/// `s` with leading white space removed (`str::trim_start`).
pub open spec fn trim_start_seq(s: Seq<char>) -> Seq<char> {
    s.skip(trim_start_index(s, 0) as int)
}

/// `s` with trailing white space removed (`str::trim_end`).
pub open spec fn trim_end_seq(s: Seq<char>) -> Seq<char> {
    s.take(trim_end_index(s, s.len()) as int)
}

/// `s` with leading and trailing white space removed (`str::trim`).
pub open spec fn trim_seq(s: Seq<char>) -> Seq<char> {
    trim_end_seq(trim_start_seq(s))
}

/// `s` is empty or holds only white space.
pub open spec fn is_blank(s: Seq<char>) -> bool {
    trim_seq(s).len() == 0
}

pub proof fn lemma_trim_start_index(s: Seq<char>, i: nat)
    ensures
        i <= s.len() ==> i <= trim_start_index(s, i) <= s.len(),
        i <= s.len() ==> forall|k: int|
            i <= k < trim_start_index(s, i) ==> is_white_space(#[trigger] s[k]),
        trim_start_index(s, i) < s.len() ==> !is_white_space(s[trim_start_index(s, i) as int]),
    decreases s.len() - i,
{
    if i < s.len() && is_white_space(s[i as int]) {
        lemma_trim_start_index(s, i + 1);
    }
}

pub proof fn lemma_trim_end_index(s: Seq<char>, e: nat)
    ensures
        e <= s.len() ==> trim_end_index(s, e) <= e,
        e <= s.len() ==> forall|k: int|
            trim_end_index(s, e) <= k < e ==> is_white_space(#[trigger] s[k]),
        trim_end_index(s, e) > 0 ==> !is_white_space(s[trim_end_index(s, e) - 1]),
    decreases e,
{
    if e > 0 && e <= s.len() && is_white_space(s[e - 1]) {
        lemma_trim_end_index(s, (e - 1) as nat);
    }
}

/// Text whose first and last characters are not white space is its own
/// trim.
pub proof fn lemma_trim_fixed(t: Seq<char>)
    requires
        t.len() == 0 || (!is_white_space(t[0]) && !is_white_space(t[t.len() - 1])),
    ensures
        trim_seq(t) == t,
{
    assert(trim_start_index(t, 0) == 0);
    assert(t.skip(0) =~= t);
    assert(trim_end_index(t, t.len()) == t.len());
    assert(t.take(t.len() as int) =~= t);
}

/// A trimmed text begins and ends with a character that is not white space.
pub proof fn lemma_trim_shape(s: Seq<char>)
    ensures
        trim_seq(s).len() == 0 || (!is_white_space(trim_seq(s)[0]) && !is_white_space(
            trim_seq(s)[trim_seq(s).len() - 1],
        )),
{
    lemma_trim_start_index(s, 0);
    let a = trim_start_seq(s);
    lemma_trim_end_index(a, a.len());
    let t = trim_seq(s);
    if t.len() > 0 {
        assert(t[0] == a[0]);
        assert(a[0] == s[trim_start_index(s, 0) as int]);
        assert(t[t.len() - 1] == a[t.len() - 1]);
    }
}

/// Trimming twice is trimming once.
pub proof fn lemma_trim_idempotent(s: Seq<char>)
    ensures
        trim_seq(trim_seq(s)) == trim_seq(s),
{
    lemma_trim_shape(s);
    lemma_trim_fixed(trim_seq(s));
}

/// `s` without leading white space.
pub fn trim_start_chars(s: &[char]) -> (r: Vec<char>)
    ensures
        r@ == trim_start_seq(s@),
{
    let mut i: usize = 0;
    while i < s.len() && char_is_white_space(s[i])
        invariant
            i <= s@.len(),
            trim_start_index(s@, 0) == trim_start_index(s@, i as nat),
        decreases s.len() - i,
    {
        i += 1;
    }
    slice_chars(s, i, s.len())
}

/// `s` without trailing white space.
pub fn trim_end_chars(s: &[char]) -> (r: Vec<char>)
    ensures
        r@ == trim_end_seq(s@),
{
    let mut e: usize = s.len();
    while e > 0 && char_is_white_space(s[e - 1])
        invariant
            e <= s@.len(),
            trim_end_index(s@, s@.len()) == trim_end_index(s@, e as nat),
        decreases e,
    {
        e -= 1;
    }
    slice_chars(s, 0, e)
}

/// `s` without leading and trailing white space.
pub fn trim_chars(s: &[char]) -> (r: Vec<char>)
    ensures
        r@ == trim_seq(s@),
{
    let a = trim_start_chars(s);
    trim_end_chars(&a)
}

/// `s.trim()` as an owned string.
pub fn trim_string(s: &str) -> (r: String)
    ensures
        r@ == trim_seq(s@),
{
    let c = chars_of(s);
    let t = trim_chars(&c);
    string_of(&t)
}

/// `s.trim().is_empty()`.
pub fn is_blank_str(s: &str) -> (r: bool)
    ensures
        r == is_blank(s@),
{
    let c = chars_of(s);
    let t = trim_chars(&c);
    t.len() == 0
}

/// `a` and `b` hold the same text.
pub fn str_eq(a: &str, b: &str) -> (r: bool)
    ensures
        r == (a@ == b@),
{
    let ca = chars_of(a);
    let cb = chars_of(b);
    chars_eq(&ca, &cb)
}

/// Appends the characters of `s` to `out`.
pub fn push_str_chars(out: &mut Vec<char>, s: &str)
    ensures
        final(out)@ == old(out)@ + s@,
{
    let mut c = chars_of(s);
    out.append(&mut c);
}

/// The decimal digits of `n`.
pub open spec fn decimal(n: nat) -> Seq<char>
    decreases n,
{
    if n < 10 {
        seq![digit_char(n)]
    } else {
        decimal(n / 10).push(digit_char(n % 10))
    }
}

pub open spec fn digit_char(d: nat) -> char {
    if d == 0 { '0' }
    else if d == 1 { '1' }
    else if d == 2 { '2' }
    else if d == 3 { '3' }
    else if d == 4 { '4' }
    else if d == 5 { '5' }
    else if d == 6 { '6' }
    else if d == 7 { '7' }
    else if d == 8 { '8' }
    else { '9' }
}

fn digit_char_exec(d: u64) -> (r: char)
    requires
        d < 10,
    ensures
        r == digit_char(d as nat),
{
    if d == 0 { '0' }
    else if d == 1 { '1' }
    else if d == 2 { '2' }
    else if d == 3 { '3' }
    else if d == 4 { '4' }
    else if d == 5 { '5' }
    else if d == 6 { '6' }
    else if d == 7 { '7' }
    else if d == 8 { '8' }
    else { '9' }
}

/// The decimal text of `n`, as `Display` writes it.
pub fn decimal_chars(n: u64) -> (r: Vec<char>)
    ensures
        r@ == decimal(n as nat),
    decreases n,
{
    if n < 10 {
        let r = vec![digit_char_exec(n)];
        assert(r@ =~= decimal(n as nat));
        r
    } else {
        let mut r = decimal_chars(n / 10);
        r.push(digit_char_exec(n % 10));
        r
    }
}

} // verus!
