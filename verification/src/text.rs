//! Character-level helpers shared by the sentence framing and the parsers.
use vstd::prelude::*;
use vstd::utf8::{decode_utf8, valid_utf8};

verus! {

/// Unicode `White_Space`: the characters that `str::trim` and `char::is_whitespace` treat
/// as whitespace.
pub open spec fn is_white_space(c: char) -> bool {
    let u = c as u32;
    ||| 0x09 <= u <= 0x0d
    ||| u == 0x20
    ||| u == 0x85
    ||| u == 0xa0
    ||| u == 0x1680
    ||| 0x2000 <= u <= 0x200a
    ||| u == 0x2028
    ||| u == 0x2029
    ||| u == 0x202f
    ||| u == 0x205f
    ||| u == 0x3000
}

/// `s` without its leading whitespace.
pub open spec fn trim_start_spec(s: Seq<char>) -> Seq<char>
    decreases s.len(),
{
    if s.len() > 0 && is_white_space(s[0]) {
        trim_start_spec(s.drop_first())
    } else {
        s
    }
}

/// `s` without its trailing whitespace.
pub open spec fn trim_end_spec(s: Seq<char>) -> Seq<char>
    decreases s.len(),
{
    if s.len() > 0 && is_white_space(s.last()) {
        trim_end_spec(s.drop_last())
    } else {
        s
    }
}

/// `s` without leading and trailing whitespace (what `str::trim` returns).
pub open spec fn trim_spec(s: Seq<char>) -> Seq<char> {
    trim_end_spec(trim_start_spec(s))
}

/// Skipping `a` leading whitespace characters and then trimming the start is trimming the start.
proof fn lemma_trim_start_skip(s: Seq<char>, a: int)
    requires
        0 <= a <= s.len(),
        forall|i: int| 0 <= i < a ==> is_white_space(#[trigger] s[i]),
    ensures
        trim_start_spec(s) == trim_start_spec(s.skip(a)),
    decreases a,
{
    if a > 0 {
        assert(s.drop_first().skip(a - 1) =~= s.skip(a));
        lemma_trim_start_skip(s.drop_first(), a - 1);
    } else {
        assert(s.skip(0) =~= s);
    }
}

/// Dropping `n - b` trailing whitespace characters and then trimming the end is trimming the end.
proof fn lemma_trim_end_take(s: Seq<char>, b: int)
    requires
        0 <= b <= s.len(),
        forall|i: int| b <= i < s.len() ==> is_white_space(#[trigger] s[i]),
    ensures
        trim_end_spec(s) == trim_end_spec(s.take(b)),
    decreases s.len() - b,
{
    if b < s.len() {
        assert(s.drop_last().take(b) =~= s.take(b));
        lemma_trim_end_take(s.drop_last(), b);
    } else {
        assert(s.take(b) =~= s);
    }
}

/// `s` with leading and trailing Unicode whitespace removed, as `str::trim` does.
pub fn trim_chars(s: &Vec<char>) -> (res: Vec<char>)
    ensures
        res@ == trim_spec(s@),
{
    let n = s.len();
    let mut a: usize = 0;
    while a < n && is_white_space_exec(s[a])
        invariant
            a <= n,
            n == s@.len(),
            forall|i: int| 0 <= i < a ==> is_white_space(#[trigger] s@[i]),
        decreases n - a,
    {
        a = a + 1;
    }
    let mut b: usize = n;
    while b > a && is_white_space_exec(s[b - 1])
        invariant
            a <= b <= n,
            n == s@.len(),
            forall|i: int| b <= i < n ==> is_white_space(#[trigger] s@[i]),
        decreases b - a,
    {
        b = b - 1;
    }
    let mut res: Vec<char> = Vec::new();
    let mut k: usize = a;
    while k < b
        invariant
            a <= k <= b <= n,
            n == s@.len(),
            res@ == s@.subrange(a as int, k as int),
        decreases b - k,
    {
        res.push(s[k]);
        k = k + 1;
    }
    proof {
        lemma_trim_start_skip(s@, a as int);
        let t = s@.skip(a as int);
        if a < n {
            assert(!is_white_space(t[0]));
        }
        assert(trim_start_spec(t) == t);
        lemma_trim_end_take(t, (b - a) as int);
        let u = t.take((b - a) as int);
        if b > a {
            assert(u.last() == s@[b - 1]);
        }
        assert(trim_end_spec(u) == u);
        assert(u =~= s@.subrange(a as int, b as int));
    }
    res
}

/// Whether `c` is Unicode whitespace.
pub fn is_white_space_exec(c: char) -> (res: bool)
    ensures
        res == is_white_space(c),
{
    let u = c as u32;
    (0x09 <= u && u <= 0x0d) || u == 0x20 || u == 0x85 || u == 0xa0 || u == 0x1680 || (0x2000
        <= u && u <= 0x200a) || u == 0x2028 || u == 0x2029 || u == 0x202f || u == 0x205f || u
        == 0x3000
}

/// `p` occurs in `s` starting at index `i`.
pub open spec fn occurs_at(s: Seq<char>, p: Seq<char>, i: int) -> bool {
    0 <= i && i + p.len() <= s.len() && s.subrange(i, i + p.len()) == p
}

/// `p` occurs somewhere in `s` (what `str::contains` tests).
pub open spec fn has_substring(s: Seq<char>, p: Seq<char>) -> bool {
    exists|i: int| occurs_at(s, p, i)
}

/// Whether `p` occurs at index `i` of `s`.
fn occurs_at_exec(s: &Vec<char>, p: &Vec<char>, i: usize) -> (res: bool)
    requires
        i + p@.len() <= s@.len(),
    ensures
        res == occurs_at(s@, p@, i as int),
{
    let m = p.len();
    let mut j: usize = 0;
    while j < m
        invariant
            j <= m,
            m == p@.len(),
            i + m <= s.len(),
            s@.subrange(i as int, i + j) =~= p@.take(j as int),
        decreases m - j,
    {
        if s[i + j] != p[j] {
            assert(s@.subrange(i as int, i + m)[j as int] != p@[j as int]);
            return false;
        }
        j = j + 1;
        assert(s@.subrange(i as int, i + j) =~= p@.take(j as int));
    }
    assert(p@.take(m as int) =~= p@);
    true
}

/// Whether `p` occurs in `s`.
pub fn contains_chars(s: &Vec<char>, p: &Vec<char>) -> (res: bool)
    ensures
        res == has_substring(s@, p@),
{
    if p.len() > s.len() {
        assert forall|i: int| !occurs_at(s@, p@, i) by {}
        return false;
    }
    let last = s.len() - p.len();
    let mut i: usize = 0;
    while i <= last
        invariant
            last + p@.len() == s@.len(),
            forall|k: int| 0 <= k < i ==> !occurs_at(s@, p@, k),
        decreases last + 1 - i,
    {
        if occurs_at_exec(s, p, i) {
            return true;
        }
        if i == last {
            assert forall|k: int| !occurs_at(s@, p@, k) by {
                if 0 <= k && k + p@.len() <= s@.len() {
                    assert(k <= last);
                }
            }
            return false;
        }
        i = i + 1;
    }
    false
}

/// Whether the string slice `s` contains the text `p`.
pub fn str_contains(s: &str, p: &str) -> (res: bool)
    ensures
        res == has_substring(s@, p@),
{
    let sc = chars_of(s);
    let pc = chars_of(p);
    contains_chars(&sc, &pc)
}

/// The characters of a string slice, in order.
pub fn chars_of(s: &str) -> (res: Vec<char>)
    ensures
        res@ == s@,
{
    let mut res: Vec<char> = Vec::new();
    for c in it: s.chars()
        invariant
            res@ == it.seq().take(it.index() as int),
            it.seq() == s@,
    {
        res.push(c);
    }
    res
}

/// A `String` holding the given characters: `String::from_iter` over the slice.
#[verifier::external_body]
pub(crate) fn string_from_chars(chars: &[char]) -> (res: String)
    ensures
        res@ == chars@,
{
    String::from_iter(chars.iter())
}

/// `std::str::from_utf8`: the text the bytes encode when they are valid UTF-8, `None` otherwise.
#[verifier::external_body]
pub(crate) fn decode_utf8_text(bytes: &[u8]) -> (res: Option<&str>)
    ensures
        res is Some <==> valid_utf8(bytes@),
        res matches Some(t) ==> t@ == decode_utf8(bytes@),
{
    std::str::from_utf8(bytes).ok()
}

/// What `String::from_utf8_lossy` gives for a byte sequence: its text, with each invalid
/// UTF-8 sequence replaced by U+FFFD.
pub uninterp spec fn utf8_lossy_text(bytes: Seq<u8>) -> Seq<char>;

/// `String::from_utf8_lossy`: the text of the bytes, invalid sequences replaced by U+FFFD.
/// Stated here: the result is `utf8_lossy_text` of the bytes, and for valid UTF-8 it is the
/// decoded text (the documentation says valid input is returned unchanged). The replacement
/// rule for invalid input is left to the name.
#[verifier::external_body]
pub(crate) fn lossy_text(bytes: &[u8]) -> (res: String)
    ensures
        res@ == utf8_lossy_text(bytes@),
        valid_utf8(bytes@) ==> res@ == decode_utf8(bytes@),
{
    String::from_utf8_lossy(bytes).into_owned()
}

} // verus!
