//! The GST sentence (pseudorange error statistics): where its latitude and longitude error
//! fields stand.
//!
//! A GST sentence is accepted when it reads `$`, two upper-case ASCII letters, `GST,`, five
//! comma-terminated fields (any, possibly empty), the latitude error (not empty) and a comma,
//! the longitude error (not empty) and a comma, at least one character up to the first `*`,
//! the `*` and two hexadecimal digits. Anything may follow. The two error fields are
//! returned as written.
use vstd::prelude::*;
use crate::text::chars_of;
use crate::text::string_from_chars;

verus! {

/// Index of the first `c` in `s` at or after `from`, or `s.len()` when there is none.
pub open spec fn next_index_of(s: Seq<char>, from: int, c: char) -> int
    decreases s.len() - from,
{
    if from < 0 || from >= s.len() {
        s.len() as int
    } else if s[from] == c {
        from
    } else {
        next_index_of(s, from + 1, c)
    }
}

/// Index of the comma that ends the field starting at `from`, after skipping `k` more fields.
pub open spec fn comma_after_fields(s: Seq<char>, from: int, k: nat) -> int
    decreases k,
{
    let c = next_index_of(s, from, ',');
    if k == 0 || c >= s.len() {
        c
    } else {
        comma_after_fields(s, c + 1, (k - 1) as nat)
    }
}

/// An ASCII upper-case letter.
pub open spec fn is_ascii_upper(c: char) -> bool {
    'A' <= c <= 'Z'
}

/// An ASCII hexadecimal digit, either case.
pub open spec fn is_hex_digit(c: char) -> bool {
    ||| '0' <= c <= '9'
    ||| 'a' <= c <= 'f'
    ||| 'A' <= c <= 'F'
}

/// The latitude and longitude error fields of a GST sentence, or `None` when `s` is not one.
pub open spec fn gst_error_fields_spec(s: Seq<char>) -> Option<(Seq<char>, Seq<char>)> {
    if s.len() < 7 || s[0] != '$' || !is_ascii_upper(s[1]) || !is_ascii_upper(s[2]) || s[3]
        != 'G' || s[4] != 'S' || s[5] != 'T' || s[6] != ',' {
        None
    } else {
        let c4 = comma_after_fields(s, 7, 4);
        let g1 = c4 + 1;
        let c5 = next_index_of(s, g1, ',');
        let g2 = c5 + 1;
        let c6 = next_index_of(s, g2, ',');
        let star = next_index_of(s, c6 + 1, '*');
        if c4 >= s.len() || c5 >= s.len() || c5 == g1 || c6 >= s.len() || c6 == g2 || star
            >= s.len() || star == c6 + 1 || star + 3 > s.len() || !is_hex_digit(s[star + 1])
            || !is_hex_digit(s[star + 2]) {
            None
        } else {
            Some((s.subrange(g1, c5), s.subrange(g2, c6)))
        }
    }
}

proof fn lemma_next_index_of_bounds(s: Seq<char>, from: int, c: char)
    requires
        0 <= from,
    ensures
        from <= next_index_of(s, from, c) <= s.len() || (from > s.len() && next_index_of(
            s,
            from,
            c,
        ) == s.len()),
    decreases s.len() - from,
{
    if from < s.len() && s[from] != c {
        lemma_next_index_of_bounds(s, from + 1, c);
    }
}

/// Index of the first `c` in `s` at or after `from`, or `s.len()` when there is none.
fn next_index_of_exec(s: &Vec<char>, from: usize, c: char) -> (res: usize)
    ensures
        res == next_index_of(s@, from as int, c),
{
    let n = s.len();
    if from >= n {
        return n;
    }
    let mut i = from;
    while i < n && s[i] != c
        invariant
            from <= i <= n,
            n == s@.len(),
            next_index_of(s@, from as int, c) == next_index_of(s@, i as int, c),
        decreases n - i,
    {
        i = i + 1;
    }
    i
}

/// The comma that ends the field at `from` after skipping `k` more fields.
fn comma_after_fields_exec(s: &Vec<char>, from: usize, k: usize) -> (res: usize)
    ensures
        res == comma_after_fields(s@, from as int, k as nat),
    decreases k,
{
    let c = next_index_of_exec(s, from, ',');
    if k == 0 || c >= s.len() {
        c
    } else {
        comma_after_fields_exec(s, c + 1, k - 1)
    }
}

/// The characters of `s` from `a` up to (not including) `b`.
fn slice_chars(s: &Vec<char>, a: usize, b: usize) -> (res: Vec<char>)
    requires
        a <= b <= s@.len(),
    ensures
        res@ == s@.subrange(a as int, b as int),
{
    let mut res: Vec<char> = Vec::new();
    let mut i = a;
    while i < b
        invariant
            a <= i <= b <= s@.len(),
            res@ == s@.subrange(a as int, i as int),
        decreases b - i,
    {
        res.push(s[i]);
        i = i + 1;
    }
    res
}

fn is_ascii_upper_exec(c: char) -> (res: bool)
    ensures
        res == is_ascii_upper(c),
{
    'A' <= c && c <= 'Z'
}

fn is_hex_digit_exec(c: char) -> (res: bool)
    ensures
        res == is_hex_digit(c),
{
    ('0' <= c && c <= '9') || ('a' <= c && c <= 'f') || ('A' <= c && c <= 'F')
}

/// The latitude and longitude error fields (the sixth and seventh fields, as written) of a
/// GST sentence, or `None` when the sentence does not have the GST shape.
pub fn gst_error_fields(sentence: &str) -> (res: Option<(String, String)>)
    ensures
        res is Some <==> gst_error_fields_spec(sentence@) is Some,
        res matches Some(f) ==> (gst_error_fields_spec(sentence@) matches Some(g) && f.0@ == g.0
            && f.1@ == g.1),
{
    let s = chars_of(sentence);
    let n = s.len();
    if n < 7 || s[0] != '$' || !is_ascii_upper_exec(s[1]) || !is_ascii_upper_exec(s[2]) || s[3]
        != 'G' || s[4] != 'S' || s[5] != 'T' || s[6] != ',' {
        return None;
    }
    let c4 = comma_after_fields_exec(&s, 7, 4);
    if c4 >= n {
        return None;
    }
    let g1 = c4 + 1;
    let c5 = next_index_of_exec(&s, g1, ',');
    if c5 >= n || c5 == g1 {
        return None;
    }
    let g2 = c5 + 1;
    let c6 = next_index_of_exec(&s, g2, ',');
    if c6 >= n || c6 == g2 {
        return None;
    }
    let star = next_index_of_exec(&s, c6 + 1, '*');
    if star >= n || star == c6 + 1 || n - star < 3 {
        return None;
    }
    if !is_hex_digit_exec(s[star + 1]) || !is_hex_digit_exec(s[star + 2]) {
        return None;
    }
    proof {
        lemma_next_index_of_bounds(s@, g1 as int, ',');
        lemma_next_index_of_bounds(s@, g2 as int, ',');
    }
    let lat = slice_chars(&s, g1, c5);
    let lon = slice_chars(&s, g2, c6);
    Some((string_from_chars(lat.as_slice()), string_from_chars(lon.as_slice())))
}


/// What `next_index_of` finds: a `c` at that index with none before it from `from` on, or no
/// `c` from `from` on at all.
proof fn lemma_next_index_of_finds(s: Seq<char>, from: int, c: char)
    requires
        0 <= from,
    ensures
        next_index_of(s, from, c) < s.len() ==> s[next_index_of(s, from, c)] == c,
        forall|k: int| from <= k < next_index_of(s, from, c) && k < s.len() ==> s[k] != c,
        from <= s.len() ==> from <= next_index_of(s, from, c) <= s.len(),
    decreases s.len() - from,
{
    if from < s.len() && s[from] != c {
        lemma_next_index_of_finds(s, from + 1, c);
    }
}

/// The two error fields of an accepted GST sentence are not empty, hold no comma, and stand
/// one after the other in the sentence, each followed by a comma; the sentence starts with
/// `$`, two upper-case letters and `GST,`, and after the fields comes a `*` with two
/// hexadecimal digits.
pub proof fn law_gst_fields_stand_in_the_sentence(s: Seq<char>)
    ensures
        gst_error_fields_spec(s) matches Some(f) ==> {
            &&& f.0.len() > 0 && f.1.len() > 0
            &&& forall|k: int| 0 <= k < f.0.len() ==> f.0[k] != ','
            &&& forall|k: int| 0 <= k < f.1.len() ==> f.1[k] != ','
            &&& s[0] == '$' && is_ascii_upper(s[1]) && is_ascii_upper(s[2])
            &&& s.subrange(3, 7) == "GST,"@
            &&& exists|g: int|
                7 <= g && g + f.0.len() + f.1.len() + 2 < s.len() && #[trigger] s.subrange(
                    g,
                    g + f.0.len(),
                ) == f.0 && s[g - 1] == ',' && s[g + f.0.len()] == ',' && s.subrange(
                    g + f.0.len() + 1,
                    g + f.0.len() + 1 + f.1.len(),
                ) == f.1 && s[g + f.0.len() + 1 + f.1.len()] == ','
            &&& exists|t: int|
                0 <= t && t + 2 < s.len() && s[t] == '*' && is_hex_digit(s[t + 1]) && is_hex_digit(
                    #[trigger] s[t + 2],
                )
        },
{
    reveal_strlit("GST,");
    if let Some(f) = gst_error_fields_spec(s) {
        let c4 = comma_after_fields(s, 7, 4);
        let g1 = c4 + 1;
        let c5 = next_index_of(s, g1, ',');
        let g2 = c5 + 1;
        let c6 = next_index_of(s, g2, ',');
        let star = next_index_of(s, c6 + 1, '*');
        lemma_comma_after_fields_finds(s, 7, 4);
        lemma_next_index_of_finds(s, g1, ',');
        lemma_next_index_of_finds(s, g2, ',');
        lemma_next_index_of_finds(s, c6 + 1, '*');
        assert(s.subrange(3, 7) =~= "GST,"@);
        assert forall|k: int| 0 <= k < f.0.len() implies f.0[k] != ',' by {
            assert(f.0[k] == s[g1 + k]);
        }
        assert forall|k: int| 0 <= k < f.1.len() implies f.1[k] != ',' by {
            assert(f.1[k] == s[g2 + k]);
        }
        assert(s.subrange(g1, g1 + f.0.len()) == f.0);
        assert(is_hex_digit(s[star + 2]));
    }
}

proof fn lemma_comma_after_fields_finds(s: Seq<char>, from: int, k: nat)
    requires
        0 <= from,
    ensures
        comma_after_fields(s, from, k) < s.len() ==> s[comma_after_fields(s, from, k)] == ','
            && from <= comma_after_fields(s, from, k),
    decreases k,
{
    lemma_next_index_of_finds(s, from, ',');
    let c = next_index_of(s, from, ',');
    if k > 0 && c < s.len() {
        lemma_comma_after_fields_finds(s, c + 1, (k - 1) as nat);
    }
}

} // verus!
