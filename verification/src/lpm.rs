//! The coordinate table of a land-parcel (LPM) report, and reading it from the report's PDF.
//!
//! Each table row that gives a parcel corner begins a line and reads: the corner number
//! (digits), white space, the longitude (digits and dots), white space, a second number
//! (digits and dots), white space, a combined figure whose part from the third digit before
//! its second dot on is the latitude (`NN.N` followed by `NN.NNN…`), white space, a number
//! (digits and dots), white space, and a count (digits). A row may run on across line breaks
//! (white space includes them). Rows are read from the start of the text; after a row,
//! reading resumes where it ended. "Digits" are Unicode decimal digits and "white space" is
//! Unicode white space.
use vstd::prelude::*;
use crate::text::{chars_of, is_white_space, is_white_space_exec, string_from_chars};

verus! {

/// A Unicode decimal digit (general category Nd).
pub open spec fn is_decimal_digit(c: char) -> bool {
    let u = c as u32;
    ||| 0x30 <= u <= 0x39
    ||| 0x660 <= u <= 0x669
    ||| 0x6f0 <= u <= 0x6f9
    ||| 0x7c0 <= u <= 0x7c9
    ||| 0x966 <= u <= 0x96f
    ||| 0x9e6 <= u <= 0x9ef
    ||| 0xa66 <= u <= 0xa6f
    ||| 0xae6 <= u <= 0xaef
    ||| 0xb66 <= u <= 0xb6f
    ||| 0xbe6 <= u <= 0xbef
    ||| 0xc66 <= u <= 0xc6f
    ||| 0xce6 <= u <= 0xcef
    ||| 0xd66 <= u <= 0xd6f
    ||| 0xde6 <= u <= 0xdef
    ||| 0xe50 <= u <= 0xe59
    ||| 0xed0 <= u <= 0xed9
    ||| 0xf20 <= u <= 0xf29
    ||| 0x1040 <= u <= 0x1049
    ||| 0x1090 <= u <= 0x1099
    ||| 0x17e0 <= u <= 0x17e9
    ||| 0x1810 <= u <= 0x1819
    ||| 0x1946 <= u <= 0x194f
    ||| 0x19d0 <= u <= 0x19d9
    ||| 0x1a80 <= u <= 0x1a89
    ||| 0x1a90 <= u <= 0x1a99
    ||| 0x1b50 <= u <= 0x1b59
    ||| 0x1bb0 <= u <= 0x1bb9
    ||| 0x1c40 <= u <= 0x1c49
    ||| 0x1c50 <= u <= 0x1c59
    ||| 0xa620 <= u <= 0xa629
    ||| 0xa8d0 <= u <= 0xa8d9
    ||| 0xa900 <= u <= 0xa909
    ||| 0xa9d0 <= u <= 0xa9d9
    ||| 0xa9f0 <= u <= 0xa9f9
    ||| 0xaa50 <= u <= 0xaa59
    ||| 0xabf0 <= u <= 0xabf9
    ||| 0xff10 <= u <= 0xff19
    ||| 0x104a0 <= u <= 0x104a9
    ||| 0x10d30 <= u <= 0x10d39
    ||| 0x10d40 <= u <= 0x10d49
    ||| 0x11066 <= u <= 0x1106f
    ||| 0x110f0 <= u <= 0x110f9
    ||| 0x11136 <= u <= 0x1113f
    ||| 0x111d0 <= u <= 0x111d9
    ||| 0x112f0 <= u <= 0x112f9
    ||| 0x11450 <= u <= 0x11459
    ||| 0x114d0 <= u <= 0x114d9
    ||| 0x11650 <= u <= 0x11659
    ||| 0x116c0 <= u <= 0x116c9
    ||| 0x116d0 <= u <= 0x116e3
    ||| 0x11730 <= u <= 0x11739
    ||| 0x118e0 <= u <= 0x118e9
    ||| 0x11950 <= u <= 0x11959
    ||| 0x11bf0 <= u <= 0x11bf9
    ||| 0x11c50 <= u <= 0x11c59
    ||| 0x11d50 <= u <= 0x11d59
    ||| 0x11da0 <= u <= 0x11da9
    ||| 0x11f50 <= u <= 0x11f59
    ||| 0x16130 <= u <= 0x16139
    ||| 0x16a60 <= u <= 0x16a69
    ||| 0x16ac0 <= u <= 0x16ac9
    ||| 0x16b50 <= u <= 0x16b59
    ||| 0x16d70 <= u <= 0x16d79
    ||| 0x1ccf0 <= u <= 0x1ccf9
    ||| 0x1d7ce <= u <= 0x1d7ff
    ||| 0x1e140 <= u <= 0x1e149
    ||| 0x1e2f0 <= u <= 0x1e2f9
    ||| 0x1e4f0 <= u <= 0x1e4f9
    ||| 0x1e5f1 <= u <= 0x1e5fa
    ||| 0x1e950 <= u <= 0x1e959
    ||| 0x1fbf0 <= u <= 0x1fbf9
}

/// Whether `c` is a Unicode decimal digit.
pub fn is_decimal_digit_exec(c: char) -> (res: bool)
    ensures
        res == is_decimal_digit(c),
{
    let u = c as u32;
    (0x30 <= u && u <= 0x39) || (0x660 <= u && u <= 0x669) || (0x6f0 <= u && u <= 0x6f9)
        || (0x7c0 <= u && u <= 0x7c9) || (0x966 <= u && u <= 0x96f) || (0x9e6 <= u && u <= 0x9ef)
        || (0xa66 <= u && u <= 0xa6f) || (0xae6 <= u && u <= 0xaef) || (0xb66 <= u && u <= 0xb6f)
        || (0xbe6 <= u && u <= 0xbef) || (0xc66 <= u && u <= 0xc6f) || (0xce6 <= u && u <= 0xcef)
        || (0xd66 <= u && u <= 0xd6f) || (0xde6 <= u && u <= 0xdef) || (0xe50 <= u && u <= 0xe59)
        || (0xed0 <= u && u <= 0xed9) || (0xf20 <= u && u <= 0xf29) || (0x1040 <= u && u <= 0x1049)
        || (0x1090 <= u && u <= 0x1099) || (0x17e0 <= u && u <= 0x17e9) || (0x1810 <= u && u <= 0x1819)
        || (0x1946 <= u && u <= 0x194f) || (0x19d0 <= u && u <= 0x19d9) || (0x1a80 <= u && u <= 0x1a89)
        || (0x1a90 <= u && u <= 0x1a99) || (0x1b50 <= u && u <= 0x1b59) || (0x1bb0 <= u && u <= 0x1bb9)
        || (0x1c40 <= u && u <= 0x1c49) || (0x1c50 <= u && u <= 0x1c59) || (0xa620 <= u && u <= 0xa629)
        || (0xa8d0 <= u && u <= 0xa8d9) || (0xa900 <= u && u <= 0xa909) || (0xa9d0 <= u && u <= 0xa9d9)
        || (0xa9f0 <= u && u <= 0xa9f9) || (0xaa50 <= u && u <= 0xaa59) || (0xabf0 <= u && u <= 0xabf9)
        || (0xff10 <= u && u <= 0xff19) || (0x104a0 <= u && u <= 0x104a9) || (0x10d30 <= u && u <= 0x10d39)
        || (0x10d40 <= u && u <= 0x10d49) || (0x11066 <= u && u <= 0x1106f) || (0x110f0 <= u && u <= 0x110f9)
        || (0x11136 <= u && u <= 0x1113f) || (0x111d0 <= u && u <= 0x111d9) || (0x112f0 <= u && u <= 0x112f9)
        || (0x11450 <= u && u <= 0x11459) || (0x114d0 <= u && u <= 0x114d9) || (0x11650 <= u && u <= 0x11659)
        || (0x116c0 <= u && u <= 0x116c9) || (0x116d0 <= u && u <= 0x116e3) || (0x11730 <= u && u <= 0x11739)
        || (0x118e0 <= u && u <= 0x118e9) || (0x11950 <= u && u <= 0x11959) || (0x11bf0 <= u && u <= 0x11bf9)
        || (0x11c50 <= u && u <= 0x11c59) || (0x11d50 <= u && u <= 0x11d59) || (0x11da0 <= u && u <= 0x11da9)
        || (0x11f50 <= u && u <= 0x11f59) || (0x16130 <= u && u <= 0x16139) || (0x16a60 <= u && u <= 0x16a69)
        || (0x16ac0 <= u && u <= 0x16ac9) || (0x16b50 <= u && u <= 0x16b59) || (0x16d70 <= u && u <= 0x16d79)
        || (0x1ccf0 <= u && u <= 0x1ccf9) || (0x1d7ce <= u && u <= 0x1d7ff) || (0x1e140 <= u && u <= 0x1e149)
        || (0x1e2f0 <= u && u <= 0x1e2f9) || (0x1e4f0 <= u && u <= 0x1e4f9) || (0x1e5f1 <= u && u <= 0x1e5fa)
        || (0x1e950 <= u && u <= 0x1e959) || (0x1fbf0 <= u && u <= 0x1fbf9)
}

/// The character classes a table row is made of.
pub enum CharClass {
    Digit,
    Space,
    DigitOrDot,
}

/// Whether `c` is in the class `k`.
pub open spec fn in_class(c: char, k: CharClass) -> bool {
    match k {
        CharClass::Digit => is_decimal_digit(c),
        CharClass::Space => is_white_space(c),
        CharClass::DigitOrDot => is_decimal_digit(c) || c == '.',
    }
}

/// The end of the longest run of class `k` starting at `i` (which is `i` when none).
pub open spec fn run_end(t: Seq<char>, i: int, k: CharClass) -> int
    decreases t.len() - i,
{
    if 0 <= i < t.len() && in_class(t[i], k) {
        run_end(t, i + 1, k)
    } else {
        i
    }
}

/// A row starts at `s` when `s` begins the text or follows a line break.
pub open spec fn is_line_start(t: Seq<char>, s: int) -> bool {
    s == 0 || (0 < s <= t.len() && t[s - 1] == '\n')
}

/// The row starting at `s`, if one does: where it ends, and where its longitude and latitude
/// stand (start and end of each).
pub open spec fn lpm_row_at(t: Seq<char>, s: int) -> Option<(int, int, int, int, int)> {
    let a1 = run_end(t, s, CharClass::Digit);
    let b1 = run_end(t, a1, CharClass::Space);
    let g2e = run_end(t, b1, CharClass::DigitOrDot);
    let c1 = run_end(t, g2e, CharClass::Space);
    let g3e = run_end(t, c1, CharClass::DigitOrDot);
    let d1 = run_end(t, g3e, CharClass::Space);
    let e1 = run_end(t, d1, CharClass::Digit);
    let g5e = run_end(t, e1 + 5, CharClass::Digit);
    let f1 = run_end(t, g5e, CharClass::Space);
    let g6e = run_end(t, f1, CharClass::DigitOrDot);
    let h1 = run_end(t, g6e, CharClass::Space);
    let end = run_end(t, h1, CharClass::Digit);
    if a1 > s && b1 > a1 && g2e > b1 && c1 > g2e && g3e > c1 && d1 > g3e && e1 > d1 && e1 + 4
        < t.len() && t[e1] == '.' && is_decimal_digit(t[e1 + 1]) && is_decimal_digit(t[e1 + 2])
        && is_decimal_digit(t[e1 + 3]) && t[e1 + 4] == '.' && g5e > e1 + 5 && f1 > g5e && g6e
        > f1 && h1 > g6e && end > h1 {
        Some((end, b1, g2e, e1 + 2, g5e))
    } else {
        None
    }
}

/// The (longitude, latitude) texts of the rows found from position `p` on.
pub open spec fn lpm_rows_from(t: Seq<char>, p: int) -> Seq<(Seq<char>, Seq<char>)>
    decreases t.len() - p,
{
    if p < 0 || p >= t.len() {
        seq![]
    } else {
        let m = if is_line_start(t, p) {
            lpm_row_at(t, p)
        } else {
            None
        };
        match m {
            Some(r) => if p < r.0 <= t.len() {
                seq![(t.subrange(r.1, r.2), t.subrange(r.3, r.4))] + lpm_rows_from(t, r.0)
            } else {
                lpm_rows_from(t, p + 1)
            },
            None => lpm_rows_from(t, p + 1),
        }
    }
}

proof fn lemma_run_end_bounds(t: Seq<char>, i: int, k: CharClass)
    requires
        0 <= i,
    ensures
        i <= run_end(t, i, k),
        i <= t.len() ==> run_end(t, i, k) <= t.len(),
        forall|j: int| i <= j < run_end(t, i, k) ==> in_class(#[trigger] t[j], k),
        run_end(t, i, k) < t.len() ==> !in_class(t[run_end(t, i, k)], k),
    decreases t.len() - i,
{
    if 0 <= i < t.len() && in_class(t[i], k) {
        lemma_run_end_bounds(t, i + 1, k);
    }
}

fn in_class_exec(c: char, k: &CharClass) -> (res: bool)
    ensures
        res == in_class(c, *k),
{
    match k {
        CharClass::Digit => is_decimal_digit_exec(c),
        CharClass::Space => is_white_space_exec(c),
        CharClass::DigitOrDot => is_decimal_digit_exec(c) || c == '.',
    }
}

fn run_end_exec(t: &Vec<char>, i: usize, k: CharClass) -> (res: usize)
    ensures
        res == run_end(t@, i as int, k),
{
    let n = t.len();
    let mut j = i;
    while j < n && in_class_exec(t[j], &k)
        invariant
            i <= j,
            n == t@.len(),
            run_end(t@, i as int, k) == run_end(t@, j as int, k),
        decreases n - j,
    {
        j = j + 1;
    }
    j
}

/// The row starting at `s`, as `lpm_row_at` gives it.
fn lpm_row_at_exec(t: &Vec<char>, s: usize) -> (res: Option<(usize, usize, usize, usize, usize)>)
    requires
        s <= t@.len(),
    ensures
        res is Some <==> lpm_row_at(t@, s as int) is Some,
        res matches Some(r) ==> lpm_row_at(t@, s as int) == Some(
            (r.0 as int, r.1 as int, r.2 as int, r.3 as int, r.4 as int),
        ),
        res matches Some(r) ==> s < r.0 <= t@.len() && r.1 <= r.2 <= t@.len() && r.3 <= r.4
            <= t@.len(),
{
    let ghost tv = t@;
    let n = t.len();
    let a1 = run_end_exec(t, s, CharClass::Digit);
    proof { lemma_run_end_bounds(tv, s as int, CharClass::Digit); }
    if a1 == s { return None; }
    let b1 = run_end_exec(t, a1, CharClass::Space);
    proof { lemma_run_end_bounds(tv, a1 as int, CharClass::Space); }
    if b1 == a1 { return None; }
    let g2e = run_end_exec(t, b1, CharClass::DigitOrDot);
    proof { lemma_run_end_bounds(tv, b1 as int, CharClass::DigitOrDot); }
    if g2e == b1 { return None; }
    let c1 = run_end_exec(t, g2e, CharClass::Space);
    proof { lemma_run_end_bounds(tv, g2e as int, CharClass::Space); }
    if c1 == g2e { return None; }
    let g3e = run_end_exec(t, c1, CharClass::DigitOrDot);
    proof { lemma_run_end_bounds(tv, c1 as int, CharClass::DigitOrDot); }
    if g3e == c1 { return None; }
    let d1 = run_end_exec(t, g3e, CharClass::Space);
    proof { lemma_run_end_bounds(tv, g3e as int, CharClass::Space); }
    if d1 == g3e { return None; }
    let e1 = run_end_exec(t, d1, CharClass::Digit);
    proof { lemma_run_end_bounds(tv, d1 as int, CharClass::Digit); }
    if e1 == d1 { return None; }
    if n - e1 <= 4 { return None; }
    if t[e1] != '.' || !is_decimal_digit_exec(t[e1 + 1]) || !is_decimal_digit_exec(t[e1 + 2])
        || !is_decimal_digit_exec(t[e1 + 3]) || t[e1 + 4] != '.' {
        return None;
    }
    let g5e = run_end_exec(t, e1 + 5, CharClass::Digit);
    proof { lemma_run_end_bounds(tv, e1 + 5, CharClass::Digit); }
    if g5e == e1 + 5 { return None; }
    let f1 = run_end_exec(t, g5e, CharClass::Space);
    proof { lemma_run_end_bounds(tv, g5e as int, CharClass::Space); }
    if f1 == g5e { return None; }
    let g6e = run_end_exec(t, f1, CharClass::DigitOrDot);
    proof { lemma_run_end_bounds(tv, f1 as int, CharClass::DigitOrDot); }
    if g6e == f1 { return None; }
    let h1 = run_end_exec(t, g6e, CharClass::Space);
    proof { lemma_run_end_bounds(tv, g6e as int, CharClass::Space); }
    if h1 == g6e { return None; }
    let end = run_end_exec(t, h1, CharClass::Digit);
    proof { lemma_run_end_bounds(tv, h1 as int, CharClass::Digit); }
    if end == h1 { return None; }
    Some((end, b1, g2e, e1 + 2, g5e))
}

/// The characters of `t` from `a` up to (not including) `b`, as a `String`.
fn substring(t: &Vec<char>, a: usize, b: usize) -> (res: String)
    requires
        a <= b <= t@.len(),
    ensures
        res@ == t@.subrange(a as int, b as int),
{
    let mut cs: Vec<char> = Vec::new();
    let mut i = a;
    while i < b
        invariant
            a <= i <= b <= t@.len(),
            cs@ == t@.subrange(a as int, i as int),
        decreases b - i,
    {
        cs.push(t[i]);
        i = i + 1;
    }
    string_from_chars(cs.as_slice())
}

/// The (longitude, latitude) texts of the table rows of one page of text, in order.
pub fn lpm_table_rows(text: &str) -> (res: Vec<(String, String)>)
    ensures
        res@.map_values(|r: (String, String)| (r.0@, r.1@)) == lpm_rows_from(text@, 0),
{
    let t = chars_of(text);
    let n = t.len();
    let mut res: Vec<(String, String)> = Vec::new();
    let mut p: usize = 0;
    while p < n
        invariant
            p <= n,
            n == t@.len(),
            t@ == text@,
            lpm_rows_from(t@, 0) == res@.map_values(|r: (String, String)| (r.0@, r.1@))
                + lpm_rows_from(t@, p as int),
        decreases n - p,
    {
        let line_start = p == 0 || t[p - 1] == '\n';
        let found = if line_start {
            lpm_row_at_exec(&t, p)
        } else {
            None
        };
        match found {
            Some(r) => {
                let lng = substring(&t, r.1, r.2);
                let lat = substring(&t, r.3, r.4);
                let ghost before = res@.map_values(|r: (String, String)| (r.0@, r.1@));
                res.push((lng, lat));
                proof {
                    assert(res@.map_values(|r: (String, String)| (r.0@, r.1@)) =~= before.push(
                        (t@.subrange(r.1 as int, r.2 as int), t@.subrange(r.3 as int, r.4 as int)),
                    ));
                    assert(lpm_rows_from(t@, p as int) == seq![
                        (t@.subrange(r.1 as int, r.2 as int), t@.subrange(r.3 as int, r.4 as int)),
                    ] + lpm_rows_from(t@, r.0 as int));
                    assert(before.push(
                        (t@.subrange(r.1 as int, r.2 as int), t@.subrange(r.3 as int, r.4 as int)),
                    ) + lpm_rows_from(t@, r.0 as int) =~= before + (seq![
                        (t@.subrange(r.1 as int, r.2 as int), t@.subrange(r.3 as int, r.4 as int)),
                    ] + lpm_rows_from(t@, r.0 as int)));
                }
                p = r.0;
            },
            None => {
                assert(lpm_rows_from(t@, p as int) == lpm_rows_from(t@, p + 1));
                p = p + 1;
            },
        }
    }
    assert(lpm_rows_from(t@, p as int) =~= Seq::<(Seq<char>, Seq<char>)>::empty());
    assert(res@.map_values(|r: (String, String)| (r.0@, r.1@)) + Seq::<(Seq<char>, Seq<char>)>::empty()
        =~= res@.map_values(|r: (String, String)| (r.0@, r.1@)));
    res
}

/// The (longitude, latitude) texts of the table rows of all pages, page by page.
pub open spec fn lpm_rows_of_pages(pages: Seq<Seq<char>>) -> Seq<(Seq<char>, Seq<char>)>
    decreases pages.len(),
{
    if pages.len() == 0 {
        seq![]
    } else {
        lpm_rows_of_pages(pages.drop_last()) + lpm_rows_from(pages.last(), 0)
    }
}

/// The (longitude, latitude) texts of the table rows of all pages, page by page.
pub fn lpm_table_rows_of_pages(pages: &Vec<String>) -> (res: Vec<(String, String)>)
    ensures
        res@.map_values(|r: (String, String)| (r.0@, r.1@)) == lpm_rows_of_pages(pages.deep_view()),
{
    let mut res: Vec<(String, String)> = Vec::new();
    let mut i: usize = 0;
    while i < pages.len()
        invariant
            i <= pages@.len(),
            res@.map_values(|r: (String, String)| (r.0@, r.1@)) == lpm_rows_of_pages(
                pages.deep_view().take(i as int),
            ),
        decreases pages@.len() - i,
    {
        let mut rows = lpm_table_rows(pages[i].as_str());
        let ghost before = res@.map_values(|r: (String, String)| (r.0@, r.1@));
        let ghost page_rows = rows@.map_values(|r: (String, String)| (r.0@, r.1@));
        res.append(&mut rows);
        proof {
            assert(res@.map_values(|r: (String, String)| (r.0@, r.1@)) =~= before + page_rows);
            assert(pages.deep_view().take(i + 1).drop_last() =~= pages.deep_view().take(i as int));
            assert(pages.deep_view().take(i + 1).last() == pages[i as int]@);
        }
        i = i + 1;
    }
    assert(pages.deep_view().take(pages@.len() as int) =~= pages.deep_view());
    res
}

/// `oxidize_pdf`: `PdfReader::new` over the bytes, `PdfDocument::new`, `extract_text`, and
/// each page's `text`; `None` on an error of the reader or the extraction.
///
/// What was checked of `oxidize_pdf` 5.5.6 for this call: the entry points
/// (`PdfReader::new`, `PdfDocument::new`, `extract_text`, `rag_chunks`) and the `unwrap`,
/// `expect` and `panic!` sites outside tests in `parser/reader.rs`, `text/extraction.rs`,
/// `pipeline/rag.rs` and `pipeline/hybrid_chunking.rs`, each of which follows a check that rules
/// it out. The rest of the parser, its stream decoders and the layout code were not read, so it
/// is not stated that the call returns on every input. Nor is the result stated to depend on
/// the bytes alone: when the catalog must be searched for, `PdfReader` walks its
/// cross-reference table in `HashMap` order, which each process seeds afresh. Nothing is
/// stated of the result; what the library does with it is stated by the verified function
/// that takes it.
#[verifier::external_body]
fn extract_pdf_texts(pdf: &[u8]) -> (res: Option<Vec<String>>) {
    let reader = oxidize_pdf::parser::PdfReader::new(std::io::Cursor::new(pdf.to_vec())).ok()?;
    let document = oxidize_pdf::parser::PdfDocument::new(reader);
    let pages = document.extract_text().ok()?;
    Some(pages.into_iter().map(|page| page.text).collect())
}

/// The (longitude, latitude) texts of the coordinate table of an LPM report PDF, or `None`
/// when `oxidize_pdf` cannot read the PDF. The rows are those of the page texts it extracts
/// (`lpm_table_rows_of_pages`); which texts those are is the outside crate's.
pub fn lpm_report_rows(pdf: &[u8]) -> (res: Option<Vec<(String, String)>>)
    ensures
        res matches Some(v) ==> exists|pages: Seq<Seq<char>>|
            #[trigger] lpm_rows_of_pages(pages) == v@.map_values(
                |r: (String, String)| (r.0@, r.1@),
            ),
{
    match extract_pdf_texts(pdf) {
        Some(pages) => {
            let rows = lpm_table_rows_of_pages(&pages);
            assert(lpm_rows_of_pages(pages.deep_view()) == rows@.map_values(
                |r: (String, String)| (r.0@, r.1@),
            ));
            Some(rows)
        },
        None => None,
    }
}

/// An ASCII digit or a dot.
pub open spec fn is_ascii_number_char(c: char) -> bool {
    ('0' <= c <= '9') || c == '.'
}

/// The end of the longest run of ASCII digits and dots starting at `i`.
pub open spec fn ascii_number_end(t: Seq<char>, i: int) -> int
    decreases t.len() - i,
{
    if 0 <= i < t.len() && is_ascii_number_char(t[i]) {
        ascii_number_end(t, i + 1)
    } else {
        i
    }
}

/// The two numbers of a table line written with bars, `  N | A | B`: optional white space,
/// digits, optional white space, a bar, optional white space, ASCII digits and dots (the
/// first number), optional white space, a bar, optional white space, ASCII digits and dots
/// (the second number); anything may follow.
pub open spec fn bar_table_row_spec(t: Seq<char>) -> Option<(Seq<char>, Seq<char>)> {
    let a = run_end(t, 0, CharClass::Space);
    let b = run_end(t, a, CharClass::Digit);
    let c = run_end(t, b, CharClass::Space);
    let d = run_end(t, c + 1, CharClass::Space);
    let e = ascii_number_end(t, d);
    let f = run_end(t, e, CharClass::Space);
    let g = run_end(t, f + 1, CharClass::Space);
    let h = ascii_number_end(t, g);
    if b > a && c < t.len() && t[c] == '|' && e > d && f < t.len() && t[f] == '|' && h > g {
        Some((t.subrange(d, e), t.subrange(g, h)))
    } else {
        None
    }
}

proof fn lemma_ascii_number_end_bounds(t: Seq<char>, i: int)
    requires
        0 <= i,
    ensures
        i <= ascii_number_end(t, i),
        i <= t.len() ==> ascii_number_end(t, i) <= t.len(),
    decreases t.len() - i,
{
    if 0 <= i < t.len() && is_ascii_number_char(t[i]) {
        lemma_ascii_number_end_bounds(t, i + 1);
    }
}

fn ascii_number_end_exec(t: &Vec<char>, i: usize) -> (res: usize)
    ensures
        res == ascii_number_end(t@, i as int),
{
    let n = t.len();
    let mut j = i;
    while j < n && (('0' <= t[j] && t[j] <= '9') || t[j] == '.')
        invariant
            i <= j,
            n == t@.len(),
            ascii_number_end(t@, i as int) == ascii_number_end(t@, j as int),
        decreases n - j,
    {
        j = j + 1;
    }
    j
}

/// The two numbers of a bar table line, as `bar_table_row_spec` gives them.
pub fn bar_table_row(line: &str) -> (res: Option<(String, String)>)
    ensures
        res is Some <==> bar_table_row_spec(line@) is Some,
        res matches Some(r) ==> (bar_table_row_spec(line@) matches Some(q) && r.0@ == q.0
            && r.1@ == q.1),
{
    let t = chars_of(line);
    let ghost tv = t@;
    let n = t.len();
    let a = run_end_exec(&t, 0, CharClass::Space);
    proof { lemma_run_end_bounds(tv, 0, CharClass::Space); }
    let b = run_end_exec(&t, a, CharClass::Digit);
    proof { lemma_run_end_bounds(tv, a as int, CharClass::Digit); }
    if b == a { return None; }
    let c = run_end_exec(&t, b, CharClass::Space);
    proof { lemma_run_end_bounds(tv, b as int, CharClass::Space); }
    if c >= n || t[c] != '|' { return None; }
    let d = run_end_exec(&t, c + 1, CharClass::Space);
    proof { lemma_run_end_bounds(tv, c + 1, CharClass::Space); }
    let e = ascii_number_end_exec(&t, d);
    proof { lemma_ascii_number_end_bounds(tv, d as int); }
    if e == d { return None; }
    let f = run_end_exec(&t, e, CharClass::Space);
    proof { lemma_run_end_bounds(tv, e as int, CharClass::Space); }
    if f >= n || t[f] != '|' { return None; }
    let g = run_end_exec(&t, f + 1, CharClass::Space);
    proof { lemma_run_end_bounds(tv, f + 1, CharClass::Space); }
    let h = ascii_number_end_exec(&t, g);
    proof { lemma_ascii_number_end_bounds(tv, g as int); }
    if h == g { return None; }
    Some((substring(&t, d, e), substring(&t, g, h)))
}

/// The lines of a text as `str::lines` gives them: split after each `\n`, the `\n` and a
/// `\r` just before it removed; a final line ending adds no empty line.
pub open spec fn lines_of(t: Seq<char>) -> Seq<Seq<char>>
    decreases t.len(),
{
    let i = first_newline(t, 0);
    if t.len() == 0 {
        seq![]
    } else if i < 0 || i >= t.len() {
        seq![t]
    } else {
        let line = t.take(i);
        let line = if line.len() > 0 && line.last() == '\r' {
            line.drop_last()
        } else {
            line
        };
        seq![line] + lines_of(t.skip(i + 1))
    }
}

/// The index of the first `\n` at or after `i`, or `t.len()`.
pub open spec fn first_newline(t: Seq<char>, i: int) -> int
    decreases t.len() - i,
{
    if 0 <= i < t.len() && t[i] != '\n' {
        first_newline(t, i + 1)
    } else if 0 <= i < t.len() {
        i
    } else {
        t.len() as int
    }
}

/// The two numbers of each bar table line of a text, in order (lines that are not table
/// rows are skipped).
pub open spec fn bar_table_rows_spec(lines: Seq<Seq<char>>) -> Seq<(Seq<char>, Seq<char>)>
    decreases lines.len(),
{
    if lines.len() == 0 {
        seq![]
    } else {
        let rest = bar_table_rows_spec(lines.drop_last());
        match bar_table_row_spec(lines.last()) {
            Some(r) => rest.push(r),
            None => rest,
        }
    }
}

proof fn lemma_first_newline(t: Seq<char>, i: int)
    requires
        0 <= i <= t.len(),
    ensures
        i <= first_newline(t, i) <= t.len(),
        forall|j: int| i <= j < first_newline(t, i) ==> t[j] != '\n',
        first_newline(t, i) < t.len() ==> t[first_newline(t, i)] == '\n',
    decreases t.len() - i,
{
    if i < t.len() && t[i] != '\n' {
        lemma_first_newline(t, i + 1);
    }
}

/// The first `\n` at or after `i` is where a scan from `i` stops.
proof fn lemma_first_newline_shift(t: Seq<char>, i: int)
    requires
        0 <= i <= t.len(),
    ensures
        first_newline(t.skip(i), 0) == first_newline(t, i) - i,
    decreases t.len() - i,
{
    let u = t.skip(i);
    lemma_first_newline(t, i);
    lemma_first_newline(u, 0);
    let a = first_newline(t, i) - i;
    let b = first_newline(u, 0);
    if b < a {
        assert(u[b] == t[i + b]);
    } else if a < b {
        assert(u[a] == t[i + a]);
    }
}

/// The two numbers of each bar table line of a text, in order.
pub fn bar_table_rows(text: &str) -> (res: Vec<(String, String)>)
    ensures
        res@.map_values(|r: (String, String)| (r.0@, r.1@)) == bar_table_rows_spec(
            lines_of(text@),
        ),
{
    let t = chars_of(text);
    let n = t.len();
    let mut res: Vec<(String, String)> = Vec::new();
    let mut start: usize = 0;
    let ghost mut done: Seq<Seq<char>> = seq![];
    assert(t@.skip(0) =~= t@);
    assert(done + lines_of(t@) =~= lines_of(t@));
    while start < n
        invariant
            start <= n,
            n == t@.len(),
            t@ == text@,
            lines_of(t@) == done + lines_of(t@.skip(start as int)),
            res@.map_values(|r: (String, String)| (r.0@, r.1@)) == bar_table_rows_spec(done),
        decreases n - start,
    {
        let mut j = start;
        while j < n && t[j] != '\n'
            invariant
                start <= j <= n,
                n == t@.len(),
                first_newline(t@, start as int) == first_newline(t@, j as int),
            decreases n - j,
        {
            j = j + 1;
        }
        proof {
            lemma_first_newline(t@, j as int);
            lemma_first_newline_shift(t@, start as int);
        }
        let mut end = j;
        if end > start && t[end - 1] == '\r' && j < n {
            end = end - 1;
        }
        let line = substring(&t, start, end);
        let ghost u = t@.skip(start as int);
        let ghost lv = line@;
        proof {
            let i = first_newline(u, 0);
            assert(i == j - start);
            if j < n {
                assert(u.take(i) =~= t@.subrange(start as int, j as int));
                assert(u.skip(i + 1) =~= t@.skip(j + 1));
                if end < j {
                    assert(u.take(i).drop_last() =~= lv);
                } else {
                    assert(u.take(i) =~= lv);
                }
                assert(lines_of(u) == seq![lv] + lines_of(t@.skip(j + 1)));
            } else {
                assert(u =~= lv);
                assert(lines_of(u) == seq![lv]);
                assert(t@.skip(n as int) =~= Seq::<char>::empty());
                assert(lines_of(t@.skip(n as int)) =~= Seq::<Seq<char>>::empty());
                assert(lines_of(u) =~= seq![lv] + lines_of(t@.skip(n as int)));
            }
            assert(done + lines_of(u) =~= (done + seq![lv]) + lines_of(
                t@.skip(if j < n { j + 1 } else { n as int }),
            ));
            assert((done + seq![lv]).drop_last() =~= done);
        }
        match bar_table_row(line.as_str()) {
            Some(r) => {
                res.push(r);
                assert(res@.map_values(|r: (String, String)| (r.0@, r.1@)) =~= bar_table_rows_spec(
                    done + seq![lv],
                ));
            },
            None => {},
        }
        proof {
            done = done + seq![lv];
        }
        if j < n {
            start = j + 1;
        } else {
            start = n;
        }
    }
    proof {
        assert(t@.skip(n as int) =~= Seq::<char>::empty());
        assert(lines_of(t@.skip(n as int)) =~= Seq::<Seq<char>>::empty());
        assert(done + lines_of(t@.skip(n as int)) =~= done);
    }
    res
}

/// Whether a chunk whose elements are of the given kinds holds a table.
pub open spec fn is_table_chunk(kinds: Seq<Seq<char>>) -> bool {
    kinds.contains("table"@)
}

/// The bar table rows of each chunk that holds a table, chunk by chunk, in order.
pub open spec fn table_chunk_rows_spec(chunks: Seq<(Seq<Seq<char>>, Seq<char>)>) -> Seq<
    Seq<(Seq<char>, Seq<char>)>,
>
    decreases chunks.len(),
{
    if chunks.len() == 0 {
        seq![]
    } else {
        let rest = table_chunk_rows_spec(chunks.drop_last());
        if is_table_chunk(chunks.last().0) {
            rest.push(bar_table_rows_spec(lines_of(chunks.last().1)))
        } else {
            rest
        }
    }
}

/// `oxidize_pdf`: `PdfReader::new` over the bytes, `PdfDocument::new`, `rag_chunks`, and
/// each chunk's `element_types` and `text`; `None` on an error of the reader or the chunking.
///
/// What was checked of `oxidize_pdf` 5.5.6 for this call: the entry points
/// (`PdfReader::new`, `PdfDocument::new`, `extract_text`, `rag_chunks`) and the `unwrap`,
/// `expect` and `panic!` sites outside tests in `parser/reader.rs`, `text/extraction.rs`,
/// `pipeline/rag.rs` and `pipeline/hybrid_chunking.rs`, each of which follows a check that rules
/// it out. The rest of the parser, its stream decoders and the layout code were not read, so it
/// is not stated that the call returns on every input. Nor is the result stated to depend on
/// the bytes alone: when the catalog must be searched for, `PdfReader` walks its
/// cross-reference table in `HashMap` order, which each process seeds afresh. Nothing is
/// stated of the result; what the library does with it is stated by the verified function
/// that takes it.
#[verifier::external_body]
fn extract_rag_chunks(pdf: &[u8]) -> (res: Option<Vec<(Vec<String>, String)>>) {
    let reader = oxidize_pdf::parser::PdfReader::new(std::io::Cursor::new(pdf.to_vec())).ok()?;
    let document = oxidize_pdf::parser::PdfDocument::new(reader);
    let chunks = document.rag_chunks().ok()?;
    Some(chunks.into_iter().map(|chunk| (chunk.element_types, chunk.text)).collect())
}

/// Whether one of the kinds is `table`.
fn has_table_kind(kinds: &Vec<String>) -> (res: bool)
    ensures
        res == is_table_chunk(kinds.deep_view()),
{
    let table = String::from_str("table");
    proof {
        reveal_strlit("table");
    }
    let mut i: usize = 0;
    while i < kinds.len()
        invariant
            i <= kinds@.len(),
            table@ == "table"@,
            forall|j: int| 0 <= j < i ==> kinds.deep_view()[j] != "table"@,
        decreases kinds@.len() - i,
    {
        if kinds[i] == table {
            assert(kinds.deep_view()[i as int] == "table"@);
            return true;
        }
        i = i + 1;
    }
    proof {
        if kinds.deep_view().contains("table"@) {
            let j = choose|j: int| 0 <= j < kinds.deep_view().len() && kinds.deep_view()[j] == "table"@;
            assert(kinds.deep_view()[j] == "table"@);
        }
    }
    false
}

/// The bar table rows of each chunk that holds a table, chunk by chunk; a chunk is given by
/// the kinds of its elements and its text.
pub fn table_chunk_rows_of(chunks: &Vec<(Vec<String>, String)>) -> (res: Vec<
    Vec<(String, String)>,
>)
    ensures
        res@.map_values(
            |rows: Vec<(String, String)>| rows@.map_values(|r: (String, String)| (r.0@, r.1@)),
        ) == table_chunk_rows_spec(
            chunks@.map_values(|c: (Vec<String>, String)| (c.0.deep_view(), c.1@)),
        ),
{
    let ghost cs = chunks@.map_values(|c: (Vec<String>, String)| (c.0.deep_view(), c.1@));
    let mut res: Vec<Vec<(String, String)>> = Vec::new();
    let mut i: usize = 0;
    while i < chunks.len()
        invariant
            i <= chunks@.len(),
            cs == chunks@.map_values(|c: (Vec<String>, String)| (c.0.deep_view(), c.1@)),
            res@.map_values(
                |rows: Vec<(String, String)>| rows@.map_values(|r: (String, String)| (r.0@, r.1@)),
            ) == table_chunk_rows_spec(cs.take(i as int)),
        decreases chunks@.len() - i,
    {
        proof {
            assert(cs.take(i + 1).drop_last() =~= cs.take(i as int));
            assert(cs.take(i + 1).last() == (chunks[i as int].0.deep_view(), chunks[i as int].1@));
        }
        if has_table_kind(&chunks[i].0) {
            let rows = bar_table_rows(chunks[i].1.as_str());
            res.push(rows);
            assert(res@.map_values(
                |rows: Vec<(String, String)>| rows@.map_values(|r: (String, String)| (r.0@, r.1@)),
            ) =~= table_chunk_rows_spec(cs.take(i + 1)));
        }
        i = i + 1;
    }
    assert(cs.take(chunks@.len() as int) =~= cs);
    res
}

/// The bar table rows of each table chunk of a PDF document, chunk by chunk, or `None` when
/// `oxidize_pdf` cannot read the document. The rows are those of the chunks it cuts the
/// document into (`table_chunk_rows_of`); which chunks those are is the outside crate's.
pub fn table_chunk_rows(pdf: &[u8]) -> (res: Option<Vec<Vec<(String, String)>>>)
    ensures
        res matches Some(v) ==> exists|chunks: Seq<(Seq<Seq<char>>, Seq<char>)>|
            #[trigger] table_chunk_rows_spec(chunks) == v@.map_values(
                |rows: Vec<(String, String)>| rows@.map_values(|r: (String, String)| (r.0@, r.1@)),
            ),
{
    match extract_rag_chunks(pdf) {
        Some(chunks) => {
            let rows = table_chunk_rows_of(&chunks);
            assert(table_chunk_rows_spec(
                chunks@.map_values(|c: (Vec<String>, String)| (c.0.deep_view(), c.1@)),
            ) == rows@.map_values(
                |rows: Vec<(String, String)>| rows@.map_values(|r: (String, String)| (r.0@, r.1@)),
            ));
            Some(rows)
        },
        None => None,
    }
}

} // verus!
