//! Framing of the receiver's serial stream into NMEA sentences, and the batches of sentences
//! that are broadcast to listeners at each tick.
//!
//! Text arrives in chunks of arbitrary size. Complete lines (ending in `'\n'`) are cut off the
//! front of the pending text, trimmed of surrounding whitespace, and kept when not empty; the
//! text after the last `'\n'` waits for the next chunk.
use vstd::prelude::*;
use vstd::utf8::{decode_utf8, valid_utf8};
use crate::json::{encode_sentence_batch, json_read_string_array, json_string_array};
use crate::text::{
    chars_of, decode_utf8_text, is_white_space, string_from_chars, trim_chars, trim_end_spec,
    trim_spec, trim_start_spec,
};

verus! {

/// Index of the first `'\n'` in `s`, or `-1` when there is none.
pub open spec fn newline_index(s: Seq<char>) -> int
    decreases s.len(),
{
    if s.len() == 0 {
        -1
    } else if s[0] == '\n' {
        0
    } else {
        let r = newline_index(s.drop_first());
        if r < 0 {
            -1
        } else {
            r + 1
        }
    }
}

/// The complete lines of `s` (each with its `'\n'`), and the text after the last `'\n'`.
pub open spec fn split_lines(s: Seq<char>) -> (Seq<Seq<char>>, Seq<char>)
    decreases s.len(),
{
    let i = newline_index(s);
    if i < 0 || i >= s.len() {
        (seq![], s)
    } else {
        let rest = split_lines(s.skip(i + 1));
        (seq![s.take(i + 1)] + rest.0, rest.1)
    }
}

/// The sentences that a list of lines yields: each line trimmed, empty ones dropped.
pub open spec fn sentences_of(lines: Seq<Seq<char>>) -> Seq<Seq<char>>
    decreases lines.len(),
{
    if lines.len() == 0 {
        seq![]
    } else {
        let t = trim_spec(lines[0]);
        let rest = sentences_of(lines.drop_first());
        if t.len() > 0 {
            seq![t] + rest
        } else {
            rest
        }
    }
}

/// The pending text and the collected sentences after `text` arrives.
pub open spec fn after_text(
    pending: Seq<char>,
    collected: Seq<Seq<char>>,
    text: Seq<char>,
) -> (Seq<char>, Seq<Seq<char>>) {
    let parts = split_lines(pending + text);
    (parts.1, collected + sentences_of(parts.0))
}

/// A sentence as it is collected: not empty, no surrounding whitespace, no line break inside.
pub open spec fn is_clean_sentence(s: Seq<char>) -> bool {
    &&& s.len() > 0
    &&& !is_white_space(s[0])
    &&& !is_white_space(s.last())
    &&& forall|k: int| 0 <= k < s.len() ==> s[k] != '\n'
}

proof fn lemma_newline_index(s: Seq<char>)
    ensures
        -1 <= newline_index(s) < s.len(),
        newline_index(s) >= 0 ==> s[newline_index(s)] == '\n',
        newline_index(s) >= 0 ==> forall|k: int| 0 <= k < newline_index(s) ==> s[k] != '\n',
        newline_index(s) < 0 ==> forall|k: int| 0 <= k < s.len() ==> s[k] != '\n',
    decreases s.len(),
{
    if s.len() > 0 && s[0] != '\n' {
        let t = s.drop_first();
        lemma_newline_index(t);
        assert forall|k: int| 0 < k < s.len() implies s[k] == t[k - 1] by {}
    }
}

/// The first `'\n'` of `s` is at `i` when `s[i]` is one and none comes before it.
proof fn lemma_newline_at(s: Seq<char>, i: int)
    requires
        0 <= i < s.len(),
        s[i] == '\n',
        forall|k: int| 0 <= k < i ==> s[k] != '\n',
    ensures
        newline_index(s) == i,
{
    lemma_newline_index(s);
    if newline_index(s) < i {
        assert(s[i] != '\n');
    }
}

proof fn lemma_newline_index_append(x: Seq<char>, y: Seq<char>)
    requires
        newline_index(x) >= 0,
    ensures
        newline_index(x + y) == newline_index(x),
{
    lemma_newline_index(x);
    let i = newline_index(x);
    assert((x + y)[i] == x[i]);
    assert forall|k: int| 0 <= k < i implies (x + y)[k] != '\n' by {
        assert((x + y)[k] == x[k]);
    }
    lemma_newline_at(x + y, i);
}

/// Splitting a concatenation: the complete lines of `x`, then those of the rest of `x`
/// followed by `y`.
pub proof fn lemma_split_lines_append(x: Seq<char>, y: Seq<char>)
    ensures
        split_lines(x + y).0 == split_lines(x).0 + split_lines(split_lines(x).1 + y).0,
        split_lines(x + y).1 == split_lines(split_lines(x).1 + y).1,
    decreases x.len(),
{
    lemma_newline_index(x);
    let i = newline_index(x);
    if i < 0 {
        assert(split_lines(x).0 =~= seq![]);
        assert(split_lines(x).0 + split_lines(x + y).0 =~= split_lines(x + y).0);
    } else {
        lemma_newline_index_append(x, y);
        lemma_newline_index(x + y);
        let xr = x.skip(i + 1);
        assert((x + y).skip(i + 1) =~= xr + y);
        assert((x + y).take(i + 1) =~= x.take(i + 1));
        lemma_split_lines_append(xr, y);
        assert(split_lines(x).0 == seq![x.take(i + 1)] + split_lines(xr).0);
        assert(split_lines(x).1 == split_lines(xr).1);
        assert(split_lines(x + y).0 == seq![x.take(i + 1)] + split_lines(xr + y).0);
        assert(seq![x.take(i + 1)] + (split_lines(xr).0 + split_lines(split_lines(xr).1 + y).0)
            =~= (seq![x.take(i + 1)] + split_lines(xr).0) + split_lines(split_lines(xr).1
            + y).0);
    }
}

/// The sentences of two lists of lines, one after the other.
pub proof fn lemma_sentences_of_append(a: Seq<Seq<char>>, b: Seq<Seq<char>>)
    ensures
        sentences_of(a + b) == sentences_of(a) + sentences_of(b),
    decreases a.len(),
{
    if a.len() == 0 {
        assert(a + b =~= b);
        assert(sentences_of(a) + sentences_of(b) =~= sentences_of(b));
    } else {
        assert((a + b).drop_first() =~= a.drop_first() + b);
        assert((a + b)[0] == a[0]);
        lemma_sentences_of_append(a.drop_first(), b);
        let t = trim_spec(a[0]);
        if t.len() > 0 {
            assert(seq![t] + (sentences_of(a.drop_first()) + sentences_of(b)) =~= (seq![t]
                + sentences_of(a.drop_first())) + sentences_of(b));
        }
    }
}

/// Text may arrive in any number of chunks: receiving `a` and then `b` leaves the same pending
/// text and the same collected sentences as receiving `a` and `b` joined.
pub proof fn law_chunking_does_not_matter(
    pending: Seq<char>,
    collected: Seq<Seq<char>>,
    a: Seq<char>,
    b: Seq<char>,
)
    ensures
        ({
            let first = after_text(pending, collected, a);
            after_text(first.0, first.1, b)
        }) == after_text(pending, collected, a + b),
{
    let x = pending + a;
    assert(pending + (a + b) =~= x + b);
    lemma_split_lines_append(x, b);
    let l1 = split_lines(x).0;
    let l2 = split_lines(split_lines(x).1 + b).0;
    lemma_sentences_of_append(l1, l2);
    assert(collected + sentences_of(l1) + sentences_of(l2) =~= collected + (sentences_of(l1)
        + sentences_of(l2)));
}

/// The shape of a trimmed start: `s` from the first non-whitespace character on.
proof fn lemma_trim_start_shape(s: Seq<char>) -> (a: int)
    ensures
        0 <= a <= s.len(),
        trim_start_spec(s) == s.skip(a),
        forall|k: int| 0 <= k < a ==> is_white_space(#[trigger] s[k]),
        a < s.len() ==> !is_white_space(s[a]),
    decreases s.len(),
{
    if s.len() > 0 && is_white_space(s[0]) {
        let t = s.drop_first();
        let a1 = lemma_trim_start_shape(t);
        assert(t.skip(a1) =~= s.skip(a1 + 1));
        assert forall|k: int| 0 <= k < a1 + 1 implies is_white_space(#[trigger] s[k]) by {
            if k > 0 {
                assert(s[k] == t[k - 1]);
            }
        }
        a1 + 1
    } else {
        assert(s.skip(0) =~= s);
        0
    }
}

/// The shape of a trimmed end: `s` up to its last non-whitespace character.
proof fn lemma_trim_end_shape(s: Seq<char>) -> (b: int)
    ensures
        0 <= b <= s.len(),
        trim_end_spec(s) == s.take(b),
        forall|k: int| b <= k < s.len() ==> is_white_space(#[trigger] s[k]),
        b > 0 ==> !is_white_space(s[b - 1]),
    decreases s.len(),
{
    if s.len() > 0 && is_white_space(s.last()) {
        let t = s.drop_last();
        let b1 = lemma_trim_end_shape(t);
        assert(t.take(b1) =~= s.take(b1));
        assert forall|k: int| b1 <= k < s.len() implies is_white_space(#[trigger] s[k]) by {
            if k < s.len() - 1 {
                assert(s[k] == t[k]);
            }
        }
        b1
    } else {
        assert(s.take(s.len() as int) =~= s);
        s.len() as int
    }
}

/// A trimmed text is a piece of the text with no whitespace at either end.
pub proof fn lemma_trim_shape(s: Seq<char>) -> (ab: (int, int))
    ensures
        0 <= ab.0 <= ab.1 <= s.len(),
        trim_spec(s) == s.subrange(ab.0, ab.1),
        ab.0 < ab.1 ==> !is_white_space(s[ab.0]) && !is_white_space(s[ab.1 - 1]),
        forall|k: int| ab.1 <= k < s.len() ==> is_white_space(#[trigger] s[k]),
{
    let a = lemma_trim_start_shape(s);
    let t = s.skip(a);
    let b = lemma_trim_end_shape(t);
    assert(t.take(b) =~= s.subrange(a, a + b));
    assert forall|k: int| a + b <= k < s.len() implies is_white_space(#[trigger] s[k]) by {
        assert(s[k] == t[k - a]);
    }
    if b > 0 {
        assert(s[a + b - 1] == t[b - 1]);
    }
    (a, a + b)
}

/// A line whose only line break is its last character trims to a clean sentence, or to nothing.
proof fn lemma_line_trims_clean(l: Seq<char>)
    requires
        l.len() > 0,
        l.last() == '\n',
        forall|k: int| 0 <= k < l.len() - 1 ==> l[k] != '\n',
    ensures
        trim_spec(l).len() > 0 ==> is_clean_sentence(trim_spec(l)),
{
    let ab = lemma_trim_shape(l);
    let t = trim_spec(l);
    if t.len() > 0 {
        assert(is_white_space(l[l.len() - 1]));
        assert(ab.1 < l.len());
        assert(t[0] == l[ab.0]);
        assert(t.last() == l[ab.1 - 1]);
        assert forall|k: int| 0 <= k < t.len() implies t[k] != '\n' by {
            assert(t[k] == l[ab.0 + k]);
        }
    }
}

/// Every complete line of a text ends in its one and only line break.
proof fn lemma_split_lines_shape(s: Seq<char>)
    ensures
        forall|j: int|
            0 <= j < split_lines(s).0.len() ==> {
                let l = #[trigger] split_lines(s).0[j];
                &&& l.len() > 0
                &&& l.last() == '\n'
                &&& forall|k: int| 0 <= k < l.len() - 1 ==> l[k] != '\n'
            },
    decreases s.len(),
{
    lemma_newline_index(s);
    let i = newline_index(s);
    if i >= 0 {
        let r = s.skip(i + 1);
        lemma_split_lines_shape(r);
        let l0 = s.take(i + 1);
        assert forall|j: int| 0 <= j < split_lines(s).0.len() implies {
            let l = #[trigger] split_lines(s).0[j];
            &&& l.len() > 0
            &&& l.last() == '\n'
            &&& forall|k: int| 0 <= k < l.len() - 1 ==> l[k] != '\n'
        } by {
            if j == 0 {
                assert(split_lines(s).0[0] == l0);
                assert forall|k: int| 0 <= k < l0.len() - 1 implies l0[k] != '\n' by {
                    assert(l0[k] == s[k]);
                }
            } else {
                assert(split_lines(s).0[j] == split_lines(r).0[j - 1]);
            }
        }
    }
}

/// The sentences drawn from well-formed lines are all clean.
proof fn lemma_sentences_clean(lines: Seq<Seq<char>>)
    requires
        forall|j: int|
            0 <= j < lines.len() ==> {
                let l = #[trigger] lines[j];
                &&& l.len() > 0
                &&& l.last() == '\n'
                &&& forall|k: int| 0 <= k < l.len() - 1 ==> l[k] != '\n'
            },
    ensures
        forall|j: int|
            0 <= j < sentences_of(lines).len() ==> is_clean_sentence(
                #[trigger] sentences_of(lines)[j],
            ),
    decreases lines.len(),
{
    if lines.len() > 0 {
        let rest = lines.drop_first();
        assert forall|j: int|
            0 <= j < rest.len() implies {
                let l = #[trigger] rest[j];
                &&& l.len() > 0
                &&& l.last() == '\n'
                &&& forall|k: int| 0 <= k < l.len() - 1 ==> l[k] != '\n'
            } by {
            assert(rest[j] == lines[j + 1]);
        }
        lemma_sentences_clean(rest);
        let l0 = lines[0];
        assert(l0 == lines[0]);
        lemma_line_trims_clean(l0);
        let t = trim_spec(l0);
        if t.len() > 0 {
            assert forall|j: int|
                0 <= j < sentences_of(lines).len() implies is_clean_sentence(
                #[trigger] sentences_of(lines)[j],
            ) by {
                if j > 0 {
                    assert(sentences_of(lines)[j] == sentences_of(rest)[j - 1]);
                }
            }
        }
    }
}

/// Every sentence ever collected is clean, whatever text arrives.
pub proof fn law_collected_sentences_are_clean(
    pending: Seq<char>,
    collected: Seq<Seq<char>>,
    text: Seq<char>,
)
    requires
        forall|j: int| 0 <= j < collected.len() ==> is_clean_sentence(#[trigger] collected[j]),
    ensures
        forall|j: int|
            0 <= j < after_text(pending, collected, text).1.len() ==> is_clean_sentence(
                #[trigger] after_text(pending, collected, text).1[j],
            ),
{
    let lines = split_lines(pending + text).0;
    lemma_split_lines_shape(pending + text);
    lemma_sentences_clean(lines);
    let c2 = after_text(pending, collected, text).1;
    assert forall|j: int| 0 <= j < c2.len() implies is_clean_sentence(#[trigger] c2[j]) by {
        if j < collected.len() {
            assert(c2[j] == collected[j]);
        } else {
            assert(c2[j] == sentences_of(lines)[j - collected.len()]);
        }
    }
}

/// The receiver's text stream: the text after the last line break, and the sentences
/// collected since the last batch was taken.
pub struct SentenceCollector {
    line_buffer: Vec<char>,
    collected: Vec<String>,
    received: Ghost<Seq<char>>,
    sent: Ghost<Seq<Seq<char>>>,
}

/// The sentences of a whole stream of text: its complete lines, trimmed, empty ones dropped.
pub open spec fn stream_sentences(received: Seq<char>) -> Seq<Seq<char>> {
    sentences_of(split_lines(received).0)
}

impl SentenceCollector {
    /// Text received after the last line break.
    pub closed spec fn pending(&self) -> Seq<char> {
        self.line_buffer@
    }

    /// Sentences collected since the last batch, in arrival order.
    pub closed spec fn sentences(&self) -> Seq<Seq<char>> {
        self.collected.deep_view()
    }

    /// All text received so far, chunk after chunk.
    pub closed spec fn received(&self) -> Seq<char> {
        self.received@
    }

    /// All sentences taken out so far, batch after batch.
    pub closed spec fn sent(&self) -> Seq<Seq<char>> {
        self.sent@
    }

    /// Every collected sentence is clean.
    pub open spec fn clean(&self) -> bool {
        forall|j: int|
            0 <= j < self.sentences().len() ==> is_clean_sentence(#[trigger] self.sentences()[j])
    }

    /// Every collected sentence is clean; the sentences taken out, followed by those waiting,
    /// are the sentences of the text received; the pending text is what follows its last line
    /// break.
    pub open spec fn wf(&self) -> bool {
        &&& self.clean()
        &&& self.sent() + self.sentences() == stream_sentences(self.received())
        &&& self.pending() == split_lines(self.received()).1
    }

    /// A collector that has received nothing.
    pub fn new() -> (res: Self)
        ensures
            res.pending() == Seq::<char>::empty(),
            res.sentences() == Seq::<Seq<char>>::empty(),
            res.received() == Seq::<char>::empty(),
            res.sent() == Seq::<Seq<char>>::empty(),
            res.wf(),
    {
        let res = SentenceCollector {
            line_buffer: Vec::new(),
            collected: Vec::new(),
            received: Ghost(Seq::empty()),
            sent: Ghost(Seq::empty()),
        };
        assert(res.sentences() =~= Seq::<Seq<char>>::empty());
        assert(split_lines(Seq::<char>::empty()).0 =~= Seq::<Seq<char>>::empty());
        assert(res.sent() + res.sentences() =~= stream_sentences(res.received()));
        res
    }

    /// Receive a piece of text: complete lines become sentences, the rest waits. Everything
    /// received and taken out so far stays in the record.
    pub fn push_text(&mut self, text: &str)
        requires
            old(self).wf(),
        ensures
            final(self).wf(),
            (final(self).pending(), final(self).sentences()) == after_text(
                old(self).pending(),
                old(self).sentences(),
                text@,
            ),
            final(self).received() == old(self).received() + text@,
            final(self).sent() == old(self).sent(),
    {
        let ghost r0 = self.received@;
        let ghost p0 = self.line_buffer@;
        let ghost c0 = self.collected.deep_view();
        self.frame_text(text);
        self.received = Ghost(r0 + text@);
        proof {
            lemma_split_lines_append(r0, text@);
            lemma_sentences_of_append(split_lines(r0).0, split_lines(p0 + text@).0);
            assert(self.sent() + self.sentences() =~= (self.sent() + c0) + sentences_of(
                split_lines(p0 + text@).0,
            ));
        }
    }

    /// Cut the complete lines off the pending text followed by `text`.
    fn frame_text(&mut self, text: &str)
        requires
            old(self).clean(),
        ensures
            final(self).clean(),
            (final(self).pending(), final(self).sentences()) == after_text(
                old(self).pending(),
                old(self).sentences(),
                text@,
            ),
            final(self).received() == old(self).received(),
            final(self).sent() == old(self).sent(),
    {
        let tc = chars_of(text);
        let ghost old_pending = self.line_buffer@;
        let ghost old_sentences = self.collected.deep_view();
        let mut full: Vec<char> = Vec::new();
        std::mem::swap(&mut full, &mut self.line_buffer);
        let mut k: usize = 0;
        let ghost base = full@;
        while k < tc.len()
            invariant
                k <= tc@.len(),
                full@ == base + tc@.take(k as int),
            decreases tc@.len() - k,
        {
            full.push(tc[k]);
            k = k + 1;
            assert(base + tc@.take(k as int) =~= (base + tc@.take(k - 1)).push(tc@[k - 1]));
        }
        assert(tc@.take(tc@.len() as int) =~= tc@);
        let ghost whole = full@;
        assert(whole == old_pending + text@);
        let mut col: Vec<String> = Vec::new();
        std::mem::swap(&mut col, &mut self.collected);
        let n = full.len();
        let mut start: usize = 0;
        let ghost mut done_lines: Seq<Seq<char>> = seq![];
        assert(whole.skip(0) =~= whole);
        assert(done_lines + split_lines(whole).0 =~= split_lines(whole).0);
        assert(sentences_of(done_lines) =~= Seq::<Seq<char>>::empty());
        assert(old_sentences + sentences_of(done_lines) =~= old_sentences);
        assert forall|q: int| 0 <= q < old_sentences.len() implies is_clean_sentence(
            #[trigger] old_sentences[q],
        ) by {
            assert(old_sentences[q] == old(self).sentences()[q]);
        }
        while start < n
            invariant
                start <= n,
                whole == old_pending + text@,
                old_pending == old(self).pending(),
                self.received() == old(self).received(),
                self.sent() == old(self).sent(),
                old_sentences == old(self).sentences(),
                forall|q: int|
                    0 <= q < old_sentences.len() ==> is_clean_sentence(#[trigger] old_sentences[q]),
                n == whole.len(),
                full@ == whole,
                split_lines(whole).0 == done_lines + split_lines(whole.skip(start as int)).0,
                split_lines(whole).1 == split_lines(whole.skip(start as int)).1,
                col.deep_view() == old_sentences + sentences_of(done_lines),
            decreases n - start,
        {
            let mut j: usize = start;
            while j < n && full[j] != '\n'
                invariant
                    start <= j <= n,
                    n == whole.len(),
                    full@ == whole,
                    forall|q: int| start <= q < j ==> whole[q] != '\n',
                decreases n - j,
            {
                j = j + 1;
            }
            let ghost rest = whole.skip(start as int);
            if j == n {
                proof {
                    lemma_newline_index(rest);
                    if newline_index(rest) >= 0 {
                        assert(rest[newline_index(rest)] == whole[start + newline_index(rest)]);
                    }
                    assert(split_lines(rest) == (Seq::<Seq<char>>::empty(), rest));
                    assert(rest.skip((n - start) as int) =~= Seq::<char>::empty());
                    assert(split_lines(Seq::<char>::empty()).0 =~= Seq::<Seq<char>>::empty());
                    assert(done_lines + split_lines(rest).0 =~= done_lines + split_lines(
                        whole.skip(n as int),
                    ).0);
                    assert(whole.skip(n as int) =~= Seq::<char>::empty());
                    assert(split_lines(whole).1 == rest);
                }
                // keep the unfinished line
                let mut tail: Vec<char> = Vec::new();
                let mut q: usize = start;
                while q < n
                    invariant
                        start <= q <= n,
                        n == whole.len(),
                        full@ == whole,
                        tail@ == whole.subrange(start as int, q as int),
                    decreases n - q,
                {
                    tail.push(full[q]);
                    q = q + 1;
                }
                assert(tail@ =~= rest);
                proof {
                    assert(split_lines(whole).0 =~= done_lines);
                }
                self.line_buffer = tail;
                self.collected = col;
                proof {
                    law_collected_sentences_are_clean(old_pending, old_sentences, text@);
                    assert(self.line_buffer@ == after_text(old_pending, old_sentences, text@).0);
                    assert(self.collected.deep_view() == after_text(old_pending, old_sentences, text@).1);
                }
                return ;
            }
            let mut line: Vec<char> = Vec::new();
            let mut q: usize = start;
            while q <= j
                invariant
                    start <= q <= j + 1,
                    j < n,
                    n == whole.len(),
                    full@ == whole,
                    line@ == whole.subrange(start as int, q as int),
                decreases j + 1 - q,
            {
                line.push(full[q]);
                q = q + 1;
            }
            proof {
                assert forall|p: int| 0 <= p < j - start implies rest[p] != '\n' by {
                    assert(rest[p] == whole[start + p]);
                }
                assert(rest[j - start] == whole[j as int]);
                lemma_newline_at(rest, j - start);
                assert(rest.skip(j - start + 1) =~= whole.skip(j + 1));
                assert(rest.take(j - start + 1) =~= line@);
                assert(split_lines(rest).0 == seq![line@] + split_lines(whole.skip(j + 1)).0);
                assert(done_lines + split_lines(rest).0 =~= (done_lines + seq![line@])
                    + split_lines(whole.skip(j + 1)).0);
                lemma_sentences_of_append(done_lines, seq![line@]);
                assert(seq![line@].drop_first() =~= Seq::<Seq<char>>::empty());
                assert(sentences_of(Seq::<Seq<char>>::empty()) =~= Seq::<Seq<char>>::empty());
            }
            let sentence = trim_chars(&line);
            if sentence.len() > 0 {
                let s = string_from_chars(sentence.as_slice());
                col.push(s);
                proof {
                    assert(sentences_of(seq![line@]) =~= seq![trim_spec(line@)]);
                    assert(col.deep_view() =~= old_sentences + sentences_of(done_lines)
                        + seq![trim_spec(line@)]);
                }
            } else {
                proof {
                    assert(sentences_of(seq![line@]) =~= Seq::<Seq<char>>::empty());
                }
            }
            proof {
                assert(col.deep_view() =~= old_sentences + sentences_of(done_lines + seq![line@]));
                done_lines = done_lines + seq![line@];
            }
            start = j + 1;
        }
        proof {
            assert(whole.skip(n as int) =~= Seq::<char>::empty());
            assert(split_lines(Seq::<char>::empty()).0 =~= Seq::<Seq<char>>::empty());
            assert(split_lines(whole).0 =~= done_lines);
            assert(split_lines(whole).1 =~= Seq::<char>::empty());
        }
        self.line_buffer = Vec::new();
        self.collected = col;
        proof {
            assert(self.line_buffer@ =~= Seq::<char>::empty());
            law_collected_sentences_are_clean(old_pending, old_sentences, text@);
            assert(self.collected.deep_view() == after_text(old_pending, old_sentences, text@).1);
        }
    }

    /// Receive a chunk of bytes from the receiver. A chunk that is not valid UTF-8 is dropped
    /// whole; otherwise its text is received as by `push_text`.
    pub fn push_bytes(&mut self, bytes: &[u8])
        requires
            old(self).wf(),
        ensures
            final(self).wf(),
            valid_utf8(bytes@) ==> (final(self).pending(), final(self).sentences())
                == after_text(old(self).pending(), old(self).sentences(), decode_utf8(bytes@)),
            !valid_utf8(bytes@) ==> final(self).pending() == old(self).pending()
                && final(self).sentences() == old(self).sentences(),
            valid_utf8(bytes@) ==> final(self).received() == old(self).received() + decode_utf8(
                bytes@,
            ),
            !valid_utf8(bytes@) ==> final(self).received() == old(self).received(),
            final(self).sent() == old(self).sent(),
    {
        match decode_utf8_text(bytes) {
            Some(text) => self.push_text(text),
            None => {},
        }
    }

    /// Whether no sentence is waiting to be sent.
    pub fn is_empty(&self) -> (res: bool)
        ensures
            res == (self.sentences().len() == 0),
    {
        self.collected.len() == 0
    }

    /// Take the collected sentences, in arrival order, leaving none behind.
    pub fn drain_sentences(&mut self) -> (res: Vec<String>)
        requires
            old(self).wf(),
        ensures
            final(self).wf(),
            res.deep_view() == old(self).sentences(),
            final(self).sentences() == Seq::<Seq<char>>::empty(),
            final(self).pending() == old(self).pending(),
            final(self).received() == old(self).received(),
            final(self).sent() == old(self).sent() + old(self).sentences(),
    {
        self.sent = Ghost(self.sent@ + self.collected.deep_view());
        let mut out: Vec<String> = Vec::new();
        std::mem::swap(&mut out, &mut self.collected);
        assert(self.collected.deep_view() =~= Seq::<Seq<char>>::empty());
        assert(self.sent() + self.sentences() =~= self.sent());
        out
    }

    /// At a tick: when sentences are waiting, the JSON batch that carries them, and the
    /// collector is emptied of sentences; otherwise nothing happens.
    pub fn take_batch(&mut self) -> (res: Option<String>)
        requires
            old(self).wf(),
        ensures
            final(self).wf(),
            final(self).pending() == old(self).pending(),
            old(self).sentences().len() == 0 ==> res is None && final(self).sentences()
                == old(self).sentences(),
            old(self).sentences().len() > 0 ==> (res matches Some(p) && p@ == json_string_array(
                old(self).sentences(),
            ) && final(self).sentences() == Seq::<Seq<char>>::empty()),
            res matches Some(p) ==> json_read_string_array(p@) == Some(old(self).sentences()),
            final(self).received() == old(self).received(),
            final(self).sent() == old(self).sent() + old(self).sentences(),
            final(self).sent() == stream_sentences(final(self).received()),
    {
        if self.collected.len() == 0 {
            assert(self.sent() + self.sentences() =~= self.sent());
            return None;
        }
        let batch = self.drain_sentences();
        Some(encode_sentence_batch(&batch))
    }
}


/// What a collector has taken out, batch after batch, is a prefix of the sentences of all the
/// text it received, and the rest of them is waiting; the text after the last line break of the
/// stream is never among them.
pub proof fn law_sent_sentences_follow_the_stream(c: &SentenceCollector)
    requires
        c.wf(),
    ensures
        c.sent().len() <= stream_sentences(c.received()).len(),
        c.sent() == stream_sentences(c.received()).take(c.sent().len() as int),
        c.sentences() == stream_sentences(c.received()).skip(c.sent().len() as int),
        c.pending() == split_lines(c.received()).1,
{
    let l = stream_sentences(c.received());
    assert(l.take(c.sent().len() as int) =~= c.sent());
    assert(l.skip(c.sent().len() as int) =~= c.sentences());
}


/// A line ending in a line break yields its trimmed text as one sentence, unless that is
/// empty; text without a line break yields no sentence and waits whole.
pub proof fn law_a_line_becomes_its_trimmed_sentence(l: Seq<char>)
    requires
        forall|k: int| 0 <= k < l.len() ==> l[k] != '\n',
    ensures
        stream_sentences(l) == Seq::<Seq<char>>::empty(),
        split_lines(l).1 == l,
        stream_sentences(l.push('\n')) == if trim_spec(l).len() > 0 {
            seq![trim_spec(l)]
        } else {
            Seq::<Seq<char>>::empty()
        },
        split_lines(l.push('\n')).1 == Seq::<char>::empty(),
{
    lemma_newline_index(l);
    let lp = l.push('\n');
    assert forall|k: int| 0 <= k < l.len() implies lp[k] != '\n' by {
        assert(lp[k] == l[k]);
    }
    lemma_newline_at(lp, l.len() as int);
    assert(lp.take(l.len() + 1int) =~= lp);
    assert(lp.skip(l.len() + 1int) =~= Seq::<char>::empty());
    lemma_newline_index(Seq::<char>::empty());
    assert(split_lines(Seq::<char>::empty()).0 =~= Seq::<Seq<char>>::empty());
    assert(split_lines(lp).0 =~= seq![lp]);
    assert(seq![lp].drop_first() =~= Seq::<Seq<char>>::empty());
    lemma_trim_of_line(l);
    assert(split_lines(l).0 =~= Seq::<Seq<char>>::empty());
}


proof fn lemma_trim_start_push(s: Seq<char>, c: char)
    ensures
        trim_start_spec(s.push(c)) == if trim_start_spec(s).len() > 0 {
            trim_start_spec(s).push(c)
        } else {
            trim_start_spec(seq![c])
        },
    decreases s.len(),
{
    if s.len() > 0 {
        assert(s.push(c)[0] == s[0]);
        assert(s.push(c).drop_first() =~= s.drop_first().push(c));
        if is_white_space(s[0]) {
            lemma_trim_start_push(s.drop_first(), c);
        }
    } else {
        assert(s.push(c) =~= seq![c]);
    }
}

/// A line break at the end of a line does not change its trimmed text.
proof fn lemma_trim_of_line(l: Seq<char>)
    ensures
        trim_spec(l.push('\n')) == trim_spec(l),
{
    lemma_trim_start_push(l, '\n');
    let t = trim_start_spec(l);
    if t.len() > 0 {
        assert(t.push('\n').drop_last() =~= t);
    } else {
        assert(seq!['\n'].drop_first() =~= Seq::<char>::empty());
        assert(trim_start_spec(seq!['\n']) == trim_start_spec(Seq::<char>::empty()));
    }
}

} // verus!
