use vstd::prelude::*;

use crate::tokenizer::{
    excluded, has_token_at, line_word_run, lines_of, scan_words, token_at, token_text_set,
    tokens_exact, Position,
};

verus! {

#[verifier::external_type_specification]
#[verifier::external_body]
pub struct ExRope(ropey::Rope);

/// The text a rope holds, as a sequence of characters.
pub uninterp spec fn rope_text(r: ropey::Rope) -> Seq<char>;

/// Relies on ropey::Rope::from_str: the new rope holds exactly the given text.
#[verifier::external_body]
fn rope_from_str(s: &str) -> (r: ropey::Rope)
    ensures
        rope_text(r) == s@,
{
    ropey::Rope::from_str(s)
}

/// Relies on String::from(&Rope): the rope's full text as a string.
#[verifier::external_body]
fn rope_to_string(r: &ropey::Rope) -> (s: String)
    ensures
        s@ == rope_text(*r),
{
    String::from(r)
}

/// Relies on Rope::len_chars: the number of characters held.
#[verifier::external_body]
fn rope_len_chars(r: &ropey::Rope) -> (n: usize)
    ensures
        n == rope_text(*r).len(),
{
    r.len_chars()
}

/// Relies on Rope::len_lines: one more line than there are line breaks; with
/// the feature set chosen here only '\n' breaks a line.
#[verifier::external_body]
fn rope_len_lines(r: &ropey::Rope) -> (n: usize)
    ensures
        n == lines_of(rope_text(*r)).len(),
{
    r.len_lines()
}

/// Relies on Rope::line_to_char: the character index where the given line
/// begins, or the text length for the index one past the last line.
#[verifier::external_body]
fn rope_line_to_char(r: &ropey::Rope, line: usize) -> (n: usize)
    requires
        line <= lines_of(rope_text(*r)).len(),
    ensures
        line < lines_of(rope_text(*r)).len() ==> n == line_start_sum(
            lines_of(rope_text(*r)),
            line as int,
        ),
        line == lines_of(rope_text(*r)).len() ==> n == rope_text(*r).len(),
{
    r.line_to_char(line)
}

/// Relies on Rope::remove: deletes the characters in `[start, end)`.
#[verifier::external_body]
fn rope_remove(r: &mut ropey::Rope, start: usize, end: usize)
    requires
        start <= end <= rope_text(*old(r)).len(),
    ensures
        rope_text(*final(r)) == rope_text(*old(r)).subrange(0, start as int) + rope_text(
            *old(r),
        ).subrange(end as int, rope_text(*old(r)).len() as int),
{
    r.remove(start..end)
}

/// Relies on Rope::insert: splices the text in at the character index.
#[verifier::external_body]
fn rope_insert(r: &mut ropey::Rope, at: usize, s: &str)
    requires
        at <= rope_text(*old(r)).len(),
    ensures
        rope_text(*final(r)) == rope_text(*old(r)).subrange(0, at as int) + s@ + rope_text(
            *old(r),
        ).subrange(at as int, rope_text(*old(r)).len() as int),
{
    r.insert(at, s)
}

/// The character index where line `l` begins: every earlier line plus its
/// terminating '\n'.
pub open spec fn line_start_sum(lines: Seq<Seq<char>>, l: int) -> int
    decreases l,
{
    if l <= 0 {
        0
    } else {
        line_start_sum(lines, l - 1) + lines[l - 1].len() + 1
    }
}

proof fn lemma_sum_congruence(a: Seq<Seq<char>>, b: Seq<Seq<char>>, l: int)
    requires
        forall|j: int| 0 <= j < l ==> a[j] == b[j],
    ensures
        line_start_sum(a, l) == line_start_sum(b, l),
    decreases l,
{
    if l > 0 {
        lemma_sum_congruence(a, b, l - 1);
    }
}

/// How the lines of a text sit inside it: each line is the slice starting at
/// its line start, a '\n' follows every line but the last, and the last line
/// runs to the end of the text.
pub proof fn lemma_line_structure(text: Seq<char>, l: int)
    requires
        0 <= l < lines_of(text).len(),
    ensures
        0 <= line_start_sum(lines_of(text), l),
        line_start_sum(lines_of(text), l) + lines_of(text)[l].len() <= text.len(),
        lines_of(text)[l] == text.subrange(
            line_start_sum(lines_of(text), l),
            line_start_sum(lines_of(text), l) + lines_of(text)[l].len(),
        ),
        l < lines_of(text).len() - 1 ==> text[line_start_sum(lines_of(text), l) + lines_of(
            text,
        )[l].len()] == '\n' && line_start_sum(lines_of(text), l + 1) == line_start_sum(
            lines_of(text),
            l,
        ) + lines_of(text)[l].len() + 1,
        l == lines_of(text).len() - 1 ==> line_start_sum(lines_of(text), l) + lines_of(
            text,
        )[l].len() == text.len(),
    decreases text.len(),
{
    crate::tokenizer::lemma_lines_nonempty(text);
    let lines = lines_of(text);
    if text.len() == 0 {
        assert(lines =~= seq![Seq::<char>::empty()]);
        assert(lines[0] =~= text.subrange(0, 0));
    } else {
        let t2 = text.drop_last();
        let c = text.last();
        let lines2 = lines_of(t2);
        crate::tokenizer::lemma_lines_nonempty(t2);
        assert(forall|j: int| 0 <= j < t2.len() ==> t2[j] == #[trigger] text[j]);
        if c == '\n' {
            assert(lines == lines2.push(Seq::<char>::empty()));
            assert(forall|j: int| 0 <= j < lines2.len() ==> lines[j] == #[trigger] lines2[j]);
            if l < lines.len() - 1 {
                lemma_line_structure(t2, l);
                lemma_sum_congruence(lines, lines2, l);
                let st = line_start_sum(lines2, l);
                let ln = lines2[l].len();
                assert(lines[l] =~= text.subrange(st, st + ln)) by {
                    assert(lines2[l] == t2.subrange(st, st + ln));
                    assert(forall|j: int|
                        0 <= j < ln ==> t2.subrange(st, st + ln)[j] == #[trigger] text.subrange(
                            st,
                            st + ln,
                        )[j]);
                }
                if l < lines2.len() - 1 {
                    lemma_sum_congruence(lines, lines2, l + 1);
                } else {
                    // the old last line: the new '\n' follows it
                    assert(st + ln == t2.len());
                    assert(text[st + ln] == '\n');
                    assert(line_start_sum(lines, l + 1) == line_start_sum(lines, l) + lines[l].len()
                        + 1);
                }
            } else {
                // the new, empty last line begins just past the new '\n'
                assert(l == lines2.len());
                lemma_line_structure(t2, l - 1);
                lemma_sum_congruence(lines, lines2, l - 1);
                assert(line_start_sum(lines, l) == line_start_sum(lines, l - 1) + lines[l
                    - 1].len() + 1);
                assert(line_start_sum(lines2, l - 1) + lines2[l - 1].len() == t2.len());
                assert(line_start_sum(lines, l) == text.len());
                assert(lines[l] =~= text.subrange(text.len() as int, text.len() as int));
            }
        } else {
            let last2 = lines2[lines2.len() - 1];
            assert(lines == lines2.update(lines2.len() - 1, last2.push(c)));
            assert(lines.len() == lines2.len());
            assert(forall|j: int| 0 <= j < lines2.len() - 1 ==> lines[j] == #[trigger] lines2[j]);
            lemma_line_structure(t2, l);
            lemma_sum_congruence(lines, lines2, l);
            let st = line_start_sum(lines2, l);
            if l < lines.len() - 1 {
                let ln = lines2[l].len();
                assert(lines[l] == lines2[l]);
                lemma_line_structure(t2, l + 1);
                assert(lines[l] =~= text.subrange(st, st + ln)) by {
                    assert(lines2[l] == t2.subrange(st, st + ln));
                    assert(st + ln < t2.len()) by {
                        assert(line_start_sum(lines2, l + 1) == st + ln + 1);
                    }
                    assert(forall|j: int|
                        0 <= j < ln ==> t2.subrange(st, st + ln)[j] == #[trigger] text.subrange(
                            st,
                            st + ln,
                        )[j]);
                }
                assert(text[st + ln] == '\n') by {
                    assert(t2[st + ln] == '\n');
                }
                lemma_sum_congruence(lines, lines2, l + 1);
            } else {
                // the last line gains the new character
                assert(lines[l] == last2.push(c));
                assert(st + last2.len() == t2.len());
                assert(lines[l].len() == last2.len() + 1);
                assert(st + lines[l].len() == text.len());
                assert(lines[l] =~= text.subrange(st, st + lines[l].len())) by {
                    assert(last2 == t2.subrange(st, st + last2.len()));
                    assert(forall|j: int|
                        0 <= j < last2.len() ==> t2.subrange(st, st + last2.len())[j]
                            == #[trigger] text.subrange(st, st + lines[l].len())[j]);
                    assert(text.subrange(st, st + lines[l].len())[last2.len() as int] == c);
                }
            }
        }
    }
}


/// The position names a line of the text and a character offset at or before
/// that line's end.
pub open spec fn pos_valid(text: Seq<char>, p: Position) -> bool {
    &&& (p.line as int) < lines_of(text).len()
    &&& p.character as int <= lines_of(text)[p.line as int].len()
}

/// The character index the position names.
pub open spec fn flat_of(text: Seq<char>, p: Position) -> int {
    line_start_sum(lines_of(text), p.line as int) + p.character as int
}

pub open spec fn range_valid(text: Seq<char>, start: Position, end: Position) -> bool {
    &&& pos_valid(text, start)
    &&& pos_valid(text, end)
    &&& flat_of(text, start) <= flat_of(text, end)
}

/// The text with `[s, e)` replaced by `ins`.
pub open spec fn splice(text: Seq<char>, s: int, e: int, ins: Seq<char>) -> Seq<char> {
    text.subrange(0, s) + ins + text.subrange(e, text.len() as int)
}

/// Whether an edit is accepted against the given text.
pub open spec fn change_accepted(text0: Seq<char>, range: Option<ChangeRange>, ins: Seq<char>) -> bool {
    match range {
        Option::None => ins.len() <= u32::MAX,
        Option::Some(cr) => range_valid(text0, cr.start, cr.end) && splice(
            text0,
            flat_of(text0, cr.start),
            flat_of(text0, cr.end),
            ins,
        ).len() <= u32::MAX,
    }
}

/// The text an accepted edit produces.
pub open spec fn changed_text(text0: Seq<char>, range: Option<ChangeRange>, ins: Seq<char>) -> Seq<char> {
    match range {
        Option::None => ins,
        Option::Some(cr) => splice(text0, flat_of(text0, cr.start), flat_of(text0, cr.end), ins),
    }
}

/// The error a rejected edit reports: a bad range wins over overgrowth.
pub open spec fn change_error(text0: Seq<char>, range: Option<ChangeRange>, ins: Seq<char>) -> EditError {
    match range {
        Option::None => EditError::TooLong,
        Option::Some(cr) => if !range_valid(text0, cr.start, cr.end) {
            EditError::InvalidRange
        } else {
            EditError::TooLong
        },
    }
}

#[derive(PartialEq, Eq, Structural, Clone, Copy, Debug)]
pub struct ChangeRange {
    pub start: Position,
    pub end: Position,
}

/// An incoming edit: either a range to replace, or a full-text replacement.
pub struct TextChange {
    pub range: Option<ChangeRange>,
    pub text: String,
}

#[derive(PartialEq, Eq, Structural, Clone, Copy, Debug)]
pub enum EditError {
    /// A position of the range names a line or character the text does not have,
    /// or the range's start lies after its end.
    InvalidRange,
    /// The edit would grow the document past the largest addressable size.
    TooLong,
}

/// Some entry of `toks` has the text `w`.
pub open spec fn has_text(toks: Seq<String>, w: Seq<char>) -> bool {
    exists|k: int| 0 <= k < toks.len() && (#[trigger] toks[k])@ == w
}

/// Some word of `words` has the text `w`.
pub open spec fn in_words(words: Seq<(String, Position, Position)>, w: Seq<char>) -> bool {
    exists|j: int| 0 <= j < words.len() && (#[trigger] words[j]).0@ == w
}

pub(crate) fn contains_string(v: &Vec<String>, s: &String) -> (b: bool)
    ensures
        b == has_text(v@, s@),
{
    let mut j: usize = 0;
    while j < v.len()
        invariant
            j <= v@.len(),
            forall|k: int| 0 <= k < j ==> (#[trigger] v@[k])@ != s@,
        decreases v@.len() - j,
    {
        if v[j].eq(s) {
            return true;
        }
        j = j + 1;
    }
    false
}

fn dedup_token_texts(words: &Vec<(String, Position, Position)>) -> (res: Vec<String>)
    ensures
        forall|k1: int, k2: int|
            0 <= k1 < k2 < res@.len() ==> (#[trigger] res@[k1])@ != (#[trigger] res@[k2])@,
        forall|k: int| 0 <= k < res@.len() ==> in_words(words@, (#[trigger] res@[k])@),
        forall|j: int| 0 <= j < words@.len() ==> has_text(res@, (#[trigger] words@[j]).0@),
{
    let mut res: Vec<String> = Vec::new();
    let mut i: usize = 0;
    while i < words.len()
        invariant
            i <= words@.len(),
            forall|k1: int, k2: int|
                0 <= k1 < k2 < res@.len() ==> (#[trigger] res@[k1])@ != (#[trigger] res@[k2])@,
            forall|k: int| 0 <= k < res@.len() ==> in_words(words@, (#[trigger] res@[k])@),
            forall|j: int| 0 <= j < i ==> has_text(res@, (#[trigger] words@[j]).0@),
        decreases words@.len() - i,
    {
        let ghost res0 = res@;
        let present = contains_string(&res, &words[i].0);
        if !present {
            res.push(words[i].0.clone());
            proof {
                assert(forall|k: int| 0 <= k < res0.len() ==> res@[k] == #[trigger] res0[k]);
                assert(res@[res0.len() as int]@ == words@[i as int].0@);
                assert(in_words(words@, res@[res0.len() as int]@));
            }
        }
        proof {
            assert forall|j: int| 0 <= j < i + 1 implies has_text(
                res@,
                (#[trigger] words@[j]).0@,
            ) by {
                if j < i || present {
                    let w = words@[j].0@;
                    if has_text(res0, w) {
                        let k = choose|k: int| 0 <= k < res0.len() && (#[trigger] res0[k])@ == w;
                        assert(res@[k]@ == w);
                    }
                    assert(has_text(res0, w));
                } else {
                    assert(res@[res0.len() as int]@ == words@[j].0@);
                }
            }
        }
        i = i + 1;
    }
    res
}

/// One open document: its text, held in a rope, and the token set derived
/// from it by the most recent tokenization.
pub struct SourceFile {
    rope: ropey::Rope,
    tokens: Vec<String>,
}

impl SourceFile {
    /// The document's text.
    pub closed spec fn text(&self) -> Seq<char> {
        rope_text(self.rope)
    }

    /// The cached token texts.
    pub closed spec fn token_list(&self) -> Seq<Seq<char>> {
        self.tokens@.map_values(|t: String| t@)
    }

    /// The text is small enough that every position fits the wire format.
    pub open spec fn wf(&self) -> bool {
        self.text().len() <= u32::MAX
    }

    /// The cached tokens are exactly the token texts of the current text,
    /// leaving out line `ex`, with no duplicates.
    pub open spec fn tokens_current(&self, ex: int) -> bool {
        &&& (forall|k1: int, k2: int|
            0 <= k1 < k2 < self.token_list().len() ==> (#[trigger] self.token_list()[k1])
                != (#[trigger] self.token_list()[k2]))
        &&& (forall|k: int|
            0 <= k < self.token_list().len() ==> token_text_set(
                lines_of(self.text()),
                ex,
            ).contains(#[trigger] self.token_list()[k]))
        &&& (forall|w: Seq<char>|
            #[trigger] token_text_set(lines_of(self.text()), ex).contains(w)
                ==> self.token_list().contains(w))
    }

    /// Open a document with the given initial text and derive its tokens.
    pub fn new(text: &str) -> (s: Self)
        requires
            text@.len() <= u32::MAX,
        ensures
            s.wf(),
            s.text() == text@,
            s.tokens_current(-1),
    {
        let rope = rope_from_str(text);
        let mut me = SourceFile { rope, tokens: Vec::new() };
        me.tokenize(None);
        me
    }

    /// The full document text.
    pub fn full_text(&self) -> (res: String)
        ensures
            res@ == self.text(),
    {
        rope_to_string(&self.rope)
    }

    /// The character offset where the given line begins; `None` past the end.
    pub fn line_offset(&self, line: u32) -> (res: Option<usize>)
        requires
            self.wf(),
        ensures
            res is Some <==> line as int <= lines_of(self.text()).len(),
            match res {
                Some(n) => if (line as int) < lines_of(self.text()).len() {
                    n == line_start_sum(lines_of(self.text()), line as int)
                } else {
                    n == self.text().len()
                },
                None => true,
            },
    {
        let n_lines = rope_len_lines(&self.rope);
        if (line as usize) > n_lines {
            None
        } else {
            Some(rope_line_to_char(&self.rope, line as usize))
        }
    }

    /// The character index a position names, when the position is valid.
    fn pos_flat(&self, p: Position) -> (res: Option<usize>)
        requires
            self.wf(),
        ensures
            res is Some <==> pos_valid(self.text(), p),
            match res {
                Some(n) => n == flat_of(self.text(), p) && n <= self.text().len(),
                None => true,
            },
    {
        let n_lines = rope_len_lines(&self.rope);
        if (p.line as usize) >= n_lines {
            return None;
        }
        let ls = rope_line_to_char(&self.rope, p.line as usize);
        let next = rope_line_to_char(&self.rope, (p.line as usize) + 1);
        let len_chars = rope_len_chars(&self.rope);
        proof {
            lemma_line_structure(self.text(), p.line as int);
        }
        let line_len = if (p.line as usize) + 1 < n_lines {
            next - ls - 1
        } else {
            len_chars - ls
        };
        proof {
            assert(line_len == lines_of(self.text())[p.line as int].len());
        }
        if (p.character as usize) > line_len {
            return None;
        }
        Some(ls + (p.character as usize))
    }

    /// Recompute the cached token set from the current text, leaving out the
    /// given line.
    pub fn tokenize(&mut self, exclude_line: Option<u32>)
        requires
            old(self).wf(),
        ensures
            final(self).wf(),
            final(self).text() == old(self).text(),
            final(self).tokens_current(excluded(exclude_line)),
    {
        let content = rope_to_string(&self.rope);
        let words = scan_words(content.as_str(), exclude_line);
        let toks = dedup_token_texts(&words);
        self.tokens = toks;
        proof {
            let lines = lines_of(self.text());
            let ex = excluded(exclude_line);
            let ws = words@;
            let tl = self.token_list();
            assert(forall|k: int| 0 <= k < tl.len() ==> tl[k] == (#[trigger] self.tokens@[k])@);
            assert forall|k: int| 0 <= k < tl.len() implies token_text_set(lines, ex).contains(
                #[trigger] tl[k],
            ) by {
                assert(in_words(ws, self.tokens@[k]@));
                let j = choose|j: int|
                    0 <= j < ws.len() && (#[trigger] ws[j]).0@ == self.tokens@[k]@;
                assert(token_at(lines, ws[j].0@, ws[j].1, ws[j].2));
                let l = ws[j].1.line as int;
                let s = ws[j].1.character as int;
                let e = ws[j].2.character as int;
                assert(0 <= l < lines.len() && l != ex && line_word_run(lines[l], s, e) && tl[k]
                    == lines[l].subrange(s, e));
            }
            assert forall|w: Seq<char>| #[trigger] token_text_set(lines, ex).contains(w) implies tl
                .contains(w) by {
                let (l, s, e) = choose|l: int, s: int, e: int|
                    0 <= l < lines.len() && l != ex && #[trigger] line_word_run(lines[l], s, e) && w
                        == lines[l].subrange(s, e);
                assert(has_token_at(ws, l, s, e));
                let j = choose|j: int|
                    0 <= j < ws.len() && (#[trigger] ws[j]).1.line as int == l
                        && ws[j].1.character as int == s && ws[j].2.character as int == e;
                assert(token_at(lines, ws[j].0@, ws[j].1, ws[j].2));
                assert(ws[j].0@ == w);
                assert(has_text(self.tokens@, ws[j].0@));
                let k = choose|k: int|
                    0 <= k < self.tokens@.len() && (#[trigger] self.tokens@[k])@ == ws[j].0@;
                assert(tl[k] == w);
            }
        }
    }

    /// The word tokens of the current text, leaving out the given line.
    pub fn words(&self, exclude_line: Option<u32>) -> (res: Vec<(String, Position, Position)>)
        requires
            self.wf(),
        ensures
            tokens_exact(lines_of(self.text()), excluded(exclude_line), res@),
    {
        let content = rope_to_string(&self.rope);
        scan_words(content.as_str(), exclude_line)
    }

    /// The cached token texts.
    pub fn tokens(&self) -> (res: &Vec<String>)
        ensures
            res@.map_values(|t: String| t@) == self.token_list(),
    {
        &self.tokens
    }

    /// Apply an edit.  A range replaces the characters it addresses; without a
    /// range the whole text is replaced.  Afterwards the tokens are recomputed
    /// from the new text.  An out-of-bounds range is rejected with
    /// `InvalidRange` and an edit that would overgrow the document with
    /// `TooLong`; a rejected edit leaves the document untouched.
    pub fn apply_change(&mut self, change: &TextChange) -> (r: Result<(), EditError>)
        requires
            old(self).wf(),
        ensures
            final(self).wf(),
            r is Ok <==> change_accepted(old(self).text(), change.range, change.text@),
            r is Ok ==> final(self).text() == changed_text(
                old(self).text(),
                change.range,
                change.text@,
            ) && final(self).tokens_current(-1),
            r is Err ==> *final(self) == *old(self) && r == Err::<(), EditError>(
                change_error(old(self).text(), change.range, change.text@),
            ),
    {
        match &change.range {
            None => {
                let tlen = change.text.unicode_len();
                if tlen > u32::MAX as usize {
                    return Err(EditError::TooLong);
                }
                self.rope = rope_from_str(change.text.as_str());
                self.tokenize(None);
                Ok(())
            },
            Some(cr) => {
                let ghost t0 = self.text();
                let s = match self.pos_flat(cr.start) {
                    Some(v) => v,
                    None => {
                        return Err(EditError::InvalidRange);
                    },
                };
                let e = match self.pos_flat(cr.end) {
                    Some(v) => v,
                    None => {
                        return Err(EditError::InvalidRange);
                    },
                };
                if s > e {
                    return Err(EditError::InvalidRange);
                }
                let cur = rope_len_chars(&self.rope);
                let kept = cur - (e - s);
                let ins = change.text.unicode_len();
                proof {
                    assert(splice(t0, s as int, e as int, change.text@).len() == kept + ins);
                }
                if ins > u32::MAX as usize - kept {
                    return Err(EditError::TooLong);
                }
                rope_remove(&mut self.rope, s, e);
                let ghost t1 = self.text();
                rope_insert(&mut self.rope, s, change.text.as_str());
                proof {
                    assert(t1.subrange(0, s as int) =~= t0.subrange(0, s as int));
                    assert(t1.subrange(s as int, t1.len() as int) =~= t0.subrange(
                        e as int,
                        t0.len() as int,
                    ));
                    assert(self.text() =~= splice(t0, s as int, e as int, change.text@));
                }
                self.tokenize(None);
                Ok(())
            },
        }
    }
}

} // verus!
