use vstd::prelude::*;

use crate::source_file::{contains_string, has_text};
use crate::tokenizer::lines_of;
use vstd::utf8::encode_utf8;

verus! {

/// The dictionary holds the word `w`.
pub open spec fn dict_has(dict: Seq<Seq<char>>, w: Seq<char>) -> bool {
    exists|k: int| 0 <= k < dict.len() && #[trigger] dict[k] == w
}

pub open spec fn min3(a: nat, b: nat, c: nat) -> nat {
    if a <= b && a <= c {
        a
    } else if b <= c {
        b
    } else {
        c
    }
}

/// The Levenshtein edit distance: the least number of single-element
/// insertions, deletions and substitutions that turn `a` into `b`.
pub open spec fn lev(a: Seq<u8>, b: Seq<u8>) -> nat
    decreases a.len() + b.len(),
{
    if a.len() == 0 {
        b.len()
    } else if b.len() == 0 {
        a.len()
    } else if a[0] == b[0] {
        lev(a.drop_first(), b.drop_first())
    } else {
        1 + min3(
            lev(a.drop_first(), b),
            lev(a, b.drop_first()),
            lev(a.drop_first(), b.drop_first()),
        )
    }
}

pub open spec fn sqrt_floor_from(n: nat, r: nat) -> nat
    decreases n - r,
{
    if r >= n || (r + 1) * (r + 1) > n {
        r
    } else {
        sqrt_floor_from(n, r + 1)
    }
}

/// The greatest `s` with `s * s <= n`.
pub open spec fn sqrt_floor(n: nat) -> nat {
    sqrt_floor_from(n, 0)
}

proof fn lemma_sqrt_from(n: nat, r: nat)
    requires
        r * r <= n,
    ensures
        r <= sqrt_floor_from(n, r),
        sqrt_floor_from(n, r) * sqrt_floor_from(n, r) <= n,
        n < (sqrt_floor_from(n, r) + 1) * (sqrt_floor_from(n, r) + 1),
    decreases n - r,
{
    if r >= n {
        assert(n < (r + 1) * (r + 1)) by (nonlinear_arith)
            requires
                r * r <= n,
                r >= n,
        ;
    } else if (r + 1) * (r + 1) > n {
    } else {
        lemma_sqrt_from(n, r + 1);
    }
}

proof fn lemma_sqrt_unique(n: nat, a: nat, b: nat)
    requires
        a * a <= n < (a + 1) * (a + 1),
        b * b <= n < (b + 1) * (b + 1),
    ensures
        a == b,
{
    if a < b {
        assert((a + 1) * (a + 1) <= b * b) by (nonlinear_arith)
            requires
                a + 1 <= b,
        ;
    }
    if b < a {
        assert((b + 1) * (b + 1) <= a * a) by (nonlinear_arith)
            requires
                b + 1 <= a,
        ;
    }
}

/// Integer square root: the greatest `r` with `r * r <= n`.
pub fn isqrt(n: usize) -> (r: usize)
    ensures
        r * r <= n < (r + 1) * (r + 1),
        r as nat == sqrt_floor(n as nat),
{
    let mut r: usize = 0;
    while (r + 1) <= n / (r + 1)
        invariant
            r * r <= n,
            r < usize::MAX,
        decreases n - r,
    {
        assert((r + 1) * (r + 1) <= n) by (nonlinear_arith)
            requires
                r as int + 1 <= n as int / (r as int + 1),
                0 < r as int + 1,
        ;
        assert(r + 1 < usize::MAX) by (nonlinear_arith)
            requires
                (r + 1) * (r + 1) <= n,
                n <= usize::MAX,
                usize::MAX >= 2,
        ;
        assert(r < n);
        r = r + 1;
    }
    assert(n < (r + 1) * (r + 1)) by (nonlinear_arith)
        requires
            r as int + 1 > n as int / (r as int + 1),
            0 < r as int + 1,
    ;
    proof {
        lemma_sqrt_from(n as nat, 0);
        lemma_sqrt_unique(n as nat, r as nat, sqrt_floor(n as nat));
    }
    r
}

pub proof fn lemma_encode_concat(a: Seq<char>, b: Seq<char>)
    ensures
        encode_utf8(a + b) == encode_utf8(a) + encode_utf8(b),
    decreases a.len(),
{
    if a.len() == 0 {
        assert(a + b =~= b);
        assert(encode_utf8(a) =~= Seq::<u8>::empty());
        assert(encode_utf8(a) + encode_utf8(b) =~= encode_utf8(b));
    } else {
        let ab = a + b;
        assert(ab.len() > 0);
        assert(ab[0] == a[0]);
        assert(ab.drop_first() =~= a.drop_first() + b);
        lemma_encode_concat(a.drop_first(), b);
        assert(encode_utf8(a + b) =~= encode_utf8(a) + encode_utf8(b));
    }
}

pub proof fn lemma_subrange_bytes(s: Seq<char>, x: int, y: int)
    requires
        0 <= x <= y <= s.len(),
    ensures
        encode_utf8(s.subrange(x, y)).len() <= encode_utf8(s).len(),
{
    let pre = s.subrange(0, x);
    let mid = s.subrange(x, y);
    let post = s.subrange(y, s.len() as int);
    assert(s =~= (pre + mid) + post);
    lemma_encode_concat(pre + mid, post);
    lemma_encode_concat(pre, mid);
}

/// Relies on stringmetrics::levenshtein: the unit-cost Levenshtein distance
/// between the two strings' UTF-8 byte sequences; exact as long as both byte
/// lengths stay below the saturation bound.
#[verifier::external_body]
fn edit_distance(a: &str, b: &str) -> (r: u32)
    requires
        encode_utf8(a@).len() < u32::MAX,
        encode_utf8(b@).len() < u32::MAX,
    ensures
        r as nat == lev(encode_utf8(a@), encode_utf8(b@)),
{
    stringmetrics::levenshtein(a, b)
}

pub uninterp spec fn lower_of(s: Seq<char>) -> Seq<char>;

/// Relies on str::to_lowercase: the result depends on the characters alone,
/// and an empty string stays empty.
#[verifier::external_body]
fn lowercase(s: &str) -> (r: String)
    ensures
        r@ == lower_of(s@),
        s@.len() == 0 ==> r@.len() == 0,
{
    s.to_lowercase()
}

pub open spec fn is_ascii_upper(c: char) -> bool {
    65 <= c as u32 && c as u32 <= 90
}

/// The word holds an ASCII capital somewhere strictly inside, with an
/// ordinary (non-newline) character on each side.
pub open spec fn has_inner_capital(w: Seq<char>) -> bool {
    exists|i: int|
        1 <= i && i + 1 < w.len() && is_ascii_upper(#[trigger] w[i]) && w[i - 1] != '\n' && w[i + 1]
            != '\n'
}

/// The lowercased word is in the dictionary, or ends in 's' and its stem is.
pub open spec fn dict_accepts(dict: Seq<Seq<char>>, lw: Seq<char>) -> bool {
    ||| dict_has(dict, lw)
    ||| (lw.len() > 0 && lw.last() == 's' && dict_has(dict, lw.drop_last()))
}

/// The spelling policy: a word passes when it is short, looks like an
/// identifier with an embedded capital, or its lowercase form (or that form
/// without a trailing 's') is a dictionary word.
pub open spec fn spec_is_valid(dict: Seq<Seq<char>>, w: Seq<char>) -> bool {
    ||| w.len() < 4
    ||| has_inner_capital(w)
    ||| dict_accepts(dict, lower_of(w))
}

/// The spell checker: an immutable dictionary of words, loaded once.
pub struct Spell {
    words: Vec<String>,
}

impl Spell {
    /// The dictionary's words.
    pub closed spec fn dict(&self) -> Seq<Seq<char>> {
        self.words@.map_values(|t: String| t@)
    }

    /// The dictionary's words are distinct and each is small enough for the
    /// distance computation to be exact.
    pub open spec fn wf(&self) -> bool {
        &&& (forall|k1: int, k2: int|
            0 <= k1 < k2 < self.dict().len() ==> (#[trigger] self.dict()[k1])
                != (#[trigger] self.dict()[k2]))
        &&& (forall|k: int|
            0 <= k < self.dict().len() ==> encode_utf8(#[trigger] self.dict()[k]).len() < u32::MAX)
    }

    /// Build the dictionary from newline-separated file contents: its words
    /// are exactly the lines of the contents, kept as written.
    pub fn new(contents: &str) -> (s: Self)
        requires
            encode_utf8(contents@).len() < u32::MAX,
        ensures
            s.wf(),
            forall|k: int|
                0 <= k < s.dict().len() ==> dict_has(
                    lines_of(contents@),
                    #[trigger] s.dict()[k],
                ),
            forall|j: int|
                0 <= j < lines_of(contents@).len() ==> dict_has(
                    s.dict(),
                    #[trigger] lines_of(contents@)[j],
                ),
    {
        let n = contents.unicode_len();
        let mut words: Vec<String> = Vec::new();
        let mut i: usize = 0;
        let mut seg_start: usize = 0;
        proof {
            assert(contents@.take(0) =~= Seq::<char>::empty());
            assert(lines_of(contents@.take(0)).last() =~= contents@.subrange(0, 0));
        }
        while i < n
            invariant
                n == contents@.len(),
                encode_utf8(contents@).len() < u32::MAX,
                i <= n,
                seg_start <= i,
                lines_of(contents@.take(i as int)).last() == contents@.subrange(
                    seg_start as int,
                    i as int,
                ),
                forall|k: int|
                    0 <= k < words@.len() ==> dict_has(
                        lines_of(contents@.take(i as int)).drop_last(),
                        (#[trigger] words@[k])@,
                    ),
                forall|j: int|
                    0 <= j < lines_of(contents@.take(i as int)).len() - 1 ==> has_text(
                        words@,
                        #[trigger] lines_of(contents@.take(i as int))[j],
                    ),
                forall|k1: int, k2: int|
                    0 <= k1 < k2 < words@.len() ==> (#[trigger] words@[k1])@
                        != (#[trigger] words@[k2])@,
                forall|k: int|
                    0 <= k < words@.len() ==> encode_utf8((#[trigger] words@[k])@).len()
                        < u32::MAX,
            decreases n - i,
        {
            let ghost pre = contents@.take(i as int);
            let ghost plines = lines_of(pre);
            let c = contents.get_char(i);
            proof {
                crate::tokenizer::lemma_lines_nonempty(pre);
                assert(contents@.take(i as int + 1) =~= pre.push(c));
                crate::tokenizer::lemma_lines_step(contents@, i as int);
            }
            let ghost plines2 = lines_of(contents@.take(i as int + 1));
            let ghost oldlast = plines.last();
            if c == '\n' {
                let seg = contents.substring_char(seg_start, i).to_owned();
                proof {
                    assert(seg@ == oldlast);
                    lemma_subrange_bytes(contents@, seg_start as int, i as int);
                    assert(encode_utf8(seg@).len() < u32::MAX) by {
                        assert(seg@ == contents@.subrange(seg_start as int, i as int));
                    }
                }
                let ghost words0 = words@;
                let present = contains_string(&words, &seg);
                if !present {
                    words.push(seg);
                }
                seg_start = i + 1;
                proof {
                    assert(plines2 == plines.push(Seq::<char>::empty()));
                    assert(plines2.last() =~= contents@.subrange(i as int + 1, i as int + 1));
                    assert(plines2.drop_last() =~= plines);
                    assert(forall|k: int|
                        0 <= k < words0.len() ==> words@[k] == #[trigger] words0[k]);
                    // every stored word is a full line of the grown prefix
                    assert forall|k: int| 0 <= k < words@.len() implies dict_has(
                        plines2.drop_last(),
                        (#[trigger] words@[k])@,
                    ) by {
                        if k < words0.len() {
                            let j = choose|j: int|
                                0 <= j < plines.drop_last().len() && #[trigger] plines.drop_last()[j]
                                    == words0[k]@;
                            assert(plines2.drop_last()[j] == words0[k]@);
                        } else {
                            assert(words@[k]@ == oldlast);
                            assert(plines2.drop_last()[plines.len() - 1] == oldlast);
                        }
                    }
                    // every full line of the grown prefix is stored
                    assert forall|j: int| 0 <= j < plines2.len() - 1 implies has_text(
                        words@,
                        #[trigger] plines2[j],
                    ) by {
                        if j < plines.len() - 1 {
                            assert(plines2[j] == plines[j]);
                            let k = choose|k: int|
                                0 <= k < words0.len() && (#[trigger] words0[k])@ == plines[j];
                            assert(words@[k]@ == plines[j]);
                        } else {
                            assert(j == plines.len() - 1);
                            assert(plines2[j] == oldlast);
                            if present {
                                let k = choose|k: int|
                                    0 <= k < words0.len() && (#[trigger] words0[k])@ == seg@;
                                assert(words@[k]@ == oldlast);
                            } else {
                                assert(words@[words0.len() as int]@ == oldlast);
                            }
                        }
                    }
                }
            } else {
                proof {
                    assert(plines2 == plines.update(plines.len() - 1, oldlast.push(c)));
                    assert(plines2.last() == oldlast.push(c));
                    assert(plines2.last() =~= contents@.subrange(seg_start as int, i as int + 1));
                    assert(plines2.drop_last() =~= plines.drop_last());
                    assert(forall|j: int|
                        0 <= j < plines.len() - 1 ==> plines2[j] == #[trigger] plines[j]);
                }
            }
            i = i + 1;
        }
        proof {
            assert(contents@.take(n as int) =~= contents@);
        }
        let seg = contents.substring_char(seg_start, n).to_owned();
        proof {
            assert(seg@ == lines_of(contents@).last());
            lemma_subrange_bytes(contents@, seg_start as int, n as int);
            assert(encode_utf8(seg@).len() < u32::MAX) by {
                assert(seg@ == contents@.subrange(seg_start as int, n as int));
            }
            crate::tokenizer::lemma_lines_nonempty(contents@);
        }
        let ghost words0 = words@;
        let present = contains_string(&words, &seg);
        if !present {
            words.push(seg);
        }
        let ghost lines = lines_of(contents@);
        proof {
            assert(forall|k: int| 0 <= k < words0.len() ==> words@[k] == #[trigger] words0[k]);
            assert forall|k: int| 0 <= k < words@.len() implies dict_has(
                lines,
                (#[trigger] words@[k])@,
            ) by {
                if k < words0.len() {
                    let j = choose|j: int|
                        0 <= j < lines.drop_last().len() && #[trigger] lines.drop_last()[j]
                            == words0[k]@;
                    assert(lines[j] == words0[k]@);
                } else {
                    assert(words@[k]@ == lines.last());
                    assert(lines[lines.len() - 1] == lines.last());
                }
            }
            assert forall|j: int| 0 <= j < lines.len() implies has_text(
                words@,
                #[trigger] lines[j],
            ) by {
                if j < lines.len() - 1 {
                    assert(lines.drop_last()[j] == lines[j]);
                    let k = choose|k: int|
                        0 <= k < words0.len() && (#[trigger] words0[k])@ == lines[j];
                    assert(words@[k]@ == lines[j]);
                } else {
                    if present {
                        let k = choose|k: int|
                            0 <= k < words0.len() && (#[trigger] words0[k])@ == seg@;
                        assert(words@[k]@ == lines[j]);
                    } else {
                        assert(words@[words0.len() as int]@ == lines[j]);
                    }
                }
            }
        }
        let me = Spell { words };
        proof {
            assert(forall|k: int|
                0 <= k < me.dict().len() ==> #[trigger] me.dict()[k] == me.words@[k]@);
            assert forall|j: int| 0 <= j < lines.len() implies dict_has(
                me.dict(),
                #[trigger] lines[j],
            ) by {
                let k = choose|k: int|
                    0 <= k < me.words@.len() && (#[trigger] me.words@[k])@ == lines[j];
                assert(me.dict()[k] == lines[j]);
            }
        }
        me
    }

    /// The dictionary holds the given word as written.
    fn contains_word(&self, w: &String) -> (b: bool)
        ensures
            b == dict_has(self.dict(), w@),
    {
        let b = contains_string(&self.words, w);
        proof {
            assert(forall|k: int|
                0 <= k < self.dict().len() ==> #[trigger] self.dict()[k] == self.words@[k]@);
            if b {
                let k = choose|k: int|
                    0 <= k < self.words@.len() && (#[trigger] self.words@[k])@ == w@;
                assert(self.dict()[k] == w@);
            }
            if dict_has(self.dict(), w@) {
                let k = choose|k: int|
                    0 <= k < self.dict().len() && #[trigger] self.dict()[k] == w@;
                assert(self.words@[k]@ == w@);
                assert(has_text(self.words@, w@));
            }
        }
        b
    }
}


/// A suggestion entry is a dictionary word with its exact distance to the
/// query, inside the threshold.
pub open spec fn entry_ok(dict: Seq<Seq<char>>, qb: Seq<u8>, ent: (u32, String)) -> bool {
    &&& dict_has(dict, ent.1@)
    &&& ent.0 as nat == lev(qb, encode_utf8(ent.1@))
    &&& (ent.0 as nat) < sqrt_floor(qb.len())
}

pub open spec fn has_entry(entries: Seq<(u32, String)>, w: Seq<char>) -> bool {
    exists|k: int| 0 <= k < entries.len() && (#[trigger] entries[k]).1@ == w
}

/// The entries are exactly the dictionary words whose distance to the query
/// is below the threshold, each with its distance, sorted by non-decreasing
/// distance and without duplicate words.
pub open spec fn suggestions_ok(dict: Seq<Seq<char>>, qb: Seq<u8>, entries: Seq<(u32, String)>) -> bool {
    &&& (forall|k: int| 0 <= k < entries.len() ==> entry_ok(dict, qb, #[trigger] entries[k]))
    &&& (forall|t: int|
        0 <= t < dict.len() && lev(qb, encode_utf8(#[trigger] dict[t])) < sqrt_floor(qb.len())
            ==> has_entry(entries, dict[t]))
    &&& (forall|k1: int, k2: int|
        0 <= k1 < k2 < entries.len() ==> (#[trigger] entries[k1]).0 <= (#[trigger] entries[k2]).0)
    &&& (forall|k1: int, k2: int|
        0 <= k1 < k2 < entries.len() ==> (#[trigger] entries[k1]).1@ != (#[trigger] entries[k2]).1@)
}

impl Spell {
    /// Whether a word passes the spelling policy: short words and words with
    /// an embedded capital always pass; otherwise the lowercased word, or its
    /// stem without a trailing 's', must be a dictionary word.
    pub fn is_valid(&self, word: &str) -> (r: bool)
        ensures
            r == spec_is_valid(self.dict(), word@),
    {
        let n = word.unicode_len();
        if n < 4 {
            return true;
        }
        let mut i: usize = 1;
        while i < n - 1
            invariant
                n == word@.len(),
                4 <= n,
                1 <= i <= n,
                forall|j: int|
                    1 <= j < i ==> !(is_ascii_upper(#[trigger] word@[j]) && word@[j - 1] != '\n'
                        && word@[j + 1] != '\n'),
            decreases n - i,
        {
            let c = word.get_char(i);
            if (c as u32) >= 65 && (c as u32) <= 90 {
                let p = word.get_char(i - 1);
                let q = word.get_char(i + 1);
                if p != '\n' && q != '\n' {
                    proof {
                        assert(is_ascii_upper(word@[i as int]));
                        assert(has_inner_capital(word@));
                    }
                    return true;
                }
            }
            i = i + 1;
        }
        proof {
            assert(!has_inner_capital(word@)) by {
                if has_inner_capital(word@) {
                    let j = choose|j: int|
                        1 <= j && j + 1 < word@.len() && is_ascii_upper(#[trigger] word@[j])
                            && word@[j - 1] != '\n' && word@[j + 1] != '\n';
                    assert(j < i);
                }
            }
        }
        let lw = lowercase(word);
        if self.contains_word(&lw) {
            return true;
        }
        let m = lw.unicode_len();
        if m == 0 {
            return false;
        }
        let lastc = lw.as_str().get_char(m - 1);
        if lastc != 's' {
            return false;
        }
        let stem = lw.as_str().substring_char(0, m - 1).to_owned();
        proof {
            assert(stem@ =~= lower_of(word@).drop_last());
        }
        self.contains_word(&stem)
    }

    /// Fuzzy correction candidates: every dictionary word whose edit distance
    /// to the query is below the square root of the query's length, paired
    /// with that distance and sorted by non-decreasing distance.
    pub fn get_suggestions(&self, query: &str) -> (res: Vec<(u32, String)>)
        requires
            self.wf(),
            encode_utf8(query@).len() < u32::MAX,
        ensures
            suggestions_ok(self.dict(), encode_utf8(query@), res@),
    {
        let ghost qb = encode_utf8(query@);
        let thresh = isqrt(query.len());
        let mut cands: Vec<(u32, String)> = Vec::new();
        let mut j: usize = 0;
        while j < self.words.len()
            invariant
                self.wf(),
                qb == encode_utf8(query@),
                qb.len() < u32::MAX,
                thresh as nat == sqrt_floor(qb.len()),
                j <= self.words@.len(),
                forall|k: int|
                    0 <= k < cands@.len() ==> entry_ok(self.dict(), qb, #[trigger] cands@[k]),
                forall|k: int|
                    0 <= k < cands@.len() ==> dict_has(
                        self.dict().take(j as int),
                        (#[trigger] cands@[k]).1@,
                    ),
                forall|t: int|
                    0 <= t < j && lev(qb, encode_utf8(#[trigger] self.dict()[t])) < sqrt_floor(
                        qb.len(),
                    ) ==> has_entry(cands@, self.dict()[t]),
                forall|k1: int, k2: int|
                    0 <= k1 < k2 < cands@.len() ==> (#[trigger] cands@[k1]).1@
                        != (#[trigger] cands@[k2]).1@,
            decreases self.words@.len() - j,
        {
            let ghost dict = self.dict();
            proof {
                assert(dict[j as int] == self.words@[j as int]@);
            }
            let d = edit_distance(query, self.words[j].as_str());
            let ghost cands0 = cands@;
            let hit = (d as usize) < thresh;
            if hit {
                cands.push((d, self.words[j].clone()));
                proof {
                    assert(forall|k: int| 0 <= k < cands0.len() ==> cands@[k] == #[trigger] cands0[k]);
                    assert(cands@[cands0.len() as int].1@ == dict[j as int]);
                    assert(entry_ok(dict, qb, cands@[cands0.len() as int]));
                    assert forall|k: int| 0 <= k < cands0.len() implies (#[trigger] cands@[k]).1@
                        != dict[j as int] by {
                        let t = choose|t: int|
                            0 <= t < dict.take(j as int).len() && #[trigger] dict.take(j as int)[t]
                                == cands0[k].1@;
                        assert(dict[t] == cands0[k].1@);
                        assert(t < j);
                    }
                }
            }
            proof {
                assert forall|k: int| 0 <= k < cands@.len() implies dict_has(
                    dict.take(j as int + 1),
                    (#[trigger] cands@[k]).1@,
                ) by {
                    if k < cands0.len() {
                        let t = choose|t: int|
                            0 <= t < dict.take(j as int).len() && #[trigger] dict.take(j as int)[t]
                                == cands0[k].1@;
                        assert(dict.take(j as int + 1)[t] == cands0[k].1@);
                    } else {
                        assert(dict.take(j as int + 1)[j as int] == dict[j as int]);
                        assert(cands@[k].1@ == dict[j as int]);
                    }
                }
                assert forall|t: int|
                    0 <= t < j + 1 && lev(qb, encode_utf8(#[trigger] self.dict()[t])) < sqrt_floor(
                        qb.len(),
                    ) implies has_entry(cands@, self.dict()[t]) by {
                    if t < j {
                        let k = choose|k: int|
                            0 <= k < cands0.len() && (#[trigger] cands0[k]).1@ == self.dict()[t];
                        assert(cands@[k].1@ == self.dict()[t]);
                    } else {
                        assert(hit);
                        assert(cands@[cands0.len() as int].1@ == self.dict()[t]);
                    }
                }
            }
            j = j + 1;
        }
        proof {
            assert(self.dict().take(self.dict().len() as int) =~= self.dict());
        }
        // order the candidates by distance, least first
        let mut out: Vec<(u32, String)> = Vec::new();
        while cands.len() > 0
            invariant
                qb == encode_utf8(query@),
                forall|k: int|
                    0 <= k < out@.len() ==> entry_ok(self.dict(), qb, #[trigger] out@[k]),
                forall|k: int|
                    0 <= k < cands@.len() ==> entry_ok(self.dict(), qb, #[trigger] cands@[k]),
                forall|t: int|
                    0 <= t < self.dict().len() && lev(qb, encode_utf8(#[trigger] self.dict()[t]))
                        < sqrt_floor(qb.len()) ==> has_entry(out@, self.dict()[t]) || has_entry(
                        cands@,
                        self.dict()[t],
                    ),
                forall|k1: int, k2: int|
                    0 <= k1 < k2 < out@.len() ==> (#[trigger] out@[k1]).1@
                        != (#[trigger] out@[k2]).1@,
                forall|k1: int, k2: int|
                    0 <= k1 < k2 < cands@.len() ==> (#[trigger] cands@[k1]).1@
                        != (#[trigger] cands@[k2]).1@,
                forall|a: int, b: int|
                    0 <= a < out@.len() && 0 <= b < cands@.len() ==> (#[trigger] out@[a]).1@
                        != (#[trigger] cands@[b]).1@,
                forall|k1: int, k2: int|
                    0 <= k1 < k2 < out@.len() ==> (#[trigger] out@[k1]).0
                        <= (#[trigger] out@[k2]).0,
                forall|a: int, b: int|
                    0 <= a < out@.len() && 0 <= b < cands@.len() ==> (#[trigger] out@[a]).0
                        <= (#[trigger] cands@[b]).0,
            decreases cands@.len(),
        {
            let mut m: usize = 0;
            let mut t: usize = 1;
            while t < cands.len()
                invariant
                    0 < cands@.len(),
                    m < t,
                    1 <= t <= cands@.len(),
                    forall|u: int| 0 <= u < t ==> (#[trigger] cands@[u]).0 >= cands@[m as int].0,
                decreases cands@.len() - t,
            {
                if cands[t].0 < cands[m].0 {
                    m = t;
                }
                t = t + 1;
            }
            let ghost cands0 = cands@;
            let ghost out0 = out@;
            let x = cands.remove(m);
            out.push(x);
            proof {
                assert(forall|u: int| 0 <= u < m ==> cands@[u] == #[trigger] cands0[u]);
                assert(forall|u: int|
                    m <= u < cands@.len() ==> cands@[u] == #[trigger] cands0[u + 1]);
                assert(forall|k: int| 0 <= k < out0.len() ==> out@[k] == #[trigger] out0[k]);
                assert(out@[out0.len() as int] == cands0[m as int]);
                assert forall|t2: int|
                    0 <= t2 < self.dict().len() && lev(
                        qb,
                        encode_utf8(#[trigger] self.dict()[t2]),
                    ) < sqrt_floor(qb.len()) implies has_entry(out@, self.dict()[t2]) || has_entry(
                    cands@,
                    self.dict()[t2],
                ) by {
                    let w = self.dict()[t2];
                    if has_entry(out0, w) {
                        let k = choose|k: int|
                            0 <= k < out0.len() && (#[trigger] out0[k]).1@ == w;
                        assert(out@[k].1@ == w);
                    } else {
                        let k = choose|k: int|
                            0 <= k < cands0.len() && (#[trigger] cands0[k]).1@ == w;
                        if k == m {
                            assert(out@[out0.len() as int].1@ == w);
                        } else if k < m {
                            assert(cands@[k].1@ == w);
                        } else {
                            assert(cands@[k - 1].1@ == w);
                        }
                    }
                }
            }
        }
        out
    }
}


/// Short-word exemption: a word of fewer than four characters passes the
/// spelling policy whatever the dictionary holds.
pub proof fn lemma_short_word_valid(dict: Seq<Seq<char>>, w: Seq<char>)
    requires
        w.len() < 4,
    ensures
        spec_is_valid(dict, w),
{
}

} // verus!
