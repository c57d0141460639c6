use vstd::prelude::*;

verus! {

/// A line/character coordinate inside a document, counting characters.
#[derive(PartialEq, Eq, Structural, Clone, Copy, Debug)]
pub struct Position {
    pub line: u32,
    pub character: u32,
}

pub uninterp spec fn alnum_char(c: char) -> bool;

/// A word character: alphanumeric, and never the line terminator.
pub open spec fn is_word_char(c: char) -> bool {
    alnum_char(c) && c != '\n'
}

/// Relies on char::is_alphanumeric, a pure property of the character;
/// '\n' is a control character, which is never alphanumeric.
#[verifier::external_body]
pub(crate) fn char_is_word(c: char) -> (r: bool)
    ensures
        r == (alnum_char(c) && c != '\n'),
{
    c.is_alphanumeric()
}

/// The lines of a text: a new line begins after every '\n', and the
/// terminating '\n' belongs to no line.  There is always at least one line.
pub open spec fn lines_of(text: Seq<char>) -> Seq<Seq<char>>
    decreases text.len(),
{
    if text.len() == 0 {
        seq![Seq::<char>::empty()]
    } else if text.last() == '\n' {
        lines_of(text.drop_last()).push(Seq::<char>::empty())
    } else {
        let prev = lines_of(text.drop_last());
        prev.update(prev.len() - 1, prev.last().push(text.last()))
    }
}

pub proof fn lemma_lines_nonempty(text: Seq<char>)
    ensures
        lines_of(text).len() >= 1,
    decreases text.len(),
{
    if text.len() > 0 {
        lemma_lines_nonempty(text.drop_last());
    }
}

/// `[s, e)` is a maximal run of word characters within one line.
pub open spec fn line_word_run(line: Seq<char>, s: int, e: int) -> bool {
    &&& 0 <= s < e <= line.len()
    &&& (forall|j: int| s <= j < e ==> is_word_char(#[trigger] line[j]))
    &&& (s == 0 || !is_word_char(line[s - 1]))
    &&& (e == line.len() || !is_word_char(line[e]))
}

/// The word `w` spanning `[start, end)` is one of the text's tokens.
pub open spec fn token_at(lines: Seq<Seq<char>>, w: Seq<char>, start: Position, end: Position) -> bool {
    &&& 0 <= (start.line as int) < lines.len()
    &&& end.line == start.line
    &&& line_word_run(lines[start.line as int], start.character as int, end.character as int)
    &&& w == lines[start.line as int].subrange(start.character as int, end.character as int)
}

/// The excluded line as a spec-level integer; `None` excludes no line.
pub open spec fn excluded(exclude_line: Option<u32>) -> int {
    match exclude_line {
        Some(l) => l as int,
        None => -1,
    }
}

pub open spec fn has_token_at(toks: Seq<(String, Position, Position)>, l: int, s: int, e: int) -> bool {
    exists|k: int|
        0 <= k < toks.len() && (#[trigger] toks[k]).1.line as int == l && toks[k].1.character as int
            == s && toks[k].2.character as int == e
}

pub open spec fn pos_lt(a: Position, b: Position) -> bool {
    a.line < b.line || (a.line == b.line && a.character < b.character)
}

/// The token list `toks` is exactly the token set of the text whose lines are
/// `lines`, leaving out line `ex`, listed in increasing position order.
pub open spec fn tokens_exact(
    lines: Seq<Seq<char>>,
    ex: int,
    toks: Seq<(String, Position, Position)>,
) -> bool {
    &&& (forall|k: int|
        0 <= k < toks.len() ==> token_at(lines, (#[trigger] toks[k]).0@, toks[k].1, toks[k].2)
            && toks[k].1.line as int != ex)
    &&& (forall|l: int, s: int, e: int|
        0 <= l < lines.len() && l != ex && #[trigger] line_word_run(lines[l], s, e) ==> has_token_at(
            toks,
            l,
            s,
            e,
        ))
    &&& (forall|k1: int, k2: int|
        0 <= k1 < k2 < toks.len() ==> pos_lt(#[trigger] toks[k1].1, #[trigger] toks[k2].1))
}

/// The set of token texts of the given lines, leaving out line `ex`.
pub open spec fn token_text_set(lines: Seq<Seq<char>>, ex: int) -> Set<Seq<char>> {
    Set::new(
        |w: Seq<char>|
            exists|l: int, s: int, e: int|
                0 <= l < lines.len() && l != ex && #[trigger] line_word_run(lines[l], s, e) && w
                    == lines[l].subrange(s, e),
    )
}

proof fn lemma_take_step(s: Seq<char>, i: int)
    requires
        0 <= i < s.len(),
    ensures
        s.take(i + 1) == s.take(i).push(s[i]),
{
    assert(s.take(i + 1) =~= s.take(i).push(s[i]));
}

pub proof fn lemma_lines_step(text: Seq<char>, i: int)
    requires
        0 <= i < text.len(),
    ensures
        text[i] == '\n' ==> lines_of(text.take(i + 1)) == lines_of(text.take(i)).push(
            Seq::<char>::empty(),
        ),
        text[i] != '\n' ==> lines_of(text.take(i + 1)) == lines_of(text.take(i)).update(
            lines_of(text.take(i)).len() - 1,
            lines_of(text.take(i)).last().push(text[i]),
        ),
{
    lemma_take_step(text, i);
    lemma_lines_nonempty(text.take(i));
    let pre2 = text.take(i + 1);
    assert(pre2.len() == i + 1 > 0);
    assert(pre2.last() == text[i]);
    assert(pre2.drop_last() =~= text.take(i));
}

proof fn lemma_run_push(line: Seq<char>, c: char, s: int, e: int)
    requires
        0 <= s <= e <= line.len(),
    ensures
        line.push(c).subrange(s, e) == line.subrange(s, e),
        e < line.len() ==> (line_word_run(line.push(c), s, e) <==> line_word_run(line, s, e)),
{
    let line2 = line.push(c);
    assert(forall|j: int| 0 <= j < line.len() ==> line2[j] == #[trigger] line[j]);
    assert(line2.subrange(s, e) =~= line.subrange(s, e));
    if e < line.len() {
        if line_word_run(line2, s, e) {
            assert(forall|j: int| s <= j < e ==> is_word_char(#[trigger] line[j])) by {
                assert(forall|j: int| s <= j < e ==> is_word_char(#[trigger] line2[j]));
            }
            assert(line_word_run(line, s, e));
        }
        if line_word_run(line, s, e) {
            assert(forall|j: int| s <= j < e ==> is_word_char(#[trigger] line2[j])) by {
                assert(forall|j: int| s <= j < e ==> is_word_char(#[trigger] line[j]));
            }
            assert(line_word_run(line2, s, e));
        }
    }
}

proof fn lemma_run_ending_at(line: Seq<char>, s: int, e: int, rs: int)
    requires
        line_word_run(line, s, e),
        0 <= rs <= e,
        forall|j: int| rs <= j < e ==> is_word_char(#[trigger] line[j]),
        rs == 0 || !is_word_char(line[rs - 1]),
    ensures
        s == rs,
{
    if s < rs {
        assert(is_word_char(line[rs - 1]));
    }
    if s > rs {
        assert(is_word_char(line[s - 1]));
    }
}

/// Derive the word tokens of `text`, leaving out the line `exclude_line`.
/// Each token is a maximal run of word characters within a single line,
/// reported with its text and its start and end positions.
#[verifier::rlimit(100)]
#[verifier::spinoff_prover]
pub fn scan_words(text: &str, exclude_line: Option<u32>) -> (res: Vec<(String, Position, Position)>)
    requires
        text@.len() <= u32::MAX,
    ensures
        tokens_exact(lines_of(text@), excluded(exclude_line), res@),
{
    let ghost ex = excluded(exclude_line);
    let n = text.unicode_len();
    let mut res: Vec<(String, Position, Position)> = Vec::new();
    let mut i: usize = 0;
    let mut line: usize = 0;
    let mut line_flat: usize = 0;
    let mut run_flat: usize = 0;
    let mut in_run: bool = false;
    proof {
        assert(text@.take(0) =~= Seq::<char>::empty());
        assert(lines_of(text@.take(0)).last() =~= text@.subrange(0, 0));
    }
    while i < n
        invariant
            ex == excluded(exclude_line),
            i <= n,
            n == text@.len(),
            text@.len() <= u32::MAX,
            line <= i,
            line_flat <= i,
            line as int == lines_of(text@.take(i as int)).len() - 1,
            lines_of(text@.take(i as int)).last() == text@.subrange(line_flat as int, i as int),
            in_run ==> line_flat <= run_flat < i && (forall|j: int|
                run_flat <= j < i ==> is_word_char(#[trigger] text@[j])) && (run_flat == line_flat
                || !is_word_char(text@[run_flat - 1])) && line as int != excluded(exclude_line),
            !in_run ==> (i == line_flat || !is_word_char(text@[i - 1]) || line as int == excluded(
                exclude_line,
            )),
            forall|k: int|
                0 <= k < res@.len() ==> token_at(
                    lines_of(text@.take(i as int)),
                    (#[trigger] res@[k]).0@,
                    res@[k].1,
                    res@[k].2,
                ) && res@[k].1.line as int != excluded(exclude_line),
            forall|k: int|
                0 <= k < res@.len() ==> (((#[trigger] res@[k]).2.line as int) < (line as int) || (
                res@[k].2.line as int == line as int && line_flat + res@[k].2.character < i && (
                in_run ==> line_flat + res@[k].2.character as int <= run_flat as int))),
            forall|k1: int, k2: int|
                0 <= k1 < k2 < res@.len() ==> pos_lt(#[trigger] res@[k1].1, #[trigger] res@[k2].1),
            forall|l: int, s: int, e: int|
                0 <= l < lines_of(text@.take(i as int)).len() && l != excluded(exclude_line)
                    && #[trigger] line_word_run(lines_of(text@.take(i as int))[l], s, e) && (l < (
                line as int) || e < i - line_flat) ==> has_token_at(res@, l, s, e),
        decreases n - i,
    {
        let ghost pre = text@.take(i as int);
        let ghost plines = lines_of(pre);
        let ghost line0 = line as int;
        let ghost lf0 = line_flat as int;
        let ghost col0 = i as int - line_flat as int;
        let c = text.get_char(i);
        let cw = char_is_word(c);
        let on_excluded = match exclude_line {
            Some(l) => line == (l as usize),
            None => false,
        };
        proof {
            assert(on_excluded <==> line0 == ex);
            lemma_lines_step(text@, i as int);
            lemma_lines_nonempty(pre);
            assert(text@.take(i as int + 1) =~= pre.push(c)) by {
                lemma_take_step(text@, i as int);
            }
        }
        let ghost plines2 = lines_of(text@.take(i as int + 1));
        let ghost oldline = plines.last();
        proof {
            assert(oldline == text@.subrange(lf0, i as int));
            assert(forall|j: int| lf0 <= j < i ==> oldline[j - lf0] == #[trigger] text@[j]);
            assert(oldline.len() == col0);
        }
        if cw && !on_excluded {
            if !in_run {
                in_run = true;
                run_flat = i;
            }
            proof {
                assert(line0 != ex);
                assert(plines2 == plines.update(plines.len() - 1, oldline.push(c)));
                assert(plines2.last() == oldline.push(c));
                assert(plines2.last() =~= text@.subrange(lf0, i as int + 1));
                assert(forall|j: int| run_flat <= j < i + 1 ==> is_word_char(#[trigger] text@[j]));
                // tokens so far remain tokens of the extended text
                assert forall|k: int| 0 <= k < res@.len() implies token_at(
                    plines2,
                    (#[trigger] res@[k]).0@,
                    res@[k].1,
                    res@[k].2,
                ) by {
                    let lk = res@[k].1.line as int;
                    let sk = res@[k].1.character as int;
                    let ek = res@[k].2.character as int;
                    assert(token_at(plines, res@[k].0@, res@[k].1, res@[k].2));
                    if lk == line0 {
                        lemma_run_push(oldline, c, sk, ek);
                    } else {
                        assert(plines2[lk] == plines[lk]);
                    }
                }
                // no new closed run appears when a word character is read
                assert forall|l: int, s: int, e: int|
                    0 <= l < plines2.len() && l != ex && #[trigger] line_word_run(plines2[l], s, e)
                        && (l < line0 || e < i + 1 - lf0) implies has_token_at(res@, l, s, e) by {
                    if l == line0 {
                        let line2 = oldline.push(c);
                        assert(plines2[l] == line2);
                        if e == col0 {
                            assert(line2[col0] == c);
                            assert(is_word_char(c));
                            assert(!line_word_run(line2, s, e));
                        } else {
                            assert(e < col0);
                            lemma_run_push(oldline, c, s, e);
                            assert(line_word_run(plines[l], s, e));
                        }
                    } else {
                        assert(plines2[l] == plines[l]);
                    }
                }
            }
        } else {
            let ghost res0 = res@;
            let ghost was_in_run = in_run;
            let ghost rs_col = run_flat as int - lf0;
            if in_run {
                let w = text.substring_char(run_flat, i).to_owned();
                let start = Position {
                    line: line as u32,
                    character: (run_flat - line_flat) as u32,
                };
                let end = Position { line: line as u32, character: (i - line_flat) as u32 };
                proof {
                    // the else-branch is only reached outside a run when the
                    // character is no word character
                    assert(line0 != ex);
                    assert(!on_excluded);
                    assert(!is_word_char(c));
                    assert(forall|j: int| rs_col <= j < col0 ==> is_word_char(#[trigger] oldline[j]));
                    assert(rs_col == 0 || !is_word_char(oldline[rs_col - 1]));
                    assert(w@ =~= oldline.subrange(rs_col, col0)) by {
                        assert(w@ == text@.subrange(run_flat as int, i as int));
                    }
                    if c != '\n' {
                        let line2 = oldline.push(c);
                        assert(line2[col0] == c && !is_word_char(c));
                        assert(line_word_run(line2, rs_col, col0));
                        lemma_run_push(oldline, c, rs_col, col0);
                        assert(plines2[line0] == line2);
                        assert(token_at(plines2, w@, start, end));
                    } else {
                        assert(line_word_run(oldline, rs_col, col0));
                        assert(plines2 == plines.push(Seq::<char>::empty()));
                        assert(plines2[line0] == oldline);
                        assert(token_at(plines2, w@, start, end));
                    }
                }
                res.push((w, start, end));
                in_run = false;
                proof {
                    assert(res@.len() == res0.len() + 1);
                    assert(forall|k: int| 0 <= k < res0.len() ==> res@[k] == #[trigger] res0[k]);
                    assert(res@[res0.len() as int].1 == start);
                    assert(res@[res0.len() as int].2 == end);
                    // ordering: every earlier token starts before this one
                    assert forall|k: int| 0 <= k < res0.len() implies pos_lt(
                        (#[trigger] res@[k]).1,
                        start,
                    ) by {
                        let lk = res0[k].1.line as int;
                        let sk = res0[k].1.character as int;
                        let ek = res0[k].2.character as int;
                        assert(token_at(plines, res0[k].0@, res0[k].1, res0[k].2));
                        if lk == line0 {
                            assert(lf0 + ek <= run_flat as int);
                            assert(sk < ek);
                        }
                    }
                }
            }
            proof {
                // tokens so far remain tokens of the extended text
                assert forall|k: int| 0 <= k < res@.len() implies token_at(
                    plines2,
                    (#[trigger] res@[k]).0@,
                    res@[k].1,
                    res@[k].2,
                ) && res@[k].1.line as int != ex by {
                    if k < res0.len() {
                        let lk = res@[k].1.line as int;
                        let sk = res@[k].1.character as int;
                        let ek = res@[k].2.character as int;
                        assert(res@[k] == res0[k]);
                        assert(token_at(plines, res@[k].0@, res@[k].1, res@[k].2));
                        if c == '\n' {
                            assert(plines2[lk] == plines[lk]);
                        } else if lk == line0 {
                            assert(lf0 + ek < i);
                            lemma_run_push(oldline, c, sk, ek);
                        } else {
                            assert(plines2[lk] == plines[lk]);
                        }
                    }
                }
            }
            if c == '\n' {
                line = line + 1;
                line_flat = i + 1;
                proof {
                    assert(plines2.last() =~= text@.subrange(i as int + 1, i as int + 1));
                    assert(plines2.len() == plines.len() + 1);
                }
            } else {
                proof {
                    assert(plines2.last() == oldline.push(c));
                    assert(plines2.last() =~= text@.subrange(lf0, i as int + 1));
                }
            }
            proof {
                // completeness: every closed run of the extended text is listed
                assert forall|l: int, s: int, e: int|
                    0 <= l < plines2.len() && l != ex && #[trigger] line_word_run(plines2[l], s, e)
                        && (l < line as int || e < i + 1 - line_flat) implies has_token_at(
                    res@,
                    l,
                    s,
                    e,
                ) by {
                    let closing = if c == '\n' { oldline } else { oldline.push(c) };
                    if l < line0 {
                        assert(plines2[l] == plines[l]);
                        assert(has_token_at(res0, l, s, e));
                        if was_in_run {
                            let k = choose|k: int|
                                0 <= k < res0.len() && (#[trigger] res0[k]).1.line as int == l
                                    && res0[k].1.character as int == s && res0[k].2.character as int
                                    == e;
                            assert(res@[k] == res0[k]);
                        }
                    } else if l == line0 {
                        assert(plines2[l] == closing);
                        if e < col0 {
                            if c != '\n' {
                                lemma_run_push(oldline, c, s, e);
                            }
                            assert(line_word_run(plines[l], s, e));
                            assert(has_token_at(res0, l, s, e));
                            if was_in_run {
                                let k = choose|k: int|
                                    0 <= k < res0.len() && (#[trigger] res0[k]).1.line as int == l
                                        && res0[k].1.character as int == s
                                        && res0[k].2.character as int == e;
                                assert(res@[k] == res0[k]);
                            }
                        } else {
                            assert(e <= closing.len());
                            assert(c == '\n' ==> closing.len() == col0);
                            assert(c != '\n' ==> closing.len() == col0 + 1);
                            if c != '\n' && e == col0 + 1 {
                                assert(is_word_char(closing[e - 1]));
                                assert(closing[col0] == c);
                                assert(false);
                            }
                            assert(e == col0);
                            assert(col0 > 0);
                            if was_in_run {
                                assert(forall|j: int|
                                    rs_col <= j < col0 ==> is_word_char(#[trigger] closing[j]));
                                assert(rs_col == 0 || !is_word_char(closing[rs_col - 1]));
                                lemma_run_ending_at(closing, s, e, rs_col);
                                assert(res@[res0.len() as int].1.line as int == l);
                                assert(res@[res0.len() as int].1.character as int == s);
                                assert(res@[res0.len() as int].2.character as int == e);
                            } else {
                                // no run can end at the scan point here
                                assert(i as int != lf0);
                                assert(is_word_char(closing[col0 - 1]));
                                assert(closing[col0 - 1] == text@[i - 1]);
                                assert(false);
                            }
                        }
                    } else {
                        // a fresh line holds no runs yet
                        assert(c == '\n' && l == line as int);
                        assert(plines2[l] =~= Seq::<char>::empty());
                        assert(false);
                    }
                }
            }
        }
        i = i + 1;
    }
    proof {
        assert(text@.take(n as int) =~= text@);
    }
    let ghost res0 = res@;
    let ghost line0 = line as int;
    let ghost lf0 = line_flat as int;
    let ghost col0 = n as int - line_flat as int;
    let ghost lastline = lines_of(text@).last();
    proof {
        assert(lastline == text@.subrange(lf0, n as int));
        assert(forall|j: int| lf0 <= j < n ==> lastline[j - lf0] == #[trigger] text@[j]);
        assert(lastline.len() == col0);
    }
    if in_run {
        let w = text.substring_char(run_flat, n).to_owned();
        let start = Position { line: line as u32, character: (run_flat - line_flat) as u32 };
        let end = Position { line: line as u32, character: (n - line_flat) as u32 };
        proof {
            let rs_col = run_flat as int - lf0;
            assert(forall|j: int| rs_col <= j < col0 ==> is_word_char(#[trigger] lastline[j]));
            assert(rs_col == 0 || !is_word_char(lastline[rs_col - 1]));
            assert(line_word_run(lastline, rs_col, col0));
            assert(w@ =~= lastline.subrange(rs_col, col0)) by {
                assert(w@ == text@.subrange(run_flat as int, n as int));
            }
            assert(token_at(lines_of(text@), w@, start, end));
        }
        res.push((w, start, end));
        proof {
            assert(res@.len() == res0.len() + 1);
            assert(forall|k: int| 0 <= k < res0.len() ==> res@[k] == #[trigger] res0[k]);
            assert forall|k: int| 0 <= k < res0.len() implies pos_lt(
                (#[trigger] res@[k]).1,
                res@[res0.len() as int].1,
            ) by {
                let lk = res0[k].1.line as int;
                let sk = res0[k].1.character as int;
                let ek = res0[k].2.character as int;
                assert(token_at(lines_of(text@), res0[k].0@, res0[k].1, res0[k].2));
                if lk == line0 {
                    assert(lf0 + ek <= run_flat as int);
                    assert(sk < ek);
                }
            }
        }
    }
    proof {
        let ghost rs_col = run_flat as int - lf0;
        // completeness over the whole text
        assert forall|l: int, s: int, e: int|
            0 <= l < lines_of(text@).len() && l != excluded(exclude_line) && #[trigger] line_word_run(
                lines_of(text@)[l],
                s,
                e,
            ) implies has_token_at(res@, l, s, e) by {
            if l < line0 || e < col0 {
                assert(has_token_at(res0, l, s, e));
                if in_run {
                    let k = choose|k: int|
                        0 <= k < res0.len() && (#[trigger] res0[k]).1.line as int == l
                            && res0[k].1.character as int == s && res0[k].2.character as int == e;
                    assert(res@[k] == res0[k]);
                }
            } else {
                assert(l == line0);
                assert(lines_of(text@)[l] == lastline);
                assert(e <= col0);
                assert(e == col0);
                assert(col0 > 0);
                if in_run {
                    assert(forall|j: int| rs_col <= j < col0 ==> is_word_char(#[trigger] lastline[j]));
                    assert(rs_col == 0 || !is_word_char(lastline[rs_col - 1]));
                    lemma_run_ending_at(lastline, s, e, rs_col);
                    assert(res@[res0.len() as int].1.line as int == l);
                    assert(res@[res0.len() as int].1.character as int == s);
                    assert(res@[res0.len() as int].2.character as int == e);
                } else {
                    assert(n as int != lf0);
                    assert(is_word_char(lastline[col0 - 1]));
                    assert(lastline[col0 - 1] == text@[n - 1]);
                    assert(line0 != excluded(exclude_line) ==> false);
                }
            }
        }
    }
    res
}


/// The list `toks` holds a token with the same text and the same span as `t`.
pub open spec fn same_token_in(
    toks: Seq<(String, Position, Position)>,
    t: (String, Position, Position),
) -> bool {
    exists|k2: int|
        0 <= k2 < toks.len() && (#[trigger] toks[k2]).0@ == t.0@ && toks[k2].1 == t.1 && toks[k2].2
            == t.2
}

/// Idempotence of tokenization: two token lists derived from the same text
/// with the same excluded line hold exactly the same tokens.  Since
/// `scan_words` guarantees `tokens_exact`, tokenizing unchanged content twice
/// yields identical token sets.
pub proof fn lemma_tokenize_idempotent(
    lines: Seq<Seq<char>>,
    ex: int,
    a: Seq<(String, Position, Position)>,
    b: Seq<(String, Position, Position)>,
)
    requires
        tokens_exact(lines, ex, a),
        tokens_exact(lines, ex, b),
    ensures
        forall|k: int| 0 <= k < a.len() ==> same_token_in(b, #[trigger] a[k]),
        forall|k: int| 0 <= k < b.len() ==> same_token_in(a, #[trigger] b[k]),
{
    lemma_tokens_exact_subset(lines, ex, a, b);
    lemma_tokens_exact_subset(lines, ex, b, a);
}

proof fn lemma_tokens_exact_subset(
    lines: Seq<Seq<char>>,
    ex: int,
    a: Seq<(String, Position, Position)>,
    b: Seq<(String, Position, Position)>,
)
    requires
        tokens_exact(lines, ex, a),
        tokens_exact(lines, ex, b),
    ensures
        forall|k: int| 0 <= k < a.len() ==> same_token_in(b, #[trigger] a[k]),
{
    assert forall|k: int| 0 <= k < a.len() implies same_token_in(b, #[trigger] a[k]) by {
        let l = a[k].1.line as int;
        let s = a[k].1.character as int;
        let e = a[k].2.character as int;
        assert(token_at(lines, a[k].0@, a[k].1, a[k].2));
        assert(line_word_run(lines[l], s, e));
        assert(has_token_at(b, l, s, e));
        let k2 = choose|k2: int|
            0 <= k2 < b.len() && (#[trigger] b[k2]).1.line as int == l && b[k2].1.character as int
                == s && b[k2].2.character as int == e;
        assert(token_at(lines, b[k2].0@, b[k2].1, b[k2].2));
        assert(b[k2].0@ == lines[l].subrange(s, e));
        assert(b[k2].1 == a[k].1 && b[k2].2 == a[k].2);
    }
}

/// Token well-formedness: a token's text consists solely of word characters,
/// and its span is maximal; it can be extended in neither direction within
/// its line.
pub proof fn lemma_token_wellformed(
    lines: Seq<Seq<char>>,
    w: Seq<char>,
    start: Position,
    end: Position,
)
    requires
        token_at(lines, w, start, end),
    ensures
        w.len() > 0,
        w.len() == end.character - start.character,
        forall|i: int| 0 <= i < w.len() ==> is_word_char(#[trigger] w[i]),
        start.character > 0 ==> !is_word_char(
            lines[start.line as int][start.character as int - 1],
        ),
        (end.character as int) < lines[start.line as int].len() ==> !is_word_char(
            lines[start.line as int][end.character as int],
        ),
{
    let line = lines[start.line as int];
    let s = start.character as int;
    let e = end.character as int;
    assert(forall|i: int| 0 <= i < w.len() ==> w[i] == #[trigger] line[s + i]);
    assert forall|i: int| 0 <= i < w.len() implies is_word_char(#[trigger] w[i]) by {
        assert(is_word_char(line[s + i]));
    }
}

} // verus!
