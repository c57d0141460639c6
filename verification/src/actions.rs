use vstd::prelude::*;

use crate::spell::{spec_is_valid, suggestions_ok, Spell};
use crate::tokenizer::Position;
use vstd::utf8::encode_utf8;

verus! {

/// A flagged word: the token's span and its text.
pub struct SpellingError {
    pub start: Position,
    pub end: Position,
    pub word: String,
}

/// The subsequence of tokens whose text fails the spelling policy, in order.
pub open spec fn invalid_tokens(
    dict: Seq<Seq<char>>,
    words: Seq<(String, Position, Position)>,
) -> Seq<(String, Position, Position)>
    decreases words.len(),
{
    if words.len() == 0 {
        Seq::empty()
    } else {
        let prev = invalid_tokens(dict, words.drop_last());
        if !spec_is_valid(dict, words.last().0@) {
            prev.push(words.last())
        } else {
            prev
        }
    }
}

/// One diagnostic per misspelled token: exactly the tokens that fail the
/// spelling policy, each at its span, in token order.
pub fn spelling_errors(words: &Vec<(String, Position, Position)>, spell: &Spell) -> (res: Vec<
    SpellingError,
>)
    ensures
        res@.len() == invalid_tokens(spell.dict(), words@).len(),
        forall|k: int|
            0 <= k < res@.len() ==> (#[trigger] res@[k]).word@ == invalid_tokens(
                spell.dict(),
                words@,
            )[k].0@ && res@[k].start == invalid_tokens(spell.dict(), words@)[k].1 && res@[k].end
                == invalid_tokens(spell.dict(), words@)[k].2,
{
    let ghost dict = spell.dict();
    let mut res: Vec<SpellingError> = Vec::new();
    let mut i: usize = 0;
    proof {
        assert(words@.take(0) =~= Seq::<(String, Position, Position)>::empty());
    }
    while i < words.len()
        invariant
            i <= words@.len(),
            dict == spell.dict(),
            res@.len() == invalid_tokens(dict, words@.take(i as int)).len(),
            forall|k: int|
                0 <= k < res@.len() ==> (#[trigger] res@[k]).word@ == invalid_tokens(
                    dict,
                    words@.take(i as int),
                )[k].0@ && res@[k].start == invalid_tokens(dict, words@.take(i as int))[k].1
                    && res@[k].end == invalid_tokens(dict, words@.take(i as int))[k].2,
        decreases words@.len() - i,
    {
        let ghost pre = words@.take(i as int);
        let valid = spell.is_valid(words[i].0.as_str());
        proof {
            assert(words@.take(i as int + 1).drop_last() =~= pre);
            assert(words@.take(i as int + 1).last() == words@[i as int]);
            assert(invalid_tokens(dict, words@.take(i as int + 1)) == if !spec_is_valid(
                dict,
                words@[i as int].0@,
            ) {
                invalid_tokens(dict, pre).push(words@[i as int])
            } else {
                invalid_tokens(dict, pre)
            });
        }
        if !valid {
            let ghost res0 = res@;
            res.push(
                SpellingError {
                    start: words[i].1,
                    end: words[i].2,
                    word: words[i].0.clone(),
                },
            );
            proof {
                assert(forall|k: int| 0 <= k < res0.len() ==> res@[k] == #[trigger] res0[k]);
            }
        }
        i = i + 1;
    }
    proof {
        assert(words@.take(words@.len() as int) =~= words@);
    }
    res
}

/// The token's span encloses the requested range.
pub open spec fn range_in_token(t: (String, Position, Position), start: Position, end: Position) -> bool {
    &&& t.1.line == start.line
    &&& t.1.character <= start.character
    &&& t.2.line == end.line
    &&& t.2.character >= end.character
}

/// The first token, from position `i` on, whose span encloses the range.
pub open spec fn first_containing(
    words: Seq<(String, Position, Position)>,
    start: Position,
    end: Position,
    i: int,
) -> Option<int>
    decreases words.len() - i,
    when 0 <= i <= words.len()
{
    if i >= words.len() {
        None
    } else if range_in_token(words[i], start, end) {
        Some(i)
    } else {
        first_containing(words, start, end, i + 1)
    }
}

/// A proposed response to a flagged word.
pub enum Correction {
    /// Replace the span with the suggested word.
    Replace { start: Position, end: Position, suggestion: String },
    /// Record the word as accepted; a deferred command, not an edit.
    AddToDictionary { word: String },
}

/// Corrective actions for a request at a range: the first token whose span
/// encloses the range is examined; if it fails the spelling policy, one
/// replacement per suggestion is offered, in suggestion order, and one final
/// action to accept the word.  Otherwise there is nothing to offer.
pub fn corrective_actions(
    words: &Vec<(String, Position, Position)>,
    spell: &Spell,
    start: Position,
    end: Position,
) -> (res: Vec<Correction>)
    requires
        spell.wf(),
        forall|k: int|
            0 <= k < words@.len() ==> encode_utf8((#[trigger] words@[k]).0@).len() < u32::MAX,
    ensures
        match first_containing(words@, start, end, 0) {
            Option::None => res@.len() == 0,
            Option::Some(fi) => {
                let t = words@[fi];
                if spec_is_valid(spell.dict(), t.0@) {
                    res@.len() == 0
                } else {
                    exists|sug: Seq<(u32, String)>|
                        {
                            &&& #[trigger] suggestions_ok(spell.dict(), encode_utf8(t.0@), sug)
                            &&& res@.len() == sug.len() + 1
                            &&& (forall|k: int|
                                0 <= k < sug.len() ==> ((#[trigger] res@[k]) matches
                                    Correction::Replace { start: s2, end: e2, suggestion }
                                    && s2 == t.1 && e2 == t.2 && suggestion@ == sug[k].1@))
                            &&& (res@.last() matches Correction::AddToDictionary { word } && word@
                                == t.0@)
                        }
                }
            },
        },
{
    let mut i: usize = 0;
    let mut found: Option<usize> = None;
    while i < words.len() && found.is_none()
        invariant
            i <= words@.len(),
            match found {
                Some(fi) => first_containing(words@, start, end, 0) == Some(fi as int) && fi
                    < words@.len(),
                None => first_containing(words@, start, end, 0) == first_containing(
                    words@,
                    start,
                    end,
                    i as int,
                ),
            },
        decreases words@.len() - i + (if found.is_none() { 1int } else { 0int }),
    {
        let t = &words[i];
        if t.1.line == start.line && t.1.character <= start.character && t.2.line == end.line
            && t.2.character >= end.character {
            found = Some(i);
        } else {
            i = i + 1;
        }
    }
    match found {
        None => Vec::new(),
        Some(fi) => {
            if spell.is_valid(words[fi].0.as_str()) {
                Vec::new()
            } else {
                let suggs = spell.get_suggestions(words[fi].0.as_str());
                let mut res: Vec<Correction> = Vec::new();
                let mut k: usize = 0;
                while k < suggs.len()
                    invariant
                        k <= suggs@.len(),
                        res@.len() == k,
                        fi < words@.len(),
                        forall|k2: int|
                            0 <= k2 < k ==> ((#[trigger] res@[k2]) matches Correction::Replace {
                                start: s2,
                                end: e2,
                                suggestion,
                            } && s2 == words@[fi as int].1 && e2 == words@[fi as int].2
                                && suggestion@ == suggs@[k2].1@),
                    decreases suggs@.len() - k,
                {
                    res.push(
                        Correction::Replace {
                            start: words[fi].1,
                            end: words[fi].2,
                            suggestion: suggs[k].1.clone(),
                        },
                    );
                    k = k + 1;
                }
                res.push(Correction::AddToDictionary { word: words[fi].0.clone() });
                proof {
                    let t = words@[fi as int];
                    assert(suggestions_ok(spell.dict(), encode_utf8(t.0@), suggs@));
                    assert(res@.len() == suggs@.len() + 1);
                    assert(res@.last() matches Correction::AddToDictionary { word } && word@
                        == t.0@);
                }
                res
            }
        },
    }
}

} // verus!
