use vstd::prelude::*;

use crate::source_file::{
    change_accepted, change_error, changed_text, EditError, SourceFile, TextChange,
};
use crate::tokenizer::{excluded, lines_of, tokens_exact, Position};

verus! {

/// One open document: its identifier and its buffer.
pub struct OpenDoc {
    pub id: String,
    pub file: SourceFile,
}

/// One completion candidate: the token text to offer and where it came from
/// (`"."` for the queried document, a relative identifier for another one).
pub struct CompletionItem {
    pub label: String,
    pub detail: String,
}

pub uninterp spec fn relative_label_of(target: Seq<char>, base: Seq<char>) -> Seq<char>;

/// Relies on url::Url::parse and url::Url::make_relative: how one document's
/// identifier reads relative to another's, falling back to the absolute
/// identifier when no relative form exists.  The result depends on the two
/// strings alone.
#[verifier::external_body]
fn relative_label(target: &str, base: &str) -> (r: String)
    ensures
        r@ == relative_label_of(target@, base@),
{
    match (url::Url::parse(target), url::Url::parse(base)) {
        (Ok(t), Ok(b)) => b.make_relative(&t).unwrap_or_else(|| t.to_string()),
        _ => target.to_string(),
    }
}

pub open spec fn has_id(docs: Seq<OpenDoc>, id: Seq<char>) -> bool {
    exists|i: int| 0 <= i < docs.len() && (#[trigger] docs[i]).id@ == id
}

/// The index of the document with the given identifier; meaningful only when
/// the identifier is present and identifiers are distinct.
pub open spec fn index_of_id(docs: Seq<OpenDoc>, id: Seq<char>) -> int {
    choose|i: int| 0 <= i < docs.len() && (#[trigger] docs[i]).id@ == id
}

pub open spec fn has_label(items: Seq<CompletionItem>, w: Seq<char>) -> bool {
    exists|k: int| 0 <= k < items.len() && (#[trigger] items[k]).label@ == w
}

fn contains_label(v: &Vec<CompletionItem>, w: &String) -> (b: bool)
    ensures
        b == has_label(v@, w@),
{
    let mut k: usize = 0;
    while k < v.len()
        invariant
            k <= v@.len(),
            forall|k2: int| 0 <= k2 < k ==> (#[trigger] v@[k2]).label@ != w@,
        decreases v@.len() - k,
    {
        if v[k].label.eq(w) {
            return true;
        }
        k = k + 1;
    }
    false
}

/// What a completion item promises: a label drawn from the queried document
/// carries the same-document marker; any other label carries the relative
/// identifier of the first other document that holds it.
pub open spec fn completion_item_ok(docs: Seq<OpenDoc>, qid: Seq<char>, item: CompletionItem) -> bool {
    if has_id(docs, qid) && docs[index_of_id(docs, qid)].file.token_list().contains(item.label@) {
        item.detail@ == "."@
    } else {
        exists|j: int|
            0 <= j < docs.len() && (#[trigger] docs[j]).id@ != qid
                && docs[j].file.token_list().contains(item.label@) && item.detail@
                == relative_label_of(docs[j].id@, qid) && (forall|j2: int|
                0 <= j2 < j && (#[trigger] docs[j2]).id@ != qid
                    ==> !docs[j2].file.token_list().contains(item.label@))
    }
}

/// The workspace: every open document, keyed by identifier.
pub struct State {
    files: Vec<OpenDoc>,
}

impl State {
    /// The open documents.
    pub closed spec fn docs(&self) -> Seq<OpenDoc> {
        self.files@
    }

    /// Identifiers are distinct and every buffer is well formed.
    pub open spec fn wf(&self) -> bool {
        &&& (forall|i: int, j: int|
            0 <= i < j < self.docs().len() ==> (#[trigger] self.docs()[i]).id@
                != (#[trigger] self.docs()[j]).id@)
        &&& (forall|i: int| 0 <= i < self.docs().len() ==> (#[trigger] self.docs()[i]).file.wf())
    }

    pub fn new() -> (s: Self)
        ensures
            s.wf(),
            s.docs().len() == 0,
    {
        State { files: Vec::new() }
    }

    proof fn lemma_index_unique(&self, id: Seq<char>, i: int)
        requires
            self.wf(),
            0 <= i < self.docs().len(),
            self.docs()[i].id@ == id,
        ensures
            index_of_id(self.docs(), id) == i,
    {
        let c = index_of_id(self.docs(), id);
        assert(has_id(self.docs(), id));
        assert(0 <= c < self.docs().len() && self.docs()[c].id@ == id);
        if c != i {
            assert(self.docs()[i].id@ != self.docs()[c].id@);
        }
    }

    /// The position of the document with this identifier, scanning from the
    /// front.
    fn find_index(&self, id: &String) -> (res: Option<usize>)
        ensures
            match res {
                Some(i) => i < self.docs().len() && self.docs()[i as int].id@ == id@,
                None => !has_id(self.docs(), id@),
            },
    {
        let mut i: usize = 0;
        while i < self.files.len()
            invariant
                i <= self.docs().len(),
                forall|j: int| 0 <= j < i ==> (#[trigger] self.docs()[j]).id@ != id@,
            decreases self.docs().len() - i,
        {
            if self.files[i].id.eq(id) {
                return Some(i);
            }
            i = i + 1;
        }
        None
    }

    /// Open a document (or re-open it, replacing its text): it enters the
    /// workspace with the given text and a fresh token set.
    pub fn open_file(&mut self, id: String, text: &str)
        requires
            old(self).wf(),
            text@.len() <= u32::MAX,
        ensures
            final(self).wf(),
            has_id(old(self).docs(), id@) ==> {
                let i = index_of_id(old(self).docs(), id@);
                &&& final(self).docs().len() == old(self).docs().len()
                &&& (forall|j: int|
                    0 <= j < old(self).docs().len() && j != i ==> final(self).docs()[j]
                        == old(self).docs()[j])
                &&& final(self).docs()[i].id@ == id@
                &&& final(self).docs()[i].file.text() == text@
                &&& final(self).docs()[i].file.tokens_current(-1)
            },
            !has_id(old(self).docs(), id@) ==> {
                &&& final(self).docs().len() == old(self).docs().len() + 1
                &&& (forall|j: int|
                    0 <= j < old(self).docs().len() ==> final(self).docs()[j] == old(
                        self,
                    ).docs()[j])
                &&& final(self).docs().last().id@ == id@
                &&& final(self).docs().last().file.text() == text@
                &&& final(self).docs().last().file.tokens_current(-1)
            },
    {
        let file = SourceFile::new(text);
        let doc = OpenDoc { id, file };
        let found = self.find_index(&doc.id);
        match found {
            Some(i) => {
                proof {
                    self.lemma_index_unique(doc.id@, i as int);
                }
                let _old_doc = self.files.remove(i);
                self.files.insert(i, doc);
                proof {
                    assert(forall|j: int|
                        0 <= j < old(self).docs().len() && j != i ==> final(self).docs()[j]
                            == #[trigger] old(self).docs()[j]);
                }
            },
            None => {
                self.files.push(doc);
            },
        }
    }

    /// Route an edit to the document with this identifier; an unknown
    /// identifier is silently ignored.  The document's tokens are recomputed.
    pub fn apply_change(&mut self, id: &String, change: &TextChange) -> (r: Result<(), EditError>)
        requires
            old(self).wf(),
        ensures
            final(self).wf(),
            !has_id(old(self).docs(), id@) ==> r is Ok && final(self).docs() == old(self).docs(),
            has_id(old(self).docs(), id@) ==> {
                let i = index_of_id(old(self).docs(), id@);
                let t0 = old(self).docs()[i].file.text();
                &&& final(self).docs().len() == old(self).docs().len()
                &&& (forall|j: int|
                    0 <= j < old(self).docs().len() && j != i ==> final(self).docs()[j]
                        == old(self).docs()[j])
                &&& final(self).docs()[i].id@ == id@
                &&& (r is Ok <==> change_accepted(t0, change.range, change.text@))
                &&& (r is Ok ==> final(self).docs()[i].file.text() == changed_text(
                    t0,
                    change.range,
                    change.text@,
                ) && final(self).docs()[i].file.tokens_current(-1))
                &&& (r is Err ==> final(self).docs() == old(self).docs() && r == Err::<
                    (),
                    EditError,
                >(change_error(t0, change.range, change.text@)))
            },
    {
        let found = self.find_index(id);
        match found {
            Some(i) => {
                proof {
                    self.lemma_index_unique(id@, i as int);
                }
                let mut doc = self.files.remove(i);
                let r = doc.file.apply_change(change);
                self.files.insert(i, doc);
                proof {
                    assert(forall|j: int|
                        0 <= j < old(self).docs().len() && j != i ==> final(self).docs()[j]
                            == #[trigger] old(self).docs()[j]);
                    if r is Err {
                        assert(final(self).docs() =~= old(self).docs());
                    }
                }
                r
            },
            None => Ok(()),
        }
    }

    /// The word tokens of the document with this identifier; an unknown
    /// identifier yields no tokens.
    pub fn words(&self, id: &String, exclude_line: Option<u32>) -> (res: Vec<
        (String, Position, Position),
    >)
        requires
            self.wf(),
        ensures
            has_id(self.docs(), id@) ==> tokens_exact(
                lines_of(self.docs()[index_of_id(self.docs(), id@)].file.text()),
                excluded(exclude_line),
                res@,
            ),
            !has_id(self.docs(), id@) ==> res@.len() == 0,
    {
        let found = self.find_index(id);
        match found {
            Some(i) => {
                proof {
                    self.lemma_index_unique(id@, i as int);
                }
                self.files[i].file.words(exclude_line)
            },
            None => Vec::new(),
        }
    }

    /// Completion candidates for a cursor in the given document.  The queried
    /// document is re-tokenized without the cursor's line and its tokens come
    /// first, marked as same-document; then every other document contributes
    /// the tokens not yet seen, labeled with its identifier relative to the
    /// queried one.  Labels are globally deduplicated, first seen wins.  An
    /// unknown identifier yields the other documents' tokens only.
    pub fn get_completions(&mut self, id: &String, position: Position) -> (res: Vec<CompletionItem>)
        requires
            old(self).wf(),
        ensures
            final(self).wf(),
            final(self).docs().len() == old(self).docs().len(),
            !has_id(old(self).docs(), id@) ==> final(self).docs() == old(self).docs(),
            has_id(old(self).docs(), id@) ==> {
                let i = index_of_id(old(self).docs(), id@);
                &&& (forall|j: int|
                    0 <= j < old(self).docs().len() && j != i ==> final(self).docs()[j]
                        == old(self).docs()[j])
                &&& final(self).docs()[i].id@ == id@
                &&& final(self).docs()[i].file.text() == old(self).docs()[i].file.text()
                &&& final(self).docs()[i].file.tokens_current(position.line as int)
            },
            forall|k: int|
                0 <= k < res@.len() ==> completion_item_ok(
                    final(self).docs(),
                    id@,
                    #[trigger] res@[k],
                ),
            forall|j: int, t: int|
                0 <= j < final(self).docs().len()
                    && 0 <= t < final(self).docs()[j].file.token_list().len() ==> has_label(
                    res@,
                    #[trigger] final(self).docs()[j].file.token_list()[t],
                ),
            forall|k1: int, k2: int|
                0 <= k1 < k2 < res@.len() ==> (#[trigger] res@[k1]).label@
                    != (#[trigger] res@[k2]).label@,
            has_id(final(self).docs(), id@) ==> (forall|k1: int, k2: int|
                0 <= k1 < k2 < res@.len() && !final(self).docs()[index_of_id(
                    final(self).docs(),
                    id@,
                )].file.token_list().contains((#[trigger] res@[k1]).label@)
                    ==> !final(self).docs()[index_of_id(final(self).docs(), id@)].file.token_list().contains(
                    (#[trigger] res@[k2]).label@,
                )),
    {
        let found = self.find_index(id);
        if let Some(i) = found {
            proof {
                self.lemma_index_unique(id@, i as int);
            }
            let mut doc = self.files.remove(i);
            doc.file.tokenize(Some(position.line));
            self.files.insert(i, doc);
            proof {
                assert(forall|j: int|
                    0 <= j < old(self).docs().len() && j != i ==> self.docs()[j]
                        == #[trigger] old(self).docs()[j]);
            }
        }
        let ghost docs = self.docs();
        let found2 = self.find_index(id);
        let mut res: Vec<CompletionItem> = Vec::new();
        if let Some(qi) = found2 {
            proof {
                self.lemma_index_unique(id@, qi as int);
            }
            let toks = self.files[qi].file.tokens();
            let ghost qtl = docs[qi as int].file.token_list();
            let mut t: usize = 0;
            while t < toks.len()
                invariant
                    self.wf(),
                    docs == self.docs(),
                    qi < docs.len(),
                    docs[qi as int].id@ == id@,
                    index_of_id(docs, id@) == qi as int,
                    toks@.map_values(|x: String| x@) == qtl,
                    qtl == docs[qi as int].file.token_list(),
                    t <= toks@.len(),
                    forall|k: int|
                        0 <= k < res@.len() ==> completion_item_ok(docs, id@, #[trigger] res@[k]),
                    forall|k: int| 0 <= k < res@.len() ==> qtl.contains((#[trigger] res@[k]).label@),
                    forall|t2: int| 0 <= t2 < t ==> has_label(res@, #[trigger] qtl[t2]),
                    forall|k1: int, k2: int|
                        0 <= k1 < k2 < res@.len() ==> (#[trigger] res@[k1]).label@
                            != (#[trigger] res@[k2]).label@,
                decreases toks@.len() - t,
            {
                let ghost res0 = res@;
                let present = contains_label(&res, &toks[t]);
                if !present {
                    res.push(CompletionItem { label: toks[t].clone(), detail: ".".to_owned() });
                    proof {
                        assert(forall|k: int| 0 <= k < res0.len() ==> res@[k] == #[trigger] res0[k]);
                        assert(res@[res0.len() as int].label@ == qtl[t as int]);
                        assert(qtl.contains(qtl[t as int]));
                        assert(completion_item_ok(docs, id@, res@[res0.len() as int]));
                    }
                }
                proof {
                    assert forall|t2: int| 0 <= t2 < t + 1 implies has_label(
                        res@,
                        #[trigger] qtl[t2],
                    ) by {
                        if t2 < t {
                            let k = choose|k: int|
                                0 <= k < res0.len() && (#[trigger] res0[k]).label@ == qtl[t2];
                            assert(res@[k].label@ == qtl[t2]);
                        } else {
                            if present {
                                let k = choose|k: int|
                                    0 <= k < res0.len() && (#[trigger] res0[k]).label@
                                        == toks@[t2]@;
                                assert(res@[k].label@ == qtl[t2]);
                            } else {
                                assert(res@[res0.len() as int].label@ == qtl[t2]);
                            }
                        }
                    }
                }
                t = t + 1;
            }
        }
        // the other documents, in workspace order
        let mut j: usize = 0;
        while j < self.files.len()
            invariant
                self.wf(),
                docs == self.docs(),
                j <= docs.len(),
                match found2 {
                    Some(qi) => qi < docs.len() && docs[qi as int].id@ == id@ && index_of_id(
                        docs,
                        id@,
                    ) == qi as int,
                    None => !has_id(docs, id@),
                },
                forall|k: int|
                    0 <= k < res@.len() ==> completion_item_ok(docs, id@, #[trigger] res@[k]),
                match found2 {
                    Some(qi) => forall|t2: int|
                        0 <= t2 < docs[qi as int].file.token_list().len() ==> has_label(
                            res@,
                            #[trigger] docs[qi as int].file.token_list()[t2],
                        ),
                    None => true,
                },
                forall|j2: int, t2: int|
                    0 <= j2 < j && (match found2 {
                        Some(qi) => j2 != qi as int,
                        None => true,
                    }) && 0 <= t2 < docs[j2].file.token_list().len() ==> has_label(
                        res@,
                        #[trigger] docs[j2].file.token_list()[t2],
                    ),
                forall|k1: int, k2: int|
                    0 <= k1 < k2 < res@.len() ==> (#[trigger] res@[k1]).label@
                        != (#[trigger] res@[k2]).label@,
                match found2 {
                    Some(qi) => forall|k1: int, k2: int|
                        0 <= k1 < k2 < res@.len() && !docs[qi as int].file.token_list().contains(
                            (#[trigger] res@[k1]).label@,
                        ) ==> !docs[qi as int].file.token_list().contains(
                            (#[trigger] res@[k2]).label@,
                        ),
                    None => true,
                },
            decreases docs.len() - j,
        {
            let skip = match found2 {
                Some(qi) => j == qi,
                None => false,
            };
            if !skip {
                let lbl = relative_label(self.files[j].id.as_str(), id.as_str());
                let toks = self.files[j].file.tokens();
                let ghost jtl = docs[j as int].file.token_list();
                let mut t: usize = 0;
                while t < toks.len()
                    invariant
                        self.wf(),
                        docs == self.docs(),
                        j < docs.len(),
                        match found2 {
                            Some(qi) => qi < docs.len() && docs[qi as int].id@ == id@
                                && index_of_id(docs, id@) == qi as int && j != qi,
                            None => !has_id(docs, id@),
                        },
                        lbl@ == relative_label_of(docs[j as int].id@, id@),
                        toks@.map_values(|x: String| x@) == jtl,
                        jtl == docs[j as int].file.token_list(),
                        t <= toks@.len(),
                        forall|k: int|
                            0 <= k < res@.len() ==> completion_item_ok(
                                docs,
                                id@,
                                #[trigger] res@[k],
                            ),
                        match found2 {
                            Some(qi) => forall|t2: int|
                                0 <= t2 < docs[qi as int].file.token_list().len() ==> has_label(
                                    res@,
                                    #[trigger] docs[qi as int].file.token_list()[t2],
                                ),
                            None => true,
                        },
                        forall|j2: int, t2: int|
                            0 <= j2 < j && (match found2 {
                                Some(qi) => j2 != qi as int,
                                None => true,
                            }) && 0 <= t2 < docs[j2].file.token_list().len() ==> has_label(
                                res@,
                                #[trigger] docs[j2].file.token_list()[t2],
                            ),
                        forall|t2: int| 0 <= t2 < t ==> has_label(res@, #[trigger] jtl[t2]),
                        forall|k1: int, k2: int|
                            0 <= k1 < k2 < res@.len() ==> (#[trigger] res@[k1]).label@
                                != (#[trigger] res@[k2]).label@,
                        match found2 {
                            Some(qi) => forall|k1: int, k2: int|
                                0 <= k1 < k2 < res@.len() && !docs[qi as int].file.token_list()
                                    .contains((#[trigger] res@[k1]).label@) ==> !docs[qi as int]
                                    .file.token_list().contains((#[trigger] res@[k2]).label@),
                            None => true,
                        },
                    decreases toks@.len() - t,
                {
                    let ghost res0 = res@;
                    let present = contains_label(&res, &toks[t]);
                    if !present {
                        res.push(CompletionItem { label: toks[t].clone(), detail: lbl.clone() });
                        proof {
                            let w = jtl[t as int];
                            assert(forall|k: int|
                                0 <= k < res0.len() ==> res@[k] == #[trigger] res0[k]);
                            assert(res@[res0.len() as int].label@ == w);
                            assert(res@[res0.len() as int].detail@ == relative_label_of(
                                docs[j as int].id@,
                                id@,
                            ));
                            // the queried document does not hold this token,
                            // else it would already be listed
                            match found2 {
                                Some(qiv) => {
                                    let qi = qiv as int;
                                    assert(!docs[qi].file.token_list().contains(w)) by {
                                        if docs[qi].file.token_list().contains(w) {
                                            let t2 = choose|t2: int|
                                                0 <= t2 < docs[qi].file.token_list().len()
                                                    && docs[qi].file.token_list()[t2] == w;
                                            assert(has_label(res0, w));
                                        }
                                    }
                                    assert(docs[j as int].id@ != id@);
                                },
                                None => {},
                            }
                            // nor does any earlier other document
                            assert forall|j2: int|
                                0 <= j2 < j && (#[trigger] docs[j2]).id@ != id@ implies !docs[j2]
                                .file.token_list().contains(w) by {
                                if docs[j2].file.token_list().contains(w) {
                                    let t2 = choose|t2: int|
                                        0 <= t2 < docs[j2].file.token_list().len()
                                            && docs[j2].file.token_list()[t2] == w;
                                    assert(match found2 {
                                        Some(qi) => j2 != qi as int,
                                        None => true,
                                    });
                                    assert(has_label(res0, w));
                                }
                            }
                            assert(jtl.contains(w));
                            assert(completion_item_ok(docs, id@, res@[res0.len() as int]));
                        }
                    }
                    proof {
                        assert forall|t2: int| 0 <= t2 < t + 1 implies has_label(
                            res@,
                            #[trigger] jtl[t2],
                        ) by {
                            if t2 < t {
                                let k = choose|k: int|
                                    0 <= k < res0.len() && (#[trigger] res0[k]).label@ == jtl[t2];
                                assert(res@[k].label@ == jtl[t2]);
                            } else {
                                if present {
                                    let k = choose|k: int|
                                        0 <= k < res0.len() && (#[trigger] res0[k]).label@
                                            == toks@[t2]@;
                                    assert(res@[k].label@ == jtl[t2]);
                                } else {
                                    assert(res@[res0.len() as int].label@ == jtl[t2]);
                                }
                            }
                        }
                    }
                    t = t + 1;
                }
            }
            j = j + 1;
        }
        res
    }
}

} // verus!
