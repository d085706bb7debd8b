//! The ingestion pipeline: segmenter, analyzer, store.
//!
//! One pass drives the segmenter over a byte stream. A unit that fails to
//! decode is skipped and the pass goes on; a tokenizer failure or malformed
//! analyzer output aborts the pass. The analyzer itself stands behind the
//! [`Tokenizer`] trait, of which nothing is assumed: every pledge below
//! holds whatever its implementation returns.

use crate::extract::extract_roots;
use crate::extract::roots_spec;
use crate::extract::ExtractError;
use crate::segment::lemma_ok_sentences_some;
use crate::segment::ok_sentences;
use crate::segment::sentence_of;
use crate::segment::sentences;
use crate::segment::units_of;
use crate::store::add_pairs_spec;
use crate::store::Store;
use vstd::prelude::*;

verus! {

/// The external morphological analyzer: hands back its raw line output for
/// one sentence, or nothing when it fails.
pub trait Tokenizer {
    fn tokenize(&mut self, sentence: &str) -> Option<String>;
}

/// A failure that aborts an ingestion pass.
#[derive(Debug, Clone, Copy, PartialEq, Eq, Structural)]
pub enum IngestError {
    /// The tokenizer returned nothing for a sentence.
    Tokenizer,
    /// The tokenizer's output could not be read.
    Extract(ExtractError),
    /// The store cannot take another sentence id.
    StoreFull,
}

/// Ingest one already-segmented sentence: parse the analyzer output into
/// word roots, then store the sentence and one membership per root. On a
/// failure the store is left untouched.
pub fn consume_trimmed(store: &mut Store, sentence: &str, analysis: &str) -> (r: Result<
    u32,
    ExtractError,
>)
    requires
        old(store).wf(),
        old(store).texts().len() < 0xFFFF_FFFF,
    ensures
        final(store).wf(),
        match roots_spec(analysis@) {
            None => r == Result::<u32, ExtractError>::Err(ExtractError::MalformedLine)
                && *final(store) == *old(store),
            Some(roots) => if roots.len() == 0 {
                r == Result::<u32, ExtractError>::Err(ExtractError::NoTokens)
                    && *final(store) == *old(store)
            } else {
                &&& r == Result::<u32, ExtractError>::Ok(old(store).texts().len() as u32)
                &&& final(store).texts() == old(store).texts().push(sentence@)
                &&& final(store).pairs_model() == add_pairs_spec(
                    old(store).pairs_model(),
                    roots,
                    old(store).texts().len() as int,
                )
            },
        },
{
    let roots = match extract_roots(analysis) {
        Err(e) => {
            return Err(e);
        },
        Ok(roots) => roots,
    };
    let ghost pre = *store;
    let ghost rv = roots@.map_values(|t: String| t@);
    let id = store.add_sentence(sentence);
    let n = roots.len();
    let mut j: usize = 0;
    while j < n
        invariant
            j <= n,
            n == roots@.len(),
            rv == roots@.map_values(|t: String| t@),
            pre.wf(),
            pre.texts().len() < 0xFFFF_FFFF,
            id == pre.texts().len() as u32,
            store.wf(),
            store.texts() == pre.texts().push(sentence@),
            store.pairs_model() == add_pairs_spec(pre.pairs_model(), rv.take(j as int), id as int),
        decreases n - j,
    {
        proof {
            assert(rv.take(j + 1).drop_last() =~= rv.take(j as int));
            assert(rv.take(j + 1).last() == rv[j as int]);
        }
        let word = &roots[j];
        store.insert_pair(word.as_str(), id);
        j = j + 1;
    }
    proof {
        assert(rv.take(n as int) =~= rv);
    }
    Ok(id)
}

/// What one ingestion pass does to the store's texts and membership pairs,
/// and what it returns, given the analyzer's response to each decoded
/// sentence: `rs[0]` answers the first unit that decodes (`None` for a
/// tokenizer failure), and so on; a missing entry counts as a failure. Unit
/// by unit: one that does not decode is skipped and the pass goes on; for
/// one that decodes, the pass stops with `StoreFull` when no id is left,
/// with `Tokenizer` when the analyzer fails, with the matching `Extract`
/// error when its output is refused, and otherwise ingests the sentence
/// exactly as `consume_trimmed` does and moves to the next unit. Units
/// after a failure are not touched; an exhausted stream ends the pass with
/// `Ok`.
pub open spec fn pass_spec(
    texts: Seq<Seq<char>>,
    pairs: Seq<(Seq<char>, int)>,
    us: Seq<Seq<u8>>,
    rs: Seq<Option<Seq<char>>>,
) -> (Seq<Seq<char>>, Seq<(Seq<char>, int)>, Result<(), IngestError>)
    decreases us.len(),
{
    if us.len() == 0 {
        (texts, pairs, Result::<(), IngestError>::Ok(()))
    } else {
        match sentence_of(us[0]) {
            None => pass_spec(texts, pairs, us.drop_first(), rs),
            Some(t) => {
                if texts.len() >= 0xFFFF_FFFE {
                    (texts, pairs, Result::<(), IngestError>::Err(IngestError::StoreFull))
                } else {
                    let a = if rs.len() > 0 {
                        rs[0]
                    } else {
                        None
                    };
                    let rest = if rs.len() > 0 {
                        rs.drop_first()
                    } else {
                        rs
                    };
                    match a {
                        None => (
                            texts,
                            pairs,
                            Result::<(), IngestError>::Err(IngestError::Tokenizer),
                        ),
                        Some(analysis) => match roots_spec(analysis) {
                            None => (
                                texts,
                                pairs,
                                Result::<(), IngestError>::Err(
                                    IngestError::Extract(ExtractError::MalformedLine),
                                ),
                            ),
                            Some(roots) => if roots.len() == 0 {
                                (
                                    texts,
                                    pairs,
                                    Result::<(), IngestError>::Err(
                                        IngestError::Extract(ExtractError::NoTokens),
                                    ),
                                )
                            } else {
                                pass_spec(
                                    texts.push(t),
                                    add_pairs_spec(pairs, roots, texts.len() as int),
                                    us.drop_first(),
                                    rest,
                                )
                            },
                        },
                    }
                }
            },
        }
    }
}

/// Drive one ingestion pass: segment the byte stream, skip units that do
/// not decode, and ingest every decoded sentence. The analyzer alone is
/// outside the contract: there is a sequence of per-sentence analyzer
/// responses under which the final store and the result are exactly what
/// `pass_spec` says — so decode errors are skipped, every ingested unit is
/// taken in stream order with `consume_trimmed`'s effect, the pass stops at
/// the first failing unit with the error named for its cause, and a pass
/// whose units all decode and ingest returns `Ok`. In particular a stream
/// with no decodable unit always succeeds and leaves the store as it was.
pub fn consume_sentences<T: Tokenizer>(store: &mut Store, bytes: Vec<u8>, tok: &mut T) -> (r:
    Result<(), IngestError>)
    requires
        old(store).wf(),
    ensures
        final(store).wf(),
        exists|rs: Seq<Option<Seq<char>>>|
            {
                let o = #[trigger] pass_spec(
                    old(store).texts(),
                    old(store).pairs_model(),
                    units_of(bytes@),
                    rs,
                );
                final(store).texts() == o.0 && final(store).pairs_model() == o.1 && r == o.2
            },
        ok_sentences(units_of(bytes@)).len() == 0 ==> r is Ok && *final(store) == *old(store),
        r == Result::<(), IngestError>::Err(IngestError::StoreFull)
            ==> final(store).texts().len() >= 0xFFFF_FFFE,
        exists|k: int|
            0 <= k <= units_of(bytes@).len() && final(store).texts() == old(store).texts()
                + ok_sentences(#[trigger] units_of(bytes@).take(k)),
        r is Ok ==> final(store).texts() == old(store).texts() + ok_sentences(units_of(bytes@)),
{
    let ghost pre = *store;
    let ghost us = units_of(bytes@);
    let mut it = sentences(bytes);
    let ghost mut i: int = 0;
    let ghost mut rs_done: Seq<Option<Seq<char>>> = Seq::empty();
    proof {
        assert forall|rest: Seq<Option<Seq<char>>>|
            #[trigger] pass_spec(pre.texts(), pre.pairs_model(), us, rs_done + rest) == pass_spec(
                store.texts(),
                store.pairs_model(),
                us.skip(0),
                rest,
            ) by {
            assert(rs_done + rest =~= rest);
            assert(us.skip(0) =~= us);
        }
    }
    loop
        invariant
            pre == *old(store),
            us == units_of(bytes@),
            0 <= i <= us.len(),
            it.wf(),
            it.remaining_units() == us.skip(i),
            store.wf(),
            store.texts() == pre.texts() + ok_sentences(us.take(i)),
            ok_sentences(us).len() == 0 ==> *store == pre,
            forall|rest: Seq<Option<Seq<char>>>|
                #[trigger] pass_spec(pre.texts(), pre.pairs_model(), us, rs_done + rest)
                    == pass_spec(store.texts(), store.pairs_model(), us.skip(i), rest),
        decreases it.remaining_units().len(),
    {
        let ghost cur_t = store.texts();
        let ghost cur_p = store.pairs_model();
        proof {
            if i < us.len() {
                assert(us.take(i + 1).drop_last() =~= us.take(i));
                assert(us.take(i + 1).last() == us[i]);
                assert(us.skip(i)[0] == us[i]);
                assert(us.skip(i).drop_first() =~= us.skip(i + 1));
            }
        }
        match it.next() {
            None => {
                proof {
                    assert(us.skip(i).len() == 0);
                    assert(us.take(i) =~= us);
                    assert(rs_done + Seq::<Option<Seq<char>>>::empty() =~= rs_done);
                    assert(pass_spec(pre.texts(), pre.pairs_model(), us, rs_done) == (
                        cur_t,
                        cur_p,
                        Result::<(), IngestError>::Ok(()),
                    ));
                }
                return Ok(());
            },
            Some(Err(_)) => {
                // A unit that was not valid UTF-8: report-and-skip is the
                // caller's part; the pass goes on with the next unit. It
                // adds no sentence and needs no analyzer response.
                proof {
                    assert forall|rest: Seq<Option<Seq<char>>>|
                        #[trigger] pass_spec(pre.texts(), pre.pairs_model(), us, rs_done + rest)
                            == pass_spec(
                            store.texts(),
                            store.pairs_model(),
                            us.skip(i + 1),
                            rest,
                        ) by {
                        assert(pass_spec(pre.texts(), pre.pairs_model(), us, rs_done + rest)
                            == pass_spec(cur_t, cur_p, us.skip(i), rest));
                    }
                    i = i + 1;
                }
            },
            Some(Ok(sentence)) => {
                if store.sentence_count() >= 0xFFFF_FFFEusize {
                    proof {
                        lemma_ok_sentences_some(us, i);
                        assert(rs_done + Seq::<Option<Seq<char>>>::empty() =~= rs_done);
                        assert(pass_spec(pre.texts(), pre.pairs_model(), us, rs_done) == (
                            cur_t,
                            cur_p,
                            Result::<(), IngestError>::Err(IngestError::StoreFull),
                        ));
                    }
                    return Err(IngestError::StoreFull);
                }
                let analysis = match tok.tokenize(sentence.as_str()) {
                    None => {
                        proof {
                            lemma_ok_sentences_some(us, i);
                            assert(rs_done + Seq::<Option<Seq<char>>>::empty() =~= rs_done);
                            assert(pass_spec(pre.texts(), pre.pairs_model(), us, rs_done) == (
                                cur_t,
                                cur_p,
                                Result::<(), IngestError>::Err(IngestError::Tokenizer),
                            ));
                        }
                        return Err(IngestError::Tokenizer);
                    },
                    Some(a) => a,
                };
                match consume_trimmed(store, sentence.as_str(), analysis.as_str()) {
                    Ok(_) => {
                        proof {
                            lemma_ok_sentences_some(us, i);
                            assert(store.texts() =~= pre.texts() + ok_sentences(us.take(i + 1)));
                            let e = Some(analysis@);
                            assert forall|rest: Seq<Option<Seq<char>>>|
                                #[trigger] pass_spec(
                                    pre.texts(),
                                    pre.pairs_model(),
                                    us,
                                    rs_done.push(e) + rest,
                                ) == pass_spec(
                                    store.texts(),
                                    store.pairs_model(),
                                    us.skip(i + 1),
                                    rest,
                                ) by {
                                assert(rs_done.push(e) + rest =~= rs_done + (seq![e] + rest));
                                assert(pass_spec(
                                    pre.texts(),
                                    pre.pairs_model(),
                                    us,
                                    rs_done + (seq![e] + rest),
                                ) == pass_spec(cur_t, cur_p, us.skip(i), seq![e] + rest));
                                assert((seq![e] + rest).drop_first() =~= rest);
                            }
                            rs_done = rs_done.push(e);
                            i = i + 1;
                        }
                    },
                    Err(err) => {
                        proof {
                            lemma_ok_sentences_some(us, i);
                            let e = Some(analysis@);
                            assert(rs_done.push(e) =~= rs_done + seq![e]);
                            assert(pass_spec(pre.texts(), pre.pairs_model(), us, rs_done + seq![e])
                                == pass_spec(cur_t, cur_p, us.skip(i), seq![e]));
                            assert((seq![e] + Seq::<Option<Seq<char>>>::empty()) =~= seq![e]);
                            assert(pass_spec(cur_t, cur_p, us.skip(i), seq![e]) == (
                                cur_t,
                                cur_p,
                                Result::<(), IngestError>::Err(IngestError::Extract(err)),
                            ));
                        }
                        return Err(IngestError::Extract(err));
                    },
                }
            },
        }
    }
}

} // verus!
