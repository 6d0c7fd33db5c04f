//! The results of a search, as contracts see them.

use vstd::prelude::*;
use crate::indexing::input_document::DocumentView;

verus! {

/// One result of a search: a document's name and how often the query occurs in it.
pub struct Hit {
    pub name: Seq<char>,
    pub frequency: nat,
}

/// The result that a pair of a name and a count stands for.
pub open spec fn hit_view(hit: (String, u64)) -> Hit {
    Hit { name: hit.0@, frequency: hit.1 as nat }
}

/// The results that a vector of such pairs stands for.
pub open spec fn hits_view(hits: Seq<(String, u64)>) -> Seq<Hit> {
    Seq::new(hits.len(), |i: int| hit_view(hits[i]))
}

/// The documents of `corpus` in which `frequency` finds something, each with
/// what it finds there, in the order of the corpus.
pub open spec fn hits_by(corpus: Seq<DocumentView>, frequency: spec_fn(Seq<char>) -> nat) -> Seq<
    Hit,
>
    decreases corpus.len(),
{
    if corpus.len() == 0 {
        Seq::empty()
    } else {
        let earlier = hits_by(corpus.drop_last(), frequency);
        let found = frequency(corpus.last().contents);
        if found > 0 {
            earlier.push(Hit { name: corpus.last().name, frequency: found })
        } else {
            earlier
        }
    }
}

/// The names of the documents that hits speak of, in the order of the hits.
pub open spec fn hit_names(hits: Seq<Hit>) -> Seq<Seq<char>> {
    Seq::new(hits.len(), |i: int| hits[i].name)
}

/// The hits are the documents in which something is found, in the order in
/// which the corpus holds them, each with what is found in it.
pub proof fn lemma_hits_by_keeps_corpus_order(
    corpus: Seq<DocumentView>,
    frequency: spec_fn(Seq<char>) -> nat,
)
    ensures
        hits_by(corpus, frequency) == corpus.filter(
            |doc: DocumentView| frequency(doc.contents) > 0,
        ).map_values(|doc: DocumentView| Hit { name: doc.name, frequency: frequency(doc.contents) }),
    decreases corpus.len(),
{
    let found = |doc: DocumentView| frequency(doc.contents) > 0;
    let as_hit = |doc: DocumentView| Hit { name: doc.name, frequency: frequency(doc.contents) };
    reveal(Seq::filter);
    if corpus.len() == 0 {
        assert(hits_by(corpus, frequency) == corpus.filter(found).map_values(as_hit));
    } else {
        lemma_hits_by_keeps_corpus_order(corpus.drop_last(), frequency);
        let earlier = corpus.drop_last().filter(found);
        if found(corpus.last()) {
            assert(earlier.push(corpus.last()).map_values(as_hit) == earlier.map_values(
                as_hit,
            ).push(as_hit(corpus.last())));
        }
    }
}

/// Where one way of counting finds something only in documents in which
/// another finds something too, each hit of the first names a document that
/// the second also hits.
pub proof fn lemma_hits_by_names_within(
    corpus: Seq<DocumentView>,
    first: spec_fn(Seq<char>) -> nat,
    second: spec_fn(Seq<char>) -> nat,
)
    requires
        forall|i: int|
            0 <= i < corpus.len() && first(#[trigger] corpus[i].contents) > 0 ==> second(
                corpus[i].contents,
            ) > 0,
    ensures
        forall|k: int|
            0 <= k < hits_by(corpus, first).len() ==> hit_names(hits_by(corpus, second)).contains(
                #[trigger] hits_by(corpus, first)[k].name,
            ),
    decreases corpus.len(),
{
    if corpus.len() > 0 {
        let shorter = corpus.drop_last();
        assert forall|i: int|
            0 <= i < shorter.len() && first(#[trigger] shorter[i].contents) > 0 implies second(
            shorter[i].contents,
        ) > 0 by {
            assert(shorter[i] == corpus[i]);
        }
        lemma_hits_by_names_within(shorter, first, second);
        let hits = hits_by(corpus, first);
        let others = hit_names(hits_by(corpus, second));
        let earlier = hit_names(hits_by(shorter, second));
        assert forall|k: int| 0 <= k < hits.len() implies others.contains(
            #[trigger] hits[k].name,
        ) by {
            if k < hits_by(shorter, first).len() {
                assert(hits[k] == hits_by(shorter, first)[k]);
                let j = choose|j: int| 0 <= j < earlier.len() && earlier[j] == hits[k].name;
                assert(others[j] == hits[k].name);
            } else {
                assert(corpus.last() == corpus[corpus.len() - 1]);
                assert(others[others.len() - 1] == hits[k].name);
            }
        }
    }
}

/// Where two ways of counting find something in the same documents, their
/// hits name the same documents in the same order.
pub proof fn lemma_hits_by_names_agree(
    corpus: Seq<DocumentView>,
    first: spec_fn(Seq<char>) -> nat,
    second: spec_fn(Seq<char>) -> nat,
)
    requires
        forall|i: int|
            0 <= i < corpus.len() ==> (first(#[trigger] corpus[i].contents) > 0 <==> second(
                corpus[i].contents,
            ) > 0),
    ensures
        hit_names(hits_by(corpus, first)) == hit_names(hits_by(corpus, second)),
    decreases corpus.len(),
{
    if corpus.len() > 0 {
        let shorter = corpus.drop_last();
        assert forall|i: int| 0 <= i < shorter.len() implies (first(
            #[trigger] shorter[i].contents,
        ) > 0 <==> second(shorter[i].contents) > 0) by {
            assert(shorter[i] == corpus[i]);
        }
        lemma_hits_by_names_agree(shorter, first, second);
        assert(corpus.last() == corpus[corpus.len() - 1]);
        let a = hits_by(shorter, first);
        let b = hits_by(shorter, second);
        if first(corpus.last().contents) > 0 {
            let x = Hit { name: corpus.last().name, frequency: first(corpus.last().contents) };
            let y = Hit { name: corpus.last().name, frequency: second(corpus.last().contents) };
            assert(hit_names(a.push(x)) == hit_names(a).push(x.name));
            assert(hit_names(b.push(y)) == hit_names(b).push(y.name));
        }
    }
}

} // verus!
