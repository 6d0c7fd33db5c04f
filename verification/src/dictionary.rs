//! A dictionary of terms: entries in the order of their terms, each with the
//! postings of its term.

use vstd::prelude::*;
use crate::text::to_text;

verus! {

/// The dictionary order on terms: `a` stands before `b` where `a` is a proper
/// prefix of `b`, or where the first character in which they differ is the
/// lower one in `a`.
pub open spec fn term_before(a: Seq<char>, b: Seq<char>) -> bool
    decreases a.len(),
{
    if b.len() == 0 {
        false
    } else if a.len() == 0 {
        true
    } else if a[0] != b[0] {
        a[0] < b[0]
    } else {
        term_before(a.skip(1), b.skip(1))
    }
}

/// No term stands before itself.
pub proof fn lemma_term_before_irreflexive(a: Seq<char>)
    ensures
        !term_before(a, a),
    decreases a.len(),
{
    if a.len() > 0 {
        lemma_term_before_irreflexive(a.skip(1));
    }
}

/// The dictionary order is transitive.
pub proof fn lemma_term_before_transitive(a: Seq<char>, b: Seq<char>, c: Seq<char>)
    requires
        term_before(a, b),
        term_before(b, c),
    ensures
        term_before(a, c),
    decreases a.len(),
{
    if a.len() > 0 && a[0] == b[0] && b[0] == c[0] {
        lemma_term_before_transitive(a.skip(1), b.skip(1), c.skip(1));
    }
}

/// How one term stands to another in the dictionary order.
#[derive(Clone, Copy, Debug, PartialEq, Eq, Structural)]
pub enum TermOrder {
    Before,
    Same,
    After,
}

/// Compares two terms in the dictionary order.
pub fn term_order(a: &Vec<char>, b: &Vec<char>) -> (order: TermOrder)
    ensures
        order == TermOrder::Before <==> term_before(a@, b@),
        order == TermOrder::Same <==> a@ == b@,
        order == TermOrder::After <==> term_before(b@, a@),
{
    let mut i: usize = 0;
    assert(a@.skip(0) == a@ && b@.skip(0) == b@);
    while i < a.len() && i < b.len()
        invariant
            i <= a.len(),
            i <= b.len(),
            a@.take(i as int) == b@.take(i as int),
            term_before(a@, b@) == term_before(a@.skip(i as int), b@.skip(i as int)),
            term_before(b@, a@) == term_before(b@.skip(i as int), a@.skip(i as int)),
        decreases a.len() - i,
    {
        if a[i] != b[i] {
            proof {
                let rest_a = a@.skip(i as int);
                let rest_b = b@.skip(i as int);
                assert(rest_a[0] == a@[i as int] && rest_b[0] == b@[i as int]);
                assert(a@.take(i + 1)[i as int] != b@.take(i + 1)[i as int]);
            }
            let less = a[i] < b[i];
            proof {
                let rest_a = a@.skip(i as int);
                let rest_b = b@.skip(i as int);
                assert(term_before(rest_a, rest_b) == less);
                assert(term_before(rest_b, rest_a) == !less);
            }
            if less {
                return TermOrder::Before;
            } else {
                return TermOrder::After;
            }
        }
        assert(a@[i as int] == b@[i as int]);
        assert(a@.skip(i as int).skip(1) == a@.skip(i + 1));
        assert(b@.skip(i as int).skip(1) == b@.skip(i + 1));
        assert(a@.take(i + 1) == a@.take(i as int).push(a@[i as int]));
        assert(b@.take(i + 1) == b@.take(i as int).push(b@[i as int]));
        i += 1;
    }
    if i < b.len() {
        assert(a@.len() != b@.len());
        TermOrder::Before
    } else if i < a.len() {
        assert(a@.len() != b@.len());
        TermOrder::After
    } else {
        assert(a@ == a@.take(i as int));
        assert(b@ == b@.take(i as int));
        TermOrder::Same
    }
}

/// One entry of a term's list: a document, by its place in the corpus, and the
/// number of times the term occurs in it.
pub struct Posting {
    pub document: nat,
    pub frequency: nat,
}

/// A posting as the dictionary stores it.
pub struct StoredPosting {
    pub document: usize,
    pub frequency: u64,
}

/// A term with its list of postings.
struct TermEntry {
    term: Vec<char>,
    postings: Vec<StoredPosting>,
}

/// The posting that a stored posting stands for.
pub open spec fn posting_view(posting: StoredPosting) -> Posting {
    Posting { document: posting.document as nat, frequency: posting.frequency as nat }
}

/// The postings that stored postings stand for.
pub open spec fn postings_view(postings: Seq<StoredPosting>) -> Seq<Posting> {
    Seq::new(postings.len(), |k: int| posting_view(postings[k]))
}

/// The entries stand in the dictionary order of their terms, so no term has two.
spec fn is_sorted(entries: Seq<TermEntry>) -> bool {
    forall|i: int, j: int|
        0 <= i < j < entries.len() ==> term_before(
            (#[trigger] entries[i]).term@,
            (#[trigger] entries[j]).term@,
        )
}

/// Every entry has at least one posting.
spec fn is_filled(entries: Seq<TermEntry>) -> bool {
    forall|i: int| 0 <= i < entries.len() ==> (#[trigger] entries[i]).postings.len() > 0
}

/// The entry at `i` is that of `term`.
spec fn holds(entries: Seq<TermEntry>, i: int, term: Seq<char>) -> bool {
    0 <= i < entries.len() && entries[i].term@ == term
}

/// Some entry is that of `term`.
spec fn lists(entries: Seq<TermEntry>, term: Seq<char>) -> bool {
    exists|i: int| holds(entries, i, term)
}

/// Where the entry of a listed term stands.
spec fn slot_of(entries: Seq<TermEntry>, term: Seq<char>) -> int {
    choose|i: int| holds(entries, i, term)
}

/// The postings that the entries hold for `term`: none where it is not listed.
spec fn stored_postings(entries: Seq<TermEntry>, term: Seq<char>) -> Seq<Posting> {
    if lists(entries, term) {
        postings_view(entries[slot_of(entries, term)].postings@)
    } else {
        Seq::empty()
    }
}

/// In sorted entries a term is listed at one place only.
proof fn lemma_slot_is_unique(entries: Seq<TermEntry>, i: int)
    requires
        is_sorted(entries),
        0 <= i < entries.len(),
    ensures
        lists(entries, entries[i].term@),
        slot_of(entries, entries[i].term@) == i,
        stored_postings(entries, entries[i].term@) == postings_view(entries[i].postings@),
{
    let term = entries[i].term@;
    assert(holds(entries, i, term));
    let j = slot_of(entries, term);
    assert(holds(entries, j, term));
    lemma_term_before_irreflexive(term);
    if j < i {
        assert(term_before(entries[j].term@, entries[i].term@));
    } else if i < j {
        assert(term_before(entries[i].term@, entries[j].term@));
    }
}

/// Finds the place of `term` among sorted entries: whether it is listed, and
/// the position at which it stands or at which it would have to enter.
fn locate(entries: &Vec<TermEntry>, term: &Vec<char>) -> (place: (bool, usize))
    requires
        is_sorted(entries@),
    ensures
        place.1 <= entries.len(),
        place.0 ==> holds(entries@, place.1 as int, term@),
        !place.0 ==> forall|i: int|
            0 <= i < place.1 ==> term_before((#[trigger] entries[i]).term@, term@),
        !place.0 ==> forall|i: int|
            place.1 <= i < entries.len() ==> term_before(term@, (#[trigger] entries[i]).term@),
{
    let mut low: usize = 0;
    let mut high: usize = entries.len();
    while low < high
        invariant
            low <= high <= entries.len(),
            is_sorted(entries@),
            forall|i: int| 0 <= i < low ==> term_before((#[trigger] entries[i]).term@, term@),
            forall|i: int|
                high <= i < entries.len() ==> term_before(term@, (#[trigger] entries[i]).term@),
        decreases high - low,
    {
        let mid = low + (high - low) / 2;
        match term_order(&entries[mid].term, term) {
            TermOrder::Same => {
                return (true, mid);
            },
            TermOrder::Before => {
                assert forall|i: int| 0 <= i < mid + 1 implies term_before(
                    (#[trigger] entries[i]).term@,
                    term@,
                ) by {
                    if i < mid {
                        assert(term_before(entries[i].term@, entries[mid as int].term@));
                        lemma_term_before_transitive(
                            entries[i].term@,
                            entries[mid as int].term@,
                            term@,
                        );
                    }
                }
                low = mid + 1;
            },
            TermOrder::After => {
                assert forall|i: int| mid <= i < entries.len() implies term_before(
                    term@,
                    (#[trigger] entries[i]).term@,
                ) by {
                    if mid < i {
                        assert(term_before(entries[mid as int].term@, entries[i].term@));
                        lemma_term_before_transitive(
                            term@,
                            entries[mid as int].term@,
                            entries[i].term@,
                        );
                    }
                }
                high = mid;
            },
        }
    }
    (false, low)
}

/// A term's postings after one more occurrence of it in `document` is
/// recorded: the count of its last posting grows where that posting is the
/// document's, and a posting with count 1 is added where it is not.
pub open spec fn record(postings: Seq<Posting>, document: nat) -> Seq<Posting> {
    if postings.len() > 0 && postings.last().document == document {
        postings.drop_last().push(
            Posting { document, frequency: postings.last().frequency + 1 },
        )
    } else {
        postings.push(Posting { document, frequency: 1 })
    }
}

/// Where the entries keep their terms and all postings but those of one entry,
/// they stay sorted and hold for every other term what they held.
proof fn lemma_change_at(before: Seq<TermEntry>, after: Seq<TermEntry>, at: int)
    requires
        is_sorted(before),
        0 <= at < before.len(),
        after.len() == before.len(),
        forall|j: int| 0 <= j < before.len() ==> (#[trigger] after[j]).term@ == before[j].term@,
        forall|j: int|
            0 <= j < before.len() && j != at ==> (#[trigger] after[j]).postings@
                == before[j].postings@,
    ensures
        is_sorted(after),
        forall|other: Seq<char>|
            other != before[at].term@ ==> #[trigger] stored_postings(after, other)
                == stored_postings(before, other),
{
    assert forall|i: int, j: int| 0 <= i < j < after.len() implies term_before(
        (#[trigger] after[i]).term@,
        (#[trigger] after[j]).term@,
    ) by {
        assert(term_before(before[i].term@, before[j].term@));
    }
    assert forall|other: Seq<char>| other != before[at].term@ implies #[trigger] stored_postings(
        after,
        other,
    ) == stored_postings(before, other) by {
        if lists(before, other) {
            let j = slot_of(before, other);
            assert(holds(before, j, other));
            lemma_slot_is_unique(before, j);
            assert(after[j].term@ == other);
            lemma_slot_is_unique(after, j);
        } else if lists(after, other) {
            let j = slot_of(after, other);
            assert(holds(after, j, other));
            assert(holds(before, j, other));
        }
    }
}

/// Where an entry enters sorted entries at the place of its term, they stay
/// sorted, hold its postings for its term, and for every other term what
/// they held.
proof fn lemma_enter_at(before: Seq<TermEntry>, at: int, entry: TermEntry)
    requires
        is_sorted(before),
        0 <= at <= before.len(),
        forall|i: int| 0 <= i < at ==> term_before((#[trigger] before[i]).term@, entry.term@),
        forall|i: int|
            at <= i < before.len() ==> term_before(entry.term@, (#[trigger] before[i]).term@),
    ensures
        is_sorted(before.insert(at, entry)),
        !lists(before, entry.term@),
        stored_postings(before.insert(at, entry), entry.term@) == postings_view(entry.postings@),
        forall|other: Seq<char>|
            other != entry.term@ ==> #[trigger] stored_postings(before.insert(at, entry), other)
                == stored_postings(before, other),
{
    let after = before.insert(at, entry);
    lemma_term_before_irreflexive(entry.term@);
    assert forall|i: int, j: int| 0 <= i < j < after.len() implies term_before(
        (#[trigger] after[i]).term@,
        (#[trigger] after[j]).term@,
    ) by {
        if j < at {
            assert(term_before(before[i].term@, before[j].term@));
        } else if j == at {
            assert(after[i] == before[i]);
        } else if i < at {
            assert(after[i] == before[i] && after[j] == before[j - 1]);
            if at < j - 1 || i < j - 1 {
                assert(term_before(before[i].term@, before[j - 1].term@));
            }
        } else if i == at {
            assert(after[j] == before[j - 1]);
        } else {
            assert(after[i] == before[i - 1] && after[j] == before[j - 1]);
            assert(term_before(before[i - 1].term@, before[j - 1].term@));
        }
    }
    if lists(before, entry.term@) {
        let j = slot_of(before, entry.term@);
        assert(holds(before, j, entry.term@));
    }
    assert(after[at] == entry);
    lemma_slot_is_unique(after, at);
    assert forall|other: Seq<char>| other != entry.term@ implies #[trigger] stored_postings(
        after,
        other,
    ) == stored_postings(before, other) by {
        if lists(before, other) {
            let j = slot_of(before, other);
            assert(holds(before, j, other));
            lemma_slot_is_unique(before, j);
            let k = if j < at {
                j
            } else {
                j + 1
            };
            assert(after[k] == before[j]);
            lemma_slot_is_unique(after, k);
        } else if lists(after, other) {
            let k = slot_of(after, other);
            assert(holds(after, k, other));
            let j = if k < at {
                k
            } else {
                k - 1
            };
            assert(after[k] == before[j]);
            assert(holds(before, j, other));
        }
    }
}

/// Records one more occurrence of `term` in `document` among sorted entries.
fn enter_occurrence(entries: &mut Vec<TermEntry>, term: Vec<char>, document: usize)
    requires
        is_sorted(old(entries)@),
        is_filled(old(entries)@),
        stored_postings(old(entries)@, term@).len() > 0 && stored_postings(
            old(entries)@,
            term@,
        ).last().document == document ==> stored_postings(old(entries)@, term@).last().frequency
            < u64::MAX,
    ensures
        is_sorted(final(entries)@),
        is_filled(final(entries)@),
        stored_postings(final(entries)@, term@) == record(
            stored_postings(old(entries)@, term@),
            document as nat,
        ),
        forall|other: Seq<char>|
            other != term@ ==> #[trigger] stored_postings(final(entries)@, other)
                == stored_postings(old(entries)@, other),
{
    let ghost before = entries@;
    let place = locate(entries, &term);
    let at = place.1;
    if place.0 {
        proof {
            lemma_slot_is_unique(before, at as int);
        }
        let last = entries[at].postings.len() - 1;
        if entries[at].postings[last].document == document {
            entries[at].postings[last].frequency += 1;
        } else {
            entries[at].postings.push(StoredPosting { document, frequency: 1 });
        }
        proof {
            lemma_change_at(before, entries@, at as int);
            lemma_slot_is_unique(entries@, at as int);
            assert(postings_view(entries@[at as int].postings@) == record(
                postings_view(before[at as int].postings@),
                document as nat,
            ));
        }
    } else {
        let mut postings: Vec<StoredPosting> = Vec::new();
        postings.push(StoredPosting { document, frequency: 1 });
        let entry = TermEntry { term, postings };
        proof {
            lemma_enter_at(before, at as int, entry);
            assert(postings_view(entry.postings@) == record(
                Seq::<Posting>::empty(),
                document as nat,
            ));
        }
        entries.insert(at, entry);
    }
}

/// A dictionary of terms: for each term that it lists, the postings of the
/// term. The terms are kept in their order, so that one is found by halving.
pub struct TermDictionary {
    entries: Vec<TermEntry>,
}

impl TermDictionary {
    /// The terms stand in their order, and each has postings.
    pub closed spec fn wf(&self) -> bool {
        is_sorted(self.entries@) && is_filled(self.entries@)
    }

    /// The postings that the dictionary holds for `term`: none for a term that
    /// it does not list.
    pub closed spec fn postings(&self, term: Seq<char>) -> Seq<Posting> {
        stored_postings(self.entries@, term)
    }

    /// A dictionary that lists no term.
    pub fn new() -> (dictionary: TermDictionary)
        ensures
            dictionary.wf(),
            forall|term: Seq<char>| #[trigger] dictionary.postings(term) == Seq::<Posting>::empty(),
    {
        let dictionary = TermDictionary { entries: Vec::new() };
        assert forall|term: Seq<char>| #[trigger]
            dictionary.postings(term) == Seq::<Posting>::empty() by {
            if lists(dictionary.entries@, term) {
                assert(holds(dictionary.entries@, slot_of(dictionary.entries@, term), term));
            }
        }
        dictionary
    }

    /// Records one more occurrence of `term` in `document`. Occurrences are
    /// recorded document after document; the count of a term in one document
    /// must leave room for one more.
    pub fn add_occurrence(&mut self, term: Vec<char>, document: usize)
        requires
            old(self).wf(),
            old(self).postings(term@).len() > 0 && old(self).postings(term@).last().document
                == document ==> old(self).postings(term@).last().frequency < u64::MAX,
        ensures
            final(self).wf(),
            final(self).postings(term@) == record(old(self).postings(term@), document as nat),
            forall|other: Seq<char>|
                other != term@ ==> #[trigger] final(self).postings(other) == old(self).postings(
                    other,
                ),
    {
        enter_occurrence(&mut self.entries, term, document);
    }

    /// The postings of `term`, where the dictionary lists it.
    pub fn lookup(&self, term: &Vec<char>) -> (found: Option<&Vec<StoredPosting>>)
        requires
            self.wf(),
        ensures
            match found {
                Some(postings) => postings.len() > 0 && postings_view(postings@) == self.postings(
                    term@,
                ),
                None => self.postings(term@).len() == 0,
            },
    {
        let place = locate(&self.entries, term);
        if place.0 {
            proof {
                lemma_slot_is_unique(self.entries@, place.1 as int);
            }
            Some(&self.entries[place.1].postings)
        } else {
            proof {
                lemma_term_before_irreflexive(term@);
                if lists(self.entries@, term@) {
                    assert(holds(self.entries@, slot_of(self.entries@, term@), term@));
                }
            }
            None
        }
    }

    /// The terms that the dictionary lists, each once, in the dictionary order.
    pub fn terms(&self) -> (terms: Vec<String>)
        requires
            self.wf(),
        ensures
            forall|i: int, j: int|
                0 <= i < j < terms.len() ==> term_before(
                    (#[trigger] terms[i])@,
                    (#[trigger] terms[j])@,
                ),
            forall|term: Seq<char>|
                (exists|i: int| 0 <= i < terms.len() && (#[trigger] terms[i])@ == term)
                    <==> self.postings(term).len() > 0,
    {
        let mut terms: Vec<String> = Vec::new();
        let mut i: usize = 0;
        while i < self.entries.len()
            invariant
                i <= self.entries.len(),
                terms.len() == i,
                forall|j: int| 0 <= j < i ==> (#[trigger] terms[j])@ == self.entries[j].term@,
            decreases self.entries.len() - i,
        {
            terms.push(to_text(&self.entries[i].term));
            i += 1;
        }
        proof {
            let entries = self.entries@;
            assert forall|i: int, j: int| 0 <= i < j < terms.len() implies term_before(
                (#[trigger] terms[i])@,
                (#[trigger] terms[j])@,
            ) by {
                assert(term_before(entries[i].term@, entries[j].term@));
            }
            assert forall|term: Seq<char>|
                (exists|i: int| 0 <= i < terms.len() && (#[trigger] terms[i])@ == term)
                    <==> self.postings(term).len() > 0 by {
                if lists(entries, term) {
                    let j = slot_of(entries, term);
                    assert(holds(entries, j, term));
                    lemma_slot_is_unique(entries, j);
                    assert(terms[j]@ == term);
                    assert(entries[j].postings.len() > 0);
                }
                if exists|i: int| 0 <= i < terms.len() && (#[trigger] terms[i])@ == term {
                    let j = choose|i: int| 0 <= i < terms.len() && (#[trigger] terms[i])@ == term;
                    assert(holds(entries, j, term));
                }
            }
        }
        terms
    }
}

} // verus!
