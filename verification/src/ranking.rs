//! The order in which hits are returned.

use vstd::prelude::*;
use crate::hits::{hit_names, hits_view, Hit};

verus! {

/// Where a hit of the given frequency enters a ranked list: behind the hits at
/// its head whose frequency is at least as high.
pub open spec fn rank_position(ranked: Seq<Hit>, frequency: nat) -> nat
    decreases ranked.len(),
{
    if ranked.len() == 0 || ranked[0].frequency < frequency {
        0
    } else {
        1 + rank_position(ranked.skip(1), frequency)
    }
}

/// The hits in the order of their rank: by falling frequency, and hits of one
/// frequency in the order in which they came.
pub open spec fn ranked(hits: Seq<Hit>) -> Seq<Hit>
    decreases hits.len(),
{
    if hits.len() == 0 {
        Seq::empty()
    } else {
        let earlier = ranked(hits.drop_last());
        earlier.insert(rank_position(earlier, hits.last().frequency) as int, hits.last())
    }
}

/// No hit of a list stands before one of a higher frequency.
pub open spec fn is_falling(hits: Seq<Hit>) -> bool {
    forall|i: int, j: int| 0 <= i <= j < hits.len() ==> hits[i].frequency >= hits[j].frequency
}

/// The hits of one frequency, in the order in which a list holds them.
pub open spec fn hits_of_frequency(hits: Seq<Hit>, frequency: nat) -> Seq<Hit> {
    hits.filter(|hit: Hit| hit.frequency == frequency)
}

/// The position at which a hit enters lies inside the list, behind hits that
/// are at least as frequent and before one that is less frequent.
pub proof fn lemma_rank_position(ranked: Seq<Hit>, frequency: nat)
    ensures
        rank_position(ranked, frequency) <= ranked.len(),
        forall|k: int|
            0 <= k < rank_position(ranked, frequency) ==> ranked[k].frequency >= frequency,
        rank_position(ranked, frequency) < ranked.len() ==> ranked[rank_position(
            ranked,
            frequency,
        ) as int].frequency < frequency,
    decreases ranked.len(),
{
    if ranked.len() == 0 || ranked[0].frequency < frequency {
    } else {
        let rest = ranked.skip(1);
        lemma_rank_position(rest, frequency);
        let p = rank_position(rest, frequency) as int;
        assert forall|k: int| 0 <= k < p + 1 implies ranked[k].frequency >= frequency by {
            if k > 0 {
                assert(rest[k - 1] == ranked[k]);
            }
        }
        if p + 1 < ranked.len() {
            assert(rest[p] == ranked[p + 1]);
        }
    }
}

/// Ranking keeps every hit, and orders them by falling frequency.
pub proof fn lemma_ranked_is_falling(hits: Seq<Hit>)
    ensures
        ranked(hits).len() == hits.len(),
        is_falling(ranked(hits)),
    decreases hits.len(),
{
    if hits.len() > 0 {
        let earlier = ranked(hits.drop_last());
        let hit = hits.last();
        let p = rank_position(earlier, hit.frequency) as int;
        lemma_ranked_is_falling(hits.drop_last());
        lemma_rank_position(earlier, hit.frequency);
        let r = earlier.insert(p, hit);
        assert forall|i: int, j: int| 0 <= i <= j < r.len() implies r[i].frequency
            >= r[j].frequency by {
            if j < p {
                assert(r[i] == earlier[i] && r[j] == earlier[j]);
            } else if j == p {
                if i < p {
                    assert(r[i] == earlier[i]);
                }
            } else {
                assert(r[j] == earlier[j - 1]);
                assert(earlier[p].frequency >= earlier[j - 1].frequency);
                if i < p {
                    assert(r[i] == earlier[i]);
                } else if i > p {
                    assert(r[i] == earlier[i - 1]);
                }
            }
        }
    }
}

/// Ranking leaves the hits of each frequency in the order in which they came.
pub proof fn lemma_ranked_keeps_order_of_ties(hits: Seq<Hit>, frequency: nat)
    ensures
        hits_of_frequency(ranked(hits), frequency) == hits_of_frequency(hits, frequency),
    decreases hits.len(),
{
    let pred = |hit: Hit| hit.frequency == frequency;
    if hits.len() == 0 {
    } else {
        let earlier = ranked(hits.drop_last());
        let hit = hits.last();
        let p = rank_position(earlier, hit.frequency) as int;
        lemma_ranked_keeps_order_of_ties(hits.drop_last(), frequency);
        lemma_ranked_is_falling(hits.drop_last());
        lemma_rank_position(earlier, hit.frequency);
        let head = earlier.subrange(0, p);
        let tail = earlier.subrange(p, earlier.len() as int);
        assert(earlier == head + tail);
        Seq::filter_distributes_over_add(head, tail, pred);
        Seq::filter_distributes_over_add(head.push(hit), tail, pred);
        head.lemma_filter_push(hit, pred);
        hits.drop_last().lemma_filter_push(hit, pred);
        assert(hits.drop_last().push(hit) == hits);
        if pred(hit) {
            assert(tail.all(|h: Hit| !pred(h))) by {
                assert forall|k: int| 0 <= k < tail.len() implies !pred(#[trigger] tail[k]) by {
                    assert(tail[k] == earlier[p + k]);
                    assert(earlier[p].frequency >= earlier[p + k].frequency);
                }
            }
            tail.lemma_all_neg_filter_empty(pred);
            assert(tail.filter(pred) == Seq::<Hit>::empty());
            assert(head.filter(pred) + Seq::<Hit>::empty() == head.filter(pred));
            assert(head.filter(pred).push(hit) + Seq::<Hit>::empty() == head.filter(pred).push(
                hit,
            ));
        }
    }
}

/// Ranking neither loses a hit nor makes one up.
pub proof fn lemma_ranked_keeps_hits(hits: Seq<Hit>)
    ensures
        ranked(hits).to_multiset() == hits.to_multiset(),
        hit_names(ranked(hits)).to_set() == hit_names(hits).to_set(),
    decreases hits.len(),
{
    broadcast use vstd::seq_lib::to_multiset_insert, vstd::seq_lib::to_multiset_build;

    if hits.len() == 0 {
        assert(ranked(hits) == hits);
    } else {
        let shorter = hits.drop_last();
        let earlier = ranked(shorter);
        let hit = hits.last();
        let p = rank_position(earlier, hit.frequency) as int;
        lemma_ranked_keeps_hits(shorter);
        lemma_rank_position(earlier, hit.frequency);
        lemma_ranked_is_falling(shorter);
        assert(shorter.push(hit) == hits);
        assert(earlier.insert(p, hit).to_multiset() == earlier.to_multiset().insert(hit));
        assert(hit_names(earlier.insert(p, hit)) == hit_names(earlier).insert(p, hit.name));
        assert(hit_names(shorter.push(hit)) == hit_names(shorter).push(hit.name));
        let names = hit_names(earlier);
        assert(names.insert(p, hit.name).to_set() =~= names.to_set().insert(hit.name)) by {
            let inserted = names.insert(p, hit.name);
            assert forall|name: Seq<char>| inserted.to_set().contains(name) implies names.to_set(
            ).insert(hit.name).contains(name) by {
                let i = choose|i: int| 0 <= i < inserted.len() && inserted[i] == name;
                if i < p {
                    assert(names[i] == name);
                } else if i > p {
                    assert(names[i - 1] == name);
                }
            }
            assert forall|name: Seq<char>|
                names.to_set().insert(hit.name).contains(name) implies inserted.to_set().contains(
                name,
            ) by {
                if name == hit.name {
                    assert(inserted[p] == name);
                } else {
                    let i = choose|i: int| 0 <= i < names.len() && names[i] == name;
                    if i < p {
                        assert(inserted[i] == name);
                    } else {
                        assert(inserted[i + 1] == name);
                    }
                }
            }
        }
        let own = hit_names(shorter);
        assert(own.push(hit.name).to_set() =~= own.to_set().insert(hit.name)) by {
            let pushed = own.push(hit.name);
            assert forall|name: Seq<char>| pushed.to_set().contains(name) implies own.to_set(
            ).insert(hit.name).contains(name) by {
                let i = choose|i: int| 0 <= i < pushed.len() && pushed[i] == name;
                if i < own.len() {
                    assert(own[i] == name);
                }
            }
            assert forall|name: Seq<char>|
                own.to_set().insert(hit.name).contains(name) implies pushed.to_set().contains(
                name,
            ) by {
                if name == hit.name {
                    assert(pushed[own.len() as int] == name);
                } else {
                    let i = choose|i: int| 0 <= i < own.len() && own[i] == name;
                    assert(pushed[i] == name);
                }
            }
        }
    }
}

/// Two ranked lists as one: the hits of both by falling frequency, and among
/// hits of one frequency those of the first list before those of the second.
pub open spec fn merged(first: Seq<Hit>, second: Seq<Hit>) -> Seq<Hit>
    decreases first.len() + second.len(),
{
    if first.len() == 0 {
        second
    } else if second.len() == 0 {
        first
    } else if second.last().frequency <= first.last().frequency {
        merged(first, second.drop_last()).push(second.last())
    } else {
        merged(first.drop_last(), second).push(first.last())
    }
}

/// A hit as it enters a ranked list.
pub open spec fn entered(ranked: Seq<Hit>, hit: Hit) -> Seq<Hit> {
    ranked.insert(rank_position(ranked, hit.frequency) as int, hit)
}

/// The position at which a hit enters is the first at which a less frequent
/// hit stands.
proof fn lemma_rank_position_is(ranked: Seq<Hit>, frequency: nat, p: int)
    requires
        0 <= p <= ranked.len(),
        forall|k: int| 0 <= k < p ==> (#[trigger] ranked[k]).frequency >= frequency,
        p < ranked.len() ==> ranked[p].frequency < frequency,
    ensures
        rank_position(ranked, frequency) == p,
    decreases ranked.len(),
{
    if p > 0 {
        let rest = ranked.skip(1);
        assert(ranked[0].frequency >= frequency);
        assert forall|k: int| 0 <= k < p - 1 implies (#[trigger] rest[k]).frequency
            >= frequency by {
            assert(rest[k] == ranked[k + 1]);
        }
        if p - 1 < rest.len() {
            assert(rest[p - 1] == ranked[p]);
        }
        lemma_rank_position_is(rest, frequency, p - 1);
    }
}

/// A hit that is no more frequent than the last of a ranked list enters at
/// its end.
proof fn lemma_entered_at_end(ranked: Seq<Hit>, hit: Hit)
    requires
        is_falling(ranked),
        ranked.len() > 0 ==> ranked.last().frequency >= hit.frequency,
    ensures
        entered(ranked, hit) == ranked.push(hit),
{
    assert forall|k: int| 0 <= k < ranked.len() implies (#[trigger] ranked[k]).frequency
        >= hit.frequency by {
        assert(ranked[k].frequency >= ranked[ranked.len() - 1].frequency);
    }
    lemma_rank_position_is(ranked, hit.frequency, ranked.len() as int);
    assert(ranked.insert(ranked.len() as int, hit) == ranked.push(hit));
}

/// A hit that is more frequent than the last of a ranked list enters before
/// that last one.
proof fn lemma_entered_before_last(ranked: Seq<Hit>, hit: Hit)
    requires
        ranked.len() > 0,
        ranked.last().frequency < hit.frequency,
    ensures
        entered(ranked, hit) == entered(ranked.drop_last(), hit).push(ranked.last()),
{
    let shorter = ranked.drop_last();
    let p = rank_position(shorter, hit.frequency) as int;
    lemma_rank_position(shorter, hit.frequency);
    assert forall|k: int| 0 <= k < p implies (#[trigger] ranked[k]).frequency
        >= hit.frequency by {
        assert(ranked[k] == shorter[k]);
    }
    if p < shorter.len() {
        assert(ranked[p] == shorter[p]);
    }
    lemma_rank_position_is(ranked, hit.frequency, p);
    assert(ranked.insert(p, hit) == shorter.insert(p, hit).push(ranked.last()));
}

/// Merging loses no hit, and the hits of two lists that are all as frequent
/// as some bound stay so.
proof fn lemma_merged_bound(first: Seq<Hit>, second: Seq<Hit>, bound: nat)
    requires
        forall|i: int| 0 <= i < first.len() ==> (#[trigger] first[i]).frequency >= bound,
        forall|j: int| 0 <= j < second.len() ==> (#[trigger] second[j]).frequency >= bound,
    ensures
        merged(first, second).len() == first.len() + second.len(),
        forall|k: int|
            0 <= k < merged(first, second).len() ==> (#[trigger] merged(
                first,
                second,
            )[k]).frequency >= bound,
    decreases first.len() + second.len(),
{
    if first.len() == 0 || second.len() == 0 {
    } else if second.last().frequency <= first.last().frequency {
        let shorter = second.drop_last();
        assert forall|j: int| 0 <= j < shorter.len() implies (#[trigger] shorter[j]).frequency
            >= bound by {
            assert(shorter[j] == second[j]);
        }
        lemma_merged_bound(first, shorter, bound);
        assert(second.last() == second[second.len() - 1]);
    } else {
        let shorter = first.drop_last();
        assert forall|i: int| 0 <= i < shorter.len() implies (#[trigger] shorter[i]).frequency
            >= bound by {
            assert(shorter[i] == first[i]);
        }
        lemma_merged_bound(shorter, second, bound);
        assert(first.last() == first[first.len() - 1]);
    }
}

/// A list keeps falling when its last hit is taken away.
proof fn lemma_falling_drop_last(hits: Seq<Hit>)
    requires
        is_falling(hits),
        hits.len() > 0,
    ensures
        is_falling(hits.drop_last()),
        forall|k: int|
            0 <= k < hits.len() - 1 ==> (#[trigger] hits.drop_last()[k]).frequency
                >= hits.last().frequency,
{
    let shorter = hits.drop_last();
    assert forall|i: int, j: int| 0 <= i <= j < shorter.len() implies shorter[i].frequency
        >= shorter[j].frequency by {
        assert(hits[i].frequency >= hits[j].frequency);
    }
    assert forall|k: int| 0 <= k < hits.len() - 1 implies (#[trigger] shorter[k]).frequency
        >= hits.last().frequency by {
        assert(hits[k].frequency >= hits[hits.len() - 1].frequency);
    }
}

/// Two falling lists merge into a falling list.
pub proof fn lemma_merged_is_falling(first: Seq<Hit>, second: Seq<Hit>)
    requires
        is_falling(first),
        is_falling(second),
    ensures
        is_falling(merged(first, second)),
        merged(first, second).len() == first.len() + second.len(),
    decreases first.len() + second.len(),
{
    if first.len() == 0 || second.len() == 0 {
    } else {
        lemma_falling_drop_last(first);
        lemma_falling_drop_last(second);
        let (a, b, last) = if second.last().frequency <= first.last().frequency {
            (first, second.drop_last(), second.last())
        } else {
            (first.drop_last(), second, first.last())
        };
        lemma_merged_is_falling(a, b);
        assert forall|i: int| 0 <= i < a.len() implies (#[trigger] a[i]).frequency
            >= last.frequency by {
            if second.last().frequency <= first.last().frequency {
                assert(first[i].frequency >= first[first.len() - 1].frequency);
            }
        }
        assert forall|j: int| 0 <= j < b.len() implies (#[trigger] b[j]).frequency
            >= last.frequency by {
            if !(second.last().frequency <= first.last().frequency) {
                assert(second[j].frequency >= second[second.len() - 1].frequency);
            }
        }
        lemma_merged_bound(a, b, last.frequency);
        let shorter = merged(a, b);
        let all = shorter.push(last);
        assert(merged(first, second) == all);
        assert forall|i: int, j: int| 0 <= i <= j < all.len() implies all[i].frequency
            >= all[j].frequency by {
            if j < shorter.len() {
                assert(shorter[i].frequency >= shorter[j].frequency);
            } else if i < shorter.len() {
                assert(shorter[i].frequency >= last.frequency);
            }
        }
    }
}

/// A hit that enters the second of two ranked lists enters their merge.
proof fn lemma_merged_entered(first: Seq<Hit>, second: Seq<Hit>, hit: Hit)
    requires
        is_falling(first),
        is_falling(second),
    ensures
        entered(merged(first, second), hit) == merged(first, entered(second, hit)),
    decreases first.len() + second.len(),
{
    let f = hit.frequency;
    let both = merged(first, second);
    let longer = entered(second, hit);
    if first.len() == 0 {
        assert(both == second);
        assert(merged(first, longer) == longer);
    } else if second.len() == 0 {
        assert(second == Seq::<Hit>::empty());
        assert(both == first);
        assert(longer == seq![hit]) by {
            assert(second.insert(0, hit) == seq![hit]);
        }
        assert(longer.drop_last() == second);
        assert(longer.last() == hit);
        if f <= first.last().frequency {
            lemma_entered_at_end(first, hit);
            assert(merged(first, longer) == merged(first, second).push(hit));
        } else {
            lemma_falling_drop_last(first);
            lemma_merged_entered(first.drop_last(), second, hit);
            lemma_entered_before_last(first, hit);
            assert(merged(first.drop_last(), second) == first.drop_last());
            assert(merged(first, longer) == merged(first.drop_last(), longer).push(first.last()));
        }
    } else {
        lemma_falling_drop_last(first);
        lemma_falling_drop_last(second);
        lemma_merged_is_falling(first, second);
        if second.last().frequency >= f {
            lemma_entered_at_end(second, hit);
            assert(longer == second.push(hit));
            assert(longer.drop_last() == second);
            assert(longer.last() == hit);
            if f <= first.last().frequency {
                assert(both.last().frequency >= f);
                lemma_entered_at_end(both, hit);
                assert(merged(first, longer) == both.push(hit));
            } else {
                lemma_merged_entered(first.drop_last(), second, hit);
                assert(both == merged(first.drop_last(), second).push(first.last()));
                assert(both.drop_last() == merged(first.drop_last(), second));
                assert(both.last() == first.last());
                lemma_entered_before_last(both, hit);
                assert(merged(first, longer) == merged(first.drop_last(), longer).push(
                    first.last(),
                ));
            }
        } else {
            lemma_entered_before_last(second, hit);
            assert(longer == entered(second.drop_last(), hit).push(second.last()));
            assert(longer.drop_last() == entered(second.drop_last(), hit));
            assert(longer.last() == second.last());
            if second.last().frequency <= first.last().frequency {
                lemma_merged_entered(first, second.drop_last(), hit);
                assert(both == merged(first, second.drop_last()).push(second.last()));
                assert(both.drop_last() == merged(first, second.drop_last()));
                assert(both.last() == second.last());
                lemma_entered_before_last(both, hit);
                assert(merged(first, longer) == merged(first, longer.drop_last()).push(
                    second.last(),
                ));
            } else {
                lemma_merged_entered(first.drop_last(), second, hit);
                assert(both == merged(first.drop_last(), second).push(first.last()));
                assert(both.drop_last() == merged(first.drop_last(), second));
                assert(both.last() == first.last());
                lemma_entered_before_last(both, hit);
                assert(merged(first, longer) == merged(first.drop_last(), longer).push(
                    first.last(),
                ));
            }
        }
    }
}

/// Ranking a list is ranking two parts of it and merging them.
pub proof fn lemma_ranked_in_parts(first: Seq<Hit>, second: Seq<Hit>)
    ensures
        ranked(first + second) == merged(ranked(first), ranked(second)),
    decreases second.len(),
{
    lemma_ranked_is_falling(first);
    if second.len() == 0 {
        assert(first + second == first);
        assert(ranked(second) == Seq::<Hit>::empty());
    } else {
        let shorter = second.drop_last();
        lemma_ranked_in_parts(first, shorter);
        lemma_ranked_is_falling(shorter);
        lemma_merged_entered(ranked(first), ranked(shorter), second.last());
        assert((first + second).drop_last() == first + shorter);
        assert((first + second).last() == second.last());
    }
}

/// Merges two ranked lists into one.
fn merge(first: Vec<(String, u64)>, second: Vec<(String, u64)>) -> (all: Vec<(String, u64)>)
    requires
        is_falling(hits_view(first@)),
        is_falling(hits_view(second@)),
    ensures
        hits_view(all@) == merged(hits_view(first@), hits_view(second@)),
{
    let ghost wanted = merged(hits_view(first@), hits_view(second@));
    let mut first = first;
    let mut second = second;
    let mut tail: Vec<(String, u64)> = Vec::new();
    assert(wanted + hits_view(tail@).reverse() == wanted);
    while first.len() > 0 && second.len() > 0
        invariant
            wanted == merged(hits_view(first@), hits_view(second@)) + hits_view(tail@).reverse(),
        decreases first.len() + second.len(),
    {
        let ghost a = hits_view(first@);
        let ghost b = hits_view(second@);
        let ghost behind = hits_view(tail@);
        if second[second.len() - 1].1 <= first[first.len() - 1].1 {
            let hit = second.pop().unwrap();
            tail.push(hit);
            proof {
                assert(hits_view(second@) == b.drop_last());
                assert(hits_view(tail@) == behind.push(b.last()));
                assert(behind.push(b.last()).reverse() == seq![b.last()] + behind.reverse());
                assert(merged(a, b.drop_last()).push(b.last()) + behind.reverse() == merged(
                    a,
                    b.drop_last(),
                ) + (seq![b.last()] + behind.reverse()));
            }
        } else {
            let hit = first.pop().unwrap();
            tail.push(hit);
            proof {
                assert(hits_view(first@) == a.drop_last());
                assert(hits_view(tail@) == behind.push(a.last()));
                assert(behind.push(a.last()).reverse() == seq![a.last()] + behind.reverse());
                assert(merged(a.drop_last(), b).push(a.last()) + behind.reverse() == merged(
                    a.drop_last(),
                    b,
                ) + (seq![a.last()] + behind.reverse()));
            }
        }
    }
    let mut all = if first.len() == 0 {
        second
    } else {
        first
    };
    while tail.len() > 0
        invariant
            wanted == hits_view(all@) + hits_view(tail@).reverse(),
        decreases tail.len(),
    {
        let ghost front = hits_view(all@);
        let ghost behind = hits_view(tail@);
        let hit = tail.pop().unwrap();
        all.push(hit);
        proof {
            assert(hits_view(tail@) == behind.drop_last());
            assert(hits_view(all@) == front.push(behind.last()));
            assert(behind.reverse() == seq![behind.last()] + behind.drop_last().reverse());
            assert(front + (seq![behind.last()] + behind.drop_last().reverse()) == front.push(
                behind.last(),
            ) + behind.drop_last().reverse());
        }
    }
    assert(hits_view(all@) + hits_view(tail@).reverse() == hits_view(all@));
    all
}

/// Orders hits by falling frequency; hits of one frequency keep the order in
/// which they came.
pub fn rank(hits: Vec<(String, u64)>) -> (ranked_hits: Vec<(String, u64)>)
    ensures
        hits_view(ranked_hits@) == ranked(hits_view(hits@)),
        is_falling(hits_view(ranked_hits@)),
    decreases hits.len(),
{
    let ghost all = hits_view(hits@);
    proof {
        lemma_ranked_is_falling(all);
    }
    if hits.len() <= 1 {
        proof {
            if hits.len() == 1 {
                assert(all.drop_last() == Seq::<Hit>::empty());
                assert(ranked(all.drop_last()) == Seq::<Hit>::empty());
                assert(Seq::<Hit>::empty().insert(0, all.last()) == all);
            } else {
                assert(all == Seq::<Hit>::empty());
            }
        }
        return hits;
    }
    let mut first = hits;
    let half = first.len() / 2;
    let second = first.split_off(half);
    proof {
        assert(all == hits_view(first@) + hits_view(second@));
        lemma_ranked_in_parts(hits_view(first@), hits_view(second@));
    }
    let first = rank(first);
    let second = rank(second);
    merge(first, second)
}

} // verus!
