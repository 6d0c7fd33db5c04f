use doc_search::ranking::rank;

fn named(name: &str, frequency: u64) -> (String, u64) {
    (name.to_string(), frequency)
}

#[test]
fn rank_orders_by_falling_frequency() {
    let hits = vec![named("a", 1), named("b", 5), named("c", 3)];
    assert_eq!(rank(hits), vec![named("b", 5), named("c", 3), named("a", 1)]);
}

#[test]
fn rank_keeps_ties_in_the_order_in_which_they_came() {
    let hits = vec![named("a", 2), named("b", 7), named("c", 2), named("d", 7), named("e", 2),
                    named("f", 9), named("g", 7)];
    assert_eq!(rank(hits),
               vec![named("f", 9), named("b", 7), named("d", 7), named("g", 7), named("a", 2),
                    named("c", 2), named("e", 2)]);
}

#[test]
fn rank_leaves_ranked_hits_as_they_are() {
    let hits = vec![named("x", 4), named("y", 4), named("z", 1)];
    assert_eq!(rank(hits.clone()), hits);
    assert_eq!(rank(rank(hits.clone())), hits);
}

#[test]
fn rank_of_nothing_is_nothing() {
    assert_eq!(rank(vec![]), vec![]);
    assert_eq!(rank(vec![named("only", 3)]), vec![named("only", 3)]);
}

#[test]
fn rank_handles_the_largest_frequency() {
    let hits = vec![named("low", 0), named("top", u64::MAX), named("mid", 1)];
    assert_eq!(rank(hits), vec![named("top", u64::MAX), named("mid", 1), named("low", 0)]);
}

#[test]
fn rank_agrees_with_a_stable_sort() {
    let mut seed: u64 = 12345;
    for round in 0..20usize {
        let mut hits = Vec::new();
        for i in 0..(round * 3) {
            seed = seed.wrapping_mul(6364136223846793005).wrapping_add(1442695040888963407);
            hits.push((format!("doc{}", i), (seed >> 33) % 5));
        }
        let mut expected = hits.clone();
        expected.sort_by(|x, y| y.1.cmp(&x.1));
        assert_eq!(rank(hits), expected);
    }
}
