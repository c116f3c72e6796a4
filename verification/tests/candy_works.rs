use candy_works::basket::Candies;
use candy_works::basket::Trade;
use candy_works::works::CandyWorks;

fn basket(eggs: i32, worms: i32, cakes: i32, fishes: i32, meats: i32) -> Candies {
    Candies { eggs, worms, cakes, fishes, meats }
}

fn eggs_only(n: i32) -> Candies {
    basket(n, 0, 0, 0, 0)
}

#[test]
fn trade_applies_when_no_field_goes_negative() {
    let start = eggs_only(3);
    let rule = Trade::standard_trade(0, 1);
    let result = start.trade(&rule);
    assert_eq!(result, Some(basket(0, 1, 0, 0, 0)));
}

#[test]
fn trade_rejected_exactly_when_a_field_would_go_negative() {
    let rule = Trade::standard_trade(0, 1);
    // 2 eggs cannot give 3 eggs: one field would end at -1.
    assert_eq!(eggs_only(2).trade(&rule), None);
    // 3 eggs exactly suffice: no field ends negative.
    assert!(eggs_only(3).trade(&rule).is_some());
    // A rule that both gives and receives the same kind nets out.
    let net = Trade { give: basket(2, 0, 0, 0, 0), receive: basket(1, 0, 0, 0, 1) };
    assert_eq!(eggs_only(1).trade(&net), Some(basket(0, 0, 0, 0, 1)));
    assert_eq!(eggs_only(0).trade(&net), None);
}

#[test]
fn total_sums_all_five_fields() {
    assert_eq!(basket(1, 2, 3, 4, 5).total(), 15);
    assert_eq!(Candies::none().total(), 0);
}

#[test]
fn contains_compares_field_by_field() {
    let b = basket(2, 1, 0, 0, 3);
    assert!(b.contains(&basket(2, 1, 0, 0, 3)));
    assert!(b.contains(&Candies::none()));
    assert!(!b.contains(&basket(3, 0, 0, 0, 0)));
    assert!(!b.contains(&basket(0, 0, 1, 0, 0)));
}

#[test]
fn none_is_all_zero() {
    assert_eq!(Candies::none(), basket(0, 0, 0, 0, 0));
}

#[test]
fn add_by_index_changes_one_field() {
    let mut b = Candies::none();
    b.add_by_index(0, 2);
    b.add_by_index(4, 7);
    assert_eq!(b, basket(2, 0, 0, 0, 7));
    b.add_by_index(1, -0);
    assert_eq!(b, basket(2, 0, 0, 0, 7));
}

#[test]
fn add_by_index_out_of_range_is_a_no_op() {
    let mut b = basket(1, 1, 1, 1, 1);
    b.add_by_index(5, 10);
    b.add_by_index(usize::MAX, 10);
    assert_eq!(b, basket(1, 1, 1, 1, 1));
}

#[test]
fn standard_trade_gives_three_for_one() {
    let rule = Trade::standard_trade(2, 3);
    assert_eq!(rule.give, basket(0, 0, 3, 0, 0));
    assert_eq!(rule.receive, basket(0, 0, 0, 1, 0));
}

#[test]
fn new_appends_twenty_standard_rules() {
    let custom = vec![Trade { give: eggs_only(1), receive: basket(0, 1, 0, 0, 0) }];
    let works = CandyWorks::new(eggs_only(1), 10, custom);
    assert_eq!(works.trades.len(), 21);
    // The first rule is the custom one.
    assert_eq!(works.trades[0].give, eggs_only(1));
    // The generated block covers every ordered pair of distinct kinds.
    for a in 0..5usize {
        for b in 0..5usize {
            if a != b {
                let found = works.trades[1..].iter().any(|t| {
                    let expected = Trade::standard_trade(a, b);
                    t.give == expected.give && t.receive == expected.receive
                });
                assert!(found, "missing standard rule {} -> {}", a, b);
            }
        }
    }
    assert!(works.combinations.is_empty());
}

#[test]
fn stadistics_is_none_before_exploration() {
    let works = CandyWorks::new(eggs_only(1), 5, Vec::new());
    assert!(works.stadistics().is_none());
}

#[test]
fn two_eggs_reach_nothing() {
    // Start {2 eggs}, cap 5: no rule can give 3 of anything, so the
    // table holds only the root and {1 worm} is unreachable.
    let mut works = CandyWorks::new(eggs_only(2), 5, vec![Trade::standard_trade(0, 1)]);
    works.explore();
    assert_eq!(works.combinations.len(), 1);
    assert_eq!(works.combinations[0].basket, eggs_only(2));
    assert!(works.combinations[0].parent.is_none());
    let route = works.find_optimal_route(basket(0, 1, 0, 0, 0));
    assert!(route.is_none());
}

#[test]
fn three_eggs_reach_one_worm() {
    let mut works = CandyWorks::new(eggs_only(3), 5, vec![Trade::standard_trade(0, 1)]);
    works.explore();
    let route = works.find_optimal_route(basket(0, 1, 0, 0, 0)).expect("route exists");
    assert_eq!(route.len(), 1);
    assert_eq!(route[0].give, eggs_only(3));
    assert_eq!(route[0].receive, basket(0, 1, 0, 0, 0));
}

#[test]
fn three_eggs_statistics() {
    // Reachable states: root {3 eggs} and, for each other kind, the
    // basket holding 1 of it (3 eggs traded away).
    let mut works = CandyWorks::new(eggs_only(3), 5, vec![Trade::standard_trade(0, 1)]);
    works.explore();
    assert_eq!(works.combinations.len(), 5);
    let stats = works.stadistics().expect("table is never empty after explore");
    assert_eq!(stats.count, 5);
    assert_eq!(stats.min_total, 1);
    assert_eq!(stats.max_total, 3);
    assert_eq!(stats.max_trades, 1);
}

#[test]
fn explored_baskets_are_pairwise_distinct() {
    let mut works = CandyWorks::new(basket(4, 1, 0, 0, 0), 6, Vec::new());
    works.explore();
    let n = works.combinations.len();
    assert!(n >= 2);
    for i in 0..n {
        for j in 0..i {
            assert_ne!(works.combinations[i].basket, works.combinations[j].basket);
        }
    }
}

#[test]
fn replaying_a_route_reproduces_the_chosen_basket() {
    let mut works = CandyWorks::new(basket(6, 2, 0, 0, 0), 8, Vec::new());
    works.explore();
    let target = basket(0, 0, 0, 0, 1);
    let route = works.find_optimal_route(target).expect("a meat is reachable");
    let mut current = works.candies;
    for rule in &route {
        current = current.trade(rule).expect("each step applies");
    }
    assert!(current.contains(&target));
    // The chosen entry is recorded in the table with this exact basket.
    let found = works.combinations.iter().any(|e| e.basket == current);
    assert!(found);
}

#[test]
fn start_covering_target_yields_empty_route() {
    let mut works = CandyWorks::new(basket(2, 1, 0, 0, 0), 5, Vec::new());
    works.explore();
    let route = works.find_optimal_route(basket(1, 1, 0, 0, 0));
    assert_eq!(route.map(|r| r.len()), Some(0));
}

#[test]
fn unreachable_target_yields_none() {
    let mut works = CandyWorks::new(eggs_only(3), 5, Vec::new());
    works.explore();
    // Two worms would need 6 eggs.
    assert!(works.find_optimal_route(basket(0, 2, 0, 0, 0)).is_none());
}

#[test]
fn cap_below_start_total_still_records_the_root() {
    // Start {6 eggs}, cap 5: the root is recorded although its total
    // exceeds the cap; trades that lower the total below the cap still
    // apply, and every non-root state respects the cap.
    let mut works = CandyWorks::new(eggs_only(6), 5, Vec::new());
    works.explore();
    assert_eq!(works.combinations[0].basket, eggs_only(6));
    assert!(works.combinations.len() > 1);
    for (i, entry) in works.combinations.iter().enumerate() {
        if i == 0 {
            assert!(entry.parent.is_none());
        } else {
            assert!(entry.parent.is_some());
            assert!(entry.basket.total() <= 5);
        }
    }
    let stats = works.stadistics().expect("non-empty");
    assert_eq!(stats.max_total, 6);
}

#[test]
fn chain_length_of_root_is_zero_and_of_a_child_is_one() {
    let mut works = CandyWorks::new(eggs_only(3), 5, Vec::new());
    works.explore();
    assert_eq!(works.len_from_combination(0), 0);
    // Every non-root entry of this tiny space is a direct child.
    for i in 1..works.combinations.len() {
        let (parent, _) = works.combinations[i].parent.expect("non-root");
        assert_eq!(parent, 0);
        assert_eq!(works.len_from_combination(i), 1);
    }
    // An index outside the table walks nothing.
    let outside = works.combinations.len() + 10;
    assert_eq!(works.len_from_combination(outside), 0);
}

#[test]
fn route_prefers_the_richest_covering_state() {
    // A custom rule turns 1 egg into 1 worm, so {1 worm} is coverable
    // by several states; the query picks the one with the largest
    // total, not the fewest trades.
    let custom = vec![Trade { give: eggs_only(1), receive: basket(0, 1, 0, 0, 0) }];
    let mut works = CandyWorks::new(eggs_only(4), 5, custom);
    works.explore();
    let route = works.find_optimal_route(basket(0, 1, 0, 0, 0)).expect("reachable");
    let mut current = works.candies;
    for rule in &route {
        current = current.trade(rule).expect("each step applies");
    }
    // The richest covering state keeps all remaining eggs: {3 eggs, 1 worm}.
    assert_eq!(current.total(), 4);
    assert!(current.contains(&basket(0, 1, 0, 0, 0)));
}
