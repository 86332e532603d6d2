use cbzpack::natural::{natural_compare, KeyError, NaturalKey};
use cbzpack::order::Order;
use cbzpack::sort::{natural_sort, sorted_names, NumberTooLarge};

fn owned(names: &[&str]) -> Vec<String> {
    names.iter().map(|n| n.to_string()).collect()
}

#[test]
fn numbers_compare_as_integers() {
    assert_eq!(natural_compare("img2.png", "img10.png"), Ok(Order::Less));
    assert_eq!(natural_compare("img10.png", "img2.png"), Ok(Order::Greater));
}

#[test]
fn page_example_is_increasing() {
    assert_eq!(natural_compare("page2.png", "page10.png"), Ok(Order::Less));
    assert_eq!(natural_compare("page10.png", "page10b.png"), Ok(Order::Less));
    assert_eq!(natural_compare("page2.png", "page10b.png"), Ok(Order::Less));
}

#[test]
fn leading_zeros_do_not_change_a_value() {
    assert_eq!(natural_compare("a007.png", "a8.png"), Ok(Order::Less));
    assert_eq!(natural_compare("a010.png", "a9.png"), Ok(Order::Greater));
    assert_eq!(natural_compare("a01.png", "a1.png"), Ok(Order::Less));
}

#[test]
fn later_runs_decide_when_earlier_ones_agree() {
    assert_eq!(natural_compare("v1c9.png", "v1c10.png"), Ok(Order::Less));
    assert_eq!(natural_compare("v2c1.png", "v1c10.png"), Ok(Order::Greater));
}

#[test]
fn separators_do_not_matter_to_runs() {
    assert_eq!(natural_compare("x-3-z.png", "a_12_b.png"), Ok(Order::Less));
}

#[test]
fn names_decide_between_the_same_runs() {
    assert_eq!(natural_compare("a.png", "b.png"), Ok(Order::Less));
    assert_eq!(natural_compare("b.png", "a.png"), Ok(Order::Greater));
    assert_eq!(natural_compare("same1.png", "same1.png"), Ok(Order::Equal));
    assert_eq!(natural_compare("b1.png", "a01.png"), Ok(Order::Greater));
}

#[test]
fn name_that_still_has_a_run_comes_first() {
    assert_eq!(natural_compare("z1.png", "a1_2.png"), Ok(Order::Greater));
    assert_eq!(natural_compare("a1.png", "z1_2.png"), Ok(Order::Greater));
    assert_eq!(natural_compare("z1_2.png", "a1.png"), Ok(Order::Less));
    assert_eq!(natural_compare("a10.gif", "b.png"), Ok(Order::Less));
    assert_eq!(natural_compare("z10.gif", "b.png"), Ok(Order::Less));
    assert_eq!(natural_compare("b.png", "z10.gif"), Ok(Order::Greater));
}

#[test]
fn largest_number_that_fits() {
    assert_eq!(
        natural_compare("18446744073709551615.png", "18446744073709551614.png"),
        Ok(Order::Greater)
    );
}

#[test]
fn number_too_large_is_an_error() {
    assert_eq!(
        natural_compare("18446744073709551616.png", "1.png"),
        Err(KeyError::NumberTooLarge)
    );
    assert_eq!(
        natural_compare("1.png", "99999999999999999999999.png"),
        Err(KeyError::NumberTooLarge)
    );
    assert!(NaturalKey::new("000000000000000000000000000001.png").is_ok());
}

#[test]
fn key_compare_is_antisymmetric() {
    let names = ["b1", "c1_2", "a1_3", "10", "9", "x"];
    for a in names {
        for b in names {
            let ka = NaturalKey::new(a).unwrap();
            let kb = NaturalKey::new(b).unwrap();
            assert_eq!(ka.compare(&kb), kb.compare(&ka).reverse());
            assert_eq!(ka.compare(&kb) == Order::Equal, a == b);
        }
    }
}

#[test]
fn sort_puts_names_in_natural_order() {
    let names = owned(&["b.png", "a10.gif", "a1.gif", "a2.gif"]);
    let order = natural_sort(&names).unwrap();
    assert_eq!(order, vec![2, 3, 1, 0]);
    assert_eq!(
        sorted_names(&names),
        Ok(owned(&["a1.gif", "a2.gif", "a10.gif", "b.png"]))
    );
}

#[test]
fn sort_of_nothing_and_of_one() {
    assert_eq!(natural_sort(&owned(&[])), Ok(vec![]));
    assert_eq!(natural_sort(&owned(&["only.png"])), Ok(vec![0]));
}

#[test]
fn sort_reports_first_name_with_large_number() {
    let names = owned(&["1.png", "99999999999999999999.png", "88888888888888888888.png"]);
    assert_eq!(natural_sort(&names), Err(NumberTooLarge { index: 1 }));
    assert_eq!(sorted_names(&names), Err(NumberTooLarge { index: 1 }));
}

#[test]
fn sort_result_is_a_permutation_in_order_throughout() {
    let names = owned(&["p3", "p1", "p20", "p2", "q", "p10", "p1a", "0"]);
    let order = natural_sort(&names).unwrap();
    let mut seen = vec![false; names.len()];
    for &i in &order {
        assert!(!seen[i]);
        seen[i] = true;
    }
    assert!(seen.iter().all(|s| *s));
    for i in 0..order.len() {
        for j in i..order.len() {
            assert_ne!(
                natural_compare(&names[order[i]], &names[order[j]]),
                Ok(Order::Greater)
            );
        }
    }
}

#[test]
fn names_with_equally_many_runs_are_in_order_throughout() {
    let names = owned(&[
        "v2c10.png", "v1c2.png", "v10c1.png", "v1c10.png", "v2c1.png", "v1c2.gif", "v01c3.png",
    ]);
    let sorted = sorted_names(&names).unwrap();
    assert_eq!(
        sorted,
        owned(&[
            "v1c2.gif", "v1c2.png", "v01c3.png", "v1c10.png", "v2c1.png", "v2c10.png",
            "v10c1.png",
        ])
    );
    for i in 0..sorted.len() {
        for j in i..sorted.len() {
            assert_ne!(natural_compare(&sorted[i], &sorted[j]), Ok(Order::Greater));
        }
    }
}

#[test]
fn names_with_different_numbers_of_runs_are_in_order_throughout() {
    assert_eq!(natural_compare("b1", "c1_2"), Ok(Order::Greater));
    assert_eq!(natural_compare("c1_2", "a1_3"), Ok(Order::Less));
    assert_eq!(natural_compare("a1_3", "b1"), Ok(Order::Less));
    let sorted = sorted_names(&owned(&["b1", "c1_2", "a1_3", "m", "z1", "a2"])).unwrap();
    assert_eq!(sorted, owned(&["c1_2", "a1_3", "b1", "z1", "a2", "m"]));
    for i in 0..sorted.len() {
        for j in i..sorted.len() {
            assert_ne!(natural_compare(&sorted[i], &sorted[j]), Ok(Order::Greater));
        }
    }
}

#[test]
fn every_listing_order_gives_the_same_arrangement() {
    let orders = [
        ["z1", "a2", "m"],
        ["z1", "m", "a2"],
        ["a2", "z1", "m"],
        ["a2", "m", "z1"],
        ["m", "z1", "a2"],
        ["m", "a2", "z1"],
    ];
    for listing in orders {
        assert_eq!(sorted_names(&owned(&listing)), Ok(owned(&["z1", "a2", "m"])));
    }
}
