use semilattice::Order::{Equal, Greater, Less};
use semilattice::Redactable::{Data, Redacted, Uninitialized};
use semilattice::UpsideDownOption::{Top, Value};
use semilattice::{
    fold, partial_ord_helper, partially_verify_semilattice_laws, GuardedPair, Interval, Max, Min,
    Order, Pair, Redactable, SemiLattice, UpsideDownOption,
};

#[test]
fn guarded_pair_check_laws() {
    assert!(partially_verify_semilattice_laws(&vec![
        GuardedPair { guard: Min(0), value: Max(0) },
        GuardedPair { guard: Min(1), value: Max(1) },
        GuardedPair { guard: Min(0), value: Max(1) },
        GuardedPair { guard: Min(1), value: Max(0) },
    ]));
}

#[test]
fn option_check_laws() {
    let samples = vec![None, Some(Max(0)), Some(Max(5))];
    assert!(partially_verify_semilattice_laws(&samples));
    assert_eq!(fold(samples), Some(Max(5)));

    let samples = vec![
        UpsideDownOption::Top,
        UpsideDownOption::Value(Max(0)),
        UpsideDownOption::Value(Max(5)),
    ];
    assert!(partially_verify_semilattice_laws(&samples));
    assert_eq!(fold(samples), UpsideDownOption::Top);
}

#[test]
fn ord_check_laws() {
    assert!(partially_verify_semilattice_laws(&(-5..5).map(Min).collect::<Vec<_>>()));
    assert!(partially_verify_semilattice_laws(&(-5..5).map(Max).collect::<Vec<_>>()));

    assert_eq!(fold((-5..5).map(Min).collect()), Min(-5));
    assert_eq!(fold((-5..5).map(Max).collect()), Max(4));
}

#[test]
fn pair_check_laws() {
    let _: Pair<u8, Pair<u16, u32>> = Pair(0u8, Pair(1u16, 2u32));

    assert!(partially_verify_semilattice_laws(
        &(-5..5).map(|x| Pair(Min(x), Max(x))).collect::<Vec<_>>()
    ));

    assert_eq!(
        fold((-5..5).map(|x| Pair(Min(x), Max(x))).collect()),
        Pair(Min(-5), Max(4))
    );
}

#[test]
fn redactable_check_laws() {
    assert!(partially_verify_semilattice_laws(&vec![
        Redacted,
        Data("Hello world."),
        Data("Hello kitty."),
    ]));
}

#[test]
fn min_max_i32_and_str() {
    assert_eq!(fold([-1, 0, 1].map(Min).to_vec()), Min(-1));
    assert_eq!(fold([-1, 0, 1].map(Max).to_vec()), Max(1));
    assert_eq!(
        fold((-1..).into_iter().take(5).map(|x| (Min(x), Max(x))).collect()),
        (Min(-1), Max(3))
    );
}

#[test]
fn fold_of_nothing_is_bottom() {
    assert_eq!(fold::<Max<i32>>(vec![]), Max(i32::MIN));
    assert_eq!(fold::<Min<i32>>(vec![]), Min(i32::MAX));
    assert_eq!(fold::<Option<Max<u64>>>(vec![]), None);
}

#[test]
fn bottoms_are_the_bounds_of_the_type() {
    assert_eq!(Max::<i32>::bottom(), Max(i32::MIN));
    assert_eq!(Min::<i32>::bottom(), Min(i32::MAX));
    assert_eq!(Max::<i64>::bottom(), Max(i64::MIN));
    assert_eq!(Min::<i64>::bottom(), Min(i64::MAX));
    assert_eq!(Max::<u32>::bottom(), Max(u32::MIN));
    assert_eq!(Min::<u32>::bottom(), Min(u32::MAX));
    assert_eq!(Max::<u64>::bottom(), Max(u64::MIN));
    assert_eq!(Min::<u64>::bottom(), Min(u64::MAX));
}

#[test]
fn bottom_is_below_every_sample() {
    for x in [i32::MIN, -3, 0, 7, i32::MAX] {
        let order = Max::<i32>::bottom().compare(&Max(x));
        assert!(order == Some(Order::Less) || order == Some(Order::Equal));
        let order = Min::<i32>::bottom().compare(&Min(x));
        assert!(order == Some(Order::Less) || order == Some(Order::Equal));
    }
    assert_eq!(Max::<i32>::bottom().compare(&Max(i32::MIN)), Some(Order::Equal));
}

#[test]
fn join_is_associative_commutative_idempotent() {
    let (a, b, c) = (Pair(Max(1), Min(9)), Pair(Max(4), Min(2)), Pair(Max(3), Min(5)));
    assert_eq!(a.join(b).join(c), a.join(b.join(c)));
    assert_eq!(a.join(b), b.join(a));
    assert_eq!(a.join(a), a);
    assert_eq!(a.join(b), Pair(Max(4), Min(2)));
}

#[test]
fn join_agrees_with_the_order() {
    // Comparable: the join is the greater one.
    let (small, big) = (Pair(Max(1), Min(9)), Pair(Max(4), Min(2)));
    assert_eq!(small.compare(&big), Some(Order::Less));
    assert_eq!(big.compare(&small), Some(Order::Greater));
    assert_eq!(small.join(big), big);
    assert_eq!(big.join(small), big);
    // Incomparable: the join lies strictly above both.
    let (a, b) = (Pair(Max(1), Min(1)), Pair(Max(0), Min(0)));
    assert_eq!(a.compare(&b), None);
    let ab = a.join(b);
    assert_eq!(ab, Pair(Max(1), Min(0)));
    assert_eq!(ab.compare(&a), Some(Order::Greater));
    assert_eq!(ab.compare(&b), Some(Order::Greater));
}

#[test]
fn min_orders_downwards() {
    assert_eq!(Min(1).compare(&Min(2)), Some(Order::Greater));
    assert_eq!(Min(2).compare(&Min(1)), Some(Order::Less));
    assert_eq!(Min(2).compare(&Min(2)), Some(Order::Equal));
    assert_eq!(Min(1).join(Min(2)), Min(1));
    assert_eq!(Max(1).join(Max(2)), Max(2));
}

#[test]
fn join_assign_joins_in_place() {
    let mut a = Max(3);
    a.join_assign(Max(8));
    assert_eq!(a, Max(8));
    a.join_assign(Max(5));
    assert_eq!(a, Max(8));
    let mut r = Redactable::Data(1);
    r.join_assign(Redactable::Data(1));
    assert_eq!(r, Redactable::Data(1));
    r.join_assign(Redactable::Data(2));
    assert_eq!(r, Redactable::Redacted);
}

#[test]
fn partial_ord_helper_folds_field_orders() {
    assert_eq!(partial_ord_helper(&[]), Some(Equal));
    assert_eq!(partial_ord_helper(&[Some(Equal), Some(Equal)]), Some(Equal));
    assert_eq!(partial_ord_helper(&[Some(Less), Some(Equal)]), Some(Less));
    assert_eq!(partial_ord_helper(&[Some(Equal), Some(Greater)]), Some(Greater));
    assert_eq!(partial_ord_helper(&[Some(Greater), Some(Greater)]), Some(Greater));
    assert_eq!(partial_ord_helper(&[Some(Less), Some(Greater)]), None);
    assert_eq!(partial_ord_helper(&[Some(Greater), Some(Less)]), None);
    assert_eq!(partial_ord_helper(&[Some(Less), None]), None);
    assert_eq!(partial_ord_helper(&[None]), None);
}

#[test]
fn option_lifts_add_a_bottom_or_a_top() {
    assert_eq!(None.join(Some(Max(1))), Some(Max(1)));
    assert_eq!(Some(Max(1)).join(None), Some(Max(1)));
    assert_eq!(Some(Max(1)).join(Some(Max(2))), Some(Max(2)));
    assert_eq!(None::<Max<i32>>.compare(&Some(Max(i32::MIN))), Some(Order::Less));
    assert_eq!(<Option<Max<i32>>>::bottom(), None);

    assert_eq!(UpsideDownOption::<Max<i32>>::bottom(), Value(Max(i32::MIN)));
    assert_eq!(Value(Max(1)).join(Value(Max(2))), Value(Max(2)));
    assert_eq!(Value(Max(1)).join(Top), Top);
    assert_eq!(Top.join(Value(Max(1))), Top);
    assert_eq!(Top.compare(&Value(Max(1))), Some(Order::Greater));
    assert_eq!(Value(Max(1)).compare(&Top), Some(Order::Less));
    assert_eq!(Top::<Max<i32>>.compare(&Top), Some(Order::Equal));
    assert_eq!(UpsideDownOption::from_option(Some(3)), Value(3));
    assert_eq!(UpsideDownOption::from_option(None::<i32>), Top);
}

#[test]
fn redactable_collapses_on_conflict() {
    assert_eq!(Data("x").join(Data("x")), Data("x"));
    assert_eq!(Data("x").join(Data("y")), Redacted);
    assert_eq!(Data("x").join(Redacted), Redacted);
    assert_eq!(Redacted.join(Data("x")), Redacted);
    assert_eq!(Uninitialized.join(Data("x")), Data("x"));
    assert_eq!(Data("x").join(Uninitialized), Data("x"));
    assert_eq!(Uninitialized.join(Redacted::<&str>), Redacted);
    assert_eq!(Redactable::<&str>::bottom(), Uninitialized);
    assert_eq!(Data("x").compare(&Data("y")), None);
    assert_eq!(Data("x").compare(&Data("x")), Some(Order::Equal));
    assert_eq!(Data("x").compare(&Redacted), Some(Order::Less));
    assert_eq!(Redacted.compare(&Data("x")), Some(Order::Greater));
    assert_eq!(Uninitialized.compare(&Data("x")), Some(Order::Less));
    assert_eq!(Data("x").compare(&Uninitialized), Some(Order::Greater));
}

#[test]
fn guarded_pair_lets_the_greater_guard_win() {
    // `Min(0)` is the greater guard: its value wins, and nothing is merged.
    let a = GuardedPair { guard: Min(0), value: Max(5) };
    let b = GuardedPair { guard: Min(1), value: Max(9) };
    assert_eq!(a.join(b), GuardedPair { guard: Min(0), value: Max(5) });
    assert_eq!(b.join(a), GuardedPair { guard: Min(0), value: Max(5) });
    assert_eq!(a.compare(&b), Some(Order::Greater));
    // Equal guards: the values are joined.
    let c = GuardedPair { guard: Min(0), value: Max(7) };
    assert_eq!(a.join(c), GuardedPair { guard: Min(0), value: Max(7) });
    assert_eq!(a.compare(&c), Some(Order::Less));
    // Incomparable guards: both fields are joined.
    let d = GuardedPair { guard: Pair(Max(1), Max(0)), value: Max(3) };
    let e = GuardedPair { guard: Pair(Max(0), Max(1)), value: Max(4) };
    assert_eq!(d.compare(&e), None);
    assert_eq!(d.join(e), GuardedPair { guard: Pair(Max(1), Max(1)), value: Max(4) });
}

#[test]
fn guarded_pair_with_incomparable_guards_does_not_associate() {
    let a = GuardedPair { guard: Pair(Max(1), Max(0)), value: Max(9) };
    let b = GuardedPair { guard: Pair(Max(0), Max(1)), value: Max(0) };
    let c = GuardedPair { guard: Pair(Max(1), Max(1)), value: Max(3) };
    assert_eq!(a.join(b).join(c), GuardedPair { guard: Pair(Max(1), Max(1)), value: Max(9) });
    assert_eq!(a.join(b.join(c)), GuardedPair { guard: Pair(Max(1), Max(1)), value: Max(3) });
    assert!(!partially_verify_semilattice_laws(&vec![a, b, c]));
}

#[test]
fn interval_keeps_what_both_ranges_allow() {
    assert_eq!(Interval::from((3, 8)), Interval { lower: Max(3), upper: Min(8) });
    assert_eq!(Interval::from((8, 3)), Interval::<i32>::top());
    assert_eq!(Interval::<i32>::top(), Interval { lower: Max(i32::MAX), upper: Min(i32::MIN) });
    assert_eq!(
        Interval::<i32>::bottom(),
        Interval { lower: Max(i32::MIN), upper: Min(i32::MAX) }
    );
    assert_eq!(Interval::from((5, 100)).join(Interval::from((3, 50))), Interval::from((5, 50)));
    assert_eq!(Interval::from((1, 2)).join(Interval::from((3, 4))), Interval::<i32>::top());
    assert_eq!(Interval::from((1, 2)).join(Interval::top()), Interval::<i32>::top());
    assert_eq!(
        Interval::from((5, 50)).compare(&Interval::from((4, 5))),
        None
    );
    assert_eq!(
        Interval::from((5, 5)).compare(&Interval::from((4, 6))),
        Some(Order::Greater)
    );
    assert_eq!(
        Interval::from((4, 6)).compare(&Interval::<i32>::top()),
        Some(Order::Less)
    );
    assert!(partially_verify_semilattice_laws(&vec![
        Interval::from((0, 10)),
        Interval::from((5, 20)),
        Interval::from((11, 12)),
        Interval::<i32>::top(),
        Interval::<i32>::bottom(),
    ]));
}
