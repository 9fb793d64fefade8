use semilattice::{
    fold, partially_verify_semilattice_laws, MapLattice, Max, Min, Order, Redactable,
    SemiLattice, SetLattice, TreeMap, TreeSet, VecLattice,
};
use std::collections::{BTreeMap, BTreeSet};

#[test]
fn set_check_laws() {
    assert!(partially_verify_semilattice_laws(&vec![
        TreeSet::from_tree(BTreeSet::from([1, 2, 3])),
        TreeSet::from_tree(BTreeSet::from([1, 2, 4])),
        TreeSet::from_tree(BTreeSet::from([1, 2, 5])),
        TreeSet::from_tree(BTreeSet::from([1, 2, 3, 4, 5])),
    ]));
}

#[test]
fn set_check_hashes() {
    let mut a = TreeSet::bottom();

    a.insert("Alice");
    a.insert("Alice");

    let mut b = TreeSet::bottom();
    b.insert("Bob");
    b.insert("Bob");

    let mut c = fold(vec![a.clone(), b.clone()]);
    c.insert("Alice");
    assert_eq!(c.inner, BTreeSet::from(["Alice", "Bob"]));
}

#[test]
fn check_hashes() {
    let mut a = TreeSet::bottom();

    a.insert("Alice");
    a.insert("Alice");

    let mut b = TreeSet::bottom();
    b.insert("Bob");
    b.insert("Bob");

    let mut c = fold(vec![a.clone(), b.clone()]);
    c.insert("Alice");
    assert_eq!(a.inner.len(), 1);
    assert_eq!(b.inner.len(), 1);
    assert_eq!(c.inner.len(), 2);
}

#[test]
fn check_laws() {
    assert!(partially_verify_semilattice_laws(&vec![
        TreeSet::from_tree(BTreeSet::from([1, 2, 3])),
        TreeSet::from_tree(BTreeSet::from([1, 2, 4])),
        TreeSet::from_tree(BTreeSet::from([1, 2, 5])),
        TreeSet::from_tree(BTreeSet::from([1, 2, 3, 4, 5])),
    ]));
}

#[test]
fn set() {
    let a = BTreeSet::from(["k1", "k2", "k3"]);
    let b = BTreeSet::from(["k1", "k3", "k4"]);
    let c = BTreeSet::from(["k1", "k2", "k3", "k4"]);
    assert_eq!(fold(vec![a, b]), c);
}

#[test]
fn map() {
    let a = BTreeMap::from([
        ("k1", (Min(0), Max(1))),
        ("k2", (Min(1), Max(2))),
        ("k3", (Min(2), Max(3))),
    ]);
    let b = BTreeMap::from([
        ("k1", (Min(3), Max(4))),
        ("k2", (Min(4), Max(5))),
        ("k4", (Min(5), Max(6))),
    ]);
    let c = BTreeMap::from([
        ("k1", (Min(0), Max(4))),
        ("k2", (Min(1), Max(5))),
        ("k3", (Min(2), Max(3))),
        ("k4", (Min(5), Max(6))),
    ]);
    assert_eq!(fold(vec![a, b]), c);
}

#[test]
fn map_check_laws() {
    let samples = (-5..5)
        .map(|x| {
            TreeMap::from_tree(BTreeMap::from([
                // x = 4
                ("a", Max(x)),
                // x = 2 or 3
                ("b", Max(x * (5 - x))),
                // x = -5
                ("c", Max(5 - x)),
            ]))
        })
        .collect::<Vec<_>>();

    assert!(partially_verify_semilattice_laws(&samples));

    assert_eq!(
        fold(samples),
        TreeMap::from_tree(BTreeMap::from([("a", Max(4)), ("b", Max(6)), ("c", Max(10)),]))
    );

    let mut a = TreeMap::bottom();

    a.insert("Alice", Max(0));
    a.insert("Alice", Max(1));

    let mut b = TreeMap::bottom();
    b.insert("Bob", Max(1));
    b.insert("Bob", Max(0));

    let mut c = fold(vec![a, b]);
    c.insert("Carol", Max(0));
    assert_eq!(
        c.inner,
        BTreeMap::from([("Alice", Max(1)), ("Bob", Max(1)), ("Carol", Max(0)),])
    );
}

#[test]
fn tree_set_fold_is_the_union() {
    let folded = fold(vec![
        TreeSet::from_tree(BTreeSet::from([1, 2, 3])),
        TreeSet::from_tree(BTreeSet::from([1, 2, 4])),
        TreeSet::from_tree(BTreeSet::from([1, 2, 5])),
    ]);
    assert_eq!(folded, TreeSet::from_tree(BTreeSet::from([1, 2, 3, 4, 5])));
}

#[test]
fn sorted_set_fold_is_the_union() {
    let folded = fold(vec![
        SetLattice::from_keys(vec![1, 2, 3]),
        SetLattice::from_keys(vec![1, 2, 4]),
        SetLattice::from_keys(vec![5, 2, 1]),
    ]);
    assert_eq!(folded, SetLattice::from_keys(vec![1, 2, 3, 4, 5]));
    assert_eq!(folded.keys(), vec![&1, &2, &3, &4, &5]);
}

#[test]
fn tree_set_orders_by_inclusion() {
    let small = TreeSet::from_tree(BTreeSet::from([1, 2]));
    let big = TreeSet::from_tree(BTreeSet::from([1, 2, 3]));
    let other = TreeSet::from_tree(BTreeSet::from([4]));
    assert_eq!(small.compare(&big), Some(Order::Less));
    assert_eq!(big.compare(&small), Some(Order::Greater));
    assert_eq!(big.compare(&big), Some(Order::Equal));
    assert_eq!(small.compare(&other), None);
    assert_eq!(TreeSet::<i32>::bottom().compare(&small), Some(Order::Less));
    assert_eq!(TreeSet::<i32>::bottom().compare(&TreeSet::bottom()), Some(Order::Equal));
    assert_eq!(TreeSet::singleton(4), other);
    assert!(partially_verify_semilattice_laws(&vec![
        TreeSet::bottom(),
        small,
        big,
        other
    ]));
}

#[test]
fn sorted_set_orders_by_inclusion() {
    let small = SetLattice::from_keys(vec![2, 1]);
    let big = SetLattice::from_keys(vec![3, 1, 2]);
    let other = SetLattice::singleton(4);
    assert_eq!(small.compare(&big), Some(Order::Less));
    assert_eq!(big.compare(&small), Some(Order::Greater));
    assert_eq!(big.compare(&big), Some(Order::Equal));
    assert_eq!(small.compare(&other), None);
    assert!(big.contains(&3));
    assert!(!small.contains(&3));
    let mut grown = small.clone();
    grown.insert(3);
    grown.insert(3);
    assert_eq!(grown, big);
    assert!(partially_verify_semilattice_laws(&vec![
        SetLattice::bottom(),
        small,
        big,
        other
    ]));
}

#[test]
fn map_join_passes_unseen_keys_and_joins_shared_ones() {
    let left = MapLattice::from_entries(vec![("a", Min(0)), ("b", Min(1))]);
    let right = MapLattice::from_entries(vec![("a", Min(3)), ("c", Min(2))]);
    let want = MapLattice::from_entries(vec![("a", Min(0)), ("b", Min(1)), ("c", Min(2))]);
    assert_eq!(left.clone().join(right.clone()), want);
    assert_eq!(right.join(left), want);

    let left = TreeMap::from_tree(BTreeMap::from([("a", Min(0)), ("b", Min(1))]));
    let right = TreeMap::from_tree(BTreeMap::from([("a", Min(3)), ("c", Min(2))]));
    let want = TreeMap::from_tree(BTreeMap::from([("a", Min(0)), ("b", Min(1)), ("c", Min(2))]));
    assert_eq!(left.clone().join(right.clone()), want);
    assert_eq!(right.join(left), want);
}

#[test]
fn sorted_map_keeps_its_entries_sorted() {
    let mut m = MapLattice::bottom();
    m.insert(5, Max(1));
    m.insert(3, Max(2));
    m.insert(9, Max(0));
    m.insert(5, Max(7));
    m.insert(5, Max(4));
    assert_eq!(m.inner, vec![(3, Max(2)), (5, Max(7)), (9, Max(0))]);
    assert_eq!(m.search(&5), Ok(1));
    assert_eq!(m.search(&4), Err(1));
    assert_eq!(m.search(&10), Err(3));
    assert_eq!(m.entry(&9), Some(&Max(0)));
    assert_eq!(m.entry(&4), None);
    *m.entry_mut(&4) = Max(6);
    assert_eq!(m.entry_mut(&1), &mut Max(i32::MIN));
    assert_eq!(
        m.inner,
        vec![(1, Max(i32::MIN)), (3, Max(2)), (4, Max(6)), (5, Max(7)), (9, Max(0))]
    );
    assert_eq!(MapLattice::singleton(1, Max(2)).inner, vec![(1, Max(2))]);
    assert_eq!(
        MapLattice::from_entries(vec![(2, Max(1)), (1, Max(1)), (2, Max(5))]).inner,
        vec![(1, Max(1)), (2, Max(5))]
    );
}

#[test]
fn sorted_map_compares_key_sets_and_values() {
    let of = |entries: &[(i32, i32)]| {
        MapLattice::from_entries(entries.iter().map(|(k, v)| (*k, Max(*v))).collect())
    };
    assert_eq!(of(&[]).compare(&of(&[])), Some(Order::Equal));
    assert_eq!(of(&[]).compare(&of(&[(1, 1)])), Some(Order::Less));
    assert_eq!(of(&[(1, 1)]).compare(&of(&[(1, 1)])), Some(Order::Equal));
    assert_eq!(of(&[(1, 1)]).compare(&of(&[(1, 2)])), Some(Order::Less));
    assert_eq!(of(&[(1, 3)]).compare(&of(&[(1, 2)])), Some(Order::Greater));
    assert_eq!(of(&[(1, 1), (2, 1)]).compare(&of(&[(1, 1)])), Some(Order::Greater));
    assert_eq!(of(&[(1, 1), (2, 1)]).compare(&of(&[(1, 2)])), None);
    assert_eq!(of(&[(1, 1)]).compare(&of(&[(2, 1)])), None);
    assert_eq!(of(&[(1, 1), (3, 0)]).compare(&of(&[(1, 2), (2, 5), (3, 0)])), Some(Order::Less));
    assert_eq!(of(&[(1, 1), (3, 9)]).compare(&of(&[(1, 2), (2, 5), (3, 0)])), None);
    let long: Vec<(i32, i32)> = (0..40).map(|k| (k, 0)).collect();
    assert_eq!(of(&[(37, 0)]).compare(&of(&long)), Some(Order::Less));
    assert_eq!(of(&long).compare(&of(&[(0, 0), (39, 0)])), Some(Order::Greater));
    assert_eq!(of(&long).compare(&of(&[(0, 0), (39, 1)])), None);
    assert!(partially_verify_semilattice_laws(&vec![
        of(&[]),
        of(&[(1, 1)]),
        of(&[(1, 2), (2, 0)]),
        of(&[(2, 3)]),
        of(&[(0, 0), (5, 5)]),
    ]));
}

#[test]
fn tree_map_compares_key_sets_and_values() {
    let of = |entries: &[(i32, i32)]| {
        TreeMap::from_tree(entries.iter().map(|(k, v)| (*k, Max(*v))).collect::<BTreeMap<_, _>>())
    };
    assert_eq!(of(&[]).compare(&of(&[])), Some(Order::Equal));
    assert_eq!(of(&[]).compare(&of(&[(1, 1)])), Some(Order::Less));
    assert_eq!(of(&[(1, 1)]).compare(&of(&[(1, 2)])), Some(Order::Less));
    assert_eq!(of(&[(1, 3)]).compare(&of(&[(1, 2)])), Some(Order::Greater));
    assert_eq!(of(&[(1, 1), (2, 1)]).compare(&of(&[(1, 1)])), Some(Order::Greater));
    assert_eq!(of(&[(1, 1), (2, 1)]).compare(&of(&[(1, 2)])), None);
    assert_eq!(of(&[(1, 1)]).compare(&of(&[(2, 1)])), None);
    assert_eq!(TreeMap::singleton(1, Max(1)), of(&[(1, 1)]));
    // Values that are incomparable leave the maps without an order.
    let left = TreeMap::from_tree(BTreeMap::from([(1, Redactable::Data("x"))]));
    let right = TreeMap::from_tree(BTreeMap::from([(1, Redactable::Data("y"))]));
    assert_eq!(left.compare(&right), None);
    assert_eq!(
        left.join(right),
        TreeMap::from_tree(BTreeMap::from([(1, Redactable::Redacted)]))
    );
}

#[test]
fn vec_lattice_joins_place_by_place() {
    let of = |values: &[i32]| VecLattice { inner: values.iter().map(|v| Max(*v)).collect() };
    assert_eq!(of(&[1, 5]).join(of(&[3, 2, 7])), of(&[3, 5, 7]));
    assert_eq!(of(&[3, 2, 7]).join(of(&[1, 5])), of(&[3, 5, 7]));
    assert_eq!(of(&[1, 2]).join(of(&[1, 2, 0])), of(&[1, 2, 0]));
    assert_eq!(of(&[]).compare(&of(&[])), Some(Order::Equal));
    assert_eq!(of(&[1]).compare(&of(&[1, 0])), Some(Order::Less));
    assert_eq!(of(&[1, 0]).compare(&of(&[1])), Some(Order::Greater));
    assert_eq!(of(&[2]).compare(&of(&[1, 0])), None);
    assert_eq!(of(&[1, 5]).compare(&of(&[3, 2])), None);
    assert_eq!(of(&[1, 2]).compare(&of(&[3, 2])), Some(Order::Less));
    assert_eq!(VecLattice::singleton(Max(4)), of(&[4]));
    let mut v = of(&[1]);
    v.push(Max(2));
    assert_eq!(v, of(&[1, 2]));
    assert_eq!(v.entry(1), Some(&Max(2)));
    assert_eq!(v.entry(2), None);
    *v.entry_mut(3) = Max(9);
    assert_eq!(v, of(&[1, 2, i32::MIN, 9]));
    *v.entry_mut(0) = Max(8);
    assert_eq!(v, of(&[8, 2, i32::MIN, 9]));
    assert!(partially_verify_semilattice_laws(&vec![
        of(&[]),
        of(&[1, 5]),
        of(&[3, 2, 7]),
        of(&[0]),
    ]));
}
