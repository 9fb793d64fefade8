use semilattice::datalog::{cross_apply, cross_apply_columns};
use std::cell::RefCell;
use semilattice::map::gallop;
use semilattice::relation::{filter_batch, merge};
use semilattice::{
    fold, DeferredRestore, Interval, Iteration, MapLattice, MapRelation, Max, SemiLattice,
    SetRelation, Simple,
};

#[test]
fn check() {
    let mut interval = Simple::<Interval<i32>>::new();
    let mut x = Simple::<Max<i32>>::new();

    x.insert(Max(5));

    interval.insert(Interval::from((5, 100)));
    interval.insert(Interval::from((3, 50)));

    let mut iteration = Iteration::new(50);
    while iteration.unfinished() {
        let interval = iteration.guard(&mut interval);
        let x = iteration.guard(&mut x);

        let q = (x.inner.recent.0 + 1).min(7);
        x.inner.insert(Max(q));
        interval.inner.join(&*x.inner, |a: &Interval<i32>, b: &Max<i32>| {
            Interval::from((a.lower.0 - 1, b.0))
        });

        x.release(&mut iteration);
        interval.release(&mut iteration);
    }

    assert_eq!(iteration.rounds(), 45);
}

#[test]
fn iteration_stops_when_the_budget_is_used_up() {
    for budget in [0usize, 1, 2, 5, 17] {
        let mut relation = SetRelation::<u64>::new();
        let mut iteration = Iteration::new(budget);
        let mut rounds = 0u64;
        let mut calls = 0usize;
        loop {
            calls += 1;
            if !iteration.unfinished() {
                break;
            }
            // A derivation that finds something new in every round.
            let guard = iteration.guard(&mut relation);
            guard.inner.insert(rounds);
            guard.release(&mut iteration);
            rounds += 1;
        }
        assert_eq!(calls, budget.max(1));
        assert_eq!(rounds as usize, budget.saturating_sub(1));
        assert_eq!(iteration.rounds(), 0);
        assert!(!iteration.unfinished());
    }
}

#[test]
fn iteration_stops_when_nothing_changes() {
    let mut iteration = Iteration::new(10);
    assert!(iteration.unfinished());
    assert_eq!(iteration.rounds(), 9);
    assert!(!iteration.unfinished());
    assert_eq!(iteration.rounds(), 8);
}

#[test]
fn incremental_inserts_reach_the_fold_of_all_entries() {
    let first = vec![(5, Max(1)), (3, Max(1))];
    let second = vec![(5, Max(2)), (4, Max(0))];

    let mut relation = MapRelation::new();
    let mut rounds = vec![first.clone(), second.clone()].into_iter();
    let mut iteration = Iteration::new(50);
    while iteration.unfinished() {
        let guard = iteration.guard(&mut relation);
        if let Some(entries) = rounds.next() {
            for entry in entries {
                guard.inner.insert(entry);
            }
        }
        guard.release(&mut iteration);
    }

    let all = fold(vec![
        MapLattice::from_entries(first),
        MapLattice::from_entries(second),
    ]);
    assert_eq!(all.inner, vec![(3, Max(1)), (4, Max(0)), (5, Max(2))]);
    assert_eq!(relation.stable, vec![all.inner]);
    assert!(relation.recent.is_empty());
    assert!(relation.to_add.is_empty());
}

#[test]
fn restore_promotes_what_is_staged() {
    let mut relation = MapRelation::new();
    relation.insert((5, Max(1)));
    relation.insert((3, Max(1)));
    relation.insert((5, Max(4)));
    // Readers do not see what is staged.
    assert!(relation.stable().is_empty());
    assert!(relation.recent().is_empty());
    assert!(relation.restore());
    assert_eq!(relation.recent, vec![(3, Max(1)), (5, Max(4))]);
    assert_eq!(relation.recent(), vec![&(3, Max(1)), &(5, Max(4))]);
    assert!(relation.stable.is_empty());

    // Dominated entries are dropped; a greater value and a key beyond the batch stay.
    relation.insert((3, Max(0)));
    relation.insert((5, Max(9)));
    relation.insert((7, Max(0)));
    relation.insert((3, Max(1)));
    assert!(relation.restore());
    assert_eq!(relation.stable, vec![vec![(3, Max(1)), (5, Max(4))]]);
    assert_eq!(relation.recent, vec![(5, Max(9)), (7, Max(0))]);

    assert!(!relation.restore());
    assert_eq!(relation.stable, vec![vec![(3, Max(1)), (5, Max(9)), (7, Max(0))]]);
    assert_eq!(relation.stable(), vec![&(3, Max(1)), &(5, Max(9)), &(7, Max(0))]);
    assert!(relation.recent.is_empty());
    assert!(!relation.restore());
}

#[test]
fn restore_keeps_the_batches_tiered() {
    let mut relation = SetRelation::new();
    for key in 0..8u64 {
        relation.insert(key);
    }
    relation.restore();
    relation.restore();
    assert_eq!(relation.inner.stable.len(), 1);
    assert_eq!(relation.inner.stable[0].len(), 8);
    // A batch of less than half the size stands beside the large one.
    for key in 8..11u64 {
        relation.insert(key);
    }
    relation.restore();
    relation.restore();
    assert_eq!(
        relation.inner.stable.iter().map(|b| b.len()).collect::<Vec<_>>(),
        vec![8, 3]
    );
    // One entry is less than half of three as well.
    relation.insert(11);
    relation.restore();
    relation.restore();
    assert_eq!(
        relation.inner.stable.iter().map(|b| b.len()).collect::<Vec<_>>(),
        vec![8, 3, 1]
    );
    // Two entries take up the batch of one; the three that they are then take up
    // the batch of three, and the six the batch of eight.
    relation.insert(12);
    relation.insert(13);
    relation.restore();
    relation.restore();
    assert_eq!(
        relation.inner.stable.iter().map(|b| b.len()).collect::<Vec<_>>(),
        vec![14]
    );
    assert_eq!(
        relation.stable(),
        (0..14u64).collect::<Vec<_>>().iter().collect::<Vec<_>>()
    );
}

#[test]
fn relational_join_leaves_stable_against_stable_out() {
    let mut left = SetRelation::new();
    let mut right = SetRelation::new();
    left.insert(1u64);
    right.insert(10u64);
    left.restore();
    right.restore();
    left.restore();
    right.restore();
    left.insert(2);
    right.insert(20);
    left.restore();
    right.restore();
    // left: stable {1}, recent {2}; right: stable {10}, recent {20}.
    left.join(&right, |a: &u64, b: &u64| a * 100 + b);
    assert_eq!(
        left.inner.to_add,
        vec![(120, ()), (210, ()), (220, ())]
    );

    let mut total = Simple::<Max<u64>>::new();
    total.insert(Max(1));
    total.restore();
    total.restore();
    total.insert(Max(2));
    total.restore();
    // total: stable 1, recent 2.
    total.join(&right, |a: &Max<u64>, b: &u64| Max(a.0 * 100 + b));
    assert_eq!(total.pending, Max(220));
    let mut idle = Simple::<Max<u64>>::new();
    idle.join(&right, |a: &Max<u64>, b: &u64| Max(a.0 * 100 + b));
    assert_eq!(idle.pending, Max(0));
}

#[test]
fn cross_apply_goes_row_by_row() {
    let mut out = vec![0];
    cross_apply(&vec![&1, &2], &vec![&10, &20, &30], &|a: &i32, b: &i32| a * b, &mut out);
    assert_eq!(out, vec![0, 10, 20, 30, 20, 40, 60]);
}

#[test]
fn cross_apply_columns_goes_column_by_column() {
    let mut out = vec![0];
    cross_apply_columns(&vec![&1, &2], &vec![&10, &20, &30], &|a: &i32, b: &i32| a * b, &mut out);
    assert_eq!(out, vec![0, 10, 20, 20, 40, 30, 60]);
}

#[test]
fn simple_join_pairs_the_partitions_in_order() {
    let mut other = SetRelation::new();
    other.insert(10u64);
    other.insert(11);
    other.restore();
    other.restore();
    other.insert(20);
    other.insert(21);
    other.restore();
    // other: stable {10, 11}, recent {20, 21}.
    let mut total = Simple::<Max<u64>>::new();
    total.insert(Max(1));
    total.restore();
    total.restore();
    total.insert(Max(2));
    total.restore();
    // total: stable 1, recent 2.
    let calls = RefCell::new(Vec::new());
    total.join(&other, |a: &Max<u64>, b: &u64| {
        calls.borrow_mut().push((a.0, *b));
        Max(a.0 * 100 + b)
    });
    assert_eq!(
        calls.into_inner(),
        vec![(2, 10), (2, 11), (1, 20), (2, 20), (1, 21), (2, 21)]
    );
    assert_eq!(total.pending, Max(221));
    assert_eq!((total.stable, total.recent), (Max(1), Max(2)));
}

#[test]
fn simple_restore_reports_what_is_new() {
    let mut s = Simple::<Max<i32>>::new();
    assert!(s.stable().is_empty());
    s.insert(Max(3));
    s.insert(Max(1));
    assert_eq!(s.pending, Max(3));
    assert!(s.restore());
    assert_eq!((s.stable, s.recent, s.pending), (Max(i32::MIN), Max(3), Max(i32::MIN)));
    assert_eq!(s.recent(), vec![&Max(3)]);
    assert!(!s.restore());
    assert_eq!((s.stable, s.recent, s.pending), (Max(3), Max(i32::MIN), Max(i32::MIN)));
    assert_eq!(s.stable(), vec![&Max(3)]);
    assert!(s.recent().is_empty());
}

#[test]
fn gallop_finds_the_first_key_that_is_not_less() {
    let run: Vec<(i32, ())> = (0..100).map(|k| (2 * k, ())).collect();
    for start in [0usize, 1, 7, 50, 99, 100] {
        for key in [-1, 0, 1, 2, 15, 16, 99, 100, 197, 198, 199, 500] {
            let want = (start..run.len()).find(|&i| run[i].0 >= key).unwrap_or(run.len());
            let floor = run.partition_point(|e| e.0 < key);
            let expected = if floor < start { start } else { want };
            assert_eq!(gallop(&run, start, &key), expected);
        }
    }
    assert_eq!(gallop(&Vec::<(i32, ())>::new(), 0, &3), 0);
}

#[test]
fn merge_puts_runs_end_to_end_or_merges_them() {
    let run = |entries: &[(i32, i32)]| entries.iter().map(|(k, v)| (*k, Max(*v))).collect::<Vec<_>>();
    assert_eq!(merge(run(&[(1, 1)]), run(&[])), run(&[(1, 1)]));
    assert_eq!(merge(run(&[]), run(&[(1, 1)])), run(&[(1, 1)]));
    assert_eq!(merge(run(&[(1, 1), (2, 2)]), run(&[(3, 3)])), run(&[(1, 1), (2, 2), (3, 3)]));
    assert_eq!(merge(run(&[(3, 3)]), run(&[(1, 1), (2, 2)])), run(&[(1, 1), (2, 2), (3, 3)]));
    assert_eq!(merge(run(&[(1, 1), (3, 9)]), run(&[(3, 4), (5, 0)])), run(&[(1, 1), (3, 9), (5, 0)]));
    assert_eq!(
        merge(run(&[(1, 1), (4, 0), (6, 2)]), run(&[(2, 7), (4, 3), (5, 5)])),
        run(&[(1, 1), (2, 7), (4, 3), (5, 5), (6, 2)])
    );
}

#[test]
fn filter_batch_drops_dominated_entries() {
    let run = |entries: &[(i32, i32)]| entries.iter().map(|(k, v)| (*k, Max(*v))).collect::<Vec<_>>();
    let batch = run(&[(1, 5), (3, 5), (4, 5), (8, 5)]);
    assert_eq!(
        filter_batch(run(&[(0, 0), (1, 5), (3, 6), (4, 2), (7, 0), (8, 9), (9, 0)]), &batch),
        run(&[(0, 0), (3, 6), (7, 0), (8, 9), (9, 0)])
    );
    assert_eq!(filter_batch(run(&[(1, 1)]), &run(&[])), run(&[(1, 1)]));
    assert_eq!(filter_batch(run(&[]), &batch), run(&[]));
}

#[test]
fn bottom_relations_are_empty() {
    let relation = MapRelation::<u64, Max<u64>>::new();
    assert!(relation.stable.is_empty() && relation.recent.is_empty() && relation.to_add.is_empty());
    assert_eq!(<()>::bottom(), ());
}

#[test]
fn a_batch_of_exactly_twice_the_size_is_taken_up() {
    let mut relation = SetRelation::new();
    relation.insert(1u64);
    relation.insert(2);
    relation.restore();
    relation.restore();
    assert_eq!(relation.inner.stable, vec![vec![(1, ()), (2, ())]]);
    relation.insert(0);
    relation.restore();
    relation.restore();
    assert_eq!(relation.inner.stable, vec![vec![(0, ()), (1, ()), (2, ())]]);

    let mut relation = SetRelation::new();
    for key in 0..3u64 {
        relation.insert(key);
    }
    relation.restore();
    relation.restore();
    relation.insert(9);
    relation.restore();
    relation.restore();
    assert_eq!(
        relation.inner.stable,
        vec![vec![(0, ()), (1, ()), (2, ())], vec![(9, ())]]
    );
}

#[test]
fn default_values_are_bottom() {
    assert_eq!(Max::<i32>::default(), Max(i32::MIN));
    assert_eq!(Interval::<i32>::default(), Interval::bottom());
    assert_eq!(MapLattice::<u64, Max<u64>>::default(), MapLattice::bottom());
    assert_eq!(MapRelation::<u64, Max<u64>>::default(), MapRelation::new());
    assert_eq!(Simple::<Max<u64>>::default().pending, Max(0));
}
