use firstaide::env::{diff, Change, Diff, Env};
use std::collections::HashMap;

fn added(key: &str, vb: &str) -> Change {
    Change::Added(key.into(), vb.into())
}

fn changed(key: &str, va: &str, vb: &str) -> Change {
    Change::Changed(key.into(), va.into(), vb.into())
}

fn removed(key: &str, va: &str) -> Change {
    Change::Removed(key.into(), va.into())
}

fn env(items: &[(&str, &str)]) -> Env {
    items
        .iter()
        .cloned()
        .map(|(k, v)| (k.into(), v.into()))
        .collect()
}

fn eval_diff(diff: &Diff) -> HashMap<Vec<u8>, Option<Vec<u8>>> {
    let mut env = HashMap::new();
    eval_diff_into(diff, &mut env);
    env
}

fn eval_diff_into(diff: &Diff, env: &mut HashMap<Vec<u8>, Option<Vec<u8>>>) {
    for change in diff.iter() {
        match change {
            Change::Added(name, value) => env.insert(name.clone(), Some(value.clone())),
            Change::Changed(name, _, value) => env.insert(name.clone(), Some(value.clone())),
            Change::Removed(name, _) => env.insert(name.clone(), None),
        };
    }
}

#[test]
fn can_diff_empty_envs() {
    assert_eq!(Diff::new(), diff(&[], &[]));
}

#[test]
fn can_diff_similar_envs() {
    let ea = env(&[("FOO", "BAR")]);
    assert_eq!(Diff::new(), diff(&ea, &ea));
}

#[test]
fn can_diff_dissimilar_envs() {
    let ea = env(&[("FOO", "a"), ("ALICE", "a"), ("BOB", "c")]);
    let eb = env(&[("FOO", "a"), ("ALICE", "b"), ("CAROL", "d")]);
    assert_eq!(
        Diff::from(&[
            changed("ALICE", "a", "b"),
            removed("BOB", "c"),
            added("CAROL", "d"),
        ]),
        diff(&ea, &eb)
    );
}

#[test]
fn can_diff_dissimilar_envs_with_multiple_adds() {
    let ea = env(&[]);
    let eb = env(&[("ALICE", "a"), ("BOB", "b"), ("CAROL", "c")]);
    assert_eq!(
        Diff::from(&[added("ALICE", "a"), added("BOB", "b"), added("CAROL", "c")]),
        diff(&ea, &eb)
    );
}

#[test]
fn can_diff_dissimilar_envs_with_multiple_removes() {
    let ea = env(&[("ALICE", "a"), ("BOB", "b"), ("CAROL", "c")]);
    let eb = env(&[]);
    assert_eq!(
        Diff::from(&[
            removed("ALICE", "a"),
            removed("BOB", "b"),
            removed("CAROL", "c"),
        ]),
        diff(&ea, &eb)
    );
}

#[test]
fn can_push_into_diff() {
    let mut d = Diff::new();
    d.push(added("ALICE", "alice"));
    assert_eq!(Diff::from(&[added("ALICE", "alice"),]), d,);
}

#[test]
fn can_extend_diff() {
    let mut da = Diff::from(&[added("ALICE", "alice")]);
    let db = Diff::from(&[added("BOB", "bob")]);
    da.extend(db);
    let expected = Diff::from(&[added("ALICE", "alice"), added("BOB", "bob")]);
    assert_eq!(expected, da);
}

#[test]
fn can_exclude_by_prefix() {
    let ea = env(&[
        ("ALICE", "a"),
        ("BOB", "b"),
        ("BOBBY", "bb"),
        ("CAROL", "c"),
    ]);
    let eb = env(&[("ACCRINGTON", "a"), ("BOBBINGTON", "faa")]);
    assert_eq!(
        Diff::from(&[
            added("ACCRINGTON", "a"),
            removed("ALICE", "a"),
            removed("CAROL", "c"),
        ]),
        diff(&ea, &eb).exclude_by_prefix(b"BOB")
    );
    assert_eq!(
        Diff::from(&[
            added("ACCRINGTON", "a"),
            removed("ALICE", "a"),
            removed("BOB", "b"),
            removed("CAROL", "c"),
        ]),
        diff(&ea, &eb).exclude_by_prefix(b"BOBB")
    );
}

#[test]
fn can_simplify_diffs_1() {
    let mut da = Diff::from(&[
        added("ALICE1", "alice1"),
        added("ALICE2", "alice2"),
        added("ALICE3", "alice3"),
    ]);
    let mut env_before = eval_diff(&da);
    let db = Diff::from(&[
        added("ALICE1", "Alice1"),
        changed("ALICE2", "Alice2-before", "Alice2"),
        removed("ALICE3", "Alice3"),
    ]);
    eval_diff_into(&db, &mut env_before);
    da.extend(db);
    da.simplify();
    let env_after = eval_diff(&da);
    assert_eq!(
        Diff::from(&[
            added("ALICE1", "Alice1"),
            added("ALICE2", "Alice2"),
            removed("ALICE3", "alice3"),
        ]),
        da,
    );
    // The resulting environment is the same.
    assert_eq!(env_before, env_after);
}

#[test]
fn can_simplify_diffs_2() {
    let mut da = Diff::from(&[
        changed("CAROL1", "carol1-before", "carol1"),
        changed("CAROL2", "carol2-before", "carol2"),
        changed("CAROL3", "carol3-before", "carol3"),
    ]);
    let mut env_before = eval_diff(&da);
    let db = Diff::from(&[
        added("CAROL1", "Carol1"),
        changed("CAROL2", "Carol2-before", "Carol2"),
        removed("CAROL3", "Carol3"),
    ]);
    eval_diff_into(&db, &mut env_before);
    da.extend(db);
    da.simplify();
    let env_after = eval_diff(&da);
    assert_eq!(
        Diff::from(&[
            changed("CAROL1", "carol1-before", "Carol1"),
            changed("CAROL2", "carol2-before", "Carol2"),
            removed("CAROL3", "carol3-before"),
        ]),
        da,
    );
    // The resulting environment is the same.
    assert_eq!(env_before, env_after);
}

#[test]
fn can_simplify_diffs_3() {
    let mut da = Diff::from(&[
        removed("ROGER1", "roger1"),
        removed("ROGER2", "roger2"),
        removed("ROGER3", "roger3"),
    ]);
    let mut env_before = eval_diff(&da);
    let db = Diff::from(&[
        added("ROGER1", "Roger1"),
        changed("ROGER2", "Roger2-before", "Roger2"),
        removed("ROGER3", "Roger3"),
    ]);
    eval_diff_into(&db, &mut env_before);
    da.extend(db);
    da.simplify();
    let env_after = eval_diff(&da);
    // ROGER1 went from "roger1" to nothing and from nothing to "Roger1":
    // between the first and the last state its value has changed.
    assert_eq!(
        Diff::from(&[
            changed("ROGER1", "roger1", "Roger1"),
            added("ROGER2", "Roger2"),
            removed("ROGER3", "roger3"),
        ]),
        da,
    );
    // The resulting environment is the same.
    assert_eq!(env_before, env_after);
}

#[test]
fn diff_lists_each_name_once_in_ascending_order() {
    let ea = env(&[("Z", "1"), ("A", "1"), ("M", "1"), ("AA", "1")]);
    let eb = env(&[("M", "2"), ("B", "1"), ("Z", "1"), ("a", "x")]);
    let d = diff(&ea, &eb);
    let names: Vec<Vec<u8>> = d.iter().map(|c| c.name().clone()).collect();
    assert_eq!(
        names,
        vec![
            b"A".to_vec(),
            b"AA".to_vec(),
            b"B".to_vec(),
            b"M".to_vec(),
            b"a".to_vec()
        ]
    );
}

#[test]
fn diff_applied_to_first_snapshot_gives_second() {
    let ea = env(&[("FOO", "a"), ("ALICE", "a"), ("BOB", "c"), ("DAVE", "")]);
    let eb = env(&[("FOO", "a"), ("ALICE", "b"), ("CAROL", "d"), ("DAVE", "x")]);
    let mut state: HashMap<Vec<u8>, Vec<u8>> = ea.iter().cloned().collect();
    for change in diff(&ea, &eb).iter() {
        match change {
            Change::Added(name, new) => {
                assert!(state.insert(name.clone(), new.clone()).is_none());
            }
            Change::Changed(name, old, new) => {
                assert_eq!(state.insert(name.clone(), new.clone()), Some(old.clone()));
            }
            Change::Removed(name, old) => {
                assert_eq!(state.remove(name), Some(old.clone()));
            }
        }
    }
    let expected: HashMap<Vec<u8>, Vec<u8>> = eb.iter().cloned().collect();
    assert_eq!(state, expected);
}

#[test]
fn diff_does_not_depend_on_the_order_of_capture() {
    let ea = env(&[("B", "1"), ("A", "2"), ("C", "3")]);
    let eb = env(&[("C", "3"), ("B", "1"), ("A", "2")]);
    assert_eq!(Diff::new(), diff(&ea, &eb));
}

#[test]
fn diff_orders_names_as_raw_bytes() {
    let ea: Env = vec![(vec![0xff], vec![1]), (vec![0x00, 0x80], vec![2])];
    let eb: Env = vec![(vec![0x7f], vec![3]), (vec![], vec![4])];
    assert_eq!(
        Diff::from(&[
            Change::Added(vec![], vec![4]),
            Change::Removed(vec![0x00, 0x80], vec![2]),
            Change::Added(vec![0x7f], vec![3]),
            Change::Removed(vec![0xff], vec![1]),
        ]),
        diff(&ea, &eb)
    );
}

#[test]
fn diff_takes_the_last_pair_of_a_repeated_name() {
    let ea = env(&[("A", "first"), ("B", "b"), ("A", "last")]);
    let eb = env(&[("A", "last"), ("B", "old"), ("B", "b")]);
    assert_eq!(Diff::new(), diff(&ea, &eb));
    let ec = env(&[("A", "first")]);
    assert_eq!(
        Diff::from(&[changed("A", "last", "first"), removed("B", "b")]),
        diff(&ea, &ec)
    );
}

#[test]
fn simplify_telescopes_two_diffs() {
    let a = env(&[
        ("GONE_BACK", "1"),
        ("KEPT", "k"),
        ("REMOVED_LATE", "r"),
        ("REMOVED_EARLY", "e"),
        ("CHANGED_TWICE", "c0"),
        ("CHANGED_BACK", "same"),
        ("REPLACED", "old"),
        ("RESTORED", "r0"),
    ]);
    let b = env(&[
        ("GONE_BACK", "1"),
        ("KEPT", "k"),
        ("REMOVED_LATE", "r"),
        ("CHANGED_TWICE", "c1"),
        ("CHANGED_BACK", "other"),
        ("ADDED_EARLY", "x"),
        ("ADDED_THEN_CHANGED", "y0"),
        ("ADDED_THEN_REMOVED", "z"),
    ]);
    let c = env(&[
        ("GONE_BACK", "1"),
        ("KEPT", "k"),
        ("CHANGED_TWICE", "c2"),
        ("CHANGED_BACK", "same"),
        ("ADDED_EARLY", "x"),
        ("ADDED_THEN_CHANGED", "y1"),
        ("ADDED_LATE", "w"),
        ("REPLACED", "new"),
        ("RESTORED", "r0"),
    ]);
    let mut chained = diff(&a, &b);
    chained.extend(diff(&b, &c));
    chained.simplify();
    assert_eq!(diff(&a, &c), chained);
    assert_eq!(
        Diff::from(&[
            added("ADDED_EARLY", "x"),
            added("ADDED_LATE", "w"),
            added("ADDED_THEN_CHANGED", "y1"),
            changed("CHANGED_TWICE", "c0", "c2"),
            removed("REMOVED_EARLY", "e"),
            removed("REMOVED_LATE", "r"),
            changed("REPLACED", "old", "new"),
        ]),
        chained
    );
}

#[test]
fn simplify_of_a_diff_is_that_diff() {
    let a = env(&[("A", "1"), ("B", "2")]);
    let b = env(&[("B", "3"), ("C", "4")]);
    let mut d = diff(&a, &b);
    d.simplify();
    assert_eq!(diff(&a, &b), d);
}

#[test]
fn simplify_sorts_by_name() {
    let mut d = Diff::from(&[added("B", "b"), removed("A", "a"), changed("C", "c", "d")]);
    d.simplify();
    assert_eq!(
        Diff::from(&[removed("A", "a"), added("B", "b"), changed("C", "c", "d")]),
        d
    );
}

#[test]
fn simplify_drops_what_cancels_out() {
    let mut d = Diff::from(&[
        added("A", "a"),
        changed("B", "b0", "b1"),
        removed("C", "c"),
        removed("A", "a"),
        changed("B", "b1", "b0"),
        added("C", "c"),
    ]);
    d.simplify();
    assert_eq!(Diff::new(), d);
}

#[test]
fn simplify_folds_more_than_two_changes() {
    let mut d = Diff::from(&[
        added("A", "1"),
        removed("A", "1"),
        added("A", "2"),
        changed("A", "2", "3"),
    ]);
    d.simplify();
    assert_eq!(Diff::from(&[added("A", "3")]), d);
}

#[test]
fn exclude_by_keeps_what_the_predicate_rejects() {
    let d = Diff::from(&[added("A", "a"), removed("B", "b"), changed("C", "c", "d")]);
    let kept = d.exclude_by(|change| matches!(change, Change::Removed(_, _)));
    assert_eq!(Diff::from(&[added("A", "a"), changed("C", "c", "d")]), kept);
    assert_eq!(
        Diff::from(&[added("A", "a"), removed("B", "b"), changed("C", "c", "d")]),
        d
    );
}

#[test]
fn exclude_by_prefix_is_diff_of_snapshots_without_the_names() {
    let ea = env(&[("SSH_AGENT", "1"), ("HOME", "/a"), ("SSH", "x"), ("USER", "u")]);
    let eb = env(&[("SSH_AUTH", "2"), ("HOME", "/b"), ("SSH", "y")]);
    let fa = env(&[("HOME", "/a"), ("SSH", "x"), ("USER", "u")]);
    let fb = env(&[("HOME", "/b"), ("SSH", "y")]);
    assert_eq!(diff(&fa, &fb), diff(&ea, &eb).exclude_by_prefix(b"SSH_"));
    assert_eq!(diff(&ea, &eb), diff(&ea, &eb).exclude_by_prefix(b"NONE"));
    assert_eq!(Diff::new(), diff(&ea, &eb).exclude_by_prefix(b""));
}

#[test]
fn change_name_is_the_first_field() {
    assert_eq!(added("A", "x").name(), &b"A".to_vec());
    assert_eq!(changed("B", "x", "y").name(), &b"B".to_vec());
    assert_eq!(removed("C", "x").name(), &b"C".to_vec());
}

#[test]
fn simplify_telescopes_three_diffs() {
    let a = env(&[("A", "1"), ("B", "1"), ("C", "1")]);
    let b = env(&[("A", "2"), ("C", "1"), ("D", "1")]);
    let c = env(&[("B", "3"), ("C", "2"), ("D", "1")]);
    let d = env(&[("A", "1"), ("B", "3"), ("C", "1"), ("E", "5")]);
    let mut chained = diff(&a, &b);
    chained.extend(diff(&b, &c));
    chained.extend(diff(&c, &d));
    chained.simplify();
    assert_eq!(diff(&a, &d), chained);
    assert_eq!(Diff::from(&[changed("B", "1", "3"), added("E", "5")]), chained);
}
