use sanity::actions::{ListAction, SetAction};
use sanity::config::Config;
use sanity::ordered::{apply_list_action, next_match_action};
use sanity::sets::{apply_set_action, next_match_set_action};

fn s(x: &str) -> String {
    x.to_string()
}

fn strs(xs: &[&str]) -> Vec<String> {
    xs.iter().map(|x| x.to_string()).collect()
}

#[test]
fn mismatched_head_is_removed_first() {
    let current = strs(&["A", "B"]);
    let target = strs(&["X", "B"]);
    assert_eq!(
        next_match_action(&current, &target),
        Some(ListAction::Remove(0))
    );
}

#[test]
fn tail_shift_remove_then_insert() {
    // the mismatch at position one is decided as a shifted removal,
    // never as an insertion in front of the mismatched element; the
    // greedy rule then also clears the tail before rebuilding it
    let mut current = strs(&["A", "B", "C"]);
    let target = strs(&["A", "Z", "C"]);
    let expected = vec![
        ListAction::Remove(1),
        ListAction::Remove(1),
        ListAction::Insert(1, s("Z")),
        ListAction::Insert(2, s("C")),
    ];
    for step in &expected {
        let decided = next_match_action(&current, &target).unwrap();
        assert_eq!(&decided, step);
        apply_list_action(&mut current, &decided);
    }
    assert_eq!(current, target);
    assert_eq!(next_match_action(&current, &target), None);
}

#[test]
fn ordered_idempotent_at_convergence() {
    assert_eq!(next_match_action(&strs(&[]), &strs(&[])), None);
    let l = strs(&["a", "b", "c"]);
    assert_eq!(next_match_action(&l, &l), None);
}

#[test]
fn set_idempotent_at_convergence() {
    let s1 = strs(&["redis", "postgres"]);
    assert_eq!(next_match_set_action(&s1, &s1), None);
    assert_eq!(next_match_set_action(&strs(&[]), &strs(&[])), None);
}

#[test]
fn missing_head_scenario() {
    // the mismatched observed head is cleared first — the greedy rule
    // does not look ahead for an insert-only fix — and the desired
    // sequence is then rebuilt; exactly len(current) + len(target)
    // actions in all
    let mut current = strs(&["heroku/nodejs"]);
    let target = strs(&["heroku/python", "heroku/nodejs"]);
    let expected = vec![
        ListAction::Remove(0),
        ListAction::Insert(0, s("heroku/python")),
        ListAction::Insert(1, s("heroku/nodejs")),
    ];
    for step in &expected {
        let decided = next_match_action(&current, &target).unwrap();
        assert_eq!(&decided, step);
        apply_list_action(&mut current, &decided);
    }
    assert_eq!(current, target);
    assert_eq!(next_match_action(&current, &target), None);
}

#[test]
fn set_add_scenario() {
    let current = strs(&["redis"]);
    let target = strs(&["redis", "postgres"]);
    assert_eq!(
        next_match_set_action(&current, &target),
        Some(SetAction::Add(s("postgres")))
    );
    let current = strs(&["redis", "postgres"]);
    assert_eq!(next_match_set_action(&current, &target), None);
}

#[test]
fn set_remove_until_empty() {
    let mut current = strs(&["redis", "postgres"]);
    let target: Vec<String> = Vec::new();
    let mut steps = 0;
    while let Some(action) = next_match_set_action(&current, &target) {
        match &action {
            SetAction::Remove(x) => assert!(current.contains(x)),
            SetAction::Add(_) => panic!("nothing to add towards an empty target"),
        }
        apply_set_action(&mut current, &action);
        steps += 1;
        assert!(steps <= 2);
    }
    assert!(current.is_empty());
    assert_eq!(steps, 2);
}

#[test]
fn ordered_converges_within_bound() {
    let cases: Vec<(Vec<String>, Vec<String>)> = vec![
        (strs(&[]), strs(&["a", "b"])),
        (strs(&["a", "b"]), strs(&[])),
        (strs(&["x", "a", "y"]), strs(&["a", "b", "y", "z"])),
        (strs(&["b", "a"]), strs(&["a", "b"])),
        (strs(&["a", "a"]), strs(&["a"])),
    ];
    for (mut current, target) in cases {
        let bound = current.len() + target.len();
        let mut steps = 0;
        while let Some(action) = next_match_action(&current, &target) {
            apply_list_action(&mut current, &action);
            steps += 1;
            assert!(steps <= bound, "needed more than len(current) + len(target) steps");
        }
        assert_eq!(current, target);
    }
}

#[test]
fn set_converges_within_symmetric_difference() {
    let mut current = strs(&["a", "b", "c"]);
    let target = strs(&["b", "d"]);
    // the symmetric difference is {a, c, d}: exactly three steps
    let mut steps = 0;
    while let Some(action) = next_match_set_action(&current, &target) {
        match &action {
            SetAction::Add(x) => assert!(target.contains(x) && !current.contains(x)),
            SetAction::Remove(x) => assert!(current.contains(x) && !target.contains(x)),
        }
        apply_set_action(&mut current, &action);
        steps += 1;
        assert!(steps <= 3);
    }
    assert_eq!(steps, 3);
    current.sort();
    assert_eq!(current, strs(&["b", "d"]));
}

#[test]
fn addition_preferred_over_removal() {
    let current = strs(&["surplus"]);
    let target = strs(&["wanted"]);
    match next_match_set_action(&current, &target) {
        Some(SetAction::Add(x)) => assert_eq!(x, s("wanted")),
        other => panic!("expected an addition first, got {:?}", other),
    }
}

#[test]
fn add_one_shifts_position() {
    assert_eq!(ListAction::Remove(0).add_one(), ListAction::Remove(1));
    assert_eq!(
        ListAction::Insert(2, s("v")).add_one(),
        ListAction::Insert(3, s("v"))
    );
}

#[test]
fn config_drives_both_reconcilers() {
    let config = Config {
        buildpacks: strs(&["heroku/python", "heroku/nodejs"]),
        app: s("myapp"),
        addons: strs(&["redis"]),
    };
    let mut current = strs(&["heroku/nodejs"]);
    while let Some(action) = next_match_action(&current, &config.buildpacks) {
        apply_list_action(&mut current, &action);
    }
    assert_eq!(current, config.buildpacks);
    assert_eq!(next_match_set_action(&strs(&["redis"]), &config.addons), None);
}
