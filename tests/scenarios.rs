use matchmaker::connections::Connections;
use matchmaker::matching::{process, MatchError, MatchingData};
use matchmaker::rules::{Attributes, Rule, RuleOperand, RuleSeverity};
use matchmaker::search::calc_max_combinations;

fn element(id: &str, values: &[(&str, &str)]) -> (String, Vec<(String, String)>) {
    (
        id.to_string(),
        values
            .iter()
            .map(|(f, v)| (f.to_string(), v.to_string()))
            .collect(),
    )
}

fn rule(severity: RuleSeverity, field: &str, target_field: &str, operand: RuleOperand) -> Rule {
    Rule {
        severity,
        field: field.to_string(),
        target_field: target_field.to_string(),
        operand,
    }
}

fn data(elements: Attributes, rules: Vec<Rule>, outputs: Vec<(usize, i16)>) -> MatchingData {
    let mut d = MatchingData::new();
    d.elements = elements;
    d.rules = rules;
    d.outputs = outputs;
    d
}

#[test]
fn two_elements_form_one_group() {
    let d = data(
        vec![element("a", &[("team", "red")]), element("b", &[("team", "blue")])],
        vec![rule(RuleSeverity::Standard, "team", "team", RuleOperand::Match)],
        vec![(2, 1)],
    );
    let r = process(&d).unwrap();
    assert_eq!(r.score, 2);
    assert_eq!(r.connections, vec![vec![0, 1]]);
}

#[test]
fn matching_standard_rule_adds_one_each_way() {
    let d = data(
        vec![element("a", &[("team", "red")]), element("b", &[("team", "red")])],
        vec![rule(RuleSeverity::Standard, "team", "team", RuleOperand::Match)],
        vec![(2, 1)],
    );
    let r = process(&d).unwrap();
    assert_eq!(r.score, 4);
    assert_eq!(r.connections, vec![vec![0, 1]]);
}

#[test]
fn excluded_pair_leaves_three_elements_infeasible() {
    let d = data(
        vec![
            element("a", &[("team", "red")]),
            element("b", &[("team", "red")]),
            element("c", &[("team", "blue")]),
        ],
        vec![rule(RuleSeverity::ForceExclude, "team", "team", RuleOperand::Match)],
        vec![(2, -1)],
    );
    let r = process(&d).unwrap();
    assert_eq!(r.score, i32::MIN);
    assert!(r.connections.is_empty());
    let c = Connections::build(&d.elements, &d.rules).unwrap();
    assert_eq!(c.matrix[0][1], i16::MIN);
    assert_eq!(c.matrix[1][0], i16::MIN);
    assert_eq!(c.matrix[0][2], 1);
}

#[test]
fn spent_quota_with_elements_left_is_fatal() {
    let d = data(
        vec![
            element("a", &[("x", "1")]),
            element("b", &[("x", "1")]),
            element("c", &[("x", "1")]),
            element("d", &[("x", "1")]),
        ],
        vec![],
        vec![(3, 1)],
    );
    assert!(matches!(process(&d), Err(MatchError::NoViableOutput)));
}

#[test]
fn empty_quota_table_is_fatal() {
    let d = data(
        vec![element("a", &[("x", "1")]), element("b", &[("x", "1")])],
        vec![],
        vec![],
    );
    assert!(matches!(process(&d), Err(MatchError::NoViableOutput)));
}

#[test]
fn group_moves_up_into_a_larger_size() {
    let d = data(
        vec![element("a", &[("x", "1")]), element("b", &[("x", "1")])],
        vec![],
        vec![(3, 1)],
    );
    let r = process(&d).unwrap();
    assert_eq!(r.score, 2);
    assert_eq!(r.connections, vec![vec![0, 1]]);
}

#[test]
fn best_pairing_is_chosen() {
    // a likes c and b likes d: the best pairs are {a, c} and {b, d}.
    let d = data(
        vec![
            element("a", &[("name", "a"), ("likes", "c")]),
            element("b", &[("name", "b"), ("likes", "d")]),
            element("c", &[("name", "c"), ("likes", "a")]),
            element("d", &[("name", "d"), ("likes", "b")]),
        ],
        vec![rule(RuleSeverity::Prefer, "likes", "name", RuleOperand::Match)],
        vec![(2, -1)],
    );
    let r = process(&d).unwrap();
    // each liked direction adds 2 to the Standard 1: (3 + 3) per pair
    assert_eq!(r.score, 12);
    let mut groups = r.connections.clone();
    for g in groups.iter_mut() {
        g.sort();
    }
    groups.sort();
    assert_eq!(groups, vec![vec![0, 2], vec![1, 3]]);
}

#[test]
fn group_of_three_uses_its_size() {
    let d = data(
        vec![
            element("a", &[("x", "1")]),
            element("b", &[("x", "1")]),
            element("c", &[("x", "1")]),
        ],
        vec![],
        vec![(2, -1), (3, 1)],
    );
    let r = process(&d).unwrap();
    assert_eq!(r.score, 6);
    assert_eq!(r.connections, vec![vec![0, 1, 2]]);
}

#[test]
fn missing_field_is_a_lookup_error() {
    let d = data(
        vec![element("a", &[("x", "1")]), element("b", &[("y", "1")])],
        vec![rule(RuleSeverity::Prefer, "x", "x", RuleOperand::Match)],
        vec![(2, 1)],
    );
    assert!(matches!(process(&d), Err(MatchError::Lookup(_))));
}

#[test]
fn force_rule_excludes_pairs_that_fail_it() {
    let d = data(
        vec![
            element("a", &[("team", "red")]),
            element("b", &[("team", "blue")]),
            element("c", &[("team", "red")]),
            element("d", &[("team", "blue")]),
        ],
        vec![rule(RuleSeverity::Force, "team", "team", RuleOperand::Match)],
        vec![(2, -1)],
    );
    let c = Connections::build(&d.elements, &d.rules).unwrap();
    assert_eq!(c.matrix[0][1], i16::MIN);
    assert_eq!(c.matrix[0][2], 1);
    let r = process(&d).unwrap();
    assert_eq!(r.score, 4);
    assert_eq!(r.connections.len(), 2);
    for g in &r.connections {
        assert!(g == &vec![0, 2] || g == &vec![2, 0] || g == &vec![1, 3] || g == &vec![3, 1]);
    }
}

#[test]
fn search_from_a_partial_state() {
    let t = vec![
        element("a", &[("x", "1")]),
        element("b", &[("x", "1")]),
        element("c", &[("x", "1")]),
    ];
    let c = Connections::from_data(&t);
    let anchors = c.anchor_order();
    // element 0 is already placed: the other two form the only group
    let r = calc_max_combinations(&c, &anchors, 0, vec![true, false, false], &vec![(2, 1)]).unwrap();
    assert_eq!(r, (2, vec![vec![1, 2]]));
}

#[test]
fn five_elements_split_into_the_allowed_sizes() {
    let d = data(
        vec![
            element("a", &[("x", "1")]),
            element("b", &[("x", "1")]),
            element("c", &[("x", "1")]),
            element("d", &[("x", "1")]),
            element("e", &[("x", "1")]),
        ],
        vec![],
        vec![(2, 1), (3, 1)],
    );
    let r = process(&d).unwrap();
    assert_eq!(r.score, 8);
    assert_eq!(r.connections, vec![vec![0, 1, 2], vec![3, 4]]);
    let mut seen = vec![0; 5];
    for g in &r.connections {
        for &e in g {
            seen[e] += 1;
        }
    }
    assert_eq!(seen, vec![1; 5]);
}
