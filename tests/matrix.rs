use matchmaker::connections::Connections;
use matchmaker::rules::{Attributes, Rule, RuleActions, RuleOperand, RuleSeverity};
use matchmaker::text::{chars_of, list_contains};

fn element(id: &str, values: &[(&str, &str)]) -> (String, Vec<(String, String)>) {
    (
        id.to_string(),
        values
            .iter()
            .map(|(f, v)| (f.to_string(), v.to_string()))
            .collect(),
    )
}

fn rule(severity: RuleSeverity, field: &str, target_field: &str, operand: RuleOperand) -> Rule {
    Rule {
        severity,
        field: field.to_string(),
        target_field: target_field.to_string(),
        operand,
    }
}

fn table() -> Attributes {
    vec![
        element("carol", &[("team", "red"), ("friends", " alice , bob")]),
        element("alice", &[("team", " red "), ("friends", "carol")]),
        element("bob", &[("team", "blue"), ("friends", "")]),
    ]
}

#[test]
fn ordering_sorts_ids() {
    let c = Connections::from_data(&table());
    assert_eq!(c.fixed_order, vec!["alice".to_string(), "bob".to_string(), "carol".to_string()]);
    assert_eq!(c.len(), 3);
}

#[test]
fn initial_matrix_has_standard_weight_and_excluded_diagonal() {
    let c = Connections::from_data(&table());
    for x in 0..3 {
        for y in 0..3 {
            if x == y {
                assert_eq!(c.matrix[x][y], i16::MIN);
            } else {
                assert_eq!(c.matrix[x][y], 1);
            }
        }
    }
}

#[test]
fn severity_weights() {
    assert_eq!(RuleSeverity::Force.get_score(), i8::MAX);
    assert_eq!(RuleSeverity::Prefer.get_score(), 2);
    assert_eq!(RuleSeverity::Standard.get_score(), 1);
    assert_eq!(RuleSeverity::PreferExclude.get_score(), -2);
    assert_eq!(RuleSeverity::ForceExclude.get_score(), i8::MIN);
}

#[test]
fn match_compares_trimmed_values() {
    let r = rule(RuleSeverity::Prefer, "team", "team", RuleOperand::Match);
    let t = table();
    assert_eq!(r.check("alice", "carol", &t).unwrap(), true);
    assert_eq!(r.check("alice", "bob", &t).unwrap(), false);
}

#[test]
fn include_finds_whole_entries_only() {
    let r = rule(RuleSeverity::Prefer, "friends", "team", RuleOperand::Include);
    let t = vec![
        element("a", &[("friends", "red, blue"), ("team", "x")]),
        element("b", &[("friends", ""), ("team", "blue")]),
        element("c", &[("friends", ""), ("team", "re")]),
        element("d", &[("friends", ""), ("team", " red ")]),
    ];
    assert_eq!(r.check("a", "b", &t).unwrap(), true);
    assert_eq!(r.check("a", "c", &t).unwrap(), false);
    assert_eq!(r.check("a", "d", &t).unwrap(), true);
}

#[test]
fn list_entries_may_be_padded_with_spaces() {
    let list = chars_of("alice ,  bob,carol");
    assert!(list_contains(&list, &chars_of("alice")));
    assert!(list_contains(&list, &chars_of("bob")));
    assert!(list_contains(&list, &chars_of("carol")));
    assert!(!list_contains(&list, &chars_of("ali")));
    assert!(!list_contains(&list, &chars_of("ob")));
    assert!(list_contains(&chars_of("x"), &chars_of("x")));
    assert!(!list_contains(&chars_of(""), &chars_of("x")));
}

#[test]
fn lookup_failure_is_reported() {
    let r = rule(RuleSeverity::Prefer, "age", "team", RuleOperand::Match);
    assert!(r.check("alice", "bob", &table()).is_err());
    let r = rule(RuleSeverity::Prefer, "team", "team", RuleOperand::Match);
    assert!(r.check("dave", "bob", &table()).is_err());
}

#[test]
fn soft_rules_add_their_weight() {
    let t = table();
    let mut c = Connections::from_data(&t);
    c.apply(&rule(RuleSeverity::Prefer, "team", "team", RuleOperand::Match), &t).unwrap();
    // alice (0) and carol (2) share a team.
    assert_eq!(c.matrix[0][2], 3);
    assert_eq!(c.matrix[2][0], 3);
    assert_eq!(c.matrix[0][1], 1);
    c.apply(&rule(RuleSeverity::PreferExclude, "team", "team", RuleOperand::Match), &t).unwrap();
    assert_eq!(c.matrix[0][2], 1);
}

#[test]
fn include_rule_is_directional() {
    let t = table();
    let mut c = Connections::from_data(&t);
    // carol lists alice and bob among friends; the rule reads carol's list and the
    // other element's name.
    let t2 = vec![
        element("carol", &[("friends", "alice, bob"), ("name", "carol")]),
        element("alice", &[("friends", ""), ("name", "alice")]),
        element("bob", &[("friends", ""), ("name", "bob")]),
    ];
    c.apply(&rule(RuleSeverity::Prefer, "friends", "name", RuleOperand::Include), &t2).unwrap();
    assert_eq!(c.matrix[2][0], 3);
    assert_eq!(c.matrix[2][1], 3);
    assert_eq!(c.matrix[0][2], 1);
    assert_eq!(c.matrix[1][2], 1);
}

#[test]
fn exclusion_survives_later_soft_rules() {
    let t = table();
    let mut c = Connections::from_data(&t);
    c.apply(&rule(RuleSeverity::ForceExclude, "team", "team", RuleOperand::Match), &t).unwrap();
    assert_eq!(c.matrix[0][2], i16::MIN);
    c.apply(&rule(RuleSeverity::Prefer, "team", "team", RuleOperand::Match), &t).unwrap();
    c.apply(&rule(RuleSeverity::Standard, "friends", "friends", RuleOperand::Match), &t).unwrap();
    assert_eq!(c.matrix[0][2], i16::MIN);
    assert_eq!(c.matrix[2][0], i16::MIN);
    for e in 0..3 {
        assert_eq!(c.matrix[e][e], i16::MIN);
    }
}

#[test]
fn building_twice_gives_the_same_matrix() {
    let t = table();
    let rules = vec![
        rule(RuleSeverity::Prefer, "team", "team", RuleOperand::Match),
        rule(RuleSeverity::PreferExclude, "friends", "team", RuleOperand::Include),
    ];
    let a = Connections::build(&t, &rules).unwrap();
    let mut reversed = t.clone();
    reversed.reverse();
    let b = Connections::build(&reversed, &rules).unwrap();
    assert_eq!(a.matrix, b.matrix);
    assert_eq!(a.fixed_order, b.fixed_order);
}

#[test]
fn infeasible_group_scores_the_sentinel() {
    let t = table();
    let mut c = Connections::from_data(&t);
    c.apply(&rule(RuleSeverity::ForceExclude, "team", "team", RuleOperand::Match), &t).unwrap();
    assert_eq!(c.calc_score(&vec![0, 2]), (false, i32::MIN));
    assert_eq!(c.calc_score(&vec![0, 1, 2]), (false, i32::MIN));
    assert_eq!(c.calc_score(&vec![0, 0]), (false, i32::MIN));
    assert_eq!(c.calc_score(&vec![0, 1]), (true, 2));
}

#[test]
fn candidate_lists_hold_linked_elements() {
    let t = table();
    let mut c = Connections::from_data(&t);
    c.apply(&rule(RuleSeverity::ForceExclude, "team", "team", RuleOperand::Match), &t).unwrap();
    assert_eq!(c.possible_connections(), vec![vec![0, 1], vec![1, 0, 2], vec![2, 1]]);
    assert_eq!(c.anchor_order(), vec![vec![0, 1], vec![2, 1], vec![1, 0, 2]]);
}

#[test]
fn rule_apply_adds_weight_to_any_cell() {
    let mut m: Vec<Vec<i16>> = vec![vec![i16::MIN, 5], vec![i16::MAX - 1, i16::MIN + 1]];
    rule(RuleSeverity::Prefer, "x", "x", RuleOperand::Match).apply(0, 0, &mut m);
    assert_eq!(m[0][0], i16::MIN + 2);
    rule(RuleSeverity::Standard, "x", "x", RuleOperand::Match).apply(0, 1, &mut m);
    assert_eq!(m[0][1], 6);
    rule(RuleSeverity::Prefer, "x", "x", RuleOperand::Match).apply(1, 0, &mut m);
    assert_eq!(m[1][0], i16::MAX);
    rule(RuleSeverity::PreferExclude, "x", "x", RuleOperand::Match).apply(1, 1, &mut m);
    assert_eq!(m[1][1], i16::MIN);
    rule(RuleSeverity::ForceExclude, "x", "x", RuleOperand::Match).apply(0, 1, &mut m);
    assert_eq!(m[0][1], i16::MIN);
}
