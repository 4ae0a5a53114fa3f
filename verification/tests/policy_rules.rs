use gate1::{
    Action, AtomRef, ConditionOp, ConditionProgram, Context, ContextEntry, Decision, Effect,
    Error, Policy, Principal, Resource, Rule, Selector, ValueRef, MAX_CONDITION_DEPTH,
    MAX_RULES, MAX_SELECTOR_SET,
};

fn empty_context<'a>() -> Context<'a> {
    Context::new(&[]).unwrap()
}

fn eval(policy: &Policy, p: &str, a: &str, r: &str, ctx: Context<'_>) -> Result<Decision, Error> {
    policy.evaluate(
        Principal::new(p).unwrap(),
        Action::new(a).unwrap(),
        Resource::new(r).unwrap(),
        ctx,
    )
}

#[test]
fn deny_overrides_allow() {
    let allow = Rule::allow("allow_read")
        .unwrap()
        .action_exact("read")
        .unwrap()
        .build();

    let deny = Rule::deny("deny_secret")
        .unwrap()
        .action_exact("read")
        .unwrap()
        .resource_exact("doc:secret")
        .unwrap()
        .build();

    let policy = Policy::new(vec![allow, deny]).unwrap();

    let decision = policy
        .evaluate(
            Principal::new("user:alice").unwrap(),
            Action::new("read").unwrap(),
            Resource::new("doc:secret").unwrap(),
            empty_context(),
        )
        .unwrap();

    assert_eq!(decision, Decision::Deny);
}

#[test]
fn condition_program_validates_depth() {
    let ops = vec![
        ConditionOp::always_true(),
        ConditionOp::not(),
        ConditionOp::not(),
        ConditionOp::not(),
        ConditionOp::not(),
        ConditionOp::not(),
        ConditionOp::not(),
        ConditionOp::not(),
        ConditionOp::not(),
    ];

    assert!(matches!(
        ConditionProgram::new(ops),
        Err(Error::ConditionDepthExceeded {
            limit: MAX_CONDITION_DEPTH,
            actual: 9
        })
    ));
}

#[test]
fn report_returns_matching_allow_when_no_deny_matches() {
    let condition = ConditionProgram::new(vec![
        ConditionOp::attr_eq_str("tenant", "acme").unwrap(),
        ConditionOp::attr_eq_bool("mfa", true).unwrap(),
        ConditionOp::and(),
    ])
    .unwrap();

    let rule = Rule::allow("allow_invoice_read")
        .unwrap()
        .principal_exact("user:alice")
        .unwrap()
        .action_exact("read")
        .unwrap()
        .resource_exact("invoice:123")
        .unwrap()
        .condition(condition)
        .build();

    let policy = Policy::new(vec![rule]).unwrap();

    let entries = [
        ContextEntry::new(
            AtomRef::new("tenant").unwrap(),
            ValueRef::Str(AtomRef::new("acme").unwrap()),
        ),
        ContextEntry::new(AtomRef::new("mfa").unwrap(), ValueRef::Bool(true)),
    ];
    let context = Context::new(&entries).unwrap();

    let report = policy
        .evaluate_with_report(
            Principal::new("user:alice").unwrap(),
            Action::new("read").unwrap(),
            Resource::new("invoice:123").unwrap(),
            context,
        )
        .unwrap();

    assert_eq!(report.decision, Decision::Allow);
    assert_eq!(report.matched_rule_index, Some(0));
    assert_eq!(report.matched_rule_name, Some("allow_invoice_read"));
}

// Budget unit cost model:
//   - each selector check (principal / action / resource) costs 1 unit
//   - each condition op costs 1 unit
//   - budget is a global counter shared across all rules in one evaluation pass

#[test]
fn budget_exhausted_during_second_rule_selector() {
    // Rule 1 misses on its principal (1 unit); rule 2 matches its principal and action
    // (2 units) and then has no unit left for its resource check.
    let miss = Rule::allow("miss_on_principal")
        .unwrap()
        .principal_exact("user:bob")
        .unwrap()
        .build();
    let catch_all = Rule::allow("allow_all").unwrap().build();
    let policy = Policy::with_budget(vec![miss, catch_all], 3).unwrap();

    let result = policy.evaluate(
        Principal::new("user:alice").unwrap(),
        Action::new("read").unwrap(),
        Resource::new("invoice:123").unwrap(),
        empty_context(),
    );

    assert!(matches!(
        result,
        Err(Error::EvaluationBudgetExceeded { limit: 3 })
    ));
}

#[test]
fn budget_exhausted_inside_condition_after_selectors() {
    // Three selector units, one condition op, then nothing left for the second op.
    let condition = ConditionProgram::new(vec![
        ConditionOp::always_true(),
        ConditionOp::always_true(),
        ConditionOp::and(),
    ])
    .unwrap();
    let rule = Rule::allow("allow_with_condition")
        .unwrap()
        .condition(condition)
        .build();
    let policy = Policy::with_budget(vec![rule], 4).unwrap();

    let result = policy.evaluate(
        Principal::new("user:alice").unwrap(),
        Action::new("read").unwrap(),
        Resource::new("invoice:123").unwrap(),
        empty_context(),
    );

    assert!(matches!(
        result,
        Err(Error::EvaluationBudgetExceeded { limit: 4 })
    ));
}

#[test]
fn exact_budget_is_enough_and_one_less_is_not() {
    let condition = ConditionProgram::new(vec![
        ConditionOp::always_true(),
        ConditionOp::always_true(),
        ConditionOp::and(),
    ])
    .unwrap();
    let rule = Rule::allow("allow_with_condition")
        .unwrap()
        .condition(condition)
        .build();
    // 3 selector units + 3 condition ops.
    let policy = Policy::with_budget(vec![rule.clone()], 6).unwrap();
    assert_eq!(eval(&policy, "user:a", "read", "doc:1", empty_context()), Ok(Decision::Allow));
    let policy = Policy::with_budget(vec![rule.clone()], 5).unwrap();
    assert_eq!(
        eval(&policy, "user:a", "read", "doc:1", empty_context()),
        Err(Error::EvaluationBudgetExceeded { limit: 5 })
    );
    // The default budget is the worst case: the same 6 units.
    let policy = Policy::new(vec![rule]).unwrap();
    assert_eq!(policy.evaluation_budget(), 6);
}

#[test]
fn default_budget_is_worst_case_and_at_least_one() {
    let empty = Policy::new(vec![]).unwrap();
    assert_eq!(empty.evaluation_budget(), 1);
    assert_eq!(eval(&empty, "user:a", "read", "doc:1", empty_context()), Ok(Decision::NoMatch));

    let with_condition = Rule::deny("d")
        .unwrap()
        .condition(
            ConditionProgram::new(vec![ConditionOp::always_false(), ConditionOp::not()]).unwrap(),
        )
        .build();
    let plain = Rule::allow("a").unwrap().build();
    let policy = Policy::new(vec![with_condition, plain]).unwrap();
    assert_eq!(policy.evaluation_budget(), 3 + 2 + 3);
    assert_eq!(policy.rules().len(), 2);
    assert_eq!(eval(&policy, "user:a", "read", "doc:1", empty_context()), Ok(Decision::Deny));
}

#[test]
fn raising_the_budget_keeps_the_decision() {
    let rules = vec![
        Rule::allow("first").unwrap().action_exact("read").unwrap().build(),
        Rule::deny("second").unwrap().action_exact("write").unwrap().build(),
    ];
    // 3 units for the allow rule, 2 for the deny rule (principal, then action misses).
    let small = Policy::with_budget(rules.clone(), 5).unwrap();
    let large = Policy::with_budget(rules, 1000).unwrap();
    let a = eval(&small, "user:a", "read", "doc:1", empty_context());
    let b = eval(&large, "user:a", "read", "doc:1", empty_context());
    assert_eq!(a, Ok(Decision::Allow));
    assert_eq!(a, b);
}

#[test]
fn first_matching_allow_is_reported_and_later_deny_still_wins() {
    let policy = Policy::new(vec![
        Rule::allow("allow_one").unwrap().build(),
        Rule::allow("allow_two").unwrap().build(),
        Rule::deny("deny_writes").unwrap().action_exact("write").unwrap().build(),
    ])
    .unwrap();

    let report = policy
        .evaluate_with_report(
            Principal::new("user:a").unwrap(),
            Action::new("read").unwrap(),
            Resource::new("doc:1").unwrap(),
            empty_context(),
        )
        .unwrap();
    assert_eq!(report.decision, Decision::Allow);
    assert_eq!(report.matched_rule_index, Some(0));
    assert_eq!(report.matched_rule_name, Some("allow_one"));

    let report = policy
        .evaluate_with_report(
            Principal::new("user:a").unwrap(),
            Action::new("write").unwrap(),
            Resource::new("doc:1").unwrap(),
            empty_context(),
        )
        .unwrap();
    assert_eq!(report.decision, Decision::Deny);
    assert_eq!(report.matched_rule_index, Some(2));
    assert_eq!(report.matched_rule_name, Some("deny_writes"));

    let list_only =
        Policy::new(vec![Rule::allow("x").unwrap().action_exact("list").unwrap().build()]).unwrap();
    let report = list_only
        .evaluate_with_report(
            Principal::new("user:a").unwrap(),
            Action::new("write").unwrap(),
            Resource::new("doc:1").unwrap(),
            empty_context(),
        )
        .unwrap();
    assert_eq!(report.decision, Decision::NoMatch);
    assert_eq!(report.matched_rule_index, None);
    assert_eq!(report.matched_rule_name, None);
}

#[test]
fn deny_by_default_keeps_deny() {
    let policy = Policy::new(vec![Rule::deny("deny_all").unwrap().build()]).unwrap();
    let decision = policy
        .evaluate_deny_by_default(
            Principal::new("user:a").unwrap(),
            Action::new("read").unwrap(),
            Resource::new("doc:1").unwrap(),
            empty_context(),
        )
        .unwrap();
    assert_eq!(decision, Decision::Deny);
}

#[test]
fn bare_prefix_crosses_namespace_boundary() {
    let policy = Policy::new(vec![
        Rule::allow("billing").unwrap().resource_prefix("billing").unwrap().build(),
    ])
    .unwrap();
    assert_eq!(
        eval(&policy, "user:a", "read", "billingplus:account-7", empty_context()),
        Ok(Decision::Allow)
    );
    assert_eq!(
        eval(&policy, "user:a", "read", "billin", empty_context()),
        Ok(Decision::NoMatch)
    );
}

#[test]
fn principal_selectors_match_byte_exactly() {
    let policy = Policy::new(vec![
        Rule::allow("svc").unwrap().principal_prefix("svc:").unwrap().build(),
        Rule::allow("admins")
            .unwrap()
            .principal_set(vec!["user:root", "user:ops"])
            .unwrap()
            .build(),
    ])
    .unwrap();
    assert_eq!(eval(&policy, "svc:api", "read", "doc:1", empty_context()), Ok(Decision::Allow));
    assert_eq!(eval(&policy, "user:ops", "read", "doc:1", empty_context()), Ok(Decision::Allow));
    assert_eq!(eval(&policy, "user:op", "read", "doc:1", empty_context()), Ok(Decision::NoMatch));
    assert_eq!(eval(&policy, "svc", "read", "doc:1", empty_context()), Ok(Decision::NoMatch));
}

#[test]
fn resource_set_and_action_prefix_selectors() {
    let policy = Policy::new(vec![Rule::allow("r")
        .unwrap()
        .action_prefix("read")
        .unwrap()
        .resource_set(vec!["doc:1", "doc:2"])
        .unwrap()
        .principal_any()
        .action_any()
        .action_prefix("read")
        .unwrap()
        .resource_any()
        .resource_set(vec!["doc:1", "doc:2"])
        .unwrap()
        .build()])
    .unwrap();
    assert_eq!(eval(&policy, "user:a", "read:all", "doc:2", empty_context()), Ok(Decision::Allow));
    assert_eq!(eval(&policy, "user:a", "read", "doc:3", empty_context()), Ok(Decision::NoMatch));
    assert_eq!(eval(&policy, "user:a", "write", "doc:1", empty_context()), Ok(Decision::NoMatch));
}

#[test]
fn selector_constructors_validate() {
    assert_eq!(Selector::any(), Selector::Any);
    assert!(matches!(Selector::exact("doc:1"), Ok(Selector::Exact(a)) if a.as_str() == "doc:1"));
    assert!(matches!(Selector::prefix("doc:"), Ok(Selector::Prefix(a)) if a.as_str() == "doc:"));
    assert_eq!(Selector::exact("Doc"), Err(Error::InvalidAtomChar { index: 0, byte: b'D' }));
    assert_eq!(Selector::prefix(""), Err(Error::EmptyAtom));
    assert_eq!(Selector::set(Vec::<&str>::new()), Err(Error::EmptySelectorSet));
    let seventeen: Vec<&str> = vec!["a"; 17];
    assert_eq!(
        Selector::set(seventeen),
        Err(Error::SelectorSetTooLarge { limit: MAX_SELECTOR_SET, actual: 17 })
    );
    assert_eq!(
        Selector::set(vec!["ok", "also_ok", "Bad", "x y"]),
        Err(Error::InvalidAtomChar { index: 0, byte: b'B' })
    );
    match Selector::set(vec!["read", "list"]).unwrap() {
        Selector::OneOf(items) => {
            assert_eq!(items.len(), 2);
            assert_eq!(items[0].as_str(), "read");
            assert_eq!(items[1].as_str(), "list");
        }
        other => panic!("unexpected selector {:?}", other),
    }
}

#[test]
fn builder_errors_name_the_bad_input() {
    assert_eq!(Rule::allow("Bad").err(), Some(Error::InvalidAtomChar { index: 0, byte: b'B' }));
    assert_eq!(Rule::deny("").err(), Some(Error::EmptyAtom));
    assert_eq!(
        Rule::allow("ok").unwrap().principal_exact("user:X").err(),
        Some(Error::InvalidAtomChar { index: 5, byte: b'X' })
    );
    assert_eq!(
        Rule::allow("ok").unwrap().action_set(vec![]).err(),
        Some(Error::EmptySelectorSet)
    );
}

#[test]
fn rule_accessors_report_what_was_built() {
    let condition = ConditionProgram::new(vec![ConditionOp::always_true()]).unwrap();
    let rule = Rule::deny("deny_x").unwrap().condition(condition.clone()).build();
    assert_eq!(rule.name(), "deny_x");
    assert_eq!(rule.effect(), Effect::Deny);
    assert_eq!(rule.condition(), Some(&condition));
    assert_eq!(condition.ops(), &[ConditionOp::True][..]);
    let plain = Rule::allow("allow_x").unwrap().build();
    assert_eq!(plain.effect(), Effect::Allow);
    assert_eq!(plain.condition(), None);
}

#[test]
fn condition_program_structural_errors() {
    assert_eq!(ConditionProgram::new(vec![]), Err(Error::EmptyCondition));
    assert_eq!(
        ConditionProgram::new(vec![ConditionOp::always_true(); 33]),
        Err(Error::TooManyConditionOps { limit: 32, actual: 33 })
    );
    assert_eq!(
        ConditionProgram::new(vec![ConditionOp::not()]),
        Err(Error::ConditionStackUnderflow { op_index: 0 })
    );
    assert_eq!(
        ConditionProgram::new(vec![ConditionOp::always_true(), ConditionOp::and()]),
        Err(Error::ConditionStackUnderflow { op_index: 1 })
    );
    assert_eq!(
        ConditionProgram::new(vec![ConditionOp::always_true(), ConditionOp::always_false()]),
        Err(Error::ConditionDoesNotReduceToSingleValue { remaining: 2 })
    );
    // Depth of an `and` is one more than its deeper operand.
    let mut ops = vec![ConditionOp::always_true()];
    for _ in 0..7 {
        ops.push(ConditionOp::not());
    }
    ops.push(ConditionOp::always_true());
    ops.push(ConditionOp::or());
    assert_eq!(
        ConditionProgram::new(ops),
        Err(Error::ConditionDepthExceeded { limit: 8, actual: 9 })
    );
    let mut ops = vec![ConditionOp::always_true()];
    for _ in 0..7 {
        ops.push(ConditionOp::not());
    }
    assert!(ConditionProgram::new(ops).is_ok());
}

#[test]
fn condition_ops_read_the_context() {
    let entries = [
        ContextEntry::new(AtomRef::new("level").unwrap(), ValueRef::Int(3)),
        ContextEntry::new(AtomRef::new("mfa").unwrap(), ValueRef::Bool(false)),
        ContextEntry::new(
            AtomRef::new("tenant").unwrap(),
            ValueRef::Str(AtomRef::new("acme").unwrap()),
        ),
    ];
    let ctx = Context::new(&entries).unwrap();
    let check = |ops: Vec<ConditionOp>| {
        let policy = Policy::new(vec![Rule::allow("r")
            .unwrap()
            .condition(ConditionProgram::new(ops).unwrap())
            .build()])
        .unwrap();
        eval(&policy, "user:a", "read", "doc:1", ctx).unwrap()
    };
    assert_eq!(check(vec![ConditionOp::attr_eq_int("level", 3).unwrap()]), Decision::Allow);
    assert_eq!(check(vec![ConditionOp::attr_eq_int("level", 4).unwrap()]), Decision::NoMatch);
    // A value of another type never equals.
    assert_eq!(check(vec![ConditionOp::attr_eq_bool("level", true).unwrap()]), Decision::NoMatch);
    assert_eq!(check(vec![ConditionOp::attr_present("mfa").unwrap()]), Decision::Allow);
    assert_eq!(check(vec![ConditionOp::attr_present("sso").unwrap()]), Decision::NoMatch);
    assert_eq!(
        check(vec![ConditionOp::attr_eq_bool("mfa", true).unwrap(), ConditionOp::not()]),
        Decision::Allow
    );
    assert_eq!(
        check(vec![
            ConditionOp::attr_eq_str("tenant", "other").unwrap(),
            ConditionOp::attr_eq_str("tenant", "acme").unwrap(),
            ConditionOp::or(),
        ]),
        Decision::Allow
    );
    assert_eq!(
        check(vec![
            ConditionOp::always_true(),
            ConditionOp::always_false(),
            ConditionOp::and(),
        ]),
        Decision::NoMatch
    );
    assert_eq!(
        ConditionOp::attr_eq_str("tenant", "Acme"),
        Err(Error::InvalidAtomChar { index: 0, byte: b'A' })
    );
    assert_eq!(ConditionOp::attr_present(""), Err(Error::EmptyAtom));
}

#[test]
fn policy_rejects_duplicate_names_and_too_many_rules() {
    let rules = vec![
        Rule::allow("a").unwrap().build(),
        Rule::allow("b").unwrap().build(),
        Rule::deny("b").unwrap().build(),
        Rule::deny("a").unwrap().build(),
    ];
    assert_eq!(
        Policy::new(rules.clone()).err(),
        Some(Error::DuplicateRuleName { first: 0, second: 3 })
    );
    assert_eq!(
        Policy::with_budget(rules, 10).err(),
        Some(Error::DuplicateRuleName { first: 0, second: 3 })
    );
    let many: Vec<Rule> = (0..65)
        .map(|i| Rule::allow(&format!("r{}", i)).unwrap().build())
        .collect();
    assert_eq!(
        Policy::new(many.clone()).err(),
        Some(Error::TooManyRules { limit: MAX_RULES, actual: 65 })
    );
    assert!(Policy::new(many[..64].to_vec()).is_ok());
    assert_eq!(
        Policy::with_budget(vec![Rule::allow("a").unwrap().build()], 0).err(),
        Some(Error::ZeroEvaluationBudget)
    );
    // Rule checks come before the budget check.
    assert_eq!(
        Policy::with_budget(many, 0).err(),
        Some(Error::TooManyRules { limit: MAX_RULES, actual: 65 })
    );
}

#[test]
fn default_budget_covers_every_rule_fully_checked() {
    // Every rule matches and runs its whole condition, and none is a deny, so the pass
    // spends exactly the worst case: 3 + 1, 3 + 3 and 3 units.
    let cond = |n: usize| {
        let mut ops = vec![ConditionOp::always_true()];
        for _ in 1..n {
            ops.push(ConditionOp::always_true());
            ops.push(ConditionOp::and());
        }
        ConditionProgram::new(ops).unwrap()
    };
    let rules = vec![
        Rule::allow("one").unwrap().condition(cond(1)).build(),
        Rule::allow("two").unwrap().condition(cond(2)).build(),
        Rule::allow("three").unwrap().build(),
    ];
    let policy = Policy::new(rules.clone()).unwrap();
    assert_eq!(policy.evaluation_budget(), 4 + 6 + 3);
    let report = policy
        .evaluate_with_report(
            Principal::new("user:a").unwrap(),
            Action::new("read").unwrap(),
            Resource::new("doc:1").unwrap(),
            empty_context(),
        )
        .unwrap();
    assert_eq!(report.decision, Decision::Allow);
    assert_eq!(report.matched_rule_name, Some("one"));
    let tight = Policy::with_budget(rules, 12).unwrap();
    assert_eq!(
        eval(&tight, "user:a", "read", "doc:1", empty_context()),
        Err(Error::EvaluationBudgetExceeded { limit: 12 })
    );
}
