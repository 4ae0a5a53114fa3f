# gate1

A small authorization kernel, verified with Verus: build a policy once, validate
it up front, then evaluate requests deterministically within a bounded budget.

## Layout

- `src/atom.rs` — identifier validation (`[a-z0-9._:/-]`, at most 64 bytes) and the
  typed request atoms `Principal`, `Action`, `Resource`.
- `src/context.rs` — request attributes; duplicate keys are refused.
- `src/policy.rs` — selectors, postfix condition programs (validation and
  evaluation), rules and their builder, policies and evaluation, and the laws of
  evaluation:
  - `lemma_decision_is_deny_overrides`: every decision is the first applying deny
    rule, else the first applying allow rule, else no match; failure is only budget
    exhaustion.
  - `lemma_worst_case_budget_suffices`: the budget `Policy::new` picks is never
    exhausted.
  - `lemma_more_budget_same_decision`: a larger budget never changes a decision.
  - `lemma_validated_condition_reduces`: a validated condition program always
    evaluates to one value.
- `src/error.rs` — the error type and its verified message text.
- `app/lib.rs` — a copy of the error type with `Display` and `std::error::Error`.
- `tests/` — scenario tests.
