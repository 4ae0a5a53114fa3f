use vstd::prelude::*;
use vstd::string::StringSliceAdditionalSpecFns;

use crate::atom::{atom_verdict, Action, AtomRef, OwnedAtom, Principal, Resource};
use crate::context::{Context, ValueRef};
use crate::error::Error;

verus! {

pub const MAX_RULES: usize = 64;

pub const MAX_CONDITION_OPS: usize = 32;

pub const MAX_CONDITION_DEPTH: usize = 8;

/// Maximum number of values in a [`Selector::OneOf`]. Keeps set iteration bounded during evaluation.
pub const MAX_SELECTOR_SET: usize = 16;

const MAX_CONDITION_STACK: usize = MAX_CONDITION_OPS;

/// The intended outcome of a rule: permit or deny access.
#[derive(Clone, Copy, Debug, Eq, PartialEq)]
pub enum Effect {
    Allow,
    Deny,
}

/// The outcome of a single `Policy::evaluate` call.
///
/// `NoMatch` means no rule in the policy matched the supplied inputs. It does **not** mean
/// access is denied or safe: it means the policy had no opinion.
#[derive(Clone, Copy, Debug, Eq, PartialEq)]
pub enum Decision {
    /// A matching allow rule was found and no deny rule overrode it.
    Allow,
    /// A matching deny rule was found; deny-overrides is always applied.
    Deny,
    /// No rule matched the exact inputs supplied. Not equivalent to `Deny`.
    NoMatch,
}

/// The outcome of a policy evaluation, including which rule matched.
///
/// Intended for internal audit logging only: rule names and indices reveal policy structure.
#[derive(Clone, Copy, Debug, Eq, PartialEq)]
pub struct DecisionReport<'a> {
    /// The final allow/deny/no-match verdict.
    pub decision: Decision,
    /// Index of the matched rule within the policy's rule list.
    pub matched_rule_index: Option<usize>,
    /// Name of the matched rule as supplied at construction time.
    pub matched_rule_name: Option<&'a str>,
}

/// Matches a request field against a policy expectation. No variant normalizes anything.
#[derive(Clone, Debug, Eq, PartialEq)]
pub enum Selector {
    /// Matches any value unconditionally.
    Any,
    /// Matches one specific identifier, byte for byte.
    Exact(OwnedAtom),
    /// Matches any value that starts with the stored bytes.
    Prefix(OwnedAtom),
    /// Matches any value equal, byte for byte, to a member of the set.
    OneOf(Vec<OwnedAtom>),
}

/// The index of the first value at or after `i` that is not a valid atom.
pub open spec fn first_invalid_value(values: Seq<&str>, i: int) -> Option<int>
    decreases values.len() - i,
{
    if i < 0 || i >= values.len() {
        None
    } else if atom_verdict(values[i].spec_bytes()) is Err {
        Some(i)
    } else {
        first_invalid_value(values, i + 1)
    }
}

/// What `Selector::set` gives for `values`.
pub open spec fn set_selector_outcome(values: Seq<&str>, r: Result<Selector, Error>) -> bool {
    if values.len() == 0 {
        r == Err::<Selector, Error>(Error::EmptySelectorSet)
    } else if values.len() > MAX_SELECTOR_SET {
        r == Err::<Selector, Error>(
            Error::SelectorSetTooLarge { limit: MAX_SELECTOR_SET, actual: values.len() as usize },
        )
    } else {
        match first_invalid_value(values, 0) {
            Some(k) => r == Err::<Selector, Error>(atom_verdict(values[k].spec_bytes())->Err_0),
            None => match r {
                Ok(Selector::OneOf(s)) => s@.len() == values.len() && forall|i: int|
                    0 <= i < values.len() ==> (#[trigger] s@[i])@ == values[i].spec_bytes(),
                _ => false,
            },
        }
    }
}

/// What a one-atom selector constructor gives for `value`: an `Exact` (when `exact`) or
/// `Prefix` selector holding its bytes, or the value's validation error.
pub open spec fn atom_selector_outcome(
    value: &str,
    r: Result<Selector, Error>,
    exact: bool,
) -> bool {
    match atom_verdict(value.spec_bytes()) {
        Err(e) => r == Err::<Selector, Error>(e),
        Ok(()) => match r {
            Ok(Selector::Exact(a)) => exact && a@ == value.spec_bytes(),
            Ok(Selector::Prefix(a)) => !exact && a@ == value.spec_bytes(),
            _ => false,
        },
    }
}

impl Selector {
    /// Does the selector accept `candidate`? Byte-exact in every variant.
    pub open spec fn spec_matches(self, candidate: Seq<u8>) -> bool {
        match self {
            Selector::Any => true,
            Selector::Exact(expected) => expected@ == candidate,
            Selector::Prefix(prefix) => prefix@.is_prefix_of(candidate),
            Selector::OneOf(set) => exists|i: int|
                0 <= i < set@.len() && (#[trigger] set@[i])@ == candidate,
        }
    }

    /// Creates a selector that matches any value.
    pub fn any() -> (s: Self)
        ensures
            s == Selector::Any,
    {
        Self::Any
    }

    /// Creates a selector that matches exactly `value`, after validating it as an atom.
    pub fn exact(value: &str) -> (r: Result<Self, Error>)
        ensures
            atom_selector_outcome(value, r, true),
    {
        Ok(Self::Exact(OwnedAtom::new(value)?))
    }

    /// Creates a selector that matches any value beginning with `prefix`, after validating it
    /// as an atom. `"billing"` matches `"billingplus:x"` too: prefer a delimiter suffix.
    pub fn prefix(prefix: &str) -> (r: Result<Self, Error>)
        ensures
            atom_selector_outcome(prefix, r, false),
    {
        Ok(Self::Prefix(OwnedAtom::new(prefix)?))
    }

    /// Creates a selector that matches any value in the given set. The set must hold
    /// 1 to `MAX_SELECTOR_SET` values; each is validated in order and the first invalid
    /// one is reported.
    pub fn set(values: Vec<&str>) -> (r: Result<Self, Error>)
        ensures
            set_selector_outcome(values@, r),
    {
        if values.len() == 0 {
            return Err(Error::EmptySelectorSet);
        }
        if values.len() > MAX_SELECTOR_SET {
            return Err(Error::SelectorSetTooLarge { limit: MAX_SELECTOR_SET, actual: values.len() });
        }
        let mut atoms: Vec<OwnedAtom> = Vec::new();
        let mut i: usize = 0;
        while i < values.len()
            invariant
                0 < values@.len() <= MAX_SELECTOR_SET,
                0 <= i <= values@.len(),
                atoms@.len() == i,
                first_invalid_value(values@, 0) == first_invalid_value(values@, i as int),
                forall|j: int| 0 <= j < i ==> (#[trigger] atoms@[j])@ == values@[j].spec_bytes(),
            decreases values.len() - i,
        {
            let atom = OwnedAtom::new(values[i])?;
            atoms.push(atom);
            i = i + 1;
        }
        Ok(Self::OneOf(atoms))
    }

    fn matches(&self, candidate: AtomRef<'_>) -> (r: bool)
        ensures
            r == self.spec_matches(candidate@),
    {
        match self {
            Self::Any => true,
            Self::Exact(expected) => expected.as_atom().same_as(candidate),
            Self::Prefix(prefix) => candidate.starts_with(prefix.as_atom()),
            Self::OneOf(set) => {
                let mut i: usize = 0;
                while i < set.len()
                    invariant
                        *self == Selector::OneOf(*set),
                        0 <= i <= set@.len(),
                        forall|j: int| 0 <= j < i ==> (#[trigger] set@[j])@ != candidate@,
                    decreases set.len() - i,
                {
                    if set[i].as_atom().same_as(candidate) {
                        assert((set@[i as int])@ == candidate@);
                        assert(self->OneOf_0@ == set@);
                        return true;
                    }
                    i = i + 1;
                }
                false
            },
        }
    }
}

/// What each selector accepts, byte by byte: `Any` accepts everything; `Exact(a)` accepts
/// exactly the candidates of the same length as `a` that agree with it at every position;
/// `Prefix(a)` accepts the candidates at least as long as `a` that agree with it on its
/// length; `OneOf(s)` accepts exactly the members of `s`.
pub proof fn lemma_selector_acceptance(sel: Selector, c: Seq<u8>)
    ensures
        sel is Any ==> sel.spec_matches(c),
        sel matches Selector::Exact(a) ==> (sel.spec_matches(c) <==> (c.len() == a@.len() && forall|
            i: int,
        | 0 <= i < c.len() ==> c[i] == a@[i])),
        sel matches Selector::Prefix(a) ==> (sel.spec_matches(c) <==> (a@.len() <= c.len()
            && forall|i: int| 0 <= i < a@.len() ==> c[i] == a@[i])),
        sel matches Selector::OneOf(s) ==> (sel.spec_matches(c) <==> exists|k: int|
            0 <= k < s@.len() && (#[trigger] s@[k])@ == c),
{
    match sel {
        Selector::Exact(a) => {
            if c.len() == a@.len() && forall|i: int| 0 <= i < c.len() ==> c[i] == a@[i] {
                assert(c =~= a@);
            }
        },
        Selector::Prefix(a) => {
            if a@.len() <= c.len() && forall|i: int| 0 <= i < a@.len() ==> c[i] == a@[i] {
                assert(a@ =~= c.subrange(0, a@.len() as int));
            }
            if sel.spec_matches(c) {
                assert forall|i: int| 0 <= i < a@.len() implies c[i] == a@[i] by {
                    assert(a@[i] == c.subrange(0, a@.len() as int)[i]);
                }
            }
        },
        _ => {},
    }
}

/// One instruction of a postfix condition program.
#[derive(Debug, Eq, PartialEq)]
pub enum ConditionOp {
    AttrPresent { key: OwnedAtom },
    AttrEqBool { key: OwnedAtom, value: bool },
    AttrEqInt { key: OwnedAtom, value: i64 },
    AttrEqStr { key: OwnedAtom, value: OwnedAtom },
    True,
    False,
    Not,
    And,
    Or,
}

/// What an attribute-test constructor gives: `op` once `key` (and `value`, for
/// string tests) validate, else the first validation error.
pub open spec fn keyed_op_outcome(key: &str, r: Result<ConditionOp, Error>, op_ok: bool) -> bool {
    match atom_verdict(key.spec_bytes()) {
        Err(e) => r == Err::<ConditionOp, Error>(e),
        Ok(()) => op_ok,
    }
}

impl Clone for ConditionOp {
    fn clone(&self) -> (c: Self)
        ensures
            c == *self,
    {
        match self {
            ConditionOp::AttrPresent { key } => ConditionOp::AttrPresent { key: key.clone() },
            ConditionOp::AttrEqBool { key, value } => ConditionOp::AttrEqBool {
                key: key.clone(),
                value: *value,
            },
            ConditionOp::AttrEqInt { key, value } => ConditionOp::AttrEqInt {
                key: key.clone(),
                value: *value,
            },
            ConditionOp::AttrEqStr { key, value } => ConditionOp::AttrEqStr {
                key: key.clone(),
                value: value.clone(),
            },
            ConditionOp::True => ConditionOp::True,
            ConditionOp::False => ConditionOp::False,
            ConditionOp::Not => ConditionOp::Not,
            ConditionOp::And => ConditionOp::And,
            ConditionOp::Or => ConditionOp::Or,
        }
    }
}

impl ConditionOp {
    /// Does the op push a value read from the context or a constant?
    pub open spec fn is_leaf(self) -> bool {
        !(self is Not || self is And || self is Or)
    }

    pub fn attr_present(key: &str) -> (r: Result<Self, Error>)
        ensures
            keyed_op_outcome(
                key,
                r,
                r matches Ok(ConditionOp::AttrPresent { key: k }) && k@ == key.spec_bytes(),
            ),
    {
        Ok(Self::AttrPresent { key: OwnedAtom::new(key)? })
    }

    pub fn attr_eq_bool(key: &str, value: bool) -> (r: Result<Self, Error>)
        ensures
            keyed_op_outcome(
                key,
                r,
                r matches Ok(ConditionOp::AttrEqBool { key: k, value: v }) && k@ == key.spec_bytes()
                    && v == value,
            ),
    {
        Ok(Self::AttrEqBool { key: OwnedAtom::new(key)?, value })
    }

    pub fn attr_eq_int(key: &str, value: i64) -> (r: Result<Self, Error>)
        ensures
            keyed_op_outcome(
                key,
                r,
                r matches Ok(ConditionOp::AttrEqInt { key: k, value: v }) && k@ == key.spec_bytes()
                    && v == value,
            ),
    {
        Ok(Self::AttrEqInt { key: OwnedAtom::new(key)?, value })
    }

    pub fn attr_eq_str(key: &str, value: &str) -> (r: Result<Self, Error>)
        ensures
            keyed_op_outcome(
                key,
                r,
                match atom_verdict(value.spec_bytes()) {
                    Err(e) => r == Err::<ConditionOp, Error>(e),
                    Ok(()) => r matches Ok(ConditionOp::AttrEqStr { key: k, value: v }) && k@
                        == key.spec_bytes() && v@ == value.spec_bytes(),
                },
            ),
    {
        Ok(Self::AttrEqStr { key: OwnedAtom::new(key)?, value: OwnedAtom::new(value)? })
    }

    pub fn always_true() -> (op: Self)
        ensures
            op == ConditionOp::True,
    {
        Self::True
    }

    pub fn always_false() -> (op: Self)
        ensures
            op == ConditionOp::False,
    {
        Self::False
    }

    pub fn not() -> (op: Self)
        ensures
            op == ConditionOp::Not,
    {
        Self::Not
    }

    pub fn and() -> (op: Self)
        ensures
            op == ConditionOp::And,
    {
        Self::And
    }

    pub fn or() -> (op: Self)
        ensures
            op == ConditionOp::Or,
    {
        Self::Or
    }
}

// ---------------------------------------------------------------------------
// Validation of condition programs: a stack of subexpression depths.
// ---------------------------------------------------------------------------

/// One validation step at op number `index`: a leaf pushes depth 1, `Not` deepens the top,
/// `And`/`Or` combine the two top depths into one that is one deeper than the larger.
pub open spec fn depth_step(depths: Seq<usize>, op: ConditionOp, index: int) -> Result<
    Seq<usize>,
    Error,
> {
    let n = depths.len();
    if op.is_leaf() {
        if n == MAX_CONDITION_OPS {
            Err(Error::ConditionStackOverflow { limit: MAX_CONDITION_OPS })
        } else {
            Ok(depths.push(1))
        }
    } else if op is Not {
        if n < 1 {
            Err(Error::ConditionStackUnderflow { op_index: index as usize })
        } else {
            let depth = depths[n - 1] + 1;
            if depth > MAX_CONDITION_DEPTH {
                Err(Error::ConditionDepthExceeded { limit: MAX_CONDITION_DEPTH, actual: depth as usize })
            } else {
                Ok(depths.update(n - 1, depth as usize))
            }
        }
    } else {
        if n < 2 {
            Err(Error::ConditionStackUnderflow { op_index: index as usize })
        } else {
            let lhs = depths[n - 2];
            let rhs = depths[n - 1];
            let depth = (if lhs >= rhs { lhs } else { rhs }) + 1;
            if depth > MAX_CONDITION_DEPTH {
                Err(Error::ConditionDepthExceeded { limit: MAX_CONDITION_DEPTH, actual: depth as usize })
            } else {
                Ok(depths.drop_last().update(n - 2, depth as usize))
            }
        }
    }
}

/// The depth stack after the first `n` ops, or the first validation error among them.
pub open spec fn depth_run(ops: Seq<ConditionOp>, n: int) -> Result<Seq<usize>, Error>
    decreases n,
{
    if n <= 0 {
        Ok(Seq::empty())
    } else {
        match depth_run(ops, n - 1) {
            Err(e) => Err(e),
            Ok(depths) => depth_step(depths, ops[n - 1], n - 1),
        }
    }
}

/// The outcome of validating a postfix program: non-empty, at most `MAX_CONDITION_OPS` ops,
/// no underflow, no subexpression deeper than `MAX_CONDITION_DEPTH`, exactly one value left.
pub open spec fn condition_verdict(ops: Seq<ConditionOp>) -> Result<(), Error> {
    if ops.len() == 0 {
        Err(Error::EmptyCondition)
    } else if ops.len() > MAX_CONDITION_OPS {
        Err(Error::TooManyConditionOps { limit: MAX_CONDITION_OPS, actual: ops.len() as usize })
    } else {
        match depth_run(ops, ops.len() as int) {
            Err(e) => Err(e),
            Ok(depths) => if depths.len() != 1 {
                Err(Error::ConditionDoesNotReduceToSingleValue { remaining: depths.len() as usize })
            } else {
                Ok(())
            },
        }
    }
}

/// Once a prefix of the program fails validation, every longer prefix fails the same way.
proof fn lemma_depth_run_error_persists(ops: Seq<ConditionOp>, m: int, n: int)
    requires
        0 <= m <= n,
        depth_run(ops, m) is Err,
    ensures
        depth_run(ops, n) == depth_run(ops, m),
    decreases n - m,
{
    if m < n {
        lemma_depth_run_error_persists(ops, m, n - 1);
    }
}

/// Along a program that validates, every prefix validates and keeps depths in `1..=MAX`.
proof fn lemma_depth_run_prefix_ok(ops: Seq<ConditionOp>, k: int, n: int)
    requires
        0 <= k <= n,
        depth_run(ops, n) is Ok,
    ensures
        depth_run(ops, k) is Ok,
{
    if depth_run(ops, k) is Err {
        lemma_depth_run_error_persists(ops, k, n);
    }
}

proof fn lemma_depth_run_bounds(ops: Seq<ConditionOp>, n: int)
    requires
        n >= 0,
        depth_run(ops, n) is Ok,
    ensures
        depth_run(ops, n)->Ok_0.len() <= MAX_CONDITION_OPS,
        forall|i: int|
            0 <= i < depth_run(ops, n)->Ok_0.len() ==> 1 <= #[trigger] depth_run(
                ops,
                n,
            )->Ok_0[i] <= MAX_CONDITION_DEPTH,
    decreases n,
{
    if n > 0 {
        lemma_depth_run_prefix_ok(ops, n - 1, n);
        lemma_depth_run_bounds(ops, n - 1);
        let d = depth_run(ops, n - 1)->Ok_0;
        let e = depth_run(ops, n)->Ok_0;
        assert forall|i: int| 0 <= i < e.len() implies 1 <= #[trigger] e[i]
            <= MAX_CONDITION_DEPTH by {
            if i < d.len() - 2 {
                assert(e[i] == d[i]);
            }
        }
    }
}

fn validate_condition_ops(ops: &Vec<ConditionOp>) -> (r: Result<(), Error>)
    ensures
        r == condition_verdict(ops@),
{
    if ops.len() == 0 {
        return Err(Error::EmptyCondition);
    }
    if ops.len() > MAX_CONDITION_OPS {
        return Err(Error::TooManyConditionOps { limit: MAX_CONDITION_OPS, actual: ops.len() });
    }
    let mut depth_stack = [0usize; 32];
    let mut stack_len: usize = 0;
    let mut index: usize = 0;
    assert(depth_stack@.subrange(0, 0) =~= Seq::<usize>::empty());
    while index < ops.len()
        invariant
            0 < ops@.len() <= MAX_CONDITION_OPS,
            0 <= index <= ops@.len(),
            0 <= stack_len <= MAX_CONDITION_STACK,
            depth_run(ops@, index as int) == Ok::<Seq<usize>, Error>(
                depth_stack@.subrange(0, stack_len as int),
            ),
        decreases ops.len() - index,
    {
        proof {
            lemma_depth_run_bounds(ops@, index as int);
        }
        let ghost before = depth_stack@.subrange(0, stack_len as int);
        match &ops[index] {
            ConditionOp::Not => {
                if stack_len < 1 {
                    proof {
                        lemma_depth_run_error_persists(ops@, index + 1, ops@.len() as int);
                    }
                    return Err(Error::ConditionStackUnderflow { op_index: index });
                }
                assert(before[stack_len - 1] == depth_stack@[stack_len - 1]);
                let depth = depth_stack[stack_len - 1] + 1;
                if depth > MAX_CONDITION_DEPTH {
                    proof {
                        lemma_depth_run_error_persists(ops@, index + 1, ops@.len() as int);
                    }
                    return Err(Error::ConditionDepthExceeded { limit: MAX_CONDITION_DEPTH, actual: depth });
                }
                depth_stack[stack_len - 1] = depth;
                assert(depth_stack@.subrange(0, stack_len as int) =~= before.update(
                    stack_len - 1,
                    depth,
                ));
            },
            ConditionOp::And | ConditionOp::Or => {
                if stack_len < 2 {
                    proof {
                        lemma_depth_run_error_persists(ops@, index + 1, ops@.len() as int);
                    }
                    return Err(Error::ConditionStackUnderflow { op_index: index });
                }
                assert(before[stack_len - 1] == depth_stack@[stack_len - 1]);
                assert(before[stack_len - 2] == depth_stack@[stack_len - 2]);
                let rhs = depth_stack[stack_len - 1];
                let lhs = depth_stack[stack_len - 2];
                let dst = stack_len - 2;
                stack_len = stack_len - 1;
                let depth = (if lhs >= rhs { lhs } else { rhs }) + 1;
                if depth > MAX_CONDITION_DEPTH {
                    proof {
                        lemma_depth_run_error_persists(ops@, index + 1, ops@.len() as int);
                    }
                    return Err(Error::ConditionDepthExceeded { limit: MAX_CONDITION_DEPTH, actual: depth });
                }
                depth_stack[dst] = depth;
                assert(depth_stack@.subrange(0, stack_len as int) =~= before.drop_last().update(
                    dst as int,
                    depth,
                ));
            },
            _ => {
                if stack_len == MAX_CONDITION_STACK {
                    proof {
                        lemma_depth_run_error_persists(ops@, index + 1, ops@.len() as int);
                    }
                    return Err(Error::ConditionStackOverflow { limit: MAX_CONDITION_STACK });
                }
                depth_stack[stack_len] = 1;
                stack_len = stack_len + 1;
                assert(depth_stack@.subrange(0, stack_len as int) =~= before.push(1));
            },
        }
        index = index + 1;
    }
    if stack_len != 1 {
        return Err(Error::ConditionDoesNotReduceToSingleValue { remaining: stack_len });
    }
    Ok(())
}

// ---------------------------------------------------------------------------
// Meaning of condition programs: a stack of booleans.
// ---------------------------------------------------------------------------

/// The value a leaf op pushes, read from the context.
pub open spec fn leaf_value<'a>(op: ConditionOp, ctx: Context<'a>) -> bool {
    match op {
        ConditionOp::AttrPresent { key } => ctx.spec_get(key@) is Some,
        ConditionOp::AttrEqBool { key, value } => ctx.spec_get(key@) == Some(ValueRef::<'a>::Bool(value)),
        ConditionOp::AttrEqInt { key, value } => ctx.spec_get(key@) == Some(ValueRef::<'a>::Int(value)),
        ConditionOp::AttrEqStr { key, value } => match ctx.spec_get(key@) {
            Some(ValueRef::Str(actual)) => actual@ == value@,
            _ => false,
        },
        ConditionOp::True => true,
        _ => false,
    }
}

/// One evaluation step at op number `index`.
pub open spec fn eval_step<'a>(stack: Seq<bool>, op: ConditionOp, ctx: Context<'a>, index: int) -> Result<
    Seq<bool>,
    Error,
> {
    let n = stack.len();
    if op.is_leaf() {
        Ok(stack.push(leaf_value(op, ctx)))
    } else if op is Not {
        if n < 1 {
            Err(Error::ConditionStackUnderflow { op_index: index as usize })
        } else {
            Ok(stack.update(n - 1, !stack[n - 1]))
        }
    } else {
        if n < 2 {
            Err(Error::ConditionStackUnderflow { op_index: index as usize })
        } else {
            let v = if op is And {
                stack[n - 2] && stack[n - 1]
            } else {
                stack[n - 2] || stack[n - 1]
            };
            Ok(stack.drop_last().update(n - 2, v))
        }
    }
}

/// The value stack after the first `n` ops.
pub open spec fn eval_run<'a>(ops: Seq<ConditionOp>, ctx: Context<'a>, n: int) -> Result<
    Seq<bool>,
    Error,
>
    decreases n,
{
    if n <= 0 {
        Ok(Seq::empty())
    } else {
        match eval_run(ops, ctx, n - 1) {
            Err(e) => Err(e),
            Ok(stack) => eval_step(stack, ops[n - 1], ctx, n - 1),
        }
    }
}

/// The value of a postfix program against a context.
pub open spec fn condition_outcome<'a>(ops: Seq<ConditionOp>, ctx: Context<'a>) -> Result<bool, Error> {
    match eval_run(ops, ctx, ops.len() as int) {
        Err(e) => Err(e),
        Ok(stack) => if stack.len() != 1 {
            Err(Error::ConditionDoesNotReduceToSingleValue { remaining: stack.len() as usize })
        } else {
            Ok(stack[0])
        },
    }
}

/// Evaluation follows validation: on every validated prefix it does not fail and keeps as
/// many values as validation keeps depths.
proof fn lemma_eval_tracks_depth<'a>(ops: Seq<ConditionOp>, ctx: Context<'a>, k: int)
    requires
        k >= 0,
        depth_run(ops, k) is Ok,
    ensures
        eval_run(ops, ctx, k) is Ok,
        eval_run(ops, ctx, k)->Ok_0.len() == depth_run(ops, k)->Ok_0.len(),
    decreases k,
{
    if k > 0 {
        lemma_depth_run_prefix_ok(ops, k - 1, k);
        lemma_eval_tracks_depth(ops, ctx, k - 1);
    }
}

/// A program that passed validation always evaluates to a single value: the structural
/// errors that evaluation checks for cannot occur.
pub proof fn lemma_validated_condition_reduces<'a>(ops: Seq<ConditionOp>, ctx: Context<'a>)
    requires
        condition_verdict(ops) is Ok,
    ensures
        condition_outcome(ops, ctx) is Ok,
{
    lemma_eval_tracks_depth(ops, ctx, ops.len() as int);
}


// ---------------------------------------------------------------------------
// Laws of condition programs: how programs compose.
// ---------------------------------------------------------------------------

/// The value a validated program computes against `ctx`.
pub open spec fn program_value<'a>(ops: Seq<ConditionOp>, ctx: Context<'a>) -> bool {
    condition_outcome(ops, ctx)->Ok_0
}

/// The nesting depth of a validated program: the depth of the one value it leaves.
pub open spec fn program_depth(ops: Seq<ConditionOp>) -> int {
    depth_run(ops, ops.len() as int)->Ok_0[0] as int
}

proof fn lemma_eval_run_agree<'a>(o1: Seq<ConditionOp>, o2: Seq<ConditionOp>, ctx: Context<'a>, m: int)
    requires
        0 <= m <= o1.len(),
        m <= o2.len(),
        forall|i: int| 0 <= i < m ==> o1[i] == o2[i],
    ensures
        eval_run(o1, ctx, m) == eval_run(o2, ctx, m),
    decreases m,
{
    if m > 0 {
        lemma_eval_run_agree(o1, o2, ctx, m - 1);
    }
}

proof fn lemma_depth_run_agree(o1: Seq<ConditionOp>, o2: Seq<ConditionOp>, m: int)
    requires
        0 <= m <= o1.len(),
        m <= o2.len(),
        forall|i: int| 0 <= i < m ==> o1[i] == o2[i],
    ensures
        depth_run(o1, m) == depth_run(o2, m),
    decreases m,
{
    if m > 0 {
        lemma_depth_run_agree(o1, o2, m - 1);
    }
}

proof fn lemma_depth_run_len(ops: Seq<ConditionOp>, m: int)
    requires
        m >= 0,
        depth_run(ops, m) is Ok,
    ensures
        depth_run(ops, m)->Ok_0.len() <= m,
    decreases m,
{
    if m > 0 {
        lemma_depth_run_prefix_ok(ops, m - 1, m);
        lemma_depth_run_len(ops, m - 1);
    }
}

/// A step that succeeds on a stack succeeds the same way with values beneath it.
proof fn lemma_eval_step_shift<'a>(
    below: Seq<bool>,
    stack: Seq<bool>,
    op: ConditionOp,
    ctx: Context<'a>,
    i: int,
    j: int,
)
    requires
        eval_step(stack, op, ctx, i) is Ok,
    ensures
        eval_step(below + stack, op, ctx, j) == Ok::<Seq<bool>, Error>(
            below + eval_step(stack, op, ctx, i)->Ok_0,
        ),
{
    let n = stack.len();
    let whole = below + stack;
    let m = whole.len();
    if op.is_leaf() {
        assert(whole.push(leaf_value(op, ctx)) =~= below + stack.push(leaf_value(op, ctx)));
    } else if op is Not {
        assert(whole[m - 1] == stack[n - 1]);
        assert(whole.update(m - 1, !whole[m - 1]) =~= below + stack.update(n - 1, !stack[n - 1]));
    } else {
        assert(whole[m - 1] == stack[n - 1]);
        assert(whole[m - 2] == stack[n - 2]);
        assert(eval_step(whole, op, ctx, j)->Ok_0 =~= below + eval_step(stack, op, ctx, i)->Ok_0);
    }
}

/// A validation step that succeeds on a stack succeeds the same way with depths beneath
/// it, provided a push still fits.
proof fn lemma_depth_step_shift(below: Seq<usize>, depths: Seq<usize>, op: ConditionOp, i: int, j: int)
    requires
        depth_step(depths, op, i) is Ok,
        op.is_leaf() ==> below.len() + depths.len() < MAX_CONDITION_OPS,
    ensures
        depth_step(below + depths, op, j) == Ok::<Seq<usize>, Error>(
            below + depth_step(depths, op, i)->Ok_0,
        ),
{
    let n = depths.len();
    let whole = below + depths;
    let m = whole.len();
    if op.is_leaf() {
        assert(whole.push(1) =~= below + depths.push(1));
    } else if op is Not {
        assert(whole[m - 1] == depths[n - 1]);
        let d = depths[n - 1] + 1;
        assert(whole.update(m - 1, d as usize) =~= below + depths.update(n - 1, d as usize));
    } else {
        assert(whole[m - 1] == depths[n - 1]);
        assert(whole[m - 2] == depths[n - 2]);
        assert(depth_step(whole, op, j)->Ok_0 =~= below + depth_step(depths, op, i)->Ok_0);
    }
}

/// Running `q` after a prefix that left `below` on the stack leaves `below` under what `q`
/// alone leaves.
proof fn lemma_eval_run_concat<'a>(
    ops: Seq<ConditionOp>,
    start: int,
    below: Seq<bool>,
    q: Seq<ConditionOp>,
    ctx: Context<'a>,
    k: int,
)
    requires
        0 <= start,
        0 <= k <= q.len(),
        start + q.len() <= ops.len(),
        forall|i: int| 0 <= i < q.len() ==> ops[start + i] == q[i],
        depth_run(q, q.len() as int) is Ok,
        eval_run(ops, ctx, start) == Ok::<Seq<bool>, Error>(below),
    ensures
        eval_run(q, ctx, k) is Ok,
        eval_run(ops, ctx, start + k) == Ok::<Seq<bool>, Error>(below + eval_run(q, ctx, k)->Ok_0),
    decreases k,
{
    lemma_depth_run_prefix_ok(q, k, q.len() as int);
    lemma_eval_tracks_depth(q, ctx, k);
    if k == 0 {
        assert(below + eval_run(q, ctx, 0)->Ok_0 =~= below);
    } else {
        lemma_eval_run_concat(ops, start, below, q, ctx, k - 1);
        assert(ops[start + k - 1] == q[k - 1]);
        lemma_eval_step_shift(
            below,
            eval_run(q, ctx, k - 1)->Ok_0,
            q[k - 1],
            ctx,
            k - 1,
            start + k - 1,
        );
    }
}

proof fn lemma_depth_run_concat(
    ops: Seq<ConditionOp>,
    start: int,
    below: Seq<usize>,
    q: Seq<ConditionOp>,
    k: int,
)
    requires
        0 <= start,
        0 <= k <= q.len(),
        start + q.len() <= ops.len(),
        start + q.len() <= MAX_CONDITION_OPS,
        below.len() <= start,
        forall|i: int| 0 <= i < q.len() ==> ops[start + i] == q[i],
        depth_run(q, q.len() as int) is Ok,
        depth_run(ops, start) == Ok::<Seq<usize>, Error>(below),
    ensures
        depth_run(q, k) is Ok,
        depth_run(ops, start + k) == Ok::<Seq<usize>, Error>(below + depth_run(q, k)->Ok_0),
    decreases k,
{
    lemma_depth_run_prefix_ok(q, k, q.len() as int);
    if k == 0 {
        assert(below + depth_run(q, 0)->Ok_0 =~= below);
    } else {
        lemma_depth_run_concat(ops, start, below, q, k - 1);
        lemma_depth_run_len(q, k - 1);
        assert(ops[start + k - 1] == q[k - 1]);
        lemma_depth_step_shift(below, depth_run(q, k - 1)->Ok_0, q[k - 1], k - 1, start + k - 1);
    }
}

/// Facts about a validated program: it leaves one value of depth `1..=MAX_CONDITION_DEPTH`.
proof fn lemma_validated_program(ops: Seq<ConditionOp>)
    requires
        condition_verdict(ops) is Ok,
    ensures
        1 <= ops.len() <= MAX_CONDITION_OPS,
        depth_run(ops, ops.len() as int) is Ok,
        depth_run(ops, ops.len() as int)->Ok_0.len() == 1,
        1 <= program_depth(ops) <= MAX_CONDITION_DEPTH,
{
    lemma_depth_run_bounds(ops, ops.len() as int);
}

/// A single leaf op is a valid program of depth 1 whose value is the test it makes:
/// `True` and `False` are constants, `AttrPresent` asks whether the key is in the context,
/// and the `AttrEq*` tests ask whether the key holds a value of that type equal to theirs.
pub proof fn lemma_leaf_program<'a>(op: ConditionOp, ctx: Context<'a>)
    requires
        op.is_leaf(),
    ensures
        condition_verdict(seq![op]) is Ok,
        program_depth(seq![op]) == 1,
        op is True ==> condition_outcome(seq![op], ctx) == Ok::<bool, Error>(true),
        op is False ==> condition_outcome(seq![op], ctx) == Ok::<bool, Error>(false),
        op matches ConditionOp::AttrPresent { key } ==> condition_outcome(seq![op], ctx) == Ok::<
            bool,
            Error,
        >(ctx.spec_get(key@) is Some),
        op matches ConditionOp::AttrEqBool { key, value } ==> condition_outcome(seq![op], ctx)
            == Ok::<bool, Error>(
            exists|b: bool| ctx.spec_get(key@) == Some(ValueRef::<'a>::Bool(b)) && b == value,
        ),
        op matches ConditionOp::AttrEqInt { key, value } ==> condition_outcome(seq![op], ctx)
            == Ok::<bool, Error>(
            exists|n: i64| ctx.spec_get(key@) == Some(ValueRef::<'a>::Int(n)) && n == value,
        ),
        op matches ConditionOp::AttrEqStr { key, value } ==> condition_outcome(seq![op], ctx)
            == Ok::<bool, Error>(
            exists|s: AtomRef<'a>| ctx.spec_get(key@) == Some(ValueRef::<'a>::Str(s)) && s@ == value@,
        ),
{
    let ops = seq![op];
    assert(ops[0] == op);
    assert(depth_run(ops, 0) == Ok::<Seq<usize>, Error>(Seq::empty()));
    assert(eval_run(ops, ctx, 0) == Ok::<Seq<bool>, Error>(Seq::empty()));
    assert(depth_run(ops, 1) == Ok::<Seq<usize>, Error>(seq![1usize])) by {
        assert(Seq::<usize>::empty().push(1) =~= seq![1usize]);
    }
    assert(eval_run(ops, ctx, 1) == Ok::<Seq<bool>, Error>(seq![leaf_value(op, ctx)])) by {
        assert(Seq::<bool>::empty().push(leaf_value(op, ctx)) =~= seq![leaf_value(op, ctx)]);
    }
    match ctx.spec_get(op->AttrEqStr_key@) {
        Some(ValueRef::Str(s)) => {},
        _ => {},
    }
}

/// `Not` negates: appending it to a valid program of depth below the limit gives a valid
/// program one level deeper whose value is the opposite; at the limit it is refused.
pub proof fn lemma_not_program<'a>(p: Seq<ConditionOp>, ctx: Context<'a>)
    requires
        condition_verdict(p) is Ok,
        p.len() < MAX_CONDITION_OPS,
    ensures
        program_depth(p) < MAX_CONDITION_DEPTH ==> {
            &&& condition_verdict(p.push(ConditionOp::Not)) is Ok
            &&& program_depth(p.push(ConditionOp::Not)) == program_depth(p) + 1
            &&& condition_outcome(p.push(ConditionOp::Not), ctx) == Ok::<bool, Error>(
                !program_value(p, ctx),
            )
        },
        program_depth(p) >= MAX_CONDITION_DEPTH ==> condition_verdict(p.push(ConditionOp::Not))
            == Err::<(), Error>(
            Error::ConditionDepthExceeded {
                limit: MAX_CONDITION_DEPTH,
                actual: (program_depth(p) + 1) as usize,
            },
        ),
{
    let r = p.push(ConditionOp::Not);
    let n = p.len() as int;
    lemma_validated_program(p);
    lemma_eval_tracks_depth(p, ctx, n);
    lemma_depth_run_agree(p, r, n);
    lemma_eval_run_agree(p, r, ctx, n);
    assert(r[n] == ConditionOp::Not);
    let d = depth_run(p, n)->Ok_0;
    if depth_step(d, ConditionOp::Not, n) is Ok {
        assert(depth_step(d, ConditionOp::Not, n)->Ok_0 =~= seq![depth_step(d, ConditionOp::Not, n)->Ok_0[0]]);
    }
    let st = eval_run(p, ctx, n)->Ok_0;
    assert(eval_step(st, ConditionOp::Not, ctx, n)->Ok_0 =~= seq![eval_step(st, ConditionOp::Not, ctx, n)->Ok_0[0]]);
}

/// `And` and `Or` combine: following two valid programs by `And` (or `Or`) gives a valid
/// program one level deeper than the deeper of the two, whose value is the conjunction (or
/// disjunction) of theirs; past the depth limit it is refused.
pub proof fn lemma_binary_program<'a>(
    p: Seq<ConditionOp>,
    q: Seq<ConditionOp>,
    op: ConditionOp,
    ctx: Context<'a>,
)
    requires
        op is And || op is Or,
        condition_verdict(p) is Ok,
        condition_verdict(q) is Ok,
        p.len() + q.len() + 1 <= MAX_CONDITION_OPS,
    ensures
        ({
            let d = (if program_depth(p) >= program_depth(q) {
                program_depth(p)
            } else {
                program_depth(q)
            }) + 1;
            &&& d <= MAX_CONDITION_DEPTH ==> {
                &&& condition_verdict(p + q + seq![op]) is Ok
                &&& program_depth(p + q + seq![op]) == d
                &&& condition_outcome(p + q + seq![op], ctx) == Ok::<bool, Error>(
                    if op is And {
                        program_value(p, ctx) && program_value(q, ctx)
                    } else {
                        program_value(p, ctx) || program_value(q, ctx)
                    },
                )
            }
            &&& d > MAX_CONDITION_DEPTH ==> condition_verdict(p + q + seq![op]) == Err::<(), Error>(
                Error::ConditionDepthExceeded { limit: MAX_CONDITION_DEPTH, actual: d as usize },
            )
        }),
{
    let r = p + q + seq![op];
    let np = p.len() as int;
    let nq = q.len() as int;
    lemma_validated_program(p);
    lemma_validated_program(q);
    lemma_eval_tracks_depth(p, ctx, np);
    lemma_eval_tracks_depth(q, ctx, nq);
    assert forall|i: int| 0 <= i < np implies p[i] == r[i] by {}
    assert forall|i: int| 0 <= i < nq implies r[np + i] == q[i] by {}
    assert(r[np + nq] == op);
    lemma_depth_run_agree(p, r, np);
    lemma_eval_run_agree(p, r, ctx, np);
    let dp = depth_run(p, np)->Ok_0;
    let dq = depth_run(q, nq)->Ok_0;
    let sp = eval_run(p, ctx, np)->Ok_0;
    let sq = eval_run(q, ctx, nq)->Ok_0;
    lemma_depth_run_concat(r, np, dp, q, nq);
    lemma_eval_run_concat(r, np, sp, q, ctx, nq);
    let dd = dp + dq;
    let ss = sp + sq;
    assert(dd[0] == dp[0] && dd[1] == dq[0]);
    assert(ss[0] == sp[0] && ss[1] == sq[0]);
    if depth_step(dd, op, np + nq) is Ok {
        assert(depth_step(dd, op, np + nq)->Ok_0 =~= seq![depth_step(dd, op, np + nq)->Ok_0[0]]);
    }
    assert(eval_step(ss, op, ctx, np + nq)->Ok_0 =~= seq![eval_step(ss, op, ctx, np + nq)->Ok_0[0]]);
}

/// A validated postfix condition program.
#[derive(Debug, Eq, PartialEq)]
pub struct ConditionProgram {
    ops: Vec<ConditionOp>,
}

impl Clone for ConditionProgram {
    fn clone(&self) -> (c: Self)
        ensures
            c.spec_ops() == self.spec_ops(),
    {
        proof {
            use_type_invariant(self);
        }
        let ops = self.ops.clone();
        assert(ops@ =~= self.ops@);
        ConditionProgram { ops }
    }
}

impl ConditionProgram {
    #[verifier::type_invariant]
    spec fn validated(self) -> bool {
        condition_verdict(self.ops@) is Ok
    }

    /// The program's ops, in postfix order.
    pub closed spec fn spec_ops(self) -> Seq<ConditionOp> {
        self.ops@
    }

    /// Builds a program from postfix ops, returning every structural error now:
    /// `evaluate` will not meet one.
    pub fn new(ops: Vec<ConditionOp>) -> (r: Result<Self, Error>)
        ensures
            match condition_verdict(ops@) {
                Ok(()) => r is Ok && r->Ok_0.spec_ops() == ops@,
                Err(e) => r == Err::<Self, Error>(e),
            },
    {
        validate_condition_ops(&ops)?;
        Ok(Self { ops })
    }

    pub fn ops(&self) -> (s: &[ConditionOp])
        ensures
            s@ == self.spec_ops(),
    {
        self.ops.as_slice()
    }
}

/// Takes `units` from the budget, or fails without touching it when too few are left.
fn charge(budget: &mut u32, units: u32, budget_limit: u32) -> (r: Result<(), Error>)
    ensures
        *old(budget) < units ==> r == Err::<(), Error>(
            Error::EvaluationBudgetExceeded { limit: budget_limit },
        ) && *final(budget) == *old(budget),
        *old(budget) >= units ==> r is Ok && *final(budget) == *old(budget) - units,
{
    if *budget < units {
        return Err(Error::EvaluationBudgetExceeded { limit: budget_limit });
    }
    *budget = *budget - units;
    Ok(())
}

/// Runs a validated program against the context, one budget unit per op.
fn evaluate_condition(
    program: &ConditionProgram,
    context: Context<'_>,
    budget: &mut u32,
    budget_limit: u32,
) -> (r: Result<bool, Error>)
    ensures
        *old(budget) < program.spec_ops().len() ==> r == Err::<bool, Error>(
            Error::EvaluationBudgetExceeded { limit: budget_limit },
        ) && *final(budget) == 0,
        *old(budget) >= program.spec_ops().len() ==> r == condition_outcome(
            program.spec_ops(),
            context,
        ) && r is Ok && *final(budget) == *old(budget) - program.spec_ops().len(),
{
    proof {
        use_type_invariant(program);
        lemma_validated_condition_reduces(program.ops@, context);
    }
    let ghost ops = program.ops@;
    let ghost start = *budget;
    let mut stack = [false; 32];
    let mut len: usize = 0;
    let mut index: usize = 0;
    let n = program.ops.len();
    assert(stack@.subrange(0, 0) =~= Seq::<bool>::empty());
    while index < n
        invariant
            n == ops.len(),
            ops == program.spec_ops(),
            condition_verdict(ops) is Ok,
            0 <= index <= n,
            start == *old(budget),
            start >= index,
            *budget == start - index,
            len <= MAX_CONDITION_STACK,
            eval_run(ops, context, index as int) == Ok::<Seq<bool>, Error>(
                stack@.subrange(0, len as int),
            ),
            depth_run(ops, index as int) is Ok,
            depth_run(ops, index as int)->Ok_0.len() == len,
        decreases n - index,
    {
        charge(budget, 1, budget_limit)?;
        proof {
            lemma_depth_run_prefix_ok(ops, index + 1, n as int);
            lemma_eval_tracks_depth(ops, context, index + 1);
            lemma_depth_run_bounds(ops, index + 1);
        }
        let ghost before = stack@.subrange(0, len as int);
        let op = &program.ops[index];
        match op {
            ConditionOp::AttrPresent { key } => {
                stack[len] = context.get(key.as_atom()).is_some();
                len = len + 1;
            },
            ConditionOp::AttrEqBool { key, value } => {
                stack[len] = match context.get(key.as_atom()) {
                    Some(ValueRef::Bool(actual)) => actual == *value,
                    _ => false,
                };
                len = len + 1;
            },
            ConditionOp::AttrEqInt { key, value } => {
                stack[len] = match context.get(key.as_atom()) {
                    Some(ValueRef::Int(actual)) => actual == *value,
                    _ => false,
                };
                len = len + 1;
            },
            ConditionOp::AttrEqStr { key, value } => {
                stack[len] = match context.get(key.as_atom()) {
                    Some(ValueRef::Str(actual)) => actual.same_as(value.as_atom()),
                    _ => false,
                };
                len = len + 1;
            },
            ConditionOp::True => {
                stack[len] = true;
                len = len + 1;
            },
            ConditionOp::False => {
                stack[len] = false;
                len = len + 1;
            },
            ConditionOp::Not => {
                if len < 1 {
                    return Err(Error::ConditionStackUnderflow { op_index: index });
                }
                stack[len - 1] = !stack[len - 1];
            },
            ConditionOp::And => {
                if len < 2 {
                    return Err(Error::ConditionStackUnderflow { op_index: index });
                }
                let rhs = stack[len - 1];
                let lhs = stack[len - 2];
                let dst = len - 2;
                len = len - 1;
                stack[dst] = lhs && rhs;
            },
            ConditionOp::Or => {
                if len < 2 {
                    return Err(Error::ConditionStackUnderflow { op_index: index });
                }
                let rhs = stack[len - 1];
                let lhs = stack[len - 2];
                let dst = len - 2;
                len = len - 1;
                stack[dst] = lhs || rhs;
            },
        }
        assert(eval_run(ops, context, index + 1) == Ok::<Seq<bool>, Error>(
            stack@.subrange(0, len as int),
        )) by {
            assert(eval_run(ops, context, index + 1) == eval_step(before, ops[index as int], context, index as int));
            assert(stack@.subrange(0, len as int) =~= eval_run(ops, context, index + 1)->Ok_0);
        }
        index = index + 1;
    }
    if len != 1 {
        return Err(Error::ConditionDoesNotReduceToSingleValue { remaining: len });
    }
    Ok(stack[0])
}

// ---------------------------------------------------------------------------
// Rules and their builder.
// ---------------------------------------------------------------------------

/// A single authorization rule: a name, an effect, three selectors, and an optional condition.
///
/// Rules are constructed via [`Rule::allow`] or [`Rule::deny`] and are immutable once built.
#[derive(Clone, Debug, Eq, PartialEq)]
pub struct Rule {
    name: OwnedAtom,
    effect: Effect,
    principal: Selector,
    action: Selector,
    resource: Selector,
    condition: Option<ConditionProgram>,
}

impl Rule {
    pub closed spec fn spec_name(self) -> Seq<u8> {
        self.name@
    }

    pub closed spec fn spec_effect(self) -> Effect {
        self.effect
    }

    pub closed spec fn spec_principal(self) -> Selector {
        self.principal
    }

    pub closed spec fn spec_action(self) -> Selector {
        self.action
    }

    pub closed spec fn spec_resource(self) -> Selector {
        self.resource
    }

    pub closed spec fn spec_condition(self) -> Option<ConditionProgram> {
        self.condition
    }

    /// Starts building an allow rule with the given name; all selectors are `Any`.
    ///
    /// Rule names must be unique within a [`Policy`]; duplicates are rejected at `Policy::new`.
    pub fn allow(name: &str) -> (r: Result<RuleBuilder, Error>)
        ensures
            fresh_builder_outcome(name, Effect::Allow, r),
    {
        RuleBuilder::new(name, Effect::Allow)
    }

    /// Starts building a deny rule with the given name; all selectors are `Any`.
    ///
    /// A matching deny rule always overrides any matching allow rule.
    pub fn deny(name: &str) -> (r: Result<RuleBuilder, Error>)
        ensures
            fresh_builder_outcome(name, Effect::Deny, r),
    {
        RuleBuilder::new(name, Effect::Deny)
    }

    pub fn name(&self) -> (s: &str)
        ensures
            s.spec_bytes() == self.spec_name(),
    {
        self.name.as_str()
    }

    pub fn effect(&self) -> (e: Effect)
        ensures
            e == self.spec_effect(),
    {
        self.effect
    }

    pub fn condition(&self) -> (c: Option<&ConditionProgram>)
        ensures
            match c {
                Some(p) => self.spec_condition() == Some(*p),
                None => self.spec_condition() is None,
            },
    {
        match &self.condition {
            Some(p) => Some(p),
            None => None,
        }
    }
}

/// `after` is `before` with only the selector in `slot` (0 principal, 1 action, 2 resource)
/// replaced by `sel`.
pub open spec fn with_selector(before: Rule, after: Rule, slot: int, sel: Selector) -> bool {
    &&& after.spec_name() == before.spec_name()
    &&& after.spec_effect() == before.spec_effect()
    &&& after.spec_condition() == before.spec_condition()
    &&& after.spec_principal() == (if slot == 0 { sel } else { before.spec_principal() })
    &&& after.spec_action() == (if slot == 1 { sel } else { before.spec_action() })
    &&& after.spec_resource() == (if slot == 2 { sel } else { before.spec_resource() })
}

/// The selector in `slot` (0 principal, 1 action, 2 resource).
pub open spec fn selector_in(rule: Rule, slot: int) -> Selector {
    if slot == 0 {
        rule.spec_principal()
    } else if slot == 1 {
        rule.spec_action()
    } else {
        rule.spec_resource()
    }
}

/// What `Rule::allow`/`Rule::deny` give: a builder named `name` with every selector `Any`
/// and no condition, or the name's validation error.
pub open spec fn fresh_builder_outcome(name: &str, effect: Effect, r: Result<RuleBuilder, Error>) -> bool {
    match atom_verdict(name.spec_bytes()) {
        Err(e) => r == Err::<RuleBuilder, Error>(e),
        Ok(()) => match r {
            Ok(b) => {
                &&& b.spec_rule().spec_name() == name.spec_bytes()
                &&& b.spec_rule().spec_effect() == effect
                &&& b.spec_rule().spec_principal() == Selector::Any
                &&& b.spec_rule().spec_action() == Selector::Any
                &&& b.spec_rule().spec_resource() == Selector::Any
                &&& b.spec_rule().spec_condition() is None
            },
            Err(_) => false,
        },
    }
}

/// What a builder step that sets the selector in `slot` from one atom gives.
pub open spec fn atom_step_outcome(
    before: RuleBuilder,
    value: &str,
    slot: int,
    exact: bool,
    r: Result<RuleBuilder, Error>,
) -> bool {
    match r {
        Ok(b) => {
            &&& atom_selector_outcome(value, Ok(selector_in(b.spec_rule(), slot)), exact)
            &&& with_selector(before.spec_rule(), b.spec_rule(), slot, selector_in(b.spec_rule(), slot))
        },
        Err(e) => atom_selector_outcome(value, Err(e), exact),
    }
}

/// What a builder step that sets the selector in `slot` from a set of atoms gives.
pub open spec fn set_step_outcome(
    before: RuleBuilder,
    values: Seq<&str>,
    slot: int,
    r: Result<RuleBuilder, Error>,
) -> bool {
    match r {
        Ok(b) => {
            &&& set_selector_outcome(values, Ok(selector_in(b.spec_rule(), slot)))
            &&& with_selector(before.spec_rule(), b.spec_rule(), slot, selector_in(b.spec_rule(), slot))
        },
        Err(e) => set_selector_outcome(values, Err(e)),
    }
}

/// A rule under construction.
#[derive(Clone, Debug, Eq, PartialEq)]
pub struct RuleBuilder {
    name: OwnedAtom,
    effect: Effect,
    principal: Selector,
    action: Selector,
    resource: Selector,
    condition: Option<ConditionProgram>,
}

impl RuleBuilder {
    /// The rule that `build` would give now.
    pub closed spec fn spec_rule(self) -> Rule {
        Rule {
            name: self.name,
            effect: self.effect,
            principal: self.principal,
            action: self.action,
            resource: self.resource,
            condition: self.condition,
        }
    }

    fn new(name: &str, effect: Effect) -> (r: Result<Self, Error>)
        ensures
            fresh_builder_outcome(name, effect, r),
    {
        Ok(Self {
            name: OwnedAtom::new(name)?,
            effect,
            principal: Selector::Any,
            action: Selector::Any,
            resource: Selector::Any,
            condition: None,
        })
    }

    fn with_principal(self, sel: Selector) -> (b: Self)
        ensures
            with_selector(self.spec_rule(), b.spec_rule(), 0, sel),
    {
        let mut b = self;
        b.principal = sel;
        b
    }

    fn with_action(self, sel: Selector) -> (b: Self)
        ensures
            with_selector(self.spec_rule(), b.spec_rule(), 1, sel),
    {
        let mut b = self;
        b.action = sel;
        b
    }

    fn with_resource(self, sel: Selector) -> (b: Self)
        ensures
            with_selector(self.spec_rule(), b.spec_rule(), 2, sel),
    {
        let mut b = self;
        b.resource = sel;
        b
    }

    pub fn principal_any(self) -> (b: Self)
        ensures
            with_selector(self.spec_rule(), b.spec_rule(), 0, Selector::Any),
    {
        self.with_principal(Selector::Any)
    }

    pub fn principal_exact(self, value: &str) -> (r: Result<Self, Error>)
        ensures
            atom_step_outcome(self, value, 0, true, r),
    {
        let sel = Selector::exact(value)?;
        Ok(self.with_principal(sel))
    }

    pub fn principal_prefix(self, prefix: &str) -> (r: Result<Self, Error>)
        ensures
            atom_step_outcome(self, prefix, 0, false, r),
    {
        let sel = Selector::prefix(prefix)?;
        Ok(self.with_principal(sel))
    }

    pub fn principal_set(self, values: Vec<&str>) -> (r: Result<Self, Error>)
        ensures
            set_step_outcome(self, values@, 0, r),
    {
        let sel = Selector::set(values)?;
        Ok(self.with_principal(sel))
    }

    pub fn action_any(self) -> (b: Self)
        ensures
            with_selector(self.spec_rule(), b.spec_rule(), 1, Selector::Any),
    {
        self.with_action(Selector::Any)
    }

    pub fn action_exact(self, value: &str) -> (r: Result<Self, Error>)
        ensures
            atom_step_outcome(self, value, 1, true, r),
    {
        let sel = Selector::exact(value)?;
        Ok(self.with_action(sel))
    }

    pub fn action_prefix(self, prefix: &str) -> (r: Result<Self, Error>)
        ensures
            atom_step_outcome(self, prefix, 1, false, r),
    {
        let sel = Selector::prefix(prefix)?;
        Ok(self.with_action(sel))
    }

    pub fn action_set(self, values: Vec<&str>) -> (r: Result<Self, Error>)
        ensures
            set_step_outcome(self, values@, 1, r),
    {
        let sel = Selector::set(values)?;
        Ok(self.with_action(sel))
    }

    pub fn resource_any(self) -> (b: Self)
        ensures
            with_selector(self.spec_rule(), b.spec_rule(), 2, Selector::Any),
    {
        self.with_resource(Selector::Any)
    }

    pub fn resource_exact(self, value: &str) -> (r: Result<Self, Error>)
        ensures
            atom_step_outcome(self, value, 2, true, r),
    {
        let sel = Selector::exact(value)?;
        Ok(self.with_resource(sel))
    }

    pub fn resource_prefix(self, prefix: &str) -> (r: Result<Self, Error>)
        ensures
            atom_step_outcome(self, prefix, 2, false, r),
    {
        let sel = Selector::prefix(prefix)?;
        Ok(self.with_resource(sel))
    }

    pub fn resource_set(self, values: Vec<&str>) -> (r: Result<Self, Error>)
        ensures
            set_step_outcome(self, values@, 2, r),
    {
        let sel = Selector::set(values)?;
        Ok(self.with_resource(sel))
    }

    /// Attaches a condition program, replacing any earlier one.
    pub fn condition(self, condition: ConditionProgram) -> (b: Self)
        ensures
            b.spec_rule().spec_name() == self.spec_rule().spec_name(),
            b.spec_rule().spec_effect() == self.spec_rule().spec_effect(),
            b.spec_rule().spec_principal() == self.spec_rule().spec_principal(),
            b.spec_rule().spec_action() == self.spec_rule().spec_action(),
            b.spec_rule().spec_resource() == self.spec_rule().spec_resource(),
            b.spec_rule().spec_condition() == Some(condition),
    {
        let mut b = self;
        b.condition = Some(condition);
        b
    }

    pub fn build(self) -> (r: Rule)
        ensures
            r == self.spec_rule(),
    {
        Rule {
            name: self.name,
            effect: self.effect,
            principal: self.principal,
            action: self.action,
            resource: self.resource,
            condition: self.condition,
        }
    }
}

// ---------------------------------------------------------------------------
// Meaning of a policy: first matching deny wins, else first matching allow.
// ---------------------------------------------------------------------------

/// Number of ops in the rule's condition (0 without one).
pub open spec fn condition_len(rule: Rule) -> nat {
    match rule.spec_condition() {
        Some(c) => c.spec_ops().len(),
        None => 0,
    }
}

/// Does the rule apply to the request: all three selectors accept it and the condition,
/// if any, evaluates to true?
pub open spec fn rule_applies<'a>(
    rule: Rule,
    p: Seq<u8>,
    a: Seq<u8>,
    r: Seq<u8>,
    ctx: Context<'a>,
) -> bool {
    &&& rule.spec_principal().spec_matches(p)
    &&& rule.spec_action().spec_matches(a)
    &&& rule.spec_resource().spec_matches(r)
    &&& match rule.spec_condition() {
        Some(c) => condition_outcome(c.spec_ops(), ctx) == Ok::<bool, Error>(true),
        None => true,
    }
}

/// Budget units that checking `rule` against a request takes: one per selector tested,
/// stopping at the first that rejects, then one per condition op.
pub open spec fn rule_cost(rule: Rule, p: Seq<u8>, a: Seq<u8>, r: Seq<u8>) -> nat {
    if !rule.spec_principal().spec_matches(p) {
        1
    } else if !rule.spec_action().spec_matches(a) {
        2
    } else if !rule.spec_resource().spec_matches(r) {
        3
    } else {
        3 + condition_len(rule)
    }
}

/// The most units any request can take on `rules[i..]`: three selectors and every
/// condition op of each rule.
pub open spec fn worst_case_units(rules: Seq<Rule>, i: int) -> nat
    decreases rules.len() - i,
{
    if i < 0 || i >= rules.len() {
        0
    } else {
        3 + condition_len(rules[i]) + worst_case_units(rules, i + 1)
    }
}

/// The budget `Policy::new` gives: the worst case, and at least 1.
pub open spec fn default_budget(rules: Seq<Rule>) -> nat {
    if worst_case_units(rules, 0) == 0 {
        1
    } else {
        worst_case_units(rules, 0)
    }
}

/// One pass over `rules[i..]` with `budget` units left and `first_allow` the earliest
/// applying allow rule seen so far: the decision with the index of the deciding rule,
/// or budget exhaustion.
pub open spec fn eval_rules<'a>(
    rules: Seq<Rule>,
    p: Seq<u8>,
    a: Seq<u8>,
    r: Seq<u8>,
    ctx: Context<'a>,
    i: int,
    budget: int,
    first_allow: Option<int>,
    limit: u32,
) -> Result<(Decision, Option<int>), Error>
    decreases rules.len() - i,
{
    if i < 0 || i >= rules.len() {
        match first_allow {
            Some(k) => Ok((Decision::Allow, Some(k))),
            None => Ok((Decision::NoMatch, None)),
        }
    } else if budget < rule_cost(rules[i], p, a, r) {
        Err(Error::EvaluationBudgetExceeded { limit })
    } else if rule_applies(rules[i], p, a, r, ctx) && rules[i].spec_effect() == Effect::Deny {
        Ok((Decision::Deny, Some(i)))
    } else {
        eval_rules(
            rules,
            p,
            a,
            r,
            ctx,
            i + 1,
            budget - rule_cost(rules[i], p, a, r),
            if rule_applies(rules[i], p, a, r, ctx) && first_allow is None {
                Some(i)
            } else {
                first_allow
            },
            limit,
        )
    }
}

pub open spec fn index_of(o: Option<usize>) -> Option<int> {
    match o {
        Some(k) => Some(k as int),
        None => None,
    }
}

/// The conditions of all rules passed validation.
pub open spec fn conditions_validated(rules: Seq<Rule>) -> bool {
    forall|i: int|
        0 <= i < rules.len() ==> match (#[trigger] rules[i]).spec_condition() {
            Some(c) => condition_verdict(c.spec_ops()) is Ok,
            None => true,
        }
}

/// No two rules share a name.
pub open spec fn names_distinct(rules: Seq<Rule>) -> bool {
    forall|i: int, j: int| 0 <= i < j < rules.len() ==> rules[i].spec_name() != rules[j].spec_name()
}

/// `(first, second)` is the first pair of rules sharing a name, pairs taken in the order
/// `(0, 1), (0, 2), ..., (1, 2), ...`.
pub open spec fn is_first_duplicate_name(rules: Seq<Rule>, first: int, second: int) -> bool {
    &&& 0 <= first < second < rules.len()
    &&& rules[first].spec_name() == rules[second].spec_name()
    &&& forall|i: int, j: int|
        0 <= i < j < rules.len() && (i < first || (i == first && j < second))
            ==> rules[i].spec_name() != rules[j].spec_name()
}

/// Why a rule list is refused: too many rules, else the first pair of duplicate names.
pub open spec fn rules_rejected_with(rules: Seq<Rule>, e: Error) -> bool {
    match e {
        Error::TooManyRules { limit, actual } => {
            &&& rules.len() > MAX_RULES
            &&& limit == MAX_RULES
            &&& actual == rules.len()
        },
        Error::DuplicateRuleName { first, second } => {
            &&& rules.len() <= MAX_RULES
            &&& is_first_duplicate_name(rules, first as int, second as int)
        },
        _ => false,
    }
}

fn validate_rules(rules: &Vec<Rule>) -> (r: Result<(), Error>)
    ensures
        match r {
            Ok(()) => rules@.len() <= MAX_RULES && names_distinct(rules@) && conditions_validated(
                rules@,
            ),
            Err(e) => rules_rejected_with(rules@, e),
        },
{
    if rules.len() > MAX_RULES {
        return Err(Error::TooManyRules { limit: MAX_RULES, actual: rules.len() });
    }
    let len = rules.len();
    let mut first: usize = 0;
    while first < len
        invariant
            len == rules@.len(),
            len <= MAX_RULES,
            0 <= first <= len,
            forall|i: int, j: int|
                0 <= i < j < len && i < first ==> rules@[i].spec_name() != rules@[j].spec_name(),
            forall|i: int|
                0 <= i < first ==> match (#[trigger] rules@[i]).spec_condition() {
                    Some(c) => condition_verdict(c.spec_ops()) is Ok,
                    None => true,
                },
        decreases len - first,
    {
        match &rules[first].condition {
            Some(c) => {
                proof {
                    use_type_invariant(c);
                }
            },
            None => {},
        }
        let mut second: usize = first + 1;
        while second < len
            invariant
                len == rules@.len(),
                len <= MAX_RULES,
                0 <= first < len,
                first + 1 <= second <= len,
                forall|i: int, j: int|
                    0 <= i < j < len && i < first ==> rules@[i].spec_name() != rules@[j].spec_name(),
                forall|j: int|
                    first < j < second ==> rules@[first as int].spec_name() != rules@[j].spec_name(),
            decreases len - second,
        {
            if rules[first].name.as_atom().same_as(rules[second].name.as_atom()) {
                return Err(Error::DuplicateRuleName { first, second });
            }
            second = second + 1;
        }
        first = first + 1;
    }
    Ok(())
}

fn default_budget_for(rules: &Vec<Rule>) -> (b: u32)
    requires
        rules@.len() <= MAX_RULES,
    ensures
        b == default_budget(rules@),
{
    let mut total: u32 = 0;
    let mut i: usize = 0;
    while i < rules.len()
        invariant
            rules@.len() <= MAX_RULES,
            0 <= i <= rules@.len(),
            total <= 35 * i,
            total + worst_case_units(rules@, i as int) == worst_case_units(rules@, 0),
        decreases rules.len() - i,
    {
        let rule = &rules[i];
        total = total + 3;
        match &rule.condition {
            Some(condition) => {
                proof {
                    use_type_invariant(condition);
                }
                total = total + condition.ops.len() as u32;
            },
            None => {},
        }
        i = i + 1;
    }
    if total < 1 {
        1
    } else {
        total
    }
}

/// Checks one selector against the request field, for one budget unit.
fn matches_selector(
    selector: &Selector,
    candidate: AtomRef<'_>,
    budget: &mut u32,
    budget_limit: u32,
) -> (r: Result<bool, Error>)
    ensures
        *old(budget) < 1 ==> r == Err::<bool, Error>(
            Error::EvaluationBudgetExceeded { limit: budget_limit },
        ) && *final(budget) == 0,
        *old(budget) >= 1 ==> r == Ok::<bool, Error>(selector.spec_matches(candidate@))
            && *final(budget) == *old(budget) - 1,
{
    charge(budget, 1, budget_limit)?;
    Ok(selector.matches(candidate))
}

/// Checks one rule against the request: its selectors in order, then its condition.
fn check_rule(
    rule: &Rule,
    principal: Principal<'_>,
    action: Action<'_>,
    resource: Resource<'_>,
    context: Context<'_>,
    budget: &mut u32,
    budget_limit: u32,
) -> (res: Result<bool, Error>)
    ensures
        *old(budget) < rule_cost(*rule, principal@, action@, resource@) ==> res == Err::<
            bool,
            Error,
        >(Error::EvaluationBudgetExceeded { limit: budget_limit }) && *final(budget) == 0,
        *old(budget) >= rule_cost(*rule, principal@, action@, resource@) ==> res == Ok::<
            bool,
            Error,
        >(rule_applies(*rule, principal@, action@, resource@, context)) && *final(budget) == *old(
            budget,
        ) - rule_cost(*rule, principal@, action@, resource@),
{
    if !matches_selector(&rule.principal, principal.as_atom(), budget, budget_limit)? {
        return Ok(false);
    }
    if !matches_selector(&rule.action, action.as_atom(), budget, budget_limit)? {
        return Ok(false);
    }
    if !matches_selector(&rule.resource, resource.as_atom(), budget, budget_limit)? {
        return Ok(false);
    }
    match &rule.condition {
        Some(condition) => evaluate_condition(condition, context, budget, budget_limit),
        None => Ok(true),
    }
}

/// A validated, ordered list of rules with an evaluation budget.
#[derive(Clone, Debug)]
pub struct Policy {
    rules: Vec<Rule>,
    evaluation_budget: u32,
}

impl Policy {
    pub closed spec fn spec_rules(self) -> Seq<Rule> {
        self.rules@
    }

    pub closed spec fn spec_budget(self) -> u32 {
        self.evaluation_budget
    }

    /// A policy as the constructors build it.
    pub open spec fn wf(self) -> bool {
        &&& self.spec_rules().len() <= MAX_RULES
        &&& names_distinct(self.spec_rules())
        &&& conditions_validated(self.spec_rules())
        &&& self.spec_budget() >= 1
    }

    /// The outcome of evaluating the request: the decision with the index of the deciding
    /// rule, or budget exhaustion.
    pub open spec fn spec_outcome<'a>(
        self,
        p: Seq<u8>,
        a: Seq<u8>,
        r: Seq<u8>,
        ctx: Context<'a>,
    ) -> Result<(Decision, Option<int>), Error> {
        eval_rules(
            self.spec_rules(),
            p,
            a,
            r,
            ctx,
            0,
            self.spec_budget() as int,
            None,
            self.spec_budget(),
        )
    }

    /// Does `report` give `decision` and the index and name of rule `index`?
    pub open spec fn report_agrees(
        self,
        report: DecisionReport,
        decision: Decision,
        index: Option<int>,
    ) -> bool {
        &&& report.decision == decision
        &&& index_of(report.matched_rule_index) == index
        &&& match index {
            Some(k) => report.matched_rule_name matches Some(name) && name.spec_bytes()
                == self.spec_rules()[k].spec_name(),
            None => report.matched_rule_name is None,
        }
    }

    /// Constructs a policy whose budget is the worst case over all rules (at least 1), so
    /// that no request can exhaust it.
    pub fn new(rules: Vec<Rule>) -> (r: Result<Self, Error>)
        ensures
            match r {
                Ok(p) => {
                    &&& p.spec_rules() == rules@
                    &&& p.wf()
                    &&& p.spec_budget() == default_budget(rules@)
                    &&& p.spec_budget() >= worst_case_units(rules@, 0)
                },
                Err(e) => rules_rejected_with(rules@, e),
            },
    {
        validate_rules(&rules)?;
        let budget = default_budget_for(&rules);
        Ok(Self { rules, evaluation_budget: budget })
    }

    /// Constructs a policy with an explicit evaluation budget (an advanced API).
    ///
    /// The budget is one counter for the whole evaluation pass: each selector tested and each
    /// condition op executed costs one unit. Rules are validated first; then a zero budget is
    /// refused.
    pub fn with_budget(rules: Vec<Rule>, max_eval_units: u32) -> (r: Result<Self, Error>)
        ensures
            match r {
                Ok(p) => {
                    &&& max_eval_units > 0
                    &&& p.spec_rules() == rules@
                    &&& p.wf()
                    &&& p.spec_budget() == max_eval_units
                },
                Err(Error::ZeroEvaluationBudget) => {
                    &&& max_eval_units == 0
                    &&& rules@.len() <= MAX_RULES
                    &&& names_distinct(rules@)
                },
                Err(e) => rules_rejected_with(rules@, e),
            },
    {
        validate_rules(&rules)?;
        if max_eval_units == 0 {
            return Err(Error::ZeroEvaluationBudget);
        }
        Ok(Self { rules, evaluation_budget: max_eval_units })
    }

    pub fn rules(&self) -> (s: &[Rule])
        ensures
            s@ == self.spec_rules(),
    {
        self.rules.as_slice()
    }

    pub fn evaluation_budget(&self) -> (b: u32)
        ensures
            b == self.spec_budget(),
    {
        self.evaluation_budget
    }

    pub fn evaluate(
        &self,
        principal: Principal<'_>,
        action: Action<'_>,
        resource: Resource<'_>,
        context: Context<'_>,
    ) -> (r: Result<Decision, Error>)
        ensures
            match self.spec_outcome(principal@, action@, resource@, context) {
                Ok((d, _)) => r == Ok::<Decision, Error>(d),
                Err(e) => r == Err::<Decision, Error>(e),
            },
    {
        Ok(self.evaluate_with_report(principal, action, resource, context)?.decision)
    }

    /// Evaluates the policy and converts [`Decision::NoMatch`] to [`Decision::Deny`]: the
    /// recommended entry point. The result is `Ok(Allow)`, `Ok(Deny)` or `Err(...)`.
    pub fn evaluate_deny_by_default(
        &self,
        principal: Principal<'_>,
        action: Action<'_>,
        resource: Resource<'_>,
        context: Context<'_>,
    ) -> (r: Result<Decision, Error>)
        ensures
            r != Ok::<Decision, Error>(Decision::NoMatch),
            match self.spec_outcome(principal@, action@, resource@, context) {
                Ok((Decision::NoMatch, _)) => r == Ok::<Decision, Error>(Decision::Deny),
                Ok((d, _)) => r == Ok::<Decision, Error>(d),
                Err(e) => r == Err::<Decision, Error>(e),
            },
    {
        match self.evaluate(principal, action, resource, context)? {
            Decision::NoMatch => Ok(Decision::Deny),
            other => Ok(other),
        }
    }

    /// Evaluates the policy: the first applying deny rule wins; otherwise the first applying
    /// allow rule; otherwise `NoMatch`. Exhausting the budget gives an error, never a
    /// partial decision.
    pub fn evaluate_with_report<'a>(
        &'a self,
        principal: Principal<'_>,
        action: Action<'_>,
        resource: Resource<'_>,
        context: Context<'_>,
    ) -> (r: Result<DecisionReport<'a>, Error>)
        ensures
            match self.spec_outcome(principal@, action@, resource@, context) {
                Ok((d, idx)) => r matches Ok(report) && self.report_agrees(report, d, idx),
                Err(e) => r == Err::<DecisionReport<'a>, Error>(e),
            },
    {
        let limit = self.evaluation_budget;
        let mut budget = self.evaluation_budget;
        let mut first_allow: Option<usize> = None;
        let n = self.rules.len();
        let mut i: usize = 0;
        while i < n
            invariant
                n == self.rules@.len(),
                limit == self.evaluation_budget,
                0 <= i <= n,
                first_allow matches Some(k) ==> k < i,
                self.spec_outcome(principal@, action@, resource@, context) == eval_rules(
                    self.rules@,
                    principal@,
                    action@,
                    resource@,
                    context,
                    i as int,
                    budget as int,
                    index_of(first_allow),
                    limit,
                ),
            decreases n - i,
        {
            let rule = &self.rules[i];
            let applies = check_rule(rule, principal, action, resource, context, &mut budget, limit)?;
            if applies {
                match rule.effect {
                    Effect::Deny => {
                        return Ok(
                            DecisionReport {
                                decision: Decision::Deny,
                                matched_rule_index: Some(i),
                                matched_rule_name: Some(rule.name.as_str()),
                            },
                        );
                    },
                    Effect::Allow => {
                        if first_allow.is_none() {
                            first_allow = Some(i);
                        }
                    },
                }
            }
            i = i + 1;
        }
        match first_allow {
            Some(index) => Ok(
                DecisionReport {
                    decision: Decision::Allow,
                    matched_rule_index: Some(index),
                    matched_rule_name: Some(self.rules[index].name.as_str()),
                },
            ),
            None => Ok(
                DecisionReport {
                    decision: Decision::NoMatch,
                    matched_rule_index: None,
                    matched_rule_name: None,
                },
            ),
        }
    }
}

// ---------------------------------------------------------------------------
// Laws of evaluation.
// ---------------------------------------------------------------------------

/// The first rule at or after `i` that applies to the request and has effect `effect`.
pub open spec fn first_applying<'a>(
    rules: Seq<Rule>,
    p: Seq<u8>,
    a: Seq<u8>,
    r: Seq<u8>,
    ctx: Context<'a>,
    effect: Effect,
    i: int,
) -> Option<int>
    decreases rules.len() - i,
{
    if i < 0 || i >= rules.len() {
        None
    } else if rule_applies(rules[i], p, a, r, ctx) && rules[i].spec_effect() == effect {
        Some(i)
    } else {
        first_applying(rules, p, a, r, ctx, effect, i + 1)
    }
}

/// Deny-overrides on the rule list, without any budget: the first applying deny rule,
/// else the first applying allow rule, else no match.
pub open spec fn deny_overrides<'a>(
    rules: Seq<Rule>,
    p: Seq<u8>,
    a: Seq<u8>,
    r: Seq<u8>,
    ctx: Context<'a>,
) -> (Decision, Option<int>) {
    match first_applying(rules, p, a, r, ctx, Effect::Deny, 0) {
        Some(k) => (Decision::Deny, Some(k)),
        None => match first_applying(rules, p, a, r, ctx, Effect::Allow, 0) {
            Some(k) => (Decision::Allow, Some(k)),
            None => (Decision::NoMatch, None),
        },
    }
}

/// `first_applying` finds the least such rule at or after `i`.
pub proof fn lemma_first_applying<'a>(
    rules: Seq<Rule>,
    p: Seq<u8>,
    a: Seq<u8>,
    r: Seq<u8>,
    ctx: Context<'a>,
    effect: Effect,
    i: int,
)
    requires
        0 <= i <= rules.len(),
    ensures
        match first_applying(rules, p, a, r, ctx, effect, i) {
            Some(k) => {
                &&& i <= k < rules.len()
                &&& rule_applies(rules[k], p, a, r, ctx)
                &&& rules[k].spec_effect() == effect
                &&& forall|j: int|
                    i <= j < k ==> !(rule_applies(#[trigger] rules[j], p, a, r, ctx)
                        && rules[j].spec_effect() == effect)
            },
            None => forall|j: int|
                i <= j < rules.len() ==> !(rule_applies(#[trigger] rules[j], p, a, r, ctx)
                    && rules[j].spec_effect() == effect),
        },
    decreases rules.len() - i,
{
    if i < rules.len() {
        lemma_first_applying(rules, p, a, r, ctx, effect, i + 1);
    }
}

proof fn lemma_eval_rules_is_deny_overrides<'a>(
    rules: Seq<Rule>,
    p: Seq<u8>,
    a: Seq<u8>,
    r: Seq<u8>,
    ctx: Context<'a>,
    i: int,
    budget: int,
    first_allow: Option<int>,
    limit: u32,
)
    requires
        0 <= i <= rules.len(),
        first_applying(rules, p, a, r, ctx, Effect::Deny, 0) == first_applying(
            rules,
            p,
            a,
            r,
            ctx,
            Effect::Deny,
            i,
        ),
        first_allow is Some ==> first_applying(rules, p, a, r, ctx, Effect::Allow, 0)
            == first_allow,
        first_allow is None ==> first_applying(rules, p, a, r, ctx, Effect::Allow, 0)
            == first_applying(rules, p, a, r, ctx, Effect::Allow, i),
        eval_rules(rules, p, a, r, ctx, i, budget, first_allow, limit) is Ok,
    ensures
        eval_rules(rules, p, a, r, ctx, i, budget, first_allow, limit) == Ok::<
            (Decision, Option<int>),
            Error,
        >(deny_overrides(rules, p, a, r, ctx)),
    decreases rules.len() - i,
{
    if i < rules.len() {
        let applies = rule_applies(rules[i], p, a, r, ctx);
        if !(applies && rules[i].spec_effect() == Effect::Deny) {
            let next = if applies && first_allow is None {
                Some(i)
            } else {
                first_allow
            };
            lemma_eval_rules_is_deny_overrides(
                rules,
                p,
                a,
                r,
                ctx,
                i + 1,
                budget - rule_cost(rules[i], p, a, r),
                next,
                limit,
            );
        }
    }
}

/// Deny overrides, and the budget never changes a decision: whenever evaluation gives a
/// decision, it is the first applying deny rule if there is one, else the first applying
/// allow rule, else no match; when it fails, it is only for budget exhaustion.
pub proof fn lemma_decision_is_deny_overrides<'a>(
    policy: Policy,
    p: Seq<u8>,
    a: Seq<u8>,
    r: Seq<u8>,
    ctx: Context<'a>,
)
    ensures
        match policy.spec_outcome(p, a, r, ctx) {
            Ok((d, idx)) => {
                &&& (d, idx) == deny_overrides(policy.spec_rules(), p, a, r, ctx)
                &&& match d {
                    Decision::Deny => idx matches Some(k) && 0 <= k < policy.spec_rules().len()
                        && rule_applies(policy.spec_rules()[k], p, a, r, ctx)
                        && policy.spec_rules()[k].spec_effect() == Effect::Deny && forall|j: int|
                        0 <= j < k ==> !(rule_applies(#[trigger] policy.spec_rules()[j], p, a, r, ctx)
                            && policy.spec_rules()[j].spec_effect() == Effect::Deny),
                    Decision::Allow => idx matches Some(k) && 0 <= k < policy.spec_rules().len()
                        && rule_applies(policy.spec_rules()[k], p, a, r, ctx)
                        && policy.spec_rules()[k].spec_effect() == Effect::Allow && (forall|j: int|
                        0 <= j < k ==> !(rule_applies(#[trigger] policy.spec_rules()[j], p, a, r, ctx)
                            && policy.spec_rules()[j].spec_effect() == Effect::Allow)) && (forall|
                        j: int|
                        0 <= j < policy.spec_rules().len() ==> !(rule_applies(
                            #[trigger] policy.spec_rules()[j],
                            p,
                            a,
                            r,
                            ctx,
                        ) && policy.spec_rules()[j].spec_effect() == Effect::Deny)),
                    Decision::NoMatch => idx is None && forall|j: int|
                        0 <= j < policy.spec_rules().len() ==> !rule_applies(
                            #[trigger] policy.spec_rules()[j],
                            p,
                            a,
                            r,
                            ctx,
                        ),
                }
            },
            Err(e) => e == Error::EvaluationBudgetExceeded { limit: policy.spec_budget() },
        },
{
    let rules = policy.spec_rules();
    let budget = policy.spec_budget();
    lemma_eval_rules_only_budget_fails(rules, p, a, r, ctx, 0, budget as int, None, budget);
    if policy.spec_outcome(p, a, r, ctx) is Ok {
        lemma_eval_rules_is_deny_overrides(rules, p, a, r, ctx, 0, budget as int, None, budget);
        lemma_first_applying(rules, p, a, r, ctx, Effect::Deny, 0);
        lemma_first_applying(rules, p, a, r, ctx, Effect::Allow, 0);
    }
}

proof fn lemma_eval_rules_only_budget_fails<'a>(
    rules: Seq<Rule>,
    p: Seq<u8>,
    a: Seq<u8>,
    r: Seq<u8>,
    ctx: Context<'a>,
    i: int,
    budget: int,
    first_allow: Option<int>,
    limit: u32,
)
    ensures
        eval_rules(rules, p, a, r, ctx, i, budget, first_allow, limit) is Err ==> eval_rules(
            rules,
            p,
            a,
            r,
            ctx,
            i,
            budget,
            first_allow,
            limit,
        ) == Err::<(Decision, Option<int>), Error>(Error::EvaluationBudgetExceeded { limit }),
    decreases rules.len() - i,
{
    if 0 <= i < rules.len() {
        let applies = rule_applies(rules[i], p, a, r, ctx);
        let next = if applies && first_allow is None {
            Some(i)
        } else {
            first_allow
        };
        lemma_eval_rules_only_budget_fails(
            rules,
            p,
            a,
            r,
            ctx,
            i + 1,
            budget - rule_cost(rules[i], p, a, r),
            next,
            limit,
        );
    }
}

proof fn lemma_eval_rules_enough_budget<'a>(
    rules: Seq<Rule>,
    p: Seq<u8>,
    a: Seq<u8>,
    r: Seq<u8>,
    ctx: Context<'a>,
    i: int,
    budget: int,
    first_allow: Option<int>,
    limit: u32,
)
    requires
        0 <= i,
        budget >= worst_case_units(rules, i),
    ensures
        eval_rules(rules, p, a, r, ctx, i, budget, first_allow, limit) is Ok,
    decreases rules.len() - i,
{
    if i < rules.len() {
        let applies = rule_applies(rules[i], p, a, r, ctx);
        let next = if applies && first_allow is None {
            Some(i)
        } else {
            first_allow
        };
        lemma_eval_rules_enough_budget(
            rules,
            p,
            a,
            r,
            ctx,
            i + 1,
            budget - rule_cost(rules[i], p, a, r),
            next,
            limit,
        );
    }
}

/// A budget of at least the worst case (which `Policy::new` gives) is never exhausted:
/// every request gets a decision.
pub proof fn lemma_worst_case_budget_suffices<'a>(
    policy: Policy,
    p: Seq<u8>,
    a: Seq<u8>,
    r: Seq<u8>,
    ctx: Context<'a>,
)
    requires
        policy.spec_budget() >= worst_case_units(policy.spec_rules(), 0),
    ensures
        policy.spec_outcome(p, a, r, ctx) is Ok,
{
    lemma_eval_rules_enough_budget(
        policy.spec_rules(),
        p,
        a,
        r,
        ctx,
        0,
        policy.spec_budget() as int,
        None,
        policy.spec_budget(),
    );
}

proof fn lemma_eval_rules_more_budget<'a>(
    rules: Seq<Rule>,
    p: Seq<u8>,
    a: Seq<u8>,
    r: Seq<u8>,
    ctx: Context<'a>,
    i: int,
    small: int,
    large: int,
    first_allow: Option<int>,
    small_limit: u32,
    large_limit: u32,
)
    requires
        small <= large,
        eval_rules(rules, p, a, r, ctx, i, small, first_allow, small_limit) is Ok,
    ensures
        eval_rules(rules, p, a, r, ctx, i, large, first_allow, large_limit) == eval_rules(
            rules,
            p,
            a,
            r,
            ctx,
            i,
            small,
            first_allow,
            small_limit,
        ),
    decreases rules.len() - i,
{
    if 0 <= i < rules.len() {
        let cost = rule_cost(rules[i], p, a, r);
        let applies = rule_applies(rules[i], p, a, r, ctx);
        let next = if applies && first_allow is None {
            Some(i)
        } else {
            first_allow
        };
        if !(applies && rules[i].spec_effect() == Effect::Deny) {
            lemma_eval_rules_more_budget(
                rules,
                p,
                a,
                r,
                ctx,
                i + 1,
                small - cost,
                large - cost,
                next,
                small_limit,
                large_limit,
            );
        }
    }
}

/// Raising the budget never changes a decision that a smaller budget already reached.
pub proof fn lemma_more_budget_same_decision<'a>(
    smaller: Policy,
    larger: Policy,
    p: Seq<u8>,
    a: Seq<u8>,
    r: Seq<u8>,
    ctx: Context<'a>,
)
    requires
        smaller.spec_rules() == larger.spec_rules(),
        smaller.spec_budget() <= larger.spec_budget(),
        smaller.spec_outcome(p, a, r, ctx) is Ok,
    ensures
        larger.spec_outcome(p, a, r, ctx) == smaller.spec_outcome(p, a, r, ctx),
{
    lemma_eval_rules_more_budget(
        smaller.spec_rules(),
        p,
        a,
        r,
        ctx,
        0,
        smaller.spec_budget() as int,
        larger.spec_budget() as int,
        None,
        smaller.spec_budget(),
        larger.spec_budget(),
    );
}

/// What the deciding rule satisfies: when evaluation decides by rule `k`, its principal,
/// action and resource selectors accept the request and its condition, if any, evaluates to
/// true, whatever the rule's effect; and the decision is the rule's effect. A rule whose
/// condition evaluates to false, or whose selectors reject the request, never decides.
pub proof fn lemma_deciding_rule_matches<'a>(
    policy: Policy,
    p: Seq<u8>,
    a: Seq<u8>,
    r: Seq<u8>,
    ctx: Context<'a>,
)
    ensures
        policy.spec_outcome(p, a, r, ctx) matches Ok((d, Some(k))) ==> {
            let rule = policy.spec_rules()[k];
            &&& 0 <= k < policy.spec_rules().len()
            &&& rule.spec_principal().spec_matches(p)
            &&& rule.spec_action().spec_matches(a)
            &&& rule.spec_resource().spec_matches(r)
            &&& forall|c: ConditionProgram|
                rule.spec_condition() == Some(c) ==> condition_outcome(c.spec_ops(), ctx) == Ok::<
                    bool,
                    Error,
                >(true)
            &&& d == Decision::Deny <==> rule.spec_effect() == Effect::Deny
        },
        policy.spec_outcome(p, a, r, ctx) matches Ok((d, None)) ==> d == Decision::NoMatch,
{
    lemma_decision_is_deny_overrides(policy, p, a, r, ctx);
}

/// A request that some deny rule fully accepts (selectors and a condition that evaluates
/// to true, or none) is never allowed and never unmatched: if evaluation decides, it denies.
pub proof fn lemma_accepting_deny_rule_denies<'a>(
    policy: Policy,
    p: Seq<u8>,
    a: Seq<u8>,
    r: Seq<u8>,
    ctx: Context<'a>,
    k: int,
)
    requires
        0 <= k < policy.spec_rules().len(),
        policy.spec_rules()[k].spec_effect() == Effect::Deny,
        policy.spec_rules()[k].spec_principal().spec_matches(p),
        policy.spec_rules()[k].spec_action().spec_matches(a),
        policy.spec_rules()[k].spec_resource().spec_matches(r),
        forall|c: ConditionProgram|
            policy.spec_rules()[k].spec_condition() == Some(c) ==> condition_outcome(
                c.spec_ops(),
                ctx,
            ) == Ok::<bool, Error>(true),
        policy.spec_outcome(p, a, r, ctx) is Ok,
    ensures
        policy.spec_outcome(p, a, r, ctx)->Ok_0.0 == Decision::Deny,
{
    lemma_decision_is_deny_overrides(policy, p, a, r, ctx);
    match policy.spec_rules()[k].spec_condition() {
        Some(c) => {},
        None => {},
    }
    assert(rule_applies(policy.spec_rules()[k], p, a, r, ctx));
}

} // verus!
