//! Decoration of a raw expression into a circuit, and its flattening into
//! an evaluation schedule.
//!
//! Decoration walks the raw tree bottom-up, folds constant pairs, collapses
//! a constant beside a variable subtree into AddConstant/MulConstant, and
//! gives every remaining node a fresh circuit-node identifier. The schedule
//! is a left-first post-order walk, so every operand stands before its use.

use vstd::prelude::*;
use crate::expressions::{eval_raw, expr_has_var, expr_size, expr_supported, BinaryOp, Expression};
use crate::field::Fp;
use crate::protocol::{CirId, NodeId, Provider, VarId};
use crate::strutil::dec_digits;
use crate::shares::Elem;

verus! {

/// A preprocessed expression: every node carries a stable circuit-node
/// identifier, and constants survive only folded against a subtree (or as
/// the root of an all-constant expression).
#[derive(Debug)]
pub enum DecoratedExpression {
    /// A constant added to a non-constant subtree.
    AddConstant(Elem, Box<DecoratedExpression>, CirId),
    /// The sum of two non-constant subtrees.
    Add(Box<DecoratedExpression>, Box<DecoratedExpression>, CirId),
    /// The product of two non-constant subtrees.
    Mul(Box<DecoratedExpression>, Box<DecoratedExpression>, CirId),
    /// A constant multiplied into a non-constant subtree.
    MulConstant(Elem, Box<DecoratedExpression>, CirId),
    /// An input variable, with its owning node.
    Var(NodeId, VarId, CirId),
    /// A constant; inside a decorated tree it only appears as the root.
    Constant(Elem, CirId),
}

/// One step of the evaluation schedule; subtrees are referred to by their
/// circuit-node identifiers.
#[derive(Debug)]
pub enum MidEvalExpression {
    /// Add a constant to an evaluated node.
    AddConstant(Elem, CirId, CirId),
    /// Add two evaluated nodes.
    Add(CirId, CirId, CirId),
    /// Multiply an evaluated node by a constant.
    MulConstant(Elem, CirId, CirId),
    /// Multiply two evaluated nodes.
    Mul(CirId, CirId, CirId),
    /// Make an input variable available.
    Var(CirId),
}

/// The identifier of a schedule step.
pub open spec fn mid_id(m: MidEvalExpression) -> Seq<char> {
    match m {
        MidEvalExpression::AddConstant(_, _, id) => id@,
        MidEvalExpression::Add(_, _, id) => id@,
        MidEvalExpression::MulConstant(_, _, id) => id@,
        MidEvalExpression::Mul(_, _, id) => id@,
        MidEvalExpression::Var(id) => id@,
    }
}

/// The identifiers a schedule step reads.
pub open spec fn mid_operands(m: MidEvalExpression) -> Seq<Seq<char>> {
    match m {
        MidEvalExpression::AddConstant(_, src, _) => seq![src@],
        MidEvalExpression::Add(a, b, _) => seq![a@, b@],
        MidEvalExpression::MulConstant(_, src, _) => seq![src@],
        MidEvalExpression::Mul(a, b, _) => seq![a@, b@],
        MidEvalExpression::Var(_) => seq![],
    }
}

/// Some step before position j carries the given identifier.
pub open spec fn operand_before(s: Seq<MidEvalExpression>, j: int, id: Seq<char>) -> bool {
    exists|k: int| 0 <= k < j && mid_id(#[trigger] s[k]) == id
}

/// Every operand of the step at position j is the identifier of an earlier
/// step.
pub open spec fn step_operands_before(s: Seq<MidEvalExpression>, j: int) -> bool {
    forall|t: int|
        0 <= t < mid_operands(s[j]).len() ==> operand_before(
            s,
            j,
            #[trigger] mid_operands(s[j])[t],
        )
}

/// Every step's operands are identifiers of earlier steps: the order is
/// safe to evaluate left to right.
pub open spec fn schedule_ordered(s: Seq<MidEvalExpression>) -> bool {
    forall|j: int| 0 <= j < s.len() ==> #[trigger] step_operands_before(s, j)
}

/// The value of a decorated tree in the prime field, under an assignment
/// of variable names to values.
pub open spec fn eval_dec(d: DecoratedExpression, env: Map<Seq<char>, nat>) -> nat
    decreases d,
{
    match d {
        DecoratedExpression::AddConstant(c, e, _) => crate::field::addp(
            c.as_nat(),
            eval_dec(*e, env),
        ),
        DecoratedExpression::Add(a, b, _) => crate::field::addp(
            eval_dec(*a, env),
            eval_dec(*b, env),
        ),
        DecoratedExpression::Mul(a, b, _) => crate::field::mulp(
            eval_dec(*a, env),
            eval_dec(*b, env),
        ),
        DecoratedExpression::MulConstant(c, e, _) => crate::field::mulp(
            c.as_nat(),
            eval_dec(*e, env),
        ),
        DecoratedExpression::Var(_, name, _) => if env.contains_key(name@) {
            env[name@]
        } else {
            0
        },
        DecoratedExpression::Constant(c, _) => c.as_nat(),
    }
}

/// The content of one schedule step, in plain values.
pub enum StepView {
    /// Add a constant to an evaluated node.
    AddConstant(nat, Seq<char>, Seq<char>),
    /// Add two evaluated nodes.
    Add(Seq<char>, Seq<char>, Seq<char>),
    /// Multiply an evaluated node by a constant.
    MulConstant(nat, Seq<char>, Seq<char>),
    /// Multiply two evaluated nodes.
    Mul(Seq<char>, Seq<char>, Seq<char>),
    /// Make an input variable available.
    Var(Seq<char>),
}

/// The content of a schedule step.
pub open spec fn step_view(m: MidEvalExpression) -> StepView {
    match m {
        MidEvalExpression::AddConstant(c, src, id) => StepView::AddConstant(c.as_nat(), src@, id@),
        MidEvalExpression::Add(a, b, id) => StepView::Add(a@, b@, id@),
        MidEvalExpression::MulConstant(c, src, id) => StepView::MulConstant(
            c.as_nat(),
            src@,
            id@,
        ),
        MidEvalExpression::Mul(a, b, id) => StepView::Mul(a@, b@, id@),
        MidEvalExpression::Var(id) => StepView::Var(id@),
    }
}

/// The contents of a whole schedule.
pub open spec fn schedule_view(s: Seq<MidEvalExpression>) -> Seq<StepView> {
    s.map_values(|m: MidEvalExpression| step_view(m))
}

/// The schedule a decorated tree flattens to: one step per node, children
/// first and left before right; a lone constant root contributes nothing.
pub open spec fn spec_schedule(d: DecoratedExpression) -> Seq<StepView>
    decreases d,
{
    match d {
        DecoratedExpression::AddConstant(c, e, id) => spec_schedule(*e).push(
            StepView::AddConstant(c.as_nat(), dec_id(*e), id@),
        ),
        DecoratedExpression::Add(a, b, id) => spec_schedule(*a) + spec_schedule(*b) + seq![
            StepView::Add(dec_id(*a), dec_id(*b), id@),
        ],
        DecoratedExpression::Mul(a, b, id) => spec_schedule(*a) + spec_schedule(*b) + seq![
            StepView::Mul(dec_id(*a), dec_id(*b), id@),
        ],
        DecoratedExpression::MulConstant(c, e, id) => spec_schedule(*e).push(
            StepView::MulConstant(c.as_nat(), dec_id(*e), id@),
        ),
        DecoratedExpression::Var(_, _, id) => seq![StepView::Var(id@)],
        DecoratedExpression::Constant(_, _) => seq![],
    }
}

impl MidEvalExpression {
    /// The circuit-node identifier of this step.
    pub fn cir_id(&self) -> (r: CirId)
        ensures
            r@ == mid_id(*self),
    {
        match self {
            MidEvalExpression::AddConstant(_, _, id) => id.clone(),
            MidEvalExpression::Add(_, _, id) => id.clone(),
            MidEvalExpression::Mul(_, _, id) => id.clone(),
            MidEvalExpression::MulConstant(_, _, id) => id.clone(),
            MidEvalExpression::Var(id) => id.clone(),
        }
    }
}

/// The identifier at the root of a decorated tree.
pub open spec fn dec_id(d: DecoratedExpression) -> Seq<char> {
    match d {
        DecoratedExpression::AddConstant(_, _, id) => id@,
        DecoratedExpression::Add(_, _, id) => id@,
        DecoratedExpression::Mul(_, _, id) => id@,
        DecoratedExpression::MulConstant(_, _, id) => id@,
        DecoratedExpression::Var(_, _, id) => id@,
        DecoratedExpression::Constant(_, id) => id@,
    }
}

/// Whether the root of a decorated tree is a constant.
pub open spec fn is_constant(d: DecoratedExpression) -> bool {
    d is Constant
}

/// Decoration leaves no constant below an operator: a Constant can stand
/// only at the root.
pub open spec fn wf_decorated(d: DecoratedExpression) -> bool
    decreases d,
{
    match d {
        DecoratedExpression::AddConstant(c, e, _) => c.wf() && !is_constant(*e) && wf_decorated(
            *e,
        ),
        DecoratedExpression::Add(a, b, _) => !is_constant(*a) && !is_constant(*b) && wf_decorated(
            *a,
        ) && wf_decorated(*b),
        DecoratedExpression::Mul(a, b, _) => !is_constant(*a) && !is_constant(*b) && wf_decorated(
            *a,
        ) && wf_decorated(*b),
        DecoratedExpression::MulConstant(c, e, _) => c.wf() && !is_constant(*e) && wf_decorated(
            *e,
        ),
        DecoratedExpression::Var(_, _, _) => true,
        DecoratedExpression::Constant(c, _) => c.wf(),
    }
}

/// The multiplication identifiers of a decorated tree, left to right.
pub open spec fn spec_mul_ids(d: DecoratedExpression) -> Seq<Seq<char>>
    decreases d,
{
    match d {
        DecoratedExpression::AddConstant(_, e, _) => spec_mul_ids(*e),
        DecoratedExpression::Add(a, b, _) => spec_mul_ids(*a) + spec_mul_ids(*b),
        DecoratedExpression::Mul(a, b, id) => spec_mul_ids(*a) + spec_mul_ids(*b) + seq![id@],
        DecoratedExpression::MulConstant(_, e, _) => spec_mul_ids(*e),
        DecoratedExpression::Var(_, _, _) => seq![],
        DecoratedExpression::Constant(_, _) => seq![],
    }
}

/// The (circuit id, variable name) pairs of the variables a node owns, or
/// of all variables when no node is named; left to right.
pub open spec fn spec_var_ids(d: DecoratedExpression, node_id: Option<NodeId>) -> Seq<
    (Seq<char>, Seq<char>),
>
    decreases d,
{
    match d {
        DecoratedExpression::AddConstant(_, e, _) => spec_var_ids(*e, node_id),
        DecoratedExpression::Add(a, b, _) => spec_var_ids(*a, node_id) + spec_var_ids(*b, node_id),
        DecoratedExpression::Mul(a, b, _) => spec_var_ids(*a, node_id) + spec_var_ids(*b, node_id),
        DecoratedExpression::MulConstant(_, e, _) => spec_var_ids(*e, node_id),
        DecoratedExpression::Var(other, var_id, cir_id) => if node_id is None || node_id->0
            == other {
            seq![(cir_id@, var_id@)]
        } else {
            seq![]
        },
        DecoratedExpression::Constant(_, _) => seq![],
    }
}

impl DecoratedExpression {
    /// The circuit-node identifier at the root.
    pub fn cir_id(&self) -> (r: CirId)
        ensures
            r@ == dec_id(*self),
    {
        match self {
            DecoratedExpression::AddConstant(_, _, id) => id.clone(),
            DecoratedExpression::Add(_, _, id) => id.clone(),
            DecoratedExpression::Mul(_, _, id) => id.clone(),
            DecoratedExpression::MulConstant(_, _, id) => id.clone(),
            DecoratedExpression::Var(_, _, id) => id.clone(),
            DecoratedExpression::Constant(_, id) => id.clone(),
        }
    }

    /// The identifiers of all multiplication nodes, left to right.
    pub fn mul_ids(&self) -> (r: Vec<CirId>)
        ensures
            r@.map_values(|s: CirId| s@) == spec_mul_ids(*self),
        decreases *self,
    {
        match self {
            DecoratedExpression::AddConstant(_, e, _) => e.mul_ids(),
            DecoratedExpression::Add(e1, e2, _) => {
                let mut x = e1.mul_ids();
                let mut y = e2.mul_ids();
                x.append(&mut y);
                proof {
                    assert(x@.map_values(|s: CirId| s@) =~= spec_mul_ids(*self));
                }
                x
            },
            DecoratedExpression::Mul(e1, e2, cir_id) => {
                let mut x = e1.mul_ids();
                let mut y = e2.mul_ids();
                x.append(&mut y);
                x.push(cir_id.clone());
                proof {
                    assert(x@.map_values(|s: CirId| s@) =~= spec_mul_ids(*self));
                }
                x
            },
            DecoratedExpression::MulConstant(_, e, _) => e.mul_ids(),
            DecoratedExpression::Var(_, _, _) => Vec::new(),
            DecoratedExpression::Constant(_, _) => Vec::new(),
        }
    }

    /// The (circuit id, variable name) pairs of the variables the given
    /// node owns, or of every variable when none is named.
    pub fn self_var_ids(&self, node_id: Option<NodeId>) -> (r: Vec<(CirId, VarId)>)
        ensures
            r@.map_values(|p: (CirId, VarId)| (p.0@, p.1@)) == spec_var_ids(*self, node_id),
        decreases *self,
    {
        match self {
            DecoratedExpression::AddConstant(_, e, _) => e.self_var_ids(node_id),
            DecoratedExpression::Add(e1, e2, _) => {
                let mut x = e1.self_var_ids(node_id);
                let mut y = e2.self_var_ids(node_id);
                x.append(&mut y);
                proof {
                    assert(x@.map_values(|p: (CirId, VarId)| (p.0@, p.1@)) =~= spec_var_ids(
                        *self,
                        node_id,
                    ));
                }
                x
            },
            DecoratedExpression::Mul(e1, e2, _) => {
                let mut x = e1.self_var_ids(node_id);
                let mut y = e2.self_var_ids(node_id);
                x.append(&mut y);
                proof {
                    assert(x@.map_values(|p: (CirId, VarId)| (p.0@, p.1@)) =~= spec_var_ids(
                        *self,
                        node_id,
                    ));
                }
                x
            },
            DecoratedExpression::MulConstant(_, e, _) => e.self_var_ids(node_id),
            DecoratedExpression::Var(other, var_id, cir_id) => {
                let mine = match node_id {
                    None => true,
                    Some(n) => n == *other,
                };
                if mine {
                    let mut v: Vec<(CirId, VarId)> = Vec::new();
                    v.push((cir_id.clone(), var_id.clone()));
                    proof {
                        assert(v@.map_values(|p: (CirId, VarId)| (p.0@, p.1@)) =~= spec_var_ids(
                            *self,
                            node_id,
                        ));
                    }
                    v
                } else {
                    Vec::new()
                }
            },
            DecoratedExpression::Constant(_, _) => Vec::new(),
        }
    }

    /// Flattens the tree into a schedule: one step per node, children
    /// first and left before right. Every operand identifier belongs to an
    /// earlier step; a lone constant root yields the empty schedule.
    pub fn into_ordered(self) -> (r: Vec<MidEvalExpression>)
        requires
            wf_decorated(self),
        ensures
            schedule_ordered(r@),
            schedule_view(r@) == spec_schedule(self),
            !is_constant(self) ==> r@.len() >= 1 && mid_id(r@.last()) == dec_id(self),
            is_constant(self) ==> r@.len() == 0,
        decreases self, 0int,
    {
        match self {
            DecoratedExpression::AddConstant(s, e, cir_id) => {
                let ghost ev = *e;
                let e_cir_id = e.cir_id();
                let mut ord = box_into_ordered(e);
                let step = MidEvalExpression::AddConstant(s, e_cir_id, cir_id);
                proof {
                    assert(mid_id(ord@[ord@.len() - 1]) == dec_id(ev));
                    assert(operand_before(ord@, ord@.len() as int, dec_id(ev)));
                    assert forall|t: int|
                        0 <= t < mid_operands(step).len() implies operand_before(
                        ord@,
                        ord@.len() as int,
                        #[trigger] mid_operands(step)[t],
                    ) by {
                        assert(mid_operands(step)[0] == dec_id(ev));
                    }
                    lemma_schedule_push(ord@, step);
                }
                ord.push(step);
                ord
            },
            DecoratedExpression::Add(e1, e2, cir_id) => {
                let ghost ev1 = *e1;
                let ghost ev2 = *e2;
                let e1_id = e1.cir_id();
                let e2_id = e2.cir_id();
                let mut ord = box_into_ordered(e1);
                let mut ord2 = box_into_ordered(e2);
                let ghost o1 = ord@;
                let ghost o2 = ord2@;
                proof {
                    lemma_schedule_concat(o1, o2);
                }
                ord.append(&mut ord2);
                let step = MidEvalExpression::Add(e1_id, e2_id, cir_id);
                proof {
                    assert(ord@[o1.len() - 1] == o1[o1.len() - 1]);
                    assert(mid_id(ord@[o1.len() - 1]) == dec_id(ev1));
                    assert(operand_before(ord@, ord@.len() as int, dec_id(ev1)));
                    assert(ord@[ord@.len() - 1] == o2[o2.len() - 1]);
                    assert(mid_id(ord@[ord@.len() - 1]) == dec_id(ev2));
                    assert(operand_before(ord@, ord@.len() as int, dec_id(ev2)));
                    assert forall|t: int|
                        0 <= t < mid_operands(step).len() implies operand_before(
                        ord@,
                        ord@.len() as int,
                        #[trigger] mid_operands(step)[t],
                    ) by {
                        if t == 0 {
                            assert(mid_operands(step)[0] == dec_id(ev1));
                        } else {
                            assert(mid_operands(step)[1] == dec_id(ev2));
                        }
                    }
                    lemma_schedule_push(ord@, step);
                }
                ord.push(step);
                ord
            },
            DecoratedExpression::Mul(e1, e2, cir_id) => {
                let ghost ev1 = *e1;
                let ghost ev2 = *e2;
                let e1_id = e1.cir_id();
                let e2_id = e2.cir_id();
                let mut ord = box_into_ordered(e1);
                let mut ord2 = box_into_ordered(e2);
                let ghost o1 = ord@;
                let ghost o2 = ord2@;
                proof {
                    lemma_schedule_concat(o1, o2);
                }
                ord.append(&mut ord2);
                let step = MidEvalExpression::Mul(e1_id, e2_id, cir_id);
                proof {
                    assert(ord@[o1.len() - 1] == o1[o1.len() - 1]);
                    assert(mid_id(ord@[o1.len() - 1]) == dec_id(ev1));
                    assert(operand_before(ord@, ord@.len() as int, dec_id(ev1)));
                    assert(ord@[ord@.len() - 1] == o2[o2.len() - 1]);
                    assert(mid_id(ord@[ord@.len() - 1]) == dec_id(ev2));
                    assert(operand_before(ord@, ord@.len() as int, dec_id(ev2)));
                    assert forall|t: int|
                        0 <= t < mid_operands(step).len() implies operand_before(
                        ord@,
                        ord@.len() as int,
                        #[trigger] mid_operands(step)[t],
                    ) by {
                        if t == 0 {
                            assert(mid_operands(step)[0] == dec_id(ev1));
                        } else {
                            assert(mid_operands(step)[1] == dec_id(ev2));
                        }
                    }
                    lemma_schedule_push(ord@, step);
                }
                ord.push(step);
                ord
            },
            DecoratedExpression::MulConstant(s, e, cir_id) => {
                let ghost ev = *e;
                let e_cir_id = e.cir_id();
                let mut ord = box_into_ordered(e);
                let step = MidEvalExpression::MulConstant(s, e_cir_id, cir_id);
                proof {
                    assert(mid_id(ord@[ord@.len() - 1]) == dec_id(ev));
                    assert(operand_before(ord@, ord@.len() as int, dec_id(ev)));
                    assert forall|t: int|
                        0 <= t < mid_operands(step).len() implies operand_before(
                        ord@,
                        ord@.len() as int,
                        #[trigger] mid_operands(step)[t],
                    ) by {
                        assert(mid_operands(step)[0] == dec_id(ev));
                    }
                    lemma_schedule_push(ord@, step);
                }
                ord.push(step);
                ord
            },
            DecoratedExpression::Var(_, _, cir_id) => {
                let mut v: Vec<MidEvalExpression> = Vec::new();
                v.push(MidEvalExpression::Var(cir_id));
                proof {
                    assert forall|j: int| 0 <= j < v@.len() implies step_operands_before(
                        v@,
                        j,
                    ) by {
                        assert(mid_operands(v@[j]).len() == 0);
                    }
                }
                v
            },
            DecoratedExpression::Constant(_, _) => Vec::new(),
        }
    }
}

/// Flattens a boxed subtree; the recursion step of the scheduler.
fn box_into_ordered(e: Box<DecoratedExpression>) -> (r: Vec<MidEvalExpression>)
    requires
        wf_decorated(*e),
    ensures
        schedule_ordered(r@),
        schedule_view(r@) == spec_schedule(*e),
        !is_constant(*e) ==> r@.len() >= 1 && mid_id(r@.last()) == dec_id(*e),
        is_constant(*e) ==> r@.len() == 0,
    decreases *e, 1int,
{
    (*e).into_ordered()
}

/// Every identifier of a decorated tree, in left-first post-order.
pub open spec fn dec_all_ids(d: DecoratedExpression) -> Seq<Seq<char>>
    decreases d,
{
    match d {
        DecoratedExpression::AddConstant(_, e, id) => dec_all_ids(*e).push(id@),
        DecoratedExpression::Add(a, b, id) => dec_all_ids(*a) + dec_all_ids(*b) + seq![id@],
        DecoratedExpression::Mul(a, b, id) => dec_all_ids(*a) + dec_all_ids(*b) + seq![id@],
        DecoratedExpression::MulConstant(_, e, id) => dec_all_ids(*e).push(id@),
        DecoratedExpression::Var(_, _, id) => seq![id@],
        DecoratedExpression::Constant(_, id) => seq![id@],
    }
}

/// The shape of a decorated tree, in plain values: constants as field
/// values, identifiers as character sequences.
pub enum DecView {
    /// A constant added to a non-constant subtree.
    AddConstant(nat, Box<DecView>, Seq<char>),
    /// The sum of two non-constant subtrees.
    Add(Box<DecView>, Box<DecView>, Seq<char>),
    /// The product of two non-constant subtrees.
    Mul(Box<DecView>, Box<DecView>, Seq<char>),
    /// A constant multiplied into a non-constant subtree.
    MulConstant(nat, Box<DecView>, Seq<char>),
    /// An input variable, with its owner and name.
    Var(NodeId, Seq<char>, Seq<char>),
    /// A constant.
    Constant(nat, Seq<char>),
}

/// The shape of a decorated tree.
pub open spec fn dec_view(d: DecoratedExpression) -> DecView
    decreases d,
{
    match d {
        DecoratedExpression::AddConstant(c, e, id) => DecView::AddConstant(
            c.as_nat(),
            Box::new(dec_view(*e)),
            id@,
        ),
        DecoratedExpression::Add(a, b, id) => DecView::Add(
            Box::new(dec_view(*a)),
            Box::new(dec_view(*b)),
            id@,
        ),
        DecoratedExpression::Mul(a, b, id) => DecView::Mul(
            Box::new(dec_view(*a)),
            Box::new(dec_view(*b)),
            id@,
        ),
        DecoratedExpression::MulConstant(c, e, id) => DecView::MulConstant(
            c.as_nat(),
            Box::new(dec_view(*e)),
            id@,
        ),
        DecoratedExpression::Var(owner, name, id) => DecView::Var(owner, name@, id@),
        DecoratedExpression::Constant(c, id) => DecView::Constant(c.as_nat(), id@),
    }
}

/// The one decoration of an expression under an ownership map and a
/// counter: the tree decoration builds, and the counter it leaves behind.
/// Every party that decorates the same expression over the same map from
/// the same counter obtains exactly this tree.
pub open spec fn spec_decorate(e: Expression, vars: Map<Seq<char>, NodeId>, id: nat) -> Option<
    (DecView, nat),
>
    decreases e,
{
    match e {
        Expression::Number { number } => Option::Some(
            (DecView::Constant(number as nat, dec_digits(id + 1)), id + 1),
        ),
        Expression::BinOp { left, right, op } => match spec_decorate(*left, vars, id) {
            Option::None => Option::None,
            Option::Some((dl, id1)) => match spec_decorate(*right, vars, id1) {
                Option::None => Option::None,
                Option::Some((dr, id2)) => match op {
                    BinaryOp::Add => match (dl, dr) {
                        (DecView::Constant(c1, _), DecView::Constant(c2, _)) => Option::Some(
                            (
                                DecView::Constant(
                                    crate::field::addp(c1, c2),
                                    dec_digits(id2 + 1),
                                ),
                                id2 + 1,
                            ),
                        ),
                        (DecView::Constant(c1, _), x) => Option::Some(
                            (
                                DecView::AddConstant(c1, Box::new(x), dec_digits(id2 + 1)),
                                id2 + 1,
                            ),
                        ),
                        (x, DecView::Constant(c1, _)) => Option::Some(
                            (
                                DecView::AddConstant(c1, Box::new(x), dec_digits(id2 + 1)),
                                id2 + 1,
                            ),
                        ),
                        (x, y) => Option::Some(
                            (
                                DecView::Add(Box::new(x), Box::new(y), dec_digits(id2 + 1)),
                                id2 + 1,
                            ),
                        ),
                    },
                    BinaryOp::Mul => match (dl, dr) {
                        (DecView::Constant(c1, _), DecView::Constant(c2, _)) => Option::Some(
                            (
                                DecView::Constant(
                                    crate::field::mulp(c1, c2),
                                    dec_digits(id2 + 1),
                                ),
                                id2 + 1,
                            ),
                        ),
                        (DecView::Constant(c1, _), x) => Option::Some(
                            (
                                DecView::MulConstant(c1, Box::new(x), dec_digits(id2 + 1)),
                                id2 + 1,
                            ),
                        ),
                        (x, DecView::Constant(c1, _)) => Option::Some(
                            (
                                DecView::MulConstant(c1, Box::new(x), dec_digits(id2 + 1)),
                                id2 + 1,
                            ),
                        ),
                        (x, y) => Option::Some(
                            (
                                DecView::Mul(Box::new(x), Box::new(y), dec_digits(id2 + 1)),
                                id2 + 1,
                            ),
                        ),
                    },
                    _ => Option::None,
                },
            },
        },
        Expression::Variable { name } => if vars.contains_key(name@) {
            Option::Some((DecView::Var(vars[name@], name@, dec_digits(id + 1)), id + 1))
        } else {
            Option::None
        },
    }
}

/// The identifier renders some counter value from the given range.
pub open spec fn id_from(id: Seq<char>, lo: nat, hi: nat) -> bool {
    exists|k: nat| lo < k <= hi && id == #[trigger] dec_digits(k)
}

/// Every identifier of the sequence renders a counter value from the given
/// range.
pub open spec fn ids_from(ids: Seq<Seq<char>>, lo: nat, hi: nat) -> bool {
    forall|i: int| 0 <= i < ids.len() ==> #[trigger] id_from(ids[i], lo, hi)
}

/// No identifier of the sequence repeats.
pub open spec fn ids_distinct(ids: Seq<Seq<char>>) -> bool {
    forall|i: int, j: int|
        #![trigger ids[i], ids[j]]
        0 <= i < j < ids.len() ==> ids[i] != ids[j]
}

/// A range of counter values can only widen.
proof fn lemma_ids_from_widen(ids: Seq<Seq<char>>, lo: nat, hi: nat, lo2: nat, hi2: nat)
    requires
        ids_from(ids, lo, hi),
        lo2 <= lo,
        hi <= hi2,
    ensures
        ids_from(ids, lo2, hi2),
{
    assert forall|i: int| 0 <= i < ids.len() implies #[trigger] id_from(ids[i], lo2, hi2) by {
        assert(id_from(ids[i], lo, hi));
        let k = choose|k: nat| lo < k <= hi && ids[i] == #[trigger] dec_digits(k);
        assert(lo2 < k <= hi2 && ids[i] == dec_digits(k));
    }
}

/// Identifiers drawn from two ranges that do not overlap stay distinct
/// when the sequences join, and fill the joined range.
proof fn lemma_ids_concat(a: Seq<Seq<char>>, b: Seq<Seq<char>>, lo: nat, mid: nat, hi: nat)
    requires
        ids_from(a, lo, mid),
        ids_from(b, mid, hi),
        ids_distinct(a),
        ids_distinct(b),
        lo <= mid,
        mid <= hi,
    ensures
        ids_from(a + b, lo, hi),
        ids_distinct(a + b),
{
    let c = a + b;
    assert forall|i: int| 0 <= i < c.len() implies #[trigger] id_from(c[i], lo, hi) by {
        if i < a.len() {
            assert(c[i] == a[i]);
            assert(id_from(a[i], lo, mid));
            let k = choose|k: nat| lo < k <= mid && a[i] == #[trigger] dec_digits(k);
            assert(lo < k <= hi && c[i] == dec_digits(k));
        } else {
            assert(c[i] == b[i - a.len()]);
            assert(id_from(b[i - a.len()], mid, hi));
            let k = choose|k: nat| mid < k <= hi && b[i - a.len()] == #[trigger] dec_digits(k);
            assert(lo < k <= hi && c[i] == dec_digits(k));
        }
    }
    assert forall|i: int, j: int| #![trigger c[i], c[j]] 0 <= i < j < c.len() implies c[i]
        != c[j] by {
        if i < a.len() && j >= a.len() {
            assert(id_from(a[i], lo, mid));
            assert(id_from(b[j - a.len()], mid, hi));
            let ki = choose|k: nat| lo < k <= mid && a[i] == #[trigger] dec_digits(k);
            let kj = choose|k: nat| mid < k <= hi && b[j - a.len()] == #[trigger] dec_digits(k);
            if c[i] == c[j] {
                crate::strutil::lemma_dec_digits_injective(ki, kj);
            }
        } else if i < a.len() {
            assert(c[i] == a[i] && c[j] == a[j]);
        } else {
            assert(c[i] == b[i - a.len()] && c[j] == b[j - a.len()]);
        }
    }
}

/// A single identifier rendered from one counter value in range.
proof fn lemma_ids_single(id: Seq<char>, k: nat, lo: nat, hi: nat)
    requires
        lo < k <= hi,
        id == dec_digits(k),
    ensures
        ids_from(seq![id], lo, hi),
        ids_distinct(seq![id]),
{
    assert forall|i: int| 0 <= i < 1 implies #[trigger] id_from(seq![id][i], lo, hi) by {
        assert(seq![id][i] == id);
        assert(id == dec_digits(k));
    }
}

/// A tree's shape is a constant exactly when the tree is.
proof fn lemma_dec_view_variant(d: DecoratedExpression)
    ensures
        (dec_view(d) is Constant) <==> (d is Constant),
{
    match d {
        DecoratedExpression::AddConstant(_, _, _) => {},
        DecoratedExpression::Add(_, _, _) => {},
        DecoratedExpression::Mul(_, _, _) => {},
        DecoratedExpression::MulConstant(_, _, _) => {},
        DecoratedExpression::Var(_, _, _) => {},
        DecoratedExpression::Constant(_, _) => {},
    }
}

/// Turns a raw expression into a decorated circuit. Constant pairs fold
/// into one constant, a constant beside a subtree folds into
/// AddConstant/MulConstant, and every node gets a fresh identifier.
///
/// Succeeds exactly when the expression uses only Add and Mul and every
/// variable is in the ownership map; then no constant stands below an
/// operator, and the root is a constant exactly when the expression holds
/// no variable. The result is a function of the expression, the ownership
/// map and the counter alone, so every party derives the same circuit.
pub fn decorate_expression(expr: Expression, id_provider: &mut Provider) -> (r: Result<
    DecoratedExpression,
    String,
>)
    requires
        old(id_provider).id + expr_size(expr) <= u64::MAX,
    ensures
        final(id_provider).var_to_node@ == old(id_provider).var_to_node@,
        old(id_provider).id <= final(id_provider).id,
        final(id_provider).id <= old(id_provider).id + expr_size(expr),
        r is Ok <==> expr_supported(expr, old(id_provider).var_to_node@),
        r matches Ok(d) ==> wf_decorated(d) && (is_constant(d) <==> !expr_has_var(expr)),
        r matches Ok(d) ==> forall|env: Map<Seq<char>, nat>|
            #[trigger] eval_dec(d, env) == eval_raw(expr, env),
        r matches Ok(d) ==> ids_from(
            dec_all_ids(d),
            old(id_provider).id as nat,
            final(id_provider).id as nat,
        ) && ids_distinct(dec_all_ids(d)),
        r matches Ok(d) ==> spec_decorate(
            expr,
            old(id_provider).var_to_node@,
            old(id_provider).id as nat,
        ) == Option::Some((dec_view(d), final(id_provider).id as nat)),
    decreases expr, 0int,
{
    match expr {
        Expression::Number { number } => {
            let d = DecoratedExpression::Constant(Fp::from_u64(number), id_provider.next());
            proof {
                lemma_ids_single(
                    dec_id(d),
                    (old(id_provider).id + 1) as nat,
                    old(id_provider).id as nat,
                    id_provider.id as nat,
                );
                assert(dec_all_ids(d) =~= seq![dec_id(d)]);
            }
            proof {
                assert(spec_decorate(
                    expr,
                    old(id_provider).var_to_node@,
                    old(id_provider).id as nat,
                ) == Option::Some((dec_view(d), id_provider.id as nat)));
            }
            Ok(d)
        },
        Expression::BinOp { left, right, op } => {
            let ghost le = *left;
            let ghost re = *right;
            let ghost id0 = id_provider.id;
            let left = match decorate_box(left, id_provider) {
                Ok(l) => l,
                Err(e) => {
                    return Err(e);
                },
            };
            let ghost id1 = id_provider.id;
            let right = match decorate_box(right, id_provider) {
                Ok(x) => x,
                Err(e) => {
                    return Err(e);
                },
            };
            let ghost id2 = id_provider.id;
            let ghost dl = left;
            let ghost dr = right;
            match op {
                BinaryOp::Add => match (left, right) {
                    (
                        DecoratedExpression::Constant(s1, _),
                        DecoratedExpression::Constant(s2, _),
                    ) => {
                        let d = DecoratedExpression::Constant(s1.add(s2), id_provider.next());
                        proof {
                            assert forall|env: Map<Seq<char>, nat>|
                                #[trigger] eval_dec(d, env) == eval_raw(expr, env) by {
                                assert(eval_dec(dl, env) == eval_raw(le, env));
                                assert(eval_dec(dr, env) == eval_raw(re, env));
                            }
                            lemma_ids_single(
                                dec_id(d),
                                (id2 + 1) as nat,
                                id0 as nat,
                                id_provider.id as nat,
                            );
                            assert(dec_all_ids(d) =~= seq![dec_id(d)]);
                        }
                        proof {
                            lemma_dec_view_variant(dl);
                            lemma_dec_view_variant(dr);
                            assert(spec_decorate(
                                expr,
                                old(id_provider).var_to_node@,
                                old(id_provider).id as nat,
                            ) == Option::Some((dec_view(d), id_provider.id as nat)));
                        }
                        Ok(d)
                    },
                    (DecoratedExpression::Constant(s1, _), x) => {
                        let d = DecoratedExpression::AddConstant(
                            s1,
                            Box::new(x),
                            id_provider.next(),
                        );
                        proof {
                            assert forall|env: Map<Seq<char>, nat>|
                                #[trigger] eval_dec(d, env) == eval_raw(expr, env) by {
                                assert(eval_dec(dl, env) == eval_raw(le, env));
                                assert(eval_dec(dr, env) == eval_raw(re, env));
                            }
                            lemma_ids_from_widen(
                                dec_all_ids(dr),
                                id1 as nat,
                                id2 as nat,
                                id0 as nat,
                                id2 as nat,
                            );
                            lemma_ids_single(
                                dec_id(d),
                                (id2 + 1) as nat,
                                id2 as nat,
                                id_provider.id as nat,
                            );
                            lemma_ids_concat(
                                dec_all_ids(dr),
                                seq![dec_id(d)],
                                id0 as nat,
                                id2 as nat,
                                id_provider.id as nat,
                            );
                            assert(dec_all_ids(d) =~= dec_all_ids(dr) + seq![dec_id(d)]);
                        }
                        proof {
                            lemma_dec_view_variant(dl);
                            lemma_dec_view_variant(dr);
                            assert(spec_decorate(
                                expr,
                                old(id_provider).var_to_node@,
                                old(id_provider).id as nat,
                            ) == Option::Some((dec_view(d), id_provider.id as nat)));
                        }
                        Ok(d)
                    },
                    (x, DecoratedExpression::Constant(s1, _)) => {
                        let d = DecoratedExpression::AddConstant(
                            s1,
                            Box::new(x),
                            id_provider.next(),
                        );
                        proof {
                            assert forall|env: Map<Seq<char>, nat>|
                                #[trigger] eval_dec(d, env) == eval_raw(expr, env) by {
                                assert(eval_dec(dl, env) == eval_raw(le, env));
                                assert(eval_dec(dr, env) == eval_raw(re, env));
                            }
                            lemma_ids_from_widen(
                                dec_all_ids(dl),
                                id0 as nat,
                                id1 as nat,
                                id0 as nat,
                                id2 as nat,
                            );
                            lemma_ids_single(
                                dec_id(d),
                                (id2 + 1) as nat,
                                id2 as nat,
                                id_provider.id as nat,
                            );
                            lemma_ids_concat(
                                dec_all_ids(dl),
                                seq![dec_id(d)],
                                id0 as nat,
                                id2 as nat,
                                id_provider.id as nat,
                            );
                            assert(dec_all_ids(d) =~= dec_all_ids(dl) + seq![dec_id(d)]);
                        }
                        proof {
                            lemma_dec_view_variant(dl);
                            lemma_dec_view_variant(dr);
                            assert(spec_decorate(
                                expr,
                                old(id_provider).var_to_node@,
                                old(id_provider).id as nat,
                            ) == Option::Some((dec_view(d), id_provider.id as nat)));
                        }
                        Ok(d)
                    },
                    (x, y) => {
                        let d = DecoratedExpression::Add(
                            Box::new(x),
                            Box::new(y),
                            id_provider.next(),
                        );
                        proof {
                            assert forall|env: Map<Seq<char>, nat>|
                                #[trigger] eval_dec(d, env) == eval_raw(expr, env) by {
                                assert(eval_dec(dl, env) == eval_raw(le, env));
                                assert(eval_dec(dr, env) == eval_raw(re, env));
                            }
                            lemma_ids_concat(
                                dec_all_ids(dl),
                                dec_all_ids(dr),
                                id0 as nat,
                                id1 as nat,
                                id2 as nat,
                            );
                            lemma_ids_single(
                                dec_id(d),
                                (id2 + 1) as nat,
                                id2 as nat,
                                id_provider.id as nat,
                            );
                            lemma_ids_concat(
                                dec_all_ids(dl) + dec_all_ids(dr),
                                seq![dec_id(d)],
                                id0 as nat,
                                id2 as nat,
                                id_provider.id as nat,
                            );
                            assert(dec_all_ids(d) =~= (dec_all_ids(dl) + dec_all_ids(dr))
                                + seq![dec_id(d)]);
                        }
                        proof {
                            lemma_dec_view_variant(dl);
                            lemma_dec_view_variant(dr);
                            assert(spec_decorate(
                                expr,
                                old(id_provider).var_to_node@,
                                old(id_provider).id as nat,
                            ) == Option::Some((dec_view(d), id_provider.id as nat)));
                        }
                        Ok(d)
                    },
                },
                BinaryOp::Mul => match (left, right) {
                    (
                        DecoratedExpression::Constant(s1, _),
                        DecoratedExpression::Constant(s2, _),
                    ) => {
                        let d = DecoratedExpression::Constant(s1.mul(s2), id_provider.next());
                        proof {
                            assert forall|env: Map<Seq<char>, nat>|
                                #[trigger] eval_dec(d, env) == eval_raw(expr, env) by {
                                assert(eval_dec(dl, env) == eval_raw(le, env));
                                assert(eval_dec(dr, env) == eval_raw(re, env));
                            }
                            lemma_ids_single(
                                dec_id(d),
                                (id2 + 1) as nat,
                                id0 as nat,
                                id_provider.id as nat,
                            );
                            assert(dec_all_ids(d) =~= seq![dec_id(d)]);
                        }
                        proof {
                            lemma_dec_view_variant(dl);
                            lemma_dec_view_variant(dr);
                            assert(spec_decorate(
                                expr,
                                old(id_provider).var_to_node@,
                                old(id_provider).id as nat,
                            ) == Option::Some((dec_view(d), id_provider.id as nat)));
                        }
                        Ok(d)
                    },
                    (DecoratedExpression::Constant(s1, _), x) => {
                        let d = DecoratedExpression::MulConstant(
                            s1,
                            Box::new(x),
                            id_provider.next(),
                        );
                        proof {
                            assert forall|env: Map<Seq<char>, nat>|
                                #[trigger] eval_dec(d, env) == eval_raw(expr, env) by {
                                assert(eval_dec(dl, env) == eval_raw(le, env));
                                assert(eval_dec(dr, env) == eval_raw(re, env));
                            }
                            lemma_ids_from_widen(
                                dec_all_ids(dr),
                                id1 as nat,
                                id2 as nat,
                                id0 as nat,
                                id2 as nat,
                            );
                            lemma_ids_single(
                                dec_id(d),
                                (id2 + 1) as nat,
                                id2 as nat,
                                id_provider.id as nat,
                            );
                            lemma_ids_concat(
                                dec_all_ids(dr),
                                seq![dec_id(d)],
                                id0 as nat,
                                id2 as nat,
                                id_provider.id as nat,
                            );
                            assert(dec_all_ids(d) =~= dec_all_ids(dr) + seq![dec_id(d)]);
                        }
                        proof {
                            lemma_dec_view_variant(dl);
                            lemma_dec_view_variant(dr);
                            assert(spec_decorate(
                                expr,
                                old(id_provider).var_to_node@,
                                old(id_provider).id as nat,
                            ) == Option::Some((dec_view(d), id_provider.id as nat)));
                        }
                        Ok(d)
                    },
                    (x, DecoratedExpression::Constant(s1, _)) => {
                        let d = DecoratedExpression::MulConstant(
                            s1,
                            Box::new(x),
                            id_provider.next(),
                        );
                        proof {
                            assert forall|env: Map<Seq<char>, nat>|
                                #[trigger] eval_dec(d, env) == eval_raw(expr, env) by {
                                assert(eval_dec(dl, env) == eval_raw(le, env));
                                assert(eval_dec(dr, env) == eval_raw(re, env));
                                assert(crate::field::mulp(s1.as_nat(), eval_dec(dl, env))
                                    == crate::field::mulp(eval_dec(dl, env), s1.as_nat()));
                            }
                            lemma_ids_from_widen(
                                dec_all_ids(dl),
                                id0 as nat,
                                id1 as nat,
                                id0 as nat,
                                id2 as nat,
                            );
                            lemma_ids_single(
                                dec_id(d),
                                (id2 + 1) as nat,
                                id2 as nat,
                                id_provider.id as nat,
                            );
                            lemma_ids_concat(
                                dec_all_ids(dl),
                                seq![dec_id(d)],
                                id0 as nat,
                                id2 as nat,
                                id_provider.id as nat,
                            );
                            assert(dec_all_ids(d) =~= dec_all_ids(dl) + seq![dec_id(d)]);
                        }
                        proof {
                            lemma_dec_view_variant(dl);
                            lemma_dec_view_variant(dr);
                            assert(spec_decorate(
                                expr,
                                old(id_provider).var_to_node@,
                                old(id_provider).id as nat,
                            ) == Option::Some((dec_view(d), id_provider.id as nat)));
                        }
                        Ok(d)
                    },
                    (x, y) => {
                        let id = id_provider.next();
                        let d = DecoratedExpression::Mul(Box::new(x), Box::new(y), id);
                        proof {
                            assert forall|env: Map<Seq<char>, nat>|
                                #[trigger] eval_dec(d, env) == eval_raw(expr, env) by {
                                assert(eval_dec(dl, env) == eval_raw(le, env));
                                assert(eval_dec(dr, env) == eval_raw(re, env));
                            }
                            lemma_ids_concat(
                                dec_all_ids(dl),
                                dec_all_ids(dr),
                                id0 as nat,
                                id1 as nat,
                                id2 as nat,
                            );
                            lemma_ids_single(
                                dec_id(d),
                                (id2 + 1) as nat,
                                id2 as nat,
                                id_provider.id as nat,
                            );
                            lemma_ids_concat(
                                dec_all_ids(dl) + dec_all_ids(dr),
                                seq![dec_id(d)],
                                id0 as nat,
                                id2 as nat,
                                id_provider.id as nat,
                            );
                            assert(dec_all_ids(d) =~= (dec_all_ids(dl) + dec_all_ids(dr))
                                + seq![dec_id(d)]);
                        }
                        proof {
                            lemma_dec_view_variant(dl);
                            lemma_dec_view_variant(dr);
                            assert(spec_decorate(
                                expr,
                                old(id_provider).var_to_node@,
                                old(id_provider).id as nat,
                            ) == Option::Some((dec_view(d), id_provider.id as nat)));
                        }
                        Ok(d)
                    },
                },
                _ => Err("Only add and mul for now".to_owned()),
            }
        },
        Expression::Variable { name } => {
            let node_id = match id_provider.var_to_node(name.clone()) {
                Some(n) => n,
                None => {
                    return Err("orphaned variable".to_owned());
                },
            };
            let ghost pre = id_provider.id;
            let d = DecoratedExpression::Var(node_id, name, id_provider.next());
            proof {
                lemma_ids_single(
                    dec_id(d),
                    (pre + 1) as nat,
                    pre as nat,
                    id_provider.id as nat,
                );
                assert(dec_all_ids(d) =~= seq![dec_id(d)]);
            }
            proof {
                assert(spec_decorate(
                    expr,
                    old(id_provider).var_to_node@,
                    old(id_provider).id as nat,
                ) == Option::Some((dec_view(d), id_provider.id as nat)));
            }
            Ok(d)
        },
    }
}

/// Decorates a boxed subtree; the recursion step of decoration.
fn decorate_box(expr: Box<Expression>, id_provider: &mut Provider) -> (r: Result<
    DecoratedExpression,
    String,
>)
    requires
        old(id_provider).id + expr_size(*expr) <= u64::MAX,
    ensures
        final(id_provider).var_to_node@ == old(id_provider).var_to_node@,
        old(id_provider).id <= final(id_provider).id,
        final(id_provider).id <= old(id_provider).id + expr_size(*expr),
        r is Ok <==> expr_supported(*expr, old(id_provider).var_to_node@),
        r matches Ok(d) ==> wf_decorated(d) && (is_constant(d) <==> !expr_has_var(*expr)),
        r matches Ok(d) ==> forall|env: Map<Seq<char>, nat>|
            #[trigger] eval_dec(d, env) == eval_raw(*expr, env),
        r matches Ok(d) ==> ids_from(
            dec_all_ids(d),
            old(id_provider).id as nat,
            final(id_provider).id as nat,
        ) && ids_distinct(dec_all_ids(d)),
        r matches Ok(d) ==> spec_decorate(
            *expr,
            old(id_provider).var_to_node@,
            old(id_provider).id as nat,
        ) == Option::Some((dec_view(d), final(id_provider).id as nat)),
    decreases *expr, 1int,
{
    decorate_expression(*expr, id_provider)
}

/// A safe schedule stays safe when another safe schedule follows it.
proof fn lemma_schedule_concat(s1: Seq<MidEvalExpression>, s2: Seq<MidEvalExpression>)
    requires
        schedule_ordered(s1),
        schedule_ordered(s2),
    ensures
        schedule_ordered(s1 + s2),
{
    let s = s1 + s2;
    assert forall|j: int| 0 <= j < s.len() implies #[trigger] step_operands_before(s, j) by {
        if j < s1.len() {
            assert(step_operands_before(s1, j));
            assert forall|t: int|
                0 <= t < mid_operands(s[j]).len() implies operand_before(
                s,
                j,
                #[trigger] mid_operands(s[j])[t],
            ) by {
                assert(s[j] == s1[j]);
                assert(operand_before(s1, j, mid_operands(s1[j])[t]));
                let k = choose|k: int|
                    0 <= k < j && mid_id(#[trigger] s1[k]) == mid_operands(s1[j])[t];
                assert(s[k] == s1[k]);
                assert(mid_id(s[k]) == mid_operands(s[j])[t]);
            }
        } else {
            let j2 = j - s1.len();
            assert(step_operands_before(s2, j2));
            assert forall|t: int|
                0 <= t < mid_operands(s[j]).len() implies operand_before(
                s,
                j,
                #[trigger] mid_operands(s[j])[t],
            ) by {
                assert(s[j] == s2[j2]);
                assert(operand_before(s2, j2, mid_operands(s2[j2])[t]));
                let k2 = choose|k: int|
                    0 <= k < j2 && mid_id(#[trigger] s2[k]) == mid_operands(s2[j2])[t];
                assert(s[k2 + s1.len()] == s2[k2]);
                assert(mid_id(s[k2 + s1.len()]) == mid_operands(s[j])[t]);
            }
        }
    }
}

/// A safe schedule stays safe under one more step whose operands are
/// identifiers of steps already present.
proof fn lemma_schedule_push(s: Seq<MidEvalExpression>, step: MidEvalExpression)
    requires
        schedule_ordered(s),
        forall|t: int|
            0 <= t < mid_operands(step).len() ==> operand_before(
                s,
                s.len() as int,
                #[trigger] mid_operands(step)[t],
            ),
    ensures
        schedule_ordered(s.push(step)),
{
    let s3 = s.push(step);
    assert forall|j: int| 0 <= j < s3.len() implies #[trigger] step_operands_before(s3, j) by {
        if j < s.len() {
            assert(step_operands_before(s, j));
            assert forall|t: int|
                0 <= t < mid_operands(s3[j]).len() implies operand_before(
                s3,
                j,
                #[trigger] mid_operands(s3[j])[t],
            ) by {
                assert(s3[j] == s[j]);
                assert(operand_before(s, j, mid_operands(s[j])[t]));
                let k = choose|k: int|
                    0 <= k < j && mid_id(#[trigger] s[k]) == mid_operands(s[j])[t];
                assert(s3[k] == s[k]);
                assert(mid_id(s3[k]) == mid_operands(s3[j])[t]);
            }
        } else {
            assert(s3[j] == step);
            assert forall|t: int|
                0 <= t < mid_operands(s3[j]).len() implies operand_before(
                s3,
                j,
                #[trigger] mid_operands(s3[j])[t],
            ) by {
                assert(operand_before(s, s.len() as int, mid_operands(step)[t]));
                let k = choose|k: int|
                    0 <= k < s.len() && mid_id(#[trigger] s[k]) == mid_operands(step)[t];
                assert(s3[k] == s[k]);
                assert(mid_id(s3[k]) == mid_operands(s3[j])[t]);
            }
        }
    }
}

} // verus!
