//! The expression tree: operators, literal leaves and operator nodes,
//! the ghost model of a tree, and the plan that linearizes a tree into
//! the sequence of arithmetic steps its evaluation performs.

use crate::lexical::is_number;
use vstd::prelude::*;

verus! {

/// An arithmetic operator. A lower precedence rank binds tighter
/// (is applied sooner): `Mul` and `Div` rank 1, `Add` and `Sub` rank 2.
#[derive(Debug, PartialEq, Eq, Structural, Clone, Copy)]
pub enum Operator {
    Add,
    Sub,
    Mul,
    Div,
}

impl Operator {
    /// The precedence rank of the operator in specifications.
    pub open spec fn precedence_spec(self) -> u8 {
        match self {
            Operator::Add => 2,
            Operator::Sub => 2,
            Operator::Mul => 1,
            Operator::Div => 1,
        }
    }

    /// A lower value means the operator is applied sooner.
    #[verifier::when_used_as_spec(precedence_spec)]
    pub fn precedence(self) -> (r: u8)
        ensures
            r == self.precedence_spec(),
    {
        match self {
            Operator::Add => 2,
            Operator::Sub => 2,
            Operator::Mul => 1,
            Operator::Div => 1,
        }
    }
}

/// The ghost counterpart of an expression tree: a literal leaf holds the
/// text of the number it was read from, a node holds an operator and the
/// ordered children it folds over.
pub ghost enum SpecExpr {
    Num(Seq<char>),
    Op(Operator, Seq<SpecExpr>),
}

impl SpecExpr {
    /// A well-formed tree: every leaf holds one whole numeric literal and
    /// every node has at least two children.
    pub open spec fn wf(self) -> bool
        decreases self,
    {
        match self {
            SpecExpr::Num(t) => is_number(t),
            SpecExpr::Op(op, children) => children.len() >= 2 && wf_all(children),
        }
    }
}

/// Well-formedness of every tree in a sequence.
pub open spec fn wf_all(children: Seq<SpecExpr>) -> bool
    decreases children,
{
    if children.len() == 0 {
        true
    } else {
        wf_all(children.drop_last()) && children.last().wf()
    }
}

/// An expression: either a literal number, kept as the text it was read
/// from, or an operation applied to at least two operands.
#[derive(Debug, PartialEq)]
pub enum Expr {
    Num(String),
    Op(Operation),
}

/// An operator node: the operator and the ordered operands it folds over,
/// left to right.
#[derive(Debug, PartialEq)]
pub struct Operation {
    pub op: Operator,
    pub params: Vec<Expr>,
}

impl Expr {
    /// The ghost model of the tree.
    pub open spec fn model(self) -> SpecExpr
        decreases self,
    {
        match self {
            Expr::Num(t) => SpecExpr::Num(t@),
            Expr::Op(o) => SpecExpr::Op(o.op, models_of(o.params@)),
        }
    }
}

/// The ghost models of a sequence of trees, in order.
pub open spec fn models_of(children: Seq<Expr>) -> Seq<SpecExpr>
    decreases children,
{
    if children.len() == 0 {
        Seq::empty()
    } else {
        models_of(children.drop_last()).push(children.last().model())
    }
}

/// Each model in `models_of` is the model of the tree at the same place.
pub proof fn lemma_models_of(children: Seq<Expr>)
    ensures
        models_of(children).len() == children.len(),
        forall|i: int|
            0 <= i < children.len() ==> #[trigger] models_of(children)[i] == children[i].model(),
    decreases children,
{
    if children.len() > 0 {
        lemma_models_of(children.drop_last());
    }
}

/// The models of a two-element sequence, written out.
pub proof fn lemma_models_of_pair(x: Expr, y: Expr)
    ensures
        models_of(seq![x, y]) == seq![x.model(), y.model()],
{
    let s = seq![x, y];
    assert(s.drop_last() =~= seq![x]);
    assert(seq![x].drop_last() =~= Seq::<Expr>::empty());
    assert(models_of(Seq::<Expr>::empty()) == Seq::<SpecExpr>::empty());
    assert(models_of(seq![x]) =~= seq![x.model()]);
    assert(models_of(s) =~= seq![x.model(), y.model()]);
}

/// A node over two well-formed children is well-formed.
pub proof fn lemma_pair_wf(op: Operator, a: SpecExpr, b: SpecExpr)
    requires
        a.wf(),
        b.wf(),
    ensures
        SpecExpr::Op(op, seq![a, b]).wf(),
{
    let s = seq![a, b];
    assert(s.drop_last() =~= seq![a]);
    assert(seq![a].drop_last() =~= Seq::<SpecExpr>::empty());
    assert(wf_all(Seq::<SpecExpr>::empty()));
    assert(wf_all(seq![a]));
    assert(wf_all(s));
}

impl Operation {
    /// Builds a node from an operator and its operands.
    pub fn new(op: Operator, params: Vec<Expr>) -> (r: Self)
        requires
            params@.len() >= 2,
        ensures
            r.op == op,
            r.params == params,
    {
        Operation { op, params }
    }
}

/// One step of an evaluation: put a literal on the stack, or replace the
/// two topmost stack entries by the result of an operator applied to them
/// (the lower entry on the left).
#[derive(Debug, PartialEq)]
pub enum Step {
    Push(String),
    Apply(Operator),
}

/// The ghost counterpart of a step.
pub ghost enum SpecStep {
    Push(Seq<char>),
    Apply(Operator),
}

impl Step {
    /// The ghost model of the step.
    pub open spec fn model(self) -> SpecStep {
        match self {
            Step::Push(t) => SpecStep::Push(t@),
            Step::Apply(op) => SpecStep::Apply(op),
        }
    }
}

/// The ghost models of a sequence of steps, in order.
pub open spec fn step_models(steps: Seq<Step>) -> Seq<SpecStep> {
    steps.map(|i: int, s: Step| s.model())
}

/// Taking models commutes with appending one step.
pub proof fn lemma_step_models_push(steps: Seq<Step>, x: Step)
    ensures
        step_models(steps.push(x)) == step_models(steps).push(x.model()),
{
    assert(step_models(steps.push(x)) =~= step_models(steps).push(x.model()));
}

/// The evaluation plan of a tree: a literal is pushed; a node evaluates
/// its children left to right and folds them pairwise left to right, so
/// each child after the first is followed by one application of the
/// operator.
pub open spec fn plan_of(e: SpecExpr) -> Seq<SpecStep>
    decreases e,
{
    match e {
        SpecExpr::Num(t) => seq![SpecStep::Push(t)],
        SpecExpr::Op(op, children) => plan_of_children(op, children),
    }
}

/// The evaluation plan of the fold of `children` under `op`.
pub open spec fn plan_of_children(op: Operator, children: Seq<SpecExpr>) -> Seq<SpecStep>
    decreases children,
{
    if children.len() == 0 {
        Seq::empty()
    } else if children.len() == 1 {
        plan_of(children[0])
    } else {
        plan_of_children(op, children.drop_last()) + plan_of(children.last())
            + seq![SpecStep::Apply(op)]
    }
}

/// Whether an evaluation plan can run from a stack of depth `d` without
/// ever lacking operands: every application finds two entries to fold.
pub open spec fn plan_runs_from(steps: Seq<SpecStep>, d: int) -> bool
    decreases steps.len(),
{
    if steps.len() == 0 {
        true
    } else {
        match steps[0] {
            SpecStep::Push(t) => plan_runs_from(steps.drop_first(), d + 1),
            SpecStep::Apply(op) => d >= 2 && plan_runs_from(steps.drop_first(), d - 1),
        }
    }
}

/// The stack depth after running an evaluation plan from depth `d`.
pub open spec fn plan_depth(steps: Seq<SpecStep>, d: int) -> int
    decreases steps.len(),
{
    if steps.len() == 0 {
        d
    } else {
        match steps[0] {
            SpecStep::Push(t) => plan_depth(steps.drop_first(), d + 1),
            SpecStep::Apply(op) => plan_depth(steps.drop_first(), d - 1),
        }
    }
}

/// Running one plan after another runs the second from where the first
/// ended.
proof fn lemma_plan_concat(x: Seq<SpecStep>, y: Seq<SpecStep>, d: int)
    ensures
        plan_runs_from(x + y, d) == (plan_runs_from(x, d) && plan_runs_from(y, plan_depth(x, d))),
        plan_depth(x + y, d) == plan_depth(y, plan_depth(x, d)),
    decreases x.len(),
{
    if x.len() == 0 {
        assert(x + y =~= y);
    } else {
        assert((x + y).drop_first() =~= x.drop_first() + y);
        match x[0] {
            SpecStep::Push(t) => lemma_plan_concat(x.drop_first(), y, d + 1),
            SpecStep::Apply(op) => lemma_plan_concat(x.drop_first(), y, d - 1),
        }
    }
}

/// The evaluation plan of a well-formed tree runs from any stack depth
/// and leaves exactly one more entry: a tree evaluates to one value.
pub proof fn lemma_plan_of_runs(e: SpecExpr, d: int)
    requires
        e.wf(),
        d >= 0,
    ensures
        plan_runs_from(plan_of(e), d),
        plan_depth(plan_of(e), d) == d + 1,
    decreases e,
{
    match e {
        SpecExpr::Num(t) => {
            let p = seq![SpecStep::Push(t)];
            assert(p.drop_first() =~= Seq::<SpecStep>::empty());
            assert(plan_runs_from(Seq::<SpecStep>::empty(), d + 1));
            assert(plan_depth(Seq::<SpecStep>::empty(), d + 1) == d + 1);
            assert(plan_runs_from(p, d));
            assert(plan_depth(p, d) == d + 1);
        },
        SpecExpr::Op(op, children) => {
            lemma_plan_of_children_runs(op, children, d);
        },
    }
}

/// The plan of a fold over one or more well-formed children also nets
/// exactly one entry.
proof fn lemma_plan_of_children_runs(op: Operator, children: Seq<SpecExpr>, d: int)
    requires
        children.len() >= 1,
        wf_all(children),
        d >= 0,
    ensures
        plan_runs_from(plan_of_children(op, children), d),
        plan_depth(plan_of_children(op, children), d) == d + 1,
    decreases children,
{
    if children.len() == 1 {
        assert(children.last() == children[0]);
        lemma_plan_of_runs(children[0], d);
        assert(plan_of_children(op, children) == plan_of(children[0]));
    } else {
        let front = plan_of_children(op, children.drop_last());
        let last = plan_of(children.last());
        let apply = seq![SpecStep::Apply(op)];
        lemma_plan_of_children_runs(op, children.drop_last(), d);
        lemma_plan_of_runs(children.last(), d + 1);
        lemma_plan_concat(front, last, d);
        lemma_plan_concat(front + last, apply, d);
        assert(apply.drop_first() =~= Seq::<SpecStep>::empty());
        assert(plan_runs_from(Seq::<SpecStep>::empty(), d + 1));
        assert(plan_depth(Seq::<SpecStep>::empty(), d + 1) == d + 1);
        assert(plan_runs_from(apply, d + 2));
        assert(plan_depth(apply, d + 2) == d + 1);
        assert(plan_of_children(op, children) == front + last + apply);
    }
}

impl Expr {
    /// The sequence of steps that evaluates the tree: children before
    /// parents, left to right, one operator application per fold. For a
    /// well-formed tree the plan runs a stack machine without ever
    /// lacking operands and leaves exactly one result on it.
    pub fn eval_steps(&self) -> (r: Vec<Step>)
        ensures
            step_models(r@) == plan_of(self.model()),
            self.model().wf() ==> plan_runs_from(step_models(r@), 0) && plan_depth(
                step_models(r@),
                0,
            ) == 1,
    {
        let mut out: Vec<Step> = Vec::new();
        self.push_steps(&mut out);
        proof {
            assert(step_models(out@) =~= plan_of(self.model()));
            if self.model().wf() {
                lemma_plan_of_runs(self.model(), 0);
            }
        }
        out
    }

    /// Appends this tree's evaluation steps to `out`.
    fn push_steps(&self, out: &mut Vec<Step>)
        ensures
            step_models(final(out)@) == step_models(old(out)@) + plan_of(self.model()),
        decreases self,
    {
        match self {
            Expr::Num(t) => {
                let ghost before = out@;
                out.push(Step::Push(t.clone()));
                proof {
                    assert(step_models(out@) =~= step_models(before) + plan_of(self.model()));
                }
            },
            Expr::Op(o) => {
                o.push_steps(out);
            },
        }
    }
}

impl Operation {
    /// The sequence of steps that evaluates the node: every operand's
    /// steps left to right, with one application of the operator after
    /// each operand but the first.
    pub fn eval_steps(&self) -> (r: Vec<Step>)
        ensures
            step_models(r@) == plan_of_children(self.op, models_of(self.params@)),
    {
        let mut out: Vec<Step> = Vec::new();
        self.push_steps(&mut out);
        proof {
            assert(step_models(out@) =~= plan_of_children(self.op, models_of(self.params@)));
        }
        out
    }

    /// Appends this node's evaluation steps to `out`.
    #[verifier::loop_isolation(false)]
    fn push_steps(&self, out: &mut Vec<Step>)
        ensures
            step_models(final(out)@) == step_models(old(out)@) + plan_of_children(
                self.op,
                models_of(self.params@),
            ),
        decreases self,
    {
        let ghost before = out@;
        let ghost children = models_of(self.params@);
        proof {
            lemma_models_of(self.params@);
        }
        let n = self.params.len();
        let mut i: usize = 0;
        while i < n
            invariant
                n == self.params@.len(),
                children == models_of(self.params@),
                children.len() == n,
                forall|j: int| 0 <= j < n ==> #[trigger] children[j] == self.params@[j].model(),
                i <= n,
                i == 0 ==> step_models(out@) == step_models(before),
                i > 0 ==> step_models(out@) == step_models(before) + plan_of_children(
                    self.op,
                    children.subrange(0, i as int),
                ),
            decreases n - i,
        {
            let ghost mid = out@;
            let child = &self.params[i];
            child.push_steps(out);
            let ghost after_child = out@;
            if i > 0 {
                out.push(Step::Apply(self.op));
            }
            proof {
                let k = i as int;
                let taken = children.subrange(0, k + 1);
                assert(step_models(after_child) == step_models(mid) + plan_of(children[k]));
                if k == 0 {
                    assert(taken.len() == 1);
                    assert(plan_of_children(self.op, taken) == plan_of(children[0]));
                } else {
                    assert(out@ == after_child.push(Step::Apply(self.op)));
                    lemma_step_models_push(after_child, Step::Apply(self.op));
                    assert(taken.drop_last() =~= children.subrange(0, k));
                    assert(taken.last() == children[k]);
                    assert(plan_of_children(self.op, taken) == plan_of_children(
                        self.op,
                        children.subrange(0, k),
                    ) + plan_of(children[k]) + seq![SpecStep::Apply(self.op)]);
                }
                assert(step_models(out@) =~= step_models(before) + plan_of_children(
                    self.op,
                    taken,
                ));
            }
            i = i + 1;
        }
        proof {
            if n == 0 {
                assert(plan_of_children(self.op, children) == Seq::<SpecStep>::empty());
                assert(step_models(out@) =~= step_models(before) + plan_of_children(
                    self.op,
                    children,
                ));
            } else {
                assert(children.subrange(0, n as int) =~= children);
            }
        }
    }
}

} // verus!
