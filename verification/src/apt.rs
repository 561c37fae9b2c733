//! The expression tree of the language: a tagged node type with a fixed
//! arity per operator, plus the operations the rest of the system needs:
//! serialization to the textual form, constant evaluation and folding,
//! and randomized synthesis for genetic programming.
//!
//! The mathematical model of a tree is `TreeV`, a ghost tree whose
//! children form a `Seq`; every executable node views to one.

use crate::parser::{Token, TokenV, token_views};
use crate::rng::{rand_i64, rand_index};
use crate::scalar::{SCALE, Scalar, spec_add, spec_sub, spec_mul, spec_div, spec_scalar_text, spec_parse_scalar};
use vstd::prelude::*;

verus! {

/// Errors of parsing, evaluation and tree surgery.
#[derive(Debug, Clone, PartialEq)]
pub enum AptError {
    /// An operation token whose text is not in the name table (text, line).
    UnresolvedOperator(String, usize),
    /// The token stream ended before a tree was complete.
    TruncatedInput,
    /// A constant token whose text is not a decimal number (text, line).
    InvalidConstant(String, usize),
    /// Constant evaluation reached a node without arithmetic semantics.
    InvalidEval,
    /// Subtree insertion reached a filled leaf node.
    LeafOperation,
}

/// The mathematical model of an expression tree. `Constant` holds the
/// scalar's count of millionths.
pub enum TreeV {
    Add(Seq<TreeV>),
    Sub(Seq<TreeV>),
    Mul(Seq<TreeV>),
    Div(Seq<TreeV>),
    FBM(Seq<TreeV>),
    Ridge(Seq<TreeV>),
    Turbulence(Seq<TreeV>),
    Cell1(Seq<TreeV>),
    Cell2(Seq<TreeV>),
    Sqrt(Seq<TreeV>),
    Sin(Seq<TreeV>),
    Atan(Seq<TreeV>),
    Atan2(Seq<TreeV>),
    Tan(Seq<TreeV>),
    Log(Seq<TreeV>),
    Abs(Seq<TreeV>),
    Constant(int),
    X,
    Y,
    T,
    Empty,
}

impl TreeV {
    /// The children of this node, empty for terminals.
    pub open spec fn children(self) -> Seq<TreeV> {
        match self {
            TreeV::Add(c) | TreeV::Sub(c) | TreeV::Mul(c) | TreeV::Div(c)
            | TreeV::FBM(c) | TreeV::Ridge(c) | TreeV::Turbulence(c)
            | TreeV::Cell1(c) | TreeV::Cell2(c) | TreeV::Sqrt(c)
            | TreeV::Sin(c) | TreeV::Atan(c) | TreeV::Atan2(c)
            | TreeV::Tan(c) | TreeV::Log(c) | TreeV::Abs(c) => c,
            _ => Seq::empty(),
        }
    }

    /// True of the five terminal tags, which own no children.
    pub open spec fn is_leaf(self) -> bool {
        match self {
            TreeV::Constant(_) | TreeV::X | TreeV::Y | TreeV::T
            | TreeV::Empty => true,
            _ => false,
        }
    }

    /// The fixed number of children the node's tag requires.
    pub open spec fn arity(self) -> nat {
        match self {
            TreeV::Add(_) | TreeV::Sub(_) | TreeV::Mul(_) | TreeV::Div(_)
            | TreeV::Atan2(_) => 2,
            TreeV::FBM(_) | TreeV::Ridge(_) | TreeV::Turbulence(_)
            | TreeV::Cell1(_) | TreeV::Cell2(_) => 3,
            TreeV::Sqrt(_) | TreeV::Sin(_) | TreeV::Atan(_) | TreeV::Tan(_)
            | TreeV::Log(_) | TreeV::Abs(_) => 1,
            _ => 0,
        }
    }

    /// True of the four tags with arithmetic semantics.
    pub open spec fn arith_tag(self) -> bool {
        match self {
            TreeV::Add(_) | TreeV::Sub(_) | TreeV::Mul(_) | TreeV::Div(_) => true,
            _ => false,
        }
    }

    /// The same node with its children replaced; terminals are returned
    /// unchanged.
    pub open spec fn with_children(self, cs: Seq<TreeV>) -> TreeV {
        match self {
            TreeV::Add(_) => TreeV::Add(cs),
            TreeV::Sub(_) => TreeV::Sub(cs),
            TreeV::Mul(_) => TreeV::Mul(cs),
            TreeV::Div(_) => TreeV::Div(cs),
            TreeV::FBM(_) => TreeV::FBM(cs),
            TreeV::Ridge(_) => TreeV::Ridge(cs),
            TreeV::Turbulence(_) => TreeV::Turbulence(cs),
            TreeV::Cell1(_) => TreeV::Cell1(cs),
            TreeV::Cell2(_) => TreeV::Cell2(cs),
            TreeV::Sqrt(_) => TreeV::Sqrt(cs),
            TreeV::Sin(_) => TreeV::Sin(cs),
            TreeV::Atan(_) => TreeV::Atan(cs),
            TreeV::Atan2(_) => TreeV::Atan2(cs),
            TreeV::Tan(_) => TreeV::Tan(cs),
            TreeV::Log(_) => TreeV::Log(cs),
            TreeV::Abs(_) => TreeV::Abs(cs),
            _ => self,
        }
    }

    /// Arity invariant, everywhere in the tree: every node owns exactly
    /// as many children as its tag's arity.
    pub open spec fn wf(self) -> bool
        decreases self, 0int,
    {
        if self.is_leaf() {
            true
        } else {
            self.children().len() == self.arity() && Self::wf_from(self.children(), 0)
        }
    }

    /// The arity invariant over `cs[j..]`.
    pub open spec fn wf_from(cs: Seq<TreeV>, j: int) -> bool
        decreases cs, cs.len() - j,
    {
        if j < 0 || j >= cs.len() {
            true
        } else {
            cs[j].wf() && Self::wf_from(cs, j + 1)
        }
    }

    /// How many operator (non-terminal) nodes the tree holds.
    pub open spec fn op_count(self) -> nat
        decreases self, 0int,
    {
        if self.is_leaf() {
            0
        } else {
            1 + Self::op_count_from(self.children(), 0)
        }
    }

    /// Sum of `op_count` over `cs[j..]`.
    pub open spec fn op_count_from(cs: Seq<TreeV>, j: int) -> nat
        decreases cs, cs.len() - j,
    {
        if j < 0 || j >= cs.len() {
            0
        } else {
            cs[j].op_count() + Self::op_count_from(cs, j + 1)
        }
    }

    /// How many `Empty` placeholders the tree holds; a tree is complete
    /// exactly when this is zero.
    pub open spec fn empty_count(self) -> nat
        decreases self, 0int,
    {
        if self.is_leaf() {
            if self is Empty {
                1
            } else {
                0
            }
        } else {
            Self::empty_count_from(self.children(), 0)
        }
    }

    /// Sum of `empty_count` over `cs[j..]`.
    pub open spec fn empty_count_from(cs: Seq<TreeV>, j: int) -> nat
        decreases cs, cs.len() - j,
    {
        if j < 0 || j >= cs.len() {
            0
        } else {
            cs[j].empty_count() + Self::empty_count_from(cs, j + 1)
        }
    }

    /// A tree is complete when no `Empty` placeholder is reachable.
    pub open spec fn complete(self) -> bool {
        self.empty_count() == 0
    }

    /// A partially built tree: an operator node each of whose leaf
    /// positions is still an `Empty` placeholder.
    pub open spec fn all_slots_open(self) -> bool
        decreases self, 0int,
    {
        !self.is_leaf() && Self::open_from(self.children(), 0)
    }

    /// Every slot of `cs[j..]` is open: an `Empty` placeholder or an
    /// operator node all of whose slots are open.
    pub open spec fn open_from(cs: Seq<TreeV>, j: int) -> bool
        decreases cs, cs.len() - j,
    {
        if j < 0 || j >= cs.len() {
            true
        } else {
            (cs[j] is Empty || cs[j].all_slots_open()) && Self::open_from(cs, j + 1)
        }
    }

    /// True where constant evaluation is defined: trees built solely
    /// from Add, Sub, Mul, Div and Constant, with both operands present.
    pub open spec fn is_arith(self) -> bool
        decreases self,
    {
        match self {
            TreeV::Constant(_) => true,
            TreeV::Add(c) | TreeV::Sub(c) | TreeV::Mul(c) | TreeV::Div(c) => c.len()
                == 2 && c[0].is_arith() && c[1].is_arith(),
            _ => false,
        }
    }

    /// The value of an arithmetic tree, in micros (zero elsewhere).
    pub open spec fn eval(self) -> int
        decreases self,
    {
        match self {
            TreeV::Constant(v) => v,
            TreeV::Add(c) => if c.len() == 2 {
                spec_add(c[0].eval(), c[1].eval())
            } else {
                0
            },
            TreeV::Sub(c) => if c.len() == 2 {
                spec_sub(c[0].eval(), c[1].eval())
            } else {
                0
            },
            TreeV::Mul(c) => if c.len() == 2 {
                spec_mul(c[0].eval(), c[1].eval())
            } else {
                0
            },
            TreeV::Div(c) => if c.len() == 2 {
                spec_div(c[0].eval(), c[1].eval())
            } else {
                0
            },
            _ => 0,
        }
    }

    /// Every child of the sequence is a constant node.
    pub open spec fn all_const(cs: Seq<TreeV>) -> bool {
        forall|i: int| 0 <= i < cs.len() ==> (#[trigger] cs[i]) is Constant
    }

    /// Constant folding: terminals fold to themselves; an operator node
    /// folds its children, and collapses to a single constant when it has
    /// arithmetic semantics and every folded child is a constant.
    pub open spec fn fold(self) -> TreeV
        decreases self, 0int,
    {
        if self.is_leaf() {
            self
        } else {
            let fc = Self::fold_seq(self.children(), 0);
            if self.arith_tag() && self.children().len() == 2 && Self::all_const(fc) {
                TreeV::Constant(self.with_children(fc).eval())
            } else {
                self.with_children(fc)
            }
        }
    }

    /// Pointwise folding of `cs[j..]`.
    pub open spec fn fold_seq(cs: Seq<TreeV>, j: int) -> Seq<TreeV>
        decreases cs, cs.len() - j,
    {
        if j < 0 || j >= cs.len() {
            Seq::empty()
        } else {
            seq![cs[j].fold()] + Self::fold_seq(cs, j + 1)
        }
    }

    /// The result of inserting `leaf` into the first `Empty` slot found
    /// by a depth-first, left-to-right search that skips filled leaves,
    /// or `None` when no such slot exists under an operator path.
    pub open spec fn try_add_leaf(self, leaf: TreeV) -> Option<TreeV>
        decreases self, 0int,
    {
        if self.is_leaf() {
            None
        } else {
            match Self::try_add_seq(self.children(), leaf, 0) {
                Some(cs) => Some(self.with_children(cs)),
                None => None,
            }
        }
    }

    /// Scans `cs[j..]` for the first place an insertion succeeds.
    pub open spec fn try_add_seq(cs: Seq<TreeV>, leaf: TreeV, j: int) -> Option<Seq<TreeV>>
        decreases cs, cs.len() - j,
    {
        if j < 0 || j >= cs.len() {
            None
        } else if cs[j] is Empty {
            Some(cs.update(j, leaf))
        } else if cs[j].is_leaf() {
            Self::try_add_seq(cs, leaf, j + 1)
        } else {
            match cs[j].try_add_leaf(leaf) {
                Some(c2) => Some(cs.update(j, c2)),
                None => Self::try_add_seq(cs, leaf, j + 1),
            }
        }
    }
}

/// `fold_seq` folds pointwise.
pub proof fn lemma_fold_seq(cs: Seq<TreeV>, j: int)
    requires
        0 <= j <= cs.len(),
    ensures
        TreeV::fold_seq(cs, j).len() == cs.len() - j,
        forall|k: int| j <= k < cs.len() ==> TreeV::fold_seq(cs, j)[k - j] == cs[k].fold(),
    decreases cs.len() - j,
{
    if j < cs.len() {
        lemma_fold_seq(cs, j + 1);
    }
}

/// Summed operator counts split at the head of the scanned range.
pub proof fn lemma_op_count_update(cs: Seq<TreeV>, i: int, v: TreeV, j: int)
    requires
        0 <= j <= cs.len(),
        0 <= i < cs.len(),
    ensures
        i >= j ==> TreeV::op_count_from(cs.update(i, v), j) + cs[i].op_count()
            == TreeV::op_count_from(cs, j) + v.op_count(),
        i < j ==> TreeV::op_count_from(cs.update(i, v), j) == TreeV::op_count_from(cs, j),
    decreases cs.len() - j,
{
    if j < cs.len() {
        lemma_op_count_update(cs, i, v, j + 1);
    }
}

/// Summed placeholder counts split at the head of the scanned range.
pub proof fn lemma_empty_count_update(cs: Seq<TreeV>, i: int, v: TreeV, j: int)
    requires
        0 <= j <= cs.len(),
        0 <= i < cs.len(),
    ensures
        i >= j ==> TreeV::empty_count_from(cs.update(i, v), j) + cs[i].empty_count()
            == TreeV::empty_count_from(cs, j) + v.empty_count(),
        i < j ==> TreeV::empty_count_from(cs.update(i, v), j)
            == TreeV::empty_count_from(cs, j),
    decreases cs.len() - j,
{
    if j < cs.len() {
        lemma_empty_count_update(cs, i, v, j + 1);
    }
}

/// The views of `cs[j..]`, in order.
pub open spec fn views_from(cs: Seq<APTNode>, j: int) -> Seq<TreeV>
    decreases cs, cs.len() - j,
{
    if j < 0 || j >= cs.len() {
        Seq::empty()
    } else {
        seq![view_of(cs[j])] + views_from(cs, j + 1)
    }
}

/// The views of a child vector, in order.
pub open spec fn views(cs: Seq<APTNode>) -> Seq<TreeV> {
    views_from(cs, 0)
}

/// The model of one executable node.
pub open spec fn view_of(n: APTNode) -> TreeV
    decreases n, 0int,
{
    match n {
        APTNode::Add(c) => TreeV::Add(views_from(c@, 0)),
        APTNode::Sub(c) => TreeV::Sub(views_from(c@, 0)),
        APTNode::Mul(c) => TreeV::Mul(views_from(c@, 0)),
        APTNode::Div(c) => TreeV::Div(views_from(c@, 0)),
        APTNode::FBM(c) => TreeV::FBM(views_from(c@, 0)),
        APTNode::Ridge(c) => TreeV::Ridge(views_from(c@, 0)),
        APTNode::Turbulence(c) => TreeV::Turbulence(views_from(c@, 0)),
        APTNode::Cell1(c) => TreeV::Cell1(views_from(c@, 0)),
        APTNode::Cell2(c) => TreeV::Cell2(views_from(c@, 0)),
        APTNode::Sqrt(c) => TreeV::Sqrt(views_from(c@, 0)),
        APTNode::Sin(c) => TreeV::Sin(views_from(c@, 0)),
        APTNode::Atan(c) => TreeV::Atan(views_from(c@, 0)),
        APTNode::Atan2(c) => TreeV::Atan2(views_from(c@, 0)),
        APTNode::Tan(c) => TreeV::Tan(views_from(c@, 0)),
        APTNode::Log(c) => TreeV::Log(views_from(c@, 0)),
        APTNode::Abs(c) => TreeV::Abs(views_from(c@, 0)),
        APTNode::Constant(v) => TreeV::Constant(v.micros as int),
        APTNode::X => TreeV::X,
        APTNode::Y => TreeV::Y,
        APTNode::T => TreeV::T,
        APTNode::Empty => TreeV::Empty,
    }
}

/// `views_from` maps pointwise.
pub proof fn lemma_views_from(cs: Seq<APTNode>, j: int)
    requires
        0 <= j <= cs.len(),
    ensures
        views_from(cs, j).len() == cs.len() - j,
        forall|k: int| j <= k < cs.len() ==> views_from(cs, j)[k - j] == view_of(cs[k]),
    decreases cs.len() - j,
{
    if j < cs.len() {
        lemma_views_from(cs, j + 1);
    }
}

/// The view of a child vector maps pointwise.
pub proof fn lemma_views(cs: Seq<APTNode>)
    ensures
        views(cs).len() == cs.len(),
        forall|k: int| 0 <= k < cs.len() ==> #[trigger] views(cs)[k] == view_of(cs[k]),
{
    lemma_views_from(cs, 0);
    assert forall|k: int| 0 <= k < cs.len() implies #[trigger] views(cs)[k]
        == view_of(cs[k]) by {
        assert(views_from(cs, 0)[k - 0] == view_of(cs[k]));
    }
}

/// Pointwise description of folded child sequences.
pub proof fn lemma_folds(cs: Seq<TreeV>)
    ensures
        TreeV::fold_seq(cs, 0).len() == cs.len(),
        forall|k: int| 0 <= k < cs.len() ==> #[trigger] TreeV::fold_seq(cs, 0)[k]
            == cs[k].fold(),
{
    lemma_fold_seq(cs, 0);
    assert forall|k: int| 0 <= k < cs.len() implies #[trigger] TreeV::fold_seq(cs, 0)[k]
        == cs[k].fold() by {
        assert(TreeV::fold_seq(cs, 0)[k - 0] == cs[k].fold());
    }
}

/// One node of an expression tree. Operator variants own exactly as many
/// children as their arity; `Empty` marks a slot not yet filled during
/// synthesis and is invalid in a tree handed to an evaluator.
#[derive(Debug, PartialEq)]
pub enum APTNode {
    Add(Vec<APTNode>),
    Sub(Vec<APTNode>),
    Mul(Vec<APTNode>),
    Div(Vec<APTNode>),
    FBM(Vec<APTNode>),
    Ridge(Vec<APTNode>),
    Turbulence(Vec<APTNode>),
    Cell1(Vec<APTNode>),
    Cell2(Vec<APTNode>),
    Sqrt(Vec<APTNode>),
    Sin(Vec<APTNode>),
    Atan(Vec<APTNode>),
    Atan2(Vec<APTNode>),
    Tan(Vec<APTNode>),
    Log(Vec<APTNode>),
    Abs(Vec<APTNode>),
    Constant(Scalar),
    X,
    Y,
    T,
    Empty,
}

impl View for APTNode {
    type V = TreeV;

    open spec fn view(&self) -> TreeV {
        view_of(*self)
    }
}

impl APTNode {
    /// Returns this node's children, or `None` for a terminal.
    pub fn get_children(&self) -> (r: Option<&Vec<APTNode>>)
        ensures
            match r {
                Some(c) => !self@.is_leaf() && views(c@) == self@.children(),
                None => self@.is_leaf(),
            },
    {
        match self {
            APTNode::Add(c) | APTNode::Sub(c) | APTNode::Mul(c) | APTNode::Div(c)
            | APTNode::FBM(c) | APTNode::Ridge(c) | APTNode::Turbulence(c)
            | APTNode::Cell1(c) | APTNode::Cell2(c) | APTNode::Sqrt(c)
            | APTNode::Sin(c) | APTNode::Atan(c) | APTNode::Atan2(c)
            | APTNode::Tan(c) | APTNode::Log(c) | APTNode::Abs(c) => Some(c),
            _ => None,
        }
    }

    /// Returns the node's children for in-place surgery, or `None` for
    /// a terminal; the node keeps its tag around the new children.
    pub fn get_children_mut(&mut self) -> (r: Option<&mut Vec<APTNode>>)
        ensures
            match r {
                Some(c) => {
                    &&& !old(self)@.is_leaf()
                    &&& views((*c)@) == old(self)@.children()
                    &&& final(self)@ == old(self)@.with_children(views(final(c)@))
                    &&& decreases_to!(*old(self) => *c)
                },
                None => old(self)@.is_leaf() && final(self)@ == old(self)@,
            },
    {
        match self {
            APTNode::Add(c) => Some(c),
            APTNode::Sub(c) => Some(c),
            APTNode::Mul(c) => Some(c),
            APTNode::Div(c) => Some(c),
            APTNode::FBM(c) => Some(c),
            APTNode::Ridge(c) => Some(c),
            APTNode::Turbulence(c) => Some(c),
            APTNode::Cell1(c) => Some(c),
            APTNode::Cell2(c) => Some(c),
            APTNode::Sqrt(c) => Some(c),
            APTNode::Sin(c) => Some(c),
            APTNode::Atan(c) => Some(c),
            APTNode::Atan2(c) => Some(c),
            APTNode::Tan(c) => Some(c),
            APTNode::Log(c) => Some(c),
            APTNode::Abs(c) => Some(c),
            _ => None,
        }
    }

    /// True of the five terminal tags.
    pub fn is_leaf(&self) -> (r: bool)
        ensures
            r == self@.is_leaf(),
    {
        match self {
            APTNode::X | APTNode::Y | APTNode::T | APTNode::Constant(_)
            | APTNode::Empty => true,
            _ => false,
        }
    }

    /// Rebuilds this node around a new child vector; terminals are
    /// returned unchanged.
    fn set_children(&self, children: Vec<APTNode>) -> (r: Self)
        ensures
            r@ == self@.with_children(views(children@)),
    {
        match self {
            APTNode::Add(_) => APTNode::Add(children),
            APTNode::Sub(_) => APTNode::Sub(children),
            APTNode::Mul(_) => APTNode::Mul(children),
            APTNode::Div(_) => APTNode::Div(children),
            APTNode::FBM(_) => APTNode::FBM(children),
            APTNode::Ridge(_) => APTNode::Ridge(children),
            APTNode::Turbulence(_) => APTNode::Turbulence(children),
            APTNode::Cell1(_) => APTNode::Cell1(children),
            APTNode::Cell2(_) => APTNode::Cell2(children),
            APTNode::Sqrt(_) => APTNode::Sqrt(children),
            APTNode::Sin(_) => APTNode::Sin(children),
            APTNode::Atan(_) => APTNode::Atan(children),
            APTNode::Atan2(_) => APTNode::Atan2(children),
            APTNode::Tan(_) => APTNode::Tan(children),
            APTNode::Log(_) => APTNode::Log(children),
            APTNode::Abs(_) => APTNode::Abs(children),
            APTNode::Constant(v) => APTNode::Constant(*v),
            APTNode::X => APTNode::X,
            APTNode::Y => APTNode::Y,
            APTNode::T => APTNode::T,
            APTNode::Empty => APTNode::Empty,
        }
    }

    /// A structurally equal copy of the whole tree.
    #[verifier::loop_isolation(false)]
    fn clone_tree(&self) -> (r: Self)
        ensures
            r@ == self@,
        decreases *self,
    {
        match self {
            APTNode::Constant(v) => APTNode::Constant(*v),
            APTNode::X => APTNode::X,
            APTNode::Y => APTNode::Y,
            APTNode::T => APTNode::T,
            APTNode::Empty => APTNode::Empty,
            APTNode::Add(c) | APTNode::Sub(c) | APTNode::Mul(c) | APTNode::Div(c)
            | APTNode::FBM(c) | APTNode::Ridge(c) | APTNode::Turbulence(c)
            | APTNode::Cell1(c) | APTNode::Cell2(c) | APTNode::Sqrt(c)
            | APTNode::Sin(c) | APTNode::Atan(c) | APTNode::Atan2(c)
            | APTNode::Tan(c) | APTNode::Log(c) | APTNode::Abs(c) => {
                let mut cs: Vec<APTNode> = Vec::new();
                let mut i: usize = 0;
                while i < c.len()
                    invariant
                        i <= c.len(),
                        cs@.len() == i as int,
                        forall|k: int| 0 <= k < i ==> view_of(cs@[k]) == view_of(c@[k]),
                    decreases c@.len() - i,
                {
                    cs.push(c[i].clone_tree());
                    i += 1;
                }
                proof {
                    lemma_views(cs@);
                    lemma_views(c@);
                    assert(views(cs@) =~= views(c@));
                }
                let r = self.set_children(cs);
                proof {
                    assert(r@ =~= self@);
                }
                r
            },
        }
    }
}

impl Clone for APTNode {
    /// Clones the tree; the two models are equal.
    fn clone(&self) -> (r: Self)
        ensures
            r@ == self@,
    {
        self.clone_tree()
    }
}


/// The arity invariant over a range is the pointwise invariant.
pub proof fn lemma_wf_from(cs: Seq<TreeV>, j: int)
    requires
        0 <= j <= cs.len(),
    ensures
        TreeV::wf_from(cs, j) == (forall|k: int| j <= k < cs.len() ==> #[trigger] cs[k].wf()),
    decreases cs.len() - j,
{
    if j < cs.len() {
        lemma_wf_from(cs, j + 1);
        if cs[j].wf() && TreeV::wf_from(cs, j + 1) {
            assert forall|k: int| j <= k < cs.len() implies #[trigger] cs[k].wf() by {
                if k > j {
                    assert(cs[k].wf());
                }
            }
        }
    }
}

/// Forall form of `wf_from` over a whole child sequence.
pub proof fn lemma_wfs(cs: Seq<TreeV>)
    ensures
        TreeV::wf_from(cs, 0) == (forall|k: int| 0 <= k < cs.len() ==> #[trigger] cs[k].wf()),
{
    lemma_wf_from(cs, 0);
}

/// Open slots over a range are the pointwise condition.
pub proof fn lemma_open_from(cs: Seq<TreeV>, j: int)
    requires
        0 <= j <= cs.len(),
    ensures
        TreeV::open_from(cs, j) == (forall|k: int|
            j <= k < cs.len() ==> (#[trigger] cs[k]) is Empty || cs[k].all_slots_open()),
    decreases cs.len() - j,
{
    if j < cs.len() {
        lemma_open_from(cs, j + 1);
        if (cs[j] is Empty || cs[j].all_slots_open()) && TreeV::open_from(cs, j + 1) {
            assert forall|k: int|
                j <= k < cs.len() implies (#[trigger] cs[k]) is Empty
                || cs[k].all_slots_open() by {
                if k > j {
                    assert(cs[k] is Empty || cs[k].all_slots_open());
                }
            }
        }
    }
}

/// Operator tags require between one and three children.
pub proof fn lemma_arity_pos(t: TreeV)
    requires
        !t.is_leaf(),
    ensures
        1 <= t.arity() <= 3,
{
    match t {
        TreeV::Add(_) | TreeV::Sub(_) | TreeV::Mul(_) | TreeV::Div(_)
        | TreeV::FBM(_) | TreeV::Ridge(_) | TreeV::Turbulence(_)
        | TreeV::Cell1(_) | TreeV::Cell2(_) | TreeV::Sqrt(_) | TreeV::Sin(_)
        | TreeV::Atan(_) | TreeV::Atan2(_) | TreeV::Tan(_) | TreeV::Log(_)
        | TreeV::Abs(_) => {},
        _ => {},
    }
}

/// A shell with arithmetic tag and two constant children evaluates.
pub proof fn lemma_arith_shell(t: TreeV, cs: Seq<TreeV>)
    requires
        t.arith_tag(),
        cs.len() == 2,
        TreeV::all_const(cs),
    ensures
        t.with_children(cs).is_arith(),
{
    assert(cs[0] is Constant);
    assert(cs[1] is Constant);
    assert(cs[0].is_arith());
    assert(cs[1].is_arith());
    match t {
        TreeV::Add(_) | TreeV::Sub(_) | TreeV::Mul(_) | TreeV::Div(_) => {},
        _ => {},
    }
}

/// The model's tag follows the executable node's tag.
pub proof fn lemma_view_tags(n: APTNode)
    ensures
        (view_of(n) is Constant) == (n is Constant),
        (view_of(n) is Empty) == (n is Empty),
        view_of(n).is_leaf() == (n is Constant || n is X || n is Y || n is T
            || n is Empty),
{
    match n {
        APTNode::Add(_) | APTNode::Sub(_) | APTNode::Mul(_) | APTNode::Div(_)
        | APTNode::FBM(_) | APTNode::Ridge(_) | APTNode::Turbulence(_)
        | APTNode::Cell1(_) | APTNode::Cell2(_) | APTNode::Sqrt(_)
        | APTNode::Sin(_) | APTNode::Atan(_) | APTNode::Atan2(_)
        | APTNode::Tan(_) | APTNode::Log(_) | APTNode::Abs(_) => {},
        _ => {},
    }
}

/// Properties of rebuilding a node around new children.
pub proof fn lemma_with_children(t: TreeV, cs: Seq<TreeV>)
    requires
        !t.is_leaf(),
    ensures
        t.with_children(cs).children() == cs,
        t.with_children(cs).arity() == t.arity(),
        !t.with_children(cs).is_leaf(),
        t.with_children(cs).arith_tag() == t.arith_tag(),
        forall|cs2: Seq<TreeV>| (#[trigger] t.with_children(cs).with_children(cs2))
            == t.with_children(cs2),
{
    match t {
        TreeV::Add(_) | TreeV::Sub(_) | TreeV::Mul(_) | TreeV::Div(_)
        | TreeV::FBM(_) | TreeV::Ridge(_) | TreeV::Turbulence(_)
        | TreeV::Cell1(_) | TreeV::Cell2(_) | TreeV::Sqrt(_) | TreeV::Sin(_)
        | TreeV::Atan(_) | TreeV::Atan2(_) | TreeV::Tan(_) | TreeV::Log(_)
        | TreeV::Abs(_) => {},
        _ => {},
    }
}

/// Rebuilding a node around its own children changes nothing.
pub proof fn lemma_with_children_self(t: TreeV)
    requires
        !t.is_leaf(),
    ensures
        t.with_children(t.children()) == t,
{
    match t {
        TreeV::Add(_) | TreeV::Sub(_) | TreeV::Mul(_) | TreeV::Div(_)
        | TreeV::FBM(_) | TreeV::Ridge(_) | TreeV::Turbulence(_)
        | TreeV::Cell1(_) | TreeV::Cell2(_) | TreeV::Sqrt(_) | TreeV::Sin(_)
        | TreeV::Atan(_) | TreeV::Atan2(_) | TreeV::Tan(_) | TreeV::Log(_)
        | TreeV::Abs(_) => {},
        _ => {},
    }
}

/// Folding preserves the arity invariant.
pub proof fn lemma_fold_wf(t: TreeV)
    requires
        t.wf(),
    ensures
        t.fold().wf(),
    decreases t,
{
    if !t.is_leaf() {
        let cs = t.children();
        let fc = TreeV::fold_seq(cs, 0);
        lemma_folds(cs);
        lemma_wfs(cs);
        assert forall|i: int| 0 <= i < fc.len() implies #[trigger] fc[i].wf() by {
            assert(cs[i].wf());
            lemma_fold_wf(cs[i]);
        }
        if !(t.arith_tag() && cs.len() == 2 && TreeV::all_const(fc)) {
            lemma_with_children(t, fc);
            lemma_wfs(fc);
        }
    }
}

/// Folding is idempotent: a folded tree folds to itself.
pub proof fn lemma_fold_idempotent(t: TreeV)
    requires
        t.wf(),
    ensures
        t.fold().fold() == t.fold(),
    decreases t,
{
    if !t.is_leaf() {
        let cs = t.children();
        let fc = TreeV::fold_seq(cs, 0);
        lemma_folds(cs);
        lemma_wfs(cs);
        assert forall|i: int| 0 <= i < fc.len() implies #[trigger] fc[i].fold()
            == fc[i] by {
            assert(cs[i].wf());
            lemma_fold_idempotent(cs[i]);
        }
        if !(t.arith_tag() && cs.len() == 2 && TreeV::all_const(fc)) {
            let r = t.with_children(fc);
            lemma_with_children(t, fc);
            lemma_folds(fc);
            assert(TreeV::fold_seq(fc, 0) =~= fc);
            assert(r.fold() == r.with_children(fc));
            assert(r.with_children(fc) == t.with_children(fc));
        }
    }
}

/// Folding a purely arithmetic tree yields the single constant that
/// holds the tree's value.
pub proof fn lemma_fold_arith(t: TreeV)
    requires
        t.is_arith(),
    ensures
        t.fold() == TreeV::Constant(t.eval()),
    decreases t,
{
    match t {
        TreeV::Add(c) | TreeV::Sub(c) | TreeV::Mul(c) | TreeV::Div(c) => {
            lemma_fold_arith(c[0]);
            lemma_fold_arith(c[1]);
            lemma_folds(c);
            let fc = TreeV::fold_seq(c, 0);
            assert(fc =~= seq![TreeV::Constant(c[0].eval()), TreeV::Constant(c[1].eval())]);
            assert(TreeV::all_const(fc));
            assert(fc[0].eval() == c[0].eval() && fc[1].eval() == c[1].eval());
            assert(t.with_children(fc).eval() == t.eval());
        },
        _ => {},
    }
}

impl APTNode {
    /// Evaluates a tree built solely from the four arithmetic operators
    /// and constants; any other tag is an evaluation error.
    pub fn constant_eval(&self) -> (r: Result<Scalar, AptError>)
        ensures
            match r {
                Ok(v) => self@.is_arith() && v.micros as int == self@.eval(),
                Err(e) => !self@.is_arith() && e == AptError::InvalidEval,
            },
        decreases *self,
    {
        match self {
            APTNode::Constant(v) => Ok(*v),
            APTNode::Add(c) | APTNode::Sub(c) | APTNode::Mul(c)
            | APTNode::Div(c) => {
                proof {
                    lemma_views(c@);
                }
                if c.len() != 2 {
                    return Err(AptError::InvalidEval);
                }
                let a = match c[0].constant_eval() {
                    Ok(v) => v,
                    Err(e) => {
                        return Err(e);
                    },
                };
                let b = match c[1].constant_eval() {
                    Ok(v) => v,
                    Err(e) => {
                        return Err(e);
                    },
                };
                match self {
                    APTNode::Add(_) => Ok(a.add(&b)),
                    APTNode::Sub(_) => Ok(a.sub(&b)),
                    APTNode::Mul(_) => Ok(a.mul(&b)),
                    _ => Ok(a.div(&b)),
                }
            },
            _ => Err(AptError::InvalidEval),
        }
    }

    /// Constant folding: a pure, bottom-up rewrite. Terminals fold to
    /// themselves; an operator node whose folded children are all
    /// constants collapses to one constant when the tag has arithmetic
    /// semantics, and keeps its structure otherwise.
    #[verifier::loop_isolation(false)]
    pub fn constant_fold(&self) -> (r: APTNode)
        ensures
            r@ == self@.fold(),
        decreases *self,
    {
        match self {
            APTNode::Constant(v) => APTNode::Constant(*v),
            APTNode::X => APTNode::X,
            APTNode::Y => APTNode::Y,
            APTNode::T => APTNode::T,
            APTNode::Empty => APTNode::Empty,
            APTNode::Add(c) | APTNode::Sub(c) | APTNode::Mul(c) | APTNode::Div(c)
            | APTNode::FBM(c) | APTNode::Ridge(c) | APTNode::Turbulence(c)
            | APTNode::Cell1(c) | APTNode::Cell2(c) | APTNode::Sqrt(c)
            | APTNode::Sin(c) | APTNode::Atan(c) | APTNode::Atan2(c)
            | APTNode::Tan(c) | APTNode::Log(c) | APTNode::Abs(c) => {
                let mut folded: Vec<APTNode> = Vec::new();
                let mut i: usize = 0;
                while i < c.len()
                    invariant
                        i <= c.len(),
                        folded@.len() == i as int,
                        forall|k: int|
                            0 <= k < i ==> view_of(folded@[k]) == view_of(c@[k]).fold(),
                    decreases c@.len() - i,
                {
                    folded.push(c[i].constant_fold());
                    i += 1;
                }
                proof {
                    lemma_views(c@);
                    lemma_views(folded@);
                    lemma_folds(views(c@));
                    assert(views(folded@) =~= TreeV::fold_seq(self@.children(), 0));
                }
                let ghost fc = TreeV::fold_seq(self@.children(), 0);
                proof {
                    assert(fc.len() == folded@.len());
                }
                let mut allc = true;
                let mut j: usize = 0;
                while j < folded.len()
                    invariant
                        j <= folded.len(),
                        allc == (forall|k: int| 0 <= k < j ==> (#[trigger] fc[k]) is Constant),
                    decreases folded@.len() - j,
                {
                    proof {
                        lemma_view_tags(folded@[j as int]);
                        assert(fc[j as int] == view_of(folded@[j as int]));
                    }
                    if !matches!(folded[j], APTNode::Constant(_)) {
                        allc = false;
                    }
                    j += 1;
                }
                proof {
                    assert(allc == TreeV::all_const(fc));
                }
                let is_ar = matches!(
                    self,
                    APTNode::Add(_) | APTNode::Sub(_) | APTNode::Mul(_) | APTNode::Div(_)
                );
                if is_ar && folded.len() == 2 && allc {
                    let shell = self.set_children(folded);
                    proof {
                        lemma_with_children(self@, fc);
                        lemma_arith_shell(self@, fc);
                        assert(shell@.is_arith());
                    }
                    match shell.constant_eval() {
                        Ok(v) => APTNode::Constant(v),
                        Err(_) => vstd::pervasive::unreached(),
                    }
                } else {
                    self.set_children(folded)
                }
            },
        }
    }
}


/// A run of `Empty` placeholders has no operators, no filled leaves,
/// only open slots, and is well formed.
pub proof fn lemma_empty_run(cs: Seq<TreeV>, j: int)
    requires
        0 <= j <= cs.len(),
        forall|k: int| 0 <= k < cs.len() ==> (#[trigger] cs[k]) is Empty,
    ensures
        TreeV::op_count_from(cs, j) == 0,
        TreeV::empty_count_from(cs, j) == cs.len() - j,
        TreeV::open_from(cs, j),
        TreeV::wf_from(cs, j),
    decreases cs.len() - j,
{
    if j < cs.len() {
        assert(cs[j] is Empty);
        assert(cs[j].op_count() == 0);
        assert(cs[j].empty_count() == 1);
        assert(cs[j].wf());
        assert(cs[j].is_leaf());
        lemma_empty_run(cs, j + 1);
    }
}

/// Inserting a leaf into the first open slot keeps the arity invariant,
/// keeps the operator count, and fills exactly one placeholder; the
/// search fails only on a tree with no placeholder left.
pub proof fn lemma_try_add_leaf(t: TreeV, leaf: TreeV)
    requires
        t.wf(),
        leaf.wf(),
    ensures
        match t.try_add_leaf(leaf) {
            Some(r) => {
                &&& r.wf()
                &&& !r.is_leaf()
                &&& r.op_count() == t.op_count() + leaf.op_count()
                &&& r.empty_count() + 1 == t.empty_count() + leaf.empty_count()
            },
            None => t.is_leaf() || t.empty_count() == 0,
        },
    decreases t, 1int,
{
    if !t.is_leaf() {
        let cs = t.children();
        lemma_wfs(cs);
        lemma_try_add_seq(cs, leaf, 0);
        match TreeV::try_add_seq(cs, leaf, 0) {
            Some(cs2) => {
                lemma_with_children(t, cs2);
                lemma_wfs(cs2);
            },
            None => {},
        }
    }
}

/// Range form of `lemma_try_add_leaf` over a child sequence.
pub proof fn lemma_try_add_seq(cs: Seq<TreeV>, leaf: TreeV, j: int)
    requires
        0 <= j <= cs.len(),
        forall|k: int| 0 <= k < cs.len() ==> (#[trigger] cs[k]).wf(),
        leaf.wf(),
    ensures
        match TreeV::try_add_seq(cs, leaf, j) {
            Some(cs2) => {
                &&& cs2.len() == cs.len()
                &&& (forall|k: int| 0 <= k < cs2.len() ==> (#[trigger] cs2[k]).wf())
                &&& TreeV::op_count_from(cs2, 0) == TreeV::op_count_from(cs, 0)
                    + leaf.op_count()
                &&& TreeV::empty_count_from(cs2, 0) + 1 == TreeV::empty_count_from(cs, 0)
                    + leaf.empty_count()
            },
            None => TreeV::empty_count_from(cs, j) == 0,
        },
    decreases cs, 0int, cs.len() - j,
{
    if j < cs.len() {
        if cs[j] is Empty {
            let cs2 = cs.update(j, leaf);
            lemma_op_count_update(cs, j, leaf, 0);
            lemma_empty_count_update(cs, j, leaf, 0);
            assert(cs[j].op_count() == 0);
            assert(cs[j].empty_count() == 1);
        } else if cs[j].is_leaf() {
            lemma_try_add_seq(cs, leaf, j + 1);
            assert(cs[j].empty_count() == 0);
        } else {
            lemma_try_add_leaf(cs[j], leaf);
            match cs[j].try_add_leaf(leaf) {
                Some(c2) => {
                    let cs2 = cs.update(j, c2);
                    lemma_op_count_update(cs, j, c2, 0);
                    lemma_empty_count_update(cs, j, c2, 0);
                },
                None => {
                    lemma_try_add_seq(cs, leaf, j + 1);
                },
            }
        }
    }
}

impl APTNode {
    /// A vector of `n` empty placeholder children.
    fn empty_children(n: usize) -> (v: Vec<APTNode>)
        ensures
            views(v@).len() == n,
            forall|k: int| 0 <= k < n ==> (#[trigger] views(v@)[k]) is Empty,
    {
        let mut v: Vec<APTNode> = Vec::new();
        let mut i: usize = 0;
        while i < n
            invariant
                i <= n,
                v@.len() == i as int,
                forall|k: int| 0 <= k < i ==> (#[trigger] view_of(v@[k])) is Empty,
            decreases n - i,
        {
            v.push(APTNode::Empty);
            i += 1;
        }
        proof {
            lemma_views(v@);
            assert forall|k: int| 0 <= k < n implies (#[trigger] views(v@)[k]) is Empty by {
                assert(view_of(v@[k]) is Empty);
            }
        }
        v
    }

    /// Draws one of the sixteen operator tags uniformly and returns a
    /// node of that tag whose children are all `Empty` placeholders.
    pub fn get_random_node(rng: &mut rand::rngs::StdRng) -> (r: APTNode)
        ensures
            r@.wf(),
            r@.all_slots_open(),
            !r@.is_leaf(),
            r@.op_count() == 1,
            r@.empty_count() == r@.arity(),
    {
        let k = rand_index(rng, 16);
        let a: usize = if k <= 3 || k == 12 {
            2
        } else if 4 <= k && k <= 8 {
            3
        } else {
            1
        };
        let v = Self::empty_children(a);
        let ghost vs = views(v@);
        let r = match k {
            0 => APTNode::Add(v),
            1 => APTNode::Sub(v),
            2 => APTNode::Mul(v),
            3 => APTNode::Div(v),
            4 => APTNode::FBM(v),
            5 => APTNode::Ridge(v),
            6 => APTNode::Turbulence(v),
            7 => APTNode::Cell1(v),
            8 => APTNode::Cell2(v),
            9 => APTNode::Sqrt(v),
            10 => APTNode::Sin(v),
            11 => APTNode::Atan(v),
            12 => APTNode::Atan2(v),
            13 => APTNode::Tan(v),
            14 => APTNode::Log(v),
            _ => APTNode::Abs(v),
        };
        proof {
            assert(!r@.is_leaf());
            assert(r@.children() == vs);
            assert(r@.arity() == a as nat);
            lemma_empty_run(vs, 0);
        }
        r
    }

    /// Draws a terminal for still images, uniformly: the X or Y
    /// coordinate, or a constant in `[-1, 1)` units.
    pub fn get_random_leaf(rng: &mut rand::rngs::StdRng) -> (r: APTNode)
        ensures
            r@.is_leaf(),
            !(r@ is Empty),
            r@.wf(),
            r@.op_count() == 0,
            r@.empty_count() == 0,
            r@ is Constant || r@ is X || r@ is Y,
            r@ matches TreeV::Constant(v) ==> -SCALE <= v < SCALE,
    {
        let k = rand_index(rng, 3);
        match k {
            0 => APTNode::X,
            1 => APTNode::Y,
            _ => APTNode::Constant(Scalar::new(rand_i64(rng, -SCALE, SCALE))),
        }
    }

    /// Draws a terminal for animations, uniformly: the X, Y or T
    /// coordinate, or a constant in `[-1, 1)` units.
    pub fn get_random_leaf_video(rng: &mut rand::rngs::StdRng) -> (r: APTNode)
        ensures
            r@.is_leaf(),
            !(r@ is Empty),
            r@.wf(),
            r@.op_count() == 0,
            r@.empty_count() == 0,
            r@ is Constant || r@ is X || r@ is Y || r@ is T,
            r@ matches TreeV::Constant(v) ==> -SCALE <= v < SCALE,
    {
        let k = rand_index(rng, 4);
        match k {
            0 => APTNode::X,
            1 => APTNode::Y,
            2 => APTNode::T,
            _ => APTNode::Constant(Scalar::new(rand_i64(rng, -SCALE, SCALE))),
        }
    }
}


impl APTNode {
    /// Grafts `node` onto a uniformly chosen open slot: walks one random
    /// child per level, fills the first `Empty` it lands on, and fails
    /// on a filled leaf (invalid operation on a leaf).
    pub fn add_random(&mut self, node: APTNode, rng: &mut rand::rngs::StdRng) -> (res: Result<
        (),
        AptError,
    >)
        requires
            old(self)@.wf(),
            node@.wf(),
        ensures
            match res {
                Ok(_) => {
                    &&& final(self)@.wf()
                    &&& !final(self)@.is_leaf()
                    &&& final(self)@.op_count() == old(self)@.op_count() + node@.op_count()
                    &&& final(self)@.empty_count() + 1 == old(self)@.empty_count()
                        + node@.empty_count()
                    &&& (old(self)@.all_slots_open() && node@.all_slots_open()
                        ==> final(self)@.all_slots_open())
                },
                Err(e) => final(self)@ == old(self)@ && e == AptError::LeafOperation,
            },
            old(self)@.all_slots_open() ==> res is Ok,
        decreases *old(self),
    {
        let ghost t0 = old(self)@;
        match self.get_children_mut() {
            None => Err(AptError::LeafOperation),
            Some(c) => {
                let ghost cs = views(c@);
                proof {
                    lemma_views(c@);
                    lemma_wfs(cs);
                    lemma_open_from(cs, 0);
                    lemma_arity_pos(t0);
                }
                let idx = rand_index(rng, c.len());
                let res: Result<(), AptError>;
                if matches!(c[idx], APTNode::Empty) {
                    proof {
                        lemma_view_tags(c@[idx as int]);
                        assert(cs[idx as int] is Empty);
                    }
                    c[idx] = node;
                    proof {
                        lemma_views(c@);
                        assert(views(c@) =~= cs.update(idx as int, node@));
                        lemma_op_count_update(cs, idx as int, node@, 0);
                        lemma_empty_count_update(cs, idx as int, node@, 0);
                        lemma_wfs(views(c@));
                        lemma_open_from(views(c@), 0);
                        assert(cs[idx as int].op_count() == 0);
                        assert(cs[idx as int].empty_count() == 1);
                    }
                    res = Ok(());
                } else {
                    proof {
                        lemma_view_tags(c@[idx as int]);
                        assert(cs[idx as int].wf());
                    }
                    let child = &mut c[idx];
                    let inner = child.add_random(node, rng);
                    proof {
                        lemma_views(c@);
                        assert(views(c@) =~= cs.update(idx as int, view_of(c@[idx as int])));
                        lemma_op_count_update(cs, idx as int, view_of(c@[idx as int]), 0);
                        lemma_empty_count_update(cs, idx as int, view_of(c@[idx as int]), 0);
                        lemma_wfs(views(c@));
                        lemma_open_from(views(c@), 0);
                        if view_of(c@[idx as int]) == cs[idx as int] {
                            assert(views(c@) =~= cs);
                        }
                    }
                    res = inner;
                }
                proof {
                    lemma_with_children(t0, views(c@));
                    lemma_with_children(t0, cs);
                    lemma_with_children_self(t0);
                }
                res
            },
        }
    }

    /// Inserts a copy of `leaf` into the first `Empty` slot found by a
    /// depth-first, left-to-right search; returns whether a slot existed.
    #[verifier::loop_isolation(false)]
    #[verifier::loop_isolation(false)]
    pub fn add_leaf(&mut self, leaf: &APTNode) -> (r: bool)
        requires
            old(self)@.wf(),
            leaf@.wf(),
        ensures
            match old(self)@.try_add_leaf(leaf@) {
                Some(t) => r && final(self)@ == t,
                None => !r && final(self)@ == old(self)@,
            },
        decreases *old(self),
    {
        let ghost t0 = old(self)@;
        match self.get_children_mut() {
            None => false,
            Some(c) => {
                let ghost cs = views(c@);
                let ghost c0 = c@;
                proof {
                    lemma_views(c@);
                    lemma_wfs(cs);
                    lemma_with_children_self(t0);
                }
                let mut i: usize = 0;
                let mut inserted = false;
                while !inserted && i < c.len()
                    invariant
                        i <= c@.len(),
                        c@.len() == cs.len(),
                        !inserted ==> views(c@) == cs,
                        !inserted ==> (forall|k: int| i <= k < c@.len() ==> c@[k] == c0[k]),
                        !inserted ==> TreeV::try_add_seq(cs, leaf@, 0) == TreeV::try_add_seq(
                            cs,
                            leaf@,
                            i as int,
                        ),
                        inserted ==> TreeV::try_add_seq(cs, leaf@, 0) == Some(views(c@)),
                    decreases (if inserted { 0int } else { 1int }), c@.len() - i,
                {
                    proof {
                        lemma_views(c@);
                        lemma_view_tags(c@[i as int]);
                    }
                    if matches!(c[i], APTNode::Empty) {
                        c[i] = leaf.clone();
                        proof {
                            lemma_views(c@);
                            assert(views(c@) =~= cs.update(i as int, leaf@));
                        }
                        inserted = true;
                    } else {
                        let child_is_leaf = c[i].is_leaf();
                        if !child_is_leaf {
                            proof {
                                assert(cs[i as int].wf());
                            }
                            let child = &mut c[i];
                            let sub = child.add_leaf(leaf);
                            if sub {
                                proof {
                                    lemma_views(c@);
                                    assert(views(c@) =~= cs.update(
                                        i as int,
                                        view_of(c@[i as int]),
                                    ));
                                }
                                inserted = true;
                            } else {
                                proof {
                                    lemma_views(c@);
                                    assert(views(c@) =~= cs);
                                }
                                i += 1;
                            }
                        } else {
                            i += 1;
                        }
                    }
                }
                inserted
            },
        }
    }

    /// Builds a complete random tree: one random operator node, `count`
    /// operator nodes in all, then random terminals (per the still or
    /// animation mode) until no open slot remains.
    #[verifier::loop_isolation(false)]
    pub fn generate_tree(count: usize, video: bool, rng: &mut rand::rngs::StdRng) -> (t:
        APTNode)
        ensures
            t@.wf(),
            t@.complete(),
            !t@.is_leaf(),
            t@.op_count() == if count == 0 { 1nat } else { count as nat },
    {
        let mut first = APTNode::get_random_node(rng);
        let mut i: usize = 1;
        while i < count
            invariant
                1 <= i,
                i as int <= (if count as int <= 1 { 1int } else { count as int }),
                first@.wf(),
                first@.all_slots_open(),
                first@.op_count() == i as nat,
            decreases count - i,
        {
            let node = APTNode::get_random_node(rng);
            let res = first.add_random(node, rng);
            proof {
                assert(res is Ok);
            }
            let _ = res;
            i += 1;
        }
        let ghost n_ops = first@.op_count();
        loop
            invariant
                first@.wf(),
                !first@.is_leaf(),
                first@.op_count() == n_ops,
            decreases first@.empty_count(),
        {
            let leaf = if video {
                APTNode::get_random_leaf_video(rng)
            } else {
                APTNode::get_random_leaf(rng)
            };
            proof {
                lemma_try_add_leaf(first@, leaf@);
            }
            let inserted = first.add_leaf(&leaf);
            if !inserted {
                break;
            }
        }
        first
    }
}


/// Case-insensitive match of one character against a lower-case letter.
pub open spec fn lower_eq(c: char, k: char) -> bool {
    c as u32 == k as u32 || ('A' as u32 <= c as u32 && c as u32 <= 'Z' as u32 && c as u32
        + 32 == k as u32)
}

/// Case-insensitive equality of a text with a keyword of the name table.
pub open spec fn eqf(t: Seq<char>, kw: Seq<char>) -> bool {
    t.len() == kw.len() && (forall|i: int| 0 <= i < t.len() ==> lower_eq(t[i], #[trigger] kw[i]))
}

/// The name table: resolves an operation text, case-insensitively, to
/// an operator node with all-`Empty` children or a coordinate terminal.
pub open spec fn spec_str_to_node(t: Seq<char>) -> Option<TreeV> {
    let e2 = seq![TreeV::Empty, TreeV::Empty];
    let e3 = seq![TreeV::Empty, TreeV::Empty, TreeV::Empty];
    let e1 = seq![TreeV::Empty];
    if eqf(t, "+"@) {
        Some(TreeV::Add(e2))
    } else if eqf(t, "-"@) {
        Some(TreeV::Sub(e2))
    } else if eqf(t, "*"@) {
        Some(TreeV::Mul(e2))
    } else if eqf(t, "/"@) {
        Some(TreeV::Div(e2))
    } else if eqf(t, "fbm"@) {
        Some(TreeV::FBM(e3))
    } else if eqf(t, "ridge"@) {
        Some(TreeV::Ridge(e3))
    } else if eqf(t, "turbulence"@) {
        Some(TreeV::Turbulence(e3))
    } else if eqf(t, "cell1"@) {
        Some(TreeV::Cell1(e3))
    } else if eqf(t, "cell2"@) {
        Some(TreeV::Cell2(e3))
    } else if eqf(t, "sqrt"@) {
        Some(TreeV::Sqrt(e1))
    } else if eqf(t, "sin"@) {
        Some(TreeV::Sin(e1))
    } else if eqf(t, "atan"@) {
        Some(TreeV::Atan(e1))
    } else if eqf(t, "atan2"@) {
        Some(TreeV::Atan2(e2))
    } else if eqf(t, "tan"@) {
        Some(TreeV::Tan(e1))
    } else if eqf(t, "log"@) {
        Some(TreeV::Log(e1))
    } else if eqf(t, "abs"@) {
        Some(TreeV::Abs(e1))
    } else if eqf(t, "x"@) {
        Some(TreeV::X)
    } else if eqf(t, "y"@) {
        Some(TreeV::Y)
    } else if eqf(t, "t"@) {
        Some(TreeV::T)
    } else {
        None
    }
}

/// Case-insensitive comparison of one character pair.
fn lower_eq_c(c: char, k: char) -> (r: bool)
    ensures
        r == lower_eq(c, k),
{
    let u = c as u32;
    let v = k as u32;
    u == v || (65 <= u && u <= 90 && u + 32 == v)
}

/// Case-insensitive equality of a text with one keyword.
#[verifier::loop_isolation(false)]
fn kw_eq(s: &str, kw: &str) -> (r: bool)
    ensures
        r == eqf(s@, kw@),
{
    let n = s.unicode_len();
    if n != kw.unicode_len() {
        return false;
    }
    let mut i: usize = 0;
    while i < n
        invariant
            i <= n,
            n == s@.len() == kw@.len(),
            forall|j: int| 0 <= j < i ==> lower_eq(s@[j], #[trigger] kw@[j]),
        decreases n - i,
    {
        if !lower_eq_c(s.get_char(i), kw.get_char(i)) {
            return false;
        }
        i += 1;
    }
    true
}

impl APTNode {
    /// Resolves operation text, case-insensitively, to a fresh node of
    /// the name table: an operator with all-`Empty` children or a
    /// coordinate terminal; `None` for text not in the table.
    pub fn str_to_node(s: &str) -> (r: Option<APTNode>)
        ensures
            match r {
                Some(n) => spec_str_to_node(s@) == Some(n@) && n@.wf() && n@.empty_count()
                    == n@.arity(),
                None => spec_str_to_node(s@) is None,
            },
    {
        let r: Option<APTNode> = if kw_eq(s, "+") {
            Some(APTNode::Add(Self::empty_children(2)))
        } else if kw_eq(s, "-") {
            Some(APTNode::Sub(Self::empty_children(2)))
        } else if kw_eq(s, "*") {
            Some(APTNode::Mul(Self::empty_children(2)))
        } else if kw_eq(s, "/") {
            Some(APTNode::Div(Self::empty_children(2)))
        } else if kw_eq(s, "fbm") {
            Some(APTNode::FBM(Self::empty_children(3)))
        } else if kw_eq(s, "ridge") {
            Some(APTNode::Ridge(Self::empty_children(3)))
        } else if kw_eq(s, "turbulence") {
            Some(APTNode::Turbulence(Self::empty_children(3)))
        } else if kw_eq(s, "cell1") {
            Some(APTNode::Cell1(Self::empty_children(3)))
        } else if kw_eq(s, "cell2") {
            Some(APTNode::Cell2(Self::empty_children(3)))
        } else if kw_eq(s, "sqrt") {
            Some(APTNode::Sqrt(Self::empty_children(1)))
        } else if kw_eq(s, "sin") {
            Some(APTNode::Sin(Self::empty_children(1)))
        } else if kw_eq(s, "atan") {
            Some(APTNode::Atan(Self::empty_children(1)))
        } else if kw_eq(s, "atan2") {
            Some(APTNode::Atan2(Self::empty_children(2)))
        } else if kw_eq(s, "tan") {
            Some(APTNode::Tan(Self::empty_children(1)))
        } else if kw_eq(s, "log") {
            Some(APTNode::Log(Self::empty_children(1)))
        } else if kw_eq(s, "abs") {
            Some(APTNode::Abs(Self::empty_children(1)))
        } else if kw_eq(s, "x") {
            Some(APTNode::X)
        } else if kw_eq(s, "y") {
            Some(APTNode::Y)
        } else if kw_eq(s, "t") {
            Some(APTNode::T)
        } else {
            None
        };
        proof {
            if r is Some {
                let n = r->0;
                match n {
                    APTNode::Add(c) | APTNode::Sub(c) | APTNode::Mul(c) | APTNode::Div(c)
                    | APTNode::Atan2(c) => {
                        assert(views(c@) =~= seq![TreeV::Empty, TreeV::Empty]);
                        lemma_empty_run(views(c@), 0);
                    },
                    APTNode::FBM(c) | APTNode::Ridge(c) | APTNode::Turbulence(c)
                    | APTNode::Cell1(c) | APTNode::Cell2(c) => {
                        assert(views(c@) =~= seq![TreeV::Empty, TreeV::Empty, TreeV::Empty]);
                        lemma_empty_run(views(c@), 0);
                    },
                    APTNode::Sqrt(c) | APTNode::Sin(c) | APTNode::Atan(c) | APTNode::Tan(c)
                    | APTNode::Log(c) | APTNode::Abs(c) => {
                        assert(views(c@) =~= seq![TreeV::Empty]);
                        lemma_empty_run(views(c@), 0);
                    },
                    _ => {},
                }
            }
        }
        r
    }
}


impl TreeV {
    /// The canonical spelling of an operator tag.
    pub open spec fn op_name(self) -> Seq<char> {
        match self {
            TreeV::Add(_) => "+"@,
            TreeV::Sub(_) => "-"@,
            TreeV::Mul(_) => "*"@,
            TreeV::Div(_) => "/"@,
            TreeV::FBM(_) => "FBM"@,
            TreeV::Ridge(_) => "Ridge"@,
            TreeV::Turbulence(_) => "Turbulence"@,
            TreeV::Cell1(_) => "Cell1"@,
            TreeV::Cell2(_) => "Cell2"@,
            TreeV::Sqrt(_) => "Sqrt"@,
            TreeV::Sin(_) => "Sin"@,
            TreeV::Atan(_) => "Atan"@,
            TreeV::Atan2(_) => "Atan2"@,
            TreeV::Tan(_) => "Tan"@,
            TreeV::Log(_) => "Log"@,
            TreeV::Abs(_) => "Abs"@,
            _ => Seq::empty(),
        }
    }

    /// The fully parenthesized prefix text of a tree: terminals print
    /// their value or coordinate name; an operator node prints its
    /// spelling and children between parentheses.
    pub open spec fn lisp(self) -> Seq<char>
        decreases self, 0int,
    {
        match self {
            TreeV::Constant(v) => spec_scalar_text(v),
            TreeV::X => "X"@,
            TreeV::Y => "Y"@,
            TreeV::T => "T"@,
            TreeV::Empty => "EMPTY"@,
            _ => "( "@ + self.op_name() + Self::lisp_children(self.children(), 0) + " )"@,
        }
    }

    /// The texts of `cs[j..]`, each preceded by one space.
    pub open spec fn lisp_children(cs: Seq<TreeV>, j: int) -> Seq<char>
        decreases cs, cs.len() - j,
    {
        if j < 0 || j >= cs.len() {
            Seq::empty()
        } else {
            " "@ + cs[j].lisp() + Self::lisp_children(cs, j + 1)
        }
    }
}

impl APTNode {
    /// The canonical spelling of this operator node's tag.
    fn op_name_str(&self) -> (r: &'static str)
        requires
            !self@.is_leaf(),
        ensures
            r@ == self@.op_name(),
    {
        match self {
            APTNode::Add(_) => "+",
            APTNode::Sub(_) => "-",
            APTNode::Mul(_) => "*",
            APTNode::Div(_) => "/",
            APTNode::FBM(_) => "FBM",
            APTNode::Ridge(_) => "Ridge",
            APTNode::Turbulence(_) => "Turbulence",
            APTNode::Cell1(_) => "Cell1",
            APTNode::Cell2(_) => "Cell2",
            APTNode::Sqrt(_) => "Sqrt",
            APTNode::Sin(_) => "Sin",
            APTNode::Atan(_) => "Atan",
            APTNode::Atan2(_) => "Atan2",
            APTNode::Tan(_) => "Tan",
            APTNode::Log(_) => "Log",
            _ => "Abs",
        }
    }

    /// Serializes the tree to its fully parenthesized prefix text; the
    /// text lexes and parses back to a structurally equal tree.
    #[verifier::loop_isolation(false)]
    pub fn to_lisp(&self) -> (r: String)
        ensures
            r@ == self@.lisp(),
        decreases *self,
    {
        match self {
            APTNode::Constant(v) => v.to_text(),
            APTNode::X => String::from_str("X"),
            APTNode::Y => String::from_str("Y"),
            APTNode::T => String::from_str("T"),
            APTNode::Empty => String::from_str("EMPTY"),
            APTNode::Add(c) | APTNode::Sub(c) | APTNode::Mul(c) | APTNode::Div(c)
            | APTNode::FBM(c) | APTNode::Ridge(c) | APTNode::Turbulence(c)
            | APTNode::Cell1(c) | APTNode::Cell2(c) | APTNode::Sqrt(c)
            | APTNode::Sin(c) | APTNode::Atan(c) | APTNode::Atan2(c)
            | APTNode::Tan(c) | APTNode::Log(c) | APTNode::Abs(c) => {
                let ghost cs = self@.children();
                proof {
                    lemma_views(c@);
                }
                let mut out = String::from_str("( ");
                out.append(self.op_name_str());
                let mut i: usize = 0;
                while i < c.len()
                    invariant
                        i <= c@.len(),
                        out@ + TreeV::lisp_children(cs, i as int) + " )"@ == self@.lisp(),
                    decreases c@.len() - i,
                {
                    out.append(" ");
                    let child_text = c[i].to_lisp();
                    out.append(child_text.as_str());
                    proof {
                        assert(view_of(c@[i as int]) == cs[i as int]);
                        assert(out@ + TreeV::lisp_children(cs, i + 1) + " )"@ =~= self@.lisp());
                    }
                    i += 1;
                }
                out.append(" )");
                proof {
                    assert(out@ =~= self@.lisp());
                }
                out
            },
        }
    }
}


/// The outcome of a parse: a tree and the next position, or one of the
/// fatal conditions with its diagnostic text and line.
pub enum ParseOut {
    Done(TreeV, int),
    ErrOp(Seq<char>, nat),
    ErrConst(Seq<char>, nat),
    ErrEnd,
}

/// The grammar: parentheses are skipped; a constant token yields a
/// constant node; an operation token resolves through the name table
/// and recursively collects its fixed number of children.
pub open spec fn spec_parse(ts: Seq<TokenV>, i: int) -> ParseOut
    decreases ts.len() - i, 0int, 0int,
{
    if i < 0 || i >= ts.len() {
        ParseOut::ErrEnd
    } else {
        match ts[i] {
            TokenV::OpenParen(_) => spec_parse(ts, i + 1),
            TokenV::CloseParen(_) => spec_parse(ts, i + 1),
            TokenV::Constant(text, line) => match spec_parse_scalar(text) {
                Some(m) => ParseOut::Done(TreeV::Constant(m), i + 1),
                None => ParseOut::ErrConst(text, line),
            },
            TokenV::Operation(text, line) => match spec_str_to_node(text) {
                None => ParseOut::ErrOp(text, line),
                Some(shell) => if shell.is_leaf() {
                    ParseOut::Done(shell, i + 1)
                } else {
                    spec_parse_children(ts, i + 1, shell, 0)
                },
            },
        }
    }
}

/// Fills `shell`'s children from index `k` on, left to right.
pub open spec fn spec_parse_children(ts: Seq<TokenV>, i: int, shell: TreeV, k: int) -> ParseOut
    decreases ts.len() - i, 1int, shell.arity() - k,
{
    if k < 0 || k >= shell.arity() {
        ParseOut::Done(shell, i)
    } else {
        match spec_parse(ts, i) {
            ParseOut::Done(child, i2) => if i < i2 <= ts.len() {
                spec_parse_children(
                    ts,
                    i2,
                    shell.with_children(shell.children().update(k, child)),
                    k + 1,
                )
            } else {
                ParseOut::ErrEnd
            },
            e => e,
        }
    }
}

/// Complete children sum to no placeholders.
pub proof fn lemma_complete_children(cs: Seq<TreeV>, j: int)
    requires
        0 <= j <= cs.len(),
        forall|k: int| 0 <= k < cs.len() ==> (#[trigger] cs[k]).empty_count() == 0,
    ensures
        TreeV::empty_count_from(cs, j) == 0,
    decreases cs.len() - j,
{
    if j < cs.len() {
        lemma_complete_children(cs, j + 1);
    }
}

impl APTNode {
    /// Parses one expression from `tokens`, starting at `*pos`:
    /// parentheses are skipped, a constant token becomes a constant
    /// node, and an operation token resolves through the name table and
    /// recursively parses one subtree per expected child. Fatal inputs
    /// are an operation outside the table, an unreadable constant, and
    /// a token stream that ends early.
    #[verifier::loop_isolation(false)]
    pub fn parse_apt_node(tokens: &Vec<Token>, pos: &mut usize) -> (r: Result<
        APTNode,
        AptError,
    >)
        requires
            *old(pos) <= tokens@.len(),
        ensures
            *final(pos) <= tokens@.len(),
            *final(pos) >= *old(pos),
            match r {
                Ok(t) => spec_parse(token_views(tokens@), *old(pos) as int) == ParseOut::Done(
                    t@,
                    *final(pos) as int,
                ) && t@.wf() && t@.complete() && *final(pos) > *old(pos),
                Err(e) => match e {
                    AptError::UnresolvedOperator(txt, l) => spec_parse(
                        token_views(tokens@),
                        *old(pos) as int,
                    ) == ParseOut::ErrOp(txt@, l as nat),
                    AptError::InvalidConstant(txt, l) => spec_parse(
                        token_views(tokens@),
                        *old(pos) as int,
                    ) == ParseOut::ErrConst(txt@, l as nat),
                    AptError::TruncatedInput => spec_parse(
                        token_views(tokens@),
                        *old(pos) as int,
                    ) == ParseOut::ErrEnd,
                    _ => false,
                },
            },
        decreases tokens@.len() - *old(pos),
    {
        let ghost ts = token_views(tokens@);
        let n = tokens.len();
        while *pos < n && (matches!(tokens[*pos], Token::OpenParen(_)) || matches!(
            tokens[*pos],
            Token::CloseParen(_),
        ))
            invariant
                *old(pos) <= *pos <= n,
                spec_parse(ts, *pos as int) == spec_parse(ts, *old(pos) as int),
            decreases n - *pos,
        {
            proof {
                assert(ts[*pos as int] == tokens@[*pos as int]@);
            }
            *pos = *pos + 1;
        }
        if *pos >= n {
            return Err(AptError::TruncatedInput);
        }
        proof {
            assert(ts[*pos as int] == tokens@[*pos as int]@);
        }
        match &tokens[*pos] {
            Token::OpenParen(_) => vstd::pervasive::unreached(),
            Token::CloseParen(_) => vstd::pervasive::unreached(),
            Token::Constant(txt, line) => {
                match Scalar::from_text(txt.as_str()) {
                    Some(v) => {
                        *pos = *pos + 1;
                        Ok(APTNode::Constant(v))
                    },
                    None => Err(AptError::InvalidConstant(txt.clone(), *line)),
                }
            },
            Token::Operation(txt, line) => {
                match Self::str_to_node(txt.as_str()) {
                    None => Err(AptError::UnresolvedOperator(txt.clone(), *line)),
                    Some(shell) => {
                        let ghost p1 = *pos + 1int;
                        *pos = *pos + 1;
                        if shell.is_leaf() {
                            return Ok(shell);
                        }
                        let a = match shell.get_children() {
                            Some(c) => {
                                proof {
                                    lemma_views(c@);
                                }
                                c.len()
                            },
                            None => vstd::pervasive::unreached(),
                        };
                        let mut kids: Vec<APTNode> = Vec::new();
                        let mut k: usize = 0;
                        proof {
                            lemma_views(kids@);
                            assert(views(kids@) + shell@.children().skip(0) =~= shell@.children());
                            lemma_with_children_self(shell@);
                        }
                        while k < a
                            invariant
                                k <= a,
                                kids@.len() == k as int,
                                a as nat == shell@.arity(),
                                *pos <= tokens@.len(),
                                *pos >= p1,
                                forall|j: int| 0 <= j < k ==> (#[trigger] view_of(
                                    kids@[j],
                                )).wf() && view_of(kids@[j]).empty_count() == 0,
                                spec_parse_children(ts, p1, shell@, 0) == spec_parse_children(
                                    ts,
                                    *pos as int,
                                    shell@.with_children(
                                        views(kids@) + shell@.children().skip(k as int),
                                    ),
                                    k as int,
                                ),
                            decreases a - k,
                        {
                            let ghost cur = shell@.with_children(
                                views(kids@) + shell@.children().skip(k as int),
                            );
                            let child = match Self::parse_apt_node(tokens, pos) {
                                Ok(t) => t,
                                Err(e) => {
                                    proof {
                                        lemma_with_children(shell@, views(kids@)
                                            + shell@.children().skip(k as int));
                                    }
                                    return Err(e);
                                },
                            };
                            proof {
                                lemma_with_children(shell@, views(kids@) + shell@.children().skip(
                                    k as int,
                                ));
                                lemma_views(kids@);
                            }
                            let ghost kv = views(kids@);
                            kids.push(child);
                            proof {
                                lemma_views(kids@);
                                assert(views(kids@) =~= kv + seq![child@]);
                                assert(cur.children().update(k as int, child@) =~= views(kids@)
                                    + shell@.children().skip(k + 1));
                                lemma_with_children(shell@, views(kids@) + shell@.children().skip(
                                    k + 1,
                                ));
                            }
                            k += 1;
                        }
                        proof {
                            lemma_views(kids@);
                            assert(views(kids@) + shell@.children().skip(a as int) =~= views(
                                kids@,
                            ));
                        }
                        let node = shell.set_children(kids);
                        proof {
                            lemma_with_children(shell@, views(kids@));
                            lemma_wfs(views(kids@));
                            lemma_complete_children(views(kids@), 0);
                        }
                        Ok(node)
                    },
                }
            },
        }
    }
}


/// Each canonical operator spelling that serialization emits resolves,
/// case-insensitively, back through the name table to a shell of the
/// same tag with all-`Empty` children.
pub proof fn lemma_canonical_name_resolves(t: TreeV)
    requires
        !t.is_leaf(),
    ensures
        spec_str_to_node(t.op_name()) == Some(
            t.with_children(
                Seq::new(t.arity(), |i: int| TreeV::Empty),
            ),
        ),
{
    reveal_strlit("+");
    reveal_strlit("-");
    reveal_strlit("*");
    reveal_strlit("/");
    reveal_strlit("FBM");
    reveal_strlit("fbm");
    reveal_strlit("Ridge");
    reveal_strlit("ridge");
    reveal_strlit("Turbulence");
    reveal_strlit("turbulence");
    reveal_strlit("Cell1");
    reveal_strlit("cell1");
    reveal_strlit("Cell2");
    reveal_strlit("cell2");
    reveal_strlit("Sqrt");
    reveal_strlit("sqrt");
    reveal_strlit("Sin");
    reveal_strlit("sin");
    reveal_strlit("Atan");
    reveal_strlit("atan");
    reveal_strlit("Atan2");
    reveal_strlit("atan2");
    reveal_strlit("Tan");
    reveal_strlit("tan");
    reveal_strlit("Log");
    reveal_strlit("log");
    reveal_strlit("Abs");
    reveal_strlit("abs");
    reveal_strlit("x");
    reveal_strlit("y");
    let e2 = seq![TreeV::Empty, TreeV::Empty];
    let e3 = seq![TreeV::Empty, TreeV::Empty, TreeV::Empty];
    let e1 = seq![TreeV::Empty];
    match t {
        TreeV::Add(_) => {
            assert(eqf("+"@, "+"@));
            assert(t.with_children(Seq::new(2, |i: int| TreeV::Empty)) == TreeV::Add(e2)) by {
                assert(Seq::new(2, |i: int| TreeV::Empty) =~= e2);
            }
        },
        TreeV::Sub(_) => {
            assert(!lower_eq("-"@[0], "+"@[0]));
            assert(!eqf("-"@, "+"@));
            assert(eqf("-"@, "-"@));
            assert(Seq::new(2, |i: int| TreeV::Empty) =~= e2);
        },
        TreeV::Mul(_) => {
            assert(!lower_eq("*"@[0], "+"@[0]));
            assert(!eqf("*"@, "+"@));
            assert(!lower_eq("*"@[0], "-"@[0]));
            assert(!eqf("*"@, "-"@));
            assert(eqf("*"@, "*"@));
            assert(Seq::new(2, |i: int| TreeV::Empty) =~= e2);
        },
        TreeV::Div(_) => {
            assert(!lower_eq("/"@[0], "+"@[0]));
            assert(!eqf("/"@, "+"@));
            assert(!lower_eq("/"@[0], "-"@[0]));
            assert(!eqf("/"@, "-"@));
            assert(!lower_eq("/"@[0], "*"@[0]));
            assert(!eqf("/"@, "*"@));
            assert(eqf("/"@, "/"@));
            assert(Seq::new(2, |i: int| TreeV::Empty) =~= e2);
        },
        TreeV::FBM(_) => {
            assert(eqf("FBM"@, "fbm"@)) by {
                assert(lower_eq("FBM"@[0], "fbm"@[0]));
                assert(lower_eq("FBM"@[1], "fbm"@[1]));
                assert(lower_eq("FBM"@[2], "fbm"@[2]));
            }
            assert(Seq::new(3, |i: int| TreeV::Empty) =~= e3);
        },
        TreeV::Ridge(_) => {
            assert(eqf("Ridge"@, "ridge"@)) by {
                assert(lower_eq("Ridge"@[0], "ridge"@[0]));
                assert(lower_eq("Ridge"@[1], "ridge"@[1]));
                assert(lower_eq("Ridge"@[2], "ridge"@[2]));
                assert(lower_eq("Ridge"@[3], "ridge"@[3]));
                assert(lower_eq("Ridge"@[4], "ridge"@[4]));
            }
            assert(Seq::new(3, |i: int| TreeV::Empty) =~= e3);
        },
        TreeV::Turbulence(_) => {
            assert(eqf("Turbulence"@, "turbulence"@)) by {
                assert(forall|i: int| 1 <= i < 10 ==> "Turbulence"@[i] == #[trigger] "turbulence"@[i]);
                assert(lower_eq("Turbulence"@[0], "turbulence"@[0]));
                assert forall|i: int| 0 <= i < 10 implies lower_eq(
                    "Turbulence"@[i],
                    #[trigger] "turbulence"@[i],
                ) by {
                    if i >= 1 {
                        assert("Turbulence"@[i] == "turbulence"@[i]);
                    }
                }
            }
            assert(Seq::new(3, |i: int| TreeV::Empty) =~= e3);
        },
        TreeV::Cell1(_) => {
            assert(!lower_eq("Cell1"@[0], "ridge"@[0]));
            assert(!eqf("Cell1"@, "ridge"@));
            assert(eqf("Cell1"@, "cell1"@)) by {
                assert(lower_eq("Cell1"@[0], "cell1"@[0]));
                assert(lower_eq("Cell1"@[1], "cell1"@[1]));
                assert(lower_eq("Cell1"@[2], "cell1"@[2]));
                assert(lower_eq("Cell1"@[3], "cell1"@[3]));
                assert(lower_eq("Cell1"@[4], "cell1"@[4]));
            }
            assert(Seq::new(3, |i: int| TreeV::Empty) =~= e3);
        },
        TreeV::Cell2(_) => {
            assert(!lower_eq("Cell2"@[0], "ridge"@[0]));
            assert(!eqf("Cell2"@, "ridge"@));
            assert(!lower_eq("Cell2"@[4], "cell1"@[4]));
            assert(!eqf("Cell2"@, "cell1"@));
            assert(eqf("Cell2"@, "cell2"@)) by {
                assert(lower_eq("Cell2"@[0], "cell2"@[0]));
                assert(lower_eq("Cell2"@[1], "cell2"@[1]));
                assert(lower_eq("Cell2"@[2], "cell2"@[2]));
                assert(lower_eq("Cell2"@[3], "cell2"@[3]));
                assert(lower_eq("Cell2"@[4], "cell2"@[4]));
            }
            assert(Seq::new(3, |i: int| TreeV::Empty) =~= e3);
        },
        TreeV::Sqrt(_) => {
            assert(eqf("Sqrt"@, "sqrt"@)) by {
                assert(lower_eq("Sqrt"@[0], "sqrt"@[0]));
                assert(lower_eq("Sqrt"@[1], "sqrt"@[1]));
                assert(lower_eq("Sqrt"@[2], "sqrt"@[2]));
                assert(lower_eq("Sqrt"@[3], "sqrt"@[3]));
            }
            assert(Seq::new(1, |i: int| TreeV::Empty) =~= e1);
        },
        TreeV::Sin(_) => {
            assert(!lower_eq("Sin"@[0], "fbm"@[0]));
            assert(!eqf("Sin"@, "fbm"@));
            assert(eqf("Sin"@, "sin"@)) by {
                assert(lower_eq("Sin"@[0], "sin"@[0]));
                assert(lower_eq("Sin"@[1], "sin"@[1]));
                assert(lower_eq("Sin"@[2], "sin"@[2]));
            }
            assert(Seq::new(1, |i: int| TreeV::Empty) =~= e1);
        },
        TreeV::Atan(_) => {
            assert(!lower_eq("Atan"@[0], "sqrt"@[0]));
            assert(!eqf("Atan"@, "sqrt"@));
            assert(eqf("Atan"@, "atan"@)) by {
                assert(lower_eq("Atan"@[0], "atan"@[0]));
                assert(lower_eq("Atan"@[1], "atan"@[1]));
                assert(lower_eq("Atan"@[2], "atan"@[2]));
                assert(lower_eq("Atan"@[3], "atan"@[3]));
            }
            assert(Seq::new(1, |i: int| TreeV::Empty) =~= e1);
        },
        TreeV::Atan2(_) => {
            assert(!lower_eq("Atan2"@[0], "ridge"@[0]));
            assert(!eqf("Atan2"@, "ridge"@));
            assert(!lower_eq("Atan2"@[0], "cell1"@[0]));
            assert(!eqf("Atan2"@, "cell1"@));
            assert(!lower_eq("Atan2"@[0], "cell2"@[0]));
            assert(!eqf("Atan2"@, "cell2"@));
            assert(eqf("Atan2"@, "atan2"@)) by {
                assert(lower_eq("Atan2"@[0], "atan2"@[0]));
                assert(lower_eq("Atan2"@[1], "atan2"@[1]));
                assert(lower_eq("Atan2"@[2], "atan2"@[2]));
                assert(lower_eq("Atan2"@[3], "atan2"@[3]));
                assert(lower_eq("Atan2"@[4], "atan2"@[4]));
            }
            assert(Seq::new(2, |i: int| TreeV::Empty) =~= e2);
        },
        TreeV::Tan(_) => {
            assert(!lower_eq("Tan"@[0], "fbm"@[0]));
            assert(!eqf("Tan"@, "fbm"@));
            assert(!lower_eq("Tan"@[0], "sin"@[0]));
            assert(!eqf("Tan"@, "sin"@));
            assert(eqf("Tan"@, "tan"@)) by {
                assert(lower_eq("Tan"@[0], "tan"@[0]));
                assert(lower_eq("Tan"@[1], "tan"@[1]));
                assert(lower_eq("Tan"@[2], "tan"@[2]));
            }
            assert(Seq::new(1, |i: int| TreeV::Empty) =~= e1);
        },
        TreeV::Log(_) => {
            assert(!lower_eq("Log"@[0], "fbm"@[0]));
            assert(!eqf("Log"@, "fbm"@));
            assert(!lower_eq("Log"@[0], "sin"@[0]));
            assert(!eqf("Log"@, "sin"@));
            assert(!lower_eq("Log"@[0], "tan"@[0]));
            assert(!eqf("Log"@, "tan"@));
            assert(eqf("Log"@, "log"@)) by {
                assert(lower_eq("Log"@[0], "log"@[0]));
                assert(lower_eq("Log"@[1], "log"@[1]));
                assert(lower_eq("Log"@[2], "log"@[2]));
            }
            assert(Seq::new(1, |i: int| TreeV::Empty) =~= e1);
        },
        TreeV::Abs(_) => {
            assert(!lower_eq("Abs"@[0], "fbm"@[0]));
            assert(!eqf("Abs"@, "fbm"@));
            assert(!lower_eq("Abs"@[0], "sin"@[0]));
            assert(!eqf("Abs"@, "sin"@));
            assert(!lower_eq("Abs"@[0], "tan"@[0]));
            assert(!eqf("Abs"@, "tan"@));
            assert(!lower_eq("Abs"@[0], "log"@[0]));
            assert(!eqf("Abs"@, "log"@));
            assert(eqf("Abs"@, "abs"@)) by {
                assert(lower_eq("Abs"@[0], "abs"@[0]));
                assert(lower_eq("Abs"@[1], "abs"@[1]));
                assert(lower_eq("Abs"@[2], "abs"@[2]));
            }
            assert(Seq::new(1, |i: int| TreeV::Empty) =~= e1);
        },
        _ => {},
    }
}

} // verus!


