//! Rules and rule trees: an ordered list of rewrites with an application
//! mode and a step budget, and sequences that nest rules and further
//! sequences into a depth-first program.
use vstd::prelude::*;

use crate::pattern::PatternRule;

verus! {

/// How a rule applies its matches in one step: pick one weighted match,
/// apply every match, or apply each match independently at a probability.
#[derive(Clone, Copy, PartialEq, Eq, Debug)]
pub enum RuleKind {
    One,
    All,
    Parallel,
}

/// An ordered list of rewrites, the mode that applies them, and an
/// optional cap on the number of steps.
#[derive(Clone, Debug)]
pub struct Rule {
    pub patterns: Vec<PatternRule>,
    pub kind: RuleKind,
    pub steps: Option<usize>,
}

impl Rule {
    /// Every rewrite of the rule is well formed.
    pub open spec fn wf(self) -> bool {
        forall|i: int| 0 <= i < self.patterns@.len() ==> (#[trigger] self.patterns@[i]).wf()
    }

    /// Builds a rule from its rewrites.
    pub fn new(kind: RuleKind, patterns: Vec<PatternRule>, steps: Option<usize>) -> (out: Rule)
        requires
            forall|i: int| 0 <= i < patterns@.len() ==> (#[trigger] patterns@[i]).wf(),
        ensures
            out.wf(),
            out.kind == kind,
            out.patterns == patterns,
            out.steps == steps,
    {
        Rule { patterns, kind, steps }
    }
}

/// One node of a rule tree: a rule, or a nested sequence.
#[derive(Debug)]
pub enum RuleOrSequence {
    Rule(Rule),
    Sequence(Sequence),
}

/// An ordered list of rules and nested sequences, run depth-first, with an
/// optional cap on the number of top-level iterations.
#[derive(Debug)]
pub struct Sequence {
    pub vec: Vec<RuleOrSequence>,
    pub steps: Option<usize>,
}

/// Nesting depth of a sequence, used as the termination measure when
/// walking a rule tree.
pub open spec fn seq_height(s: Sequence) -> nat
    decreases s,
{
    1 + vec_height(s.vec@)
}

/// Nesting depth of a list of tree nodes: strictly above the depth of
/// every node in it.
pub open spec fn vec_height(v: Seq<RuleOrSequence>) -> nat
    decreases v,
{
    if v.len() == 0 {
        1
    } else {
        let a = ros_height(v[0]);
        let b = vec_height(v.drop_first());
        1 + if a > b {
            a
        } else {
            b
        }
    }
}

/// Nesting depth of one tree node.
pub open spec fn ros_height(r: RuleOrSequence) -> nat
    decreases r,
{
    match r {
        RuleOrSequence::Rule(_) => 0,
        RuleOrSequence::Sequence(s) => seq_height(s),
    }
}

/// Every node of a list sits strictly below the list's own depth.
pub proof fn lemma_vec_height_bound(v: Seq<RuleOrSequence>, i: int)
    requires
        0 <= i < v.len(),
    ensures
        ros_height(v[i]) < vec_height(v),
    decreases v.len(),
{
    if i == 0 {
    } else {
        lemma_vec_height_bound(v.drop_first(), i - 1);
        assert(v.drop_first()[i - 1] == v[i]);
    }
}

/// Every node of a well-formed sequence is well formed.
pub open spec fn seq_wf(s: Sequence) -> bool
    decreases s,
{
    vec_wf(s.vec@)
}

/// Well-formedness of a list of tree nodes.
pub open spec fn vec_wf(v: Seq<RuleOrSequence>) -> bool
    decreases v,
{
    if v.len() == 0 {
        true
    } else {
        ros_wf(v[0]) && vec_wf(v.drop_first())
    }
}

/// Well-formedness of one tree node.
pub open spec fn ros_wf(r: RuleOrSequence) -> bool
    decreases r,
{
    match r {
        RuleOrSequence::Rule(rule) => rule.wf(),
        RuleOrSequence::Sequence(s) => seq_wf(s),
    }
}

/// Every node of a well-formed list is well formed.
pub proof fn lemma_vec_wf_index(v: Seq<RuleOrSequence>, i: int)
    requires
        vec_wf(v),
        0 <= i < v.len(),
    ensures
        ros_wf(v[i]),
    decreases v.len(),
{
    if i > 0 {
        lemma_vec_wf_index(v.drop_first(), i - 1);
        assert(v.drop_first()[i - 1] == v[i]);
    }
}

} // verus!
