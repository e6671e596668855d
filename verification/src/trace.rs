//! Rule-by-rule parse tracing: the trace tree's data, the `TraceSink` event surface, the no-op sink
//! every untraced path uses, and the arena-backed tree builder.
//!
//! Every call site checks `TraceSink::is_tracing` before doing any other trace-related work, so the
//! untraced path costs one branch. A sink is generic over the word snapshot it stores: it keeps a
//! clone of the word each event carries.
//!
//! Two cursor rules shape the tree. Each event is appended as the last child of the handle the call
//! site passes as `parent`, and the caller threads the handle an event returns as the next event's
//! parent when later events belong under it (applying a rule nests what follows under that rule).
//! `synthesize_word` alone reaches two levels down: it lands under the last child of `parent` (the
//! lexical lookup just recorded), not under `parent` itself.
use vstd::prelude::*;

use crate::{MRuleId, PRuleId, StratumId, TemplateId};

verus! {

/// A handle into the trace tree a sink is building: an index into its arena.
#[derive(Clone, Copy, Debug, PartialEq, Eq, Structural)]
pub struct TraceHandle(u32);

impl TraceHandle {
    /// The arena index this handle names.
    pub closed spec fn index(self) -> nat {
        self.0 as nat
    }

    /// A placeholder for call sites that thread a parent handle unconditionally but use it only
    /// behind an `is_tracing()` check; no sink produces it, and none accepts it.
    pub fn dummy() -> (h: TraceHandle)
        ensures
            h.index() == u32::MAX,
    {
        TraceHandle(u32::MAX)
    }
}

/// What a trace node records.
#[derive(Clone, Copy, Debug, PartialEq, Eq, Structural)]
pub enum TraceType {
    GenerateWords,
    WordAnalysis,
    StratumSynthesisInput,
    StratumSynthesisOutput,
    StratumAnalysisInput,
    StratumAnalysisOutput,
    LexicalLookup,
    Blocked,
    WordSynthesis,
    PhonologicalRuleAnalysis,
    PhonologicalRuleSynthesis,
    TemplateAnalysisInput,
    TemplateAnalysisOutput,
    TemplateSynthesisInput,
    TemplateSynthesisOutput,
    MorphologicalRuleAnalysis,
    MorphologicalRuleSynthesis,
    CompoundingRuleAnalysis,
    CompoundingRuleSynthesis,
    Successful,
    Failed,
}

/// The grammar object that produced a trace node.
#[derive(Clone, Copy, Debug, PartialEq, Eq, Structural)]
pub enum TraceSource {
    /// The language itself: the source of a root node.
    Language,
    Stratum(StratumId),
    Template(TemplateId),
    MorphRule(MRuleId),
    PhonRule(PRuleId),
    /// No rule: the leaf-most word-level nodes (`Successful`, `Failed`, `WordSynthesis`).
    NoSource,
}

/// Why a rule, template or word was rejected. "No failure" is the absence of a reason.
#[derive(Clone, Copy, Debug, PartialEq, Eq, Structural)]
pub enum FailureReason {
    ObligatorySyntacticFeatures,
    AllomorphCoOccurrenceRules,
    Environments,
    MorphemeCoOccurrenceRules,
    DisjunctiveAllomorph,
    SurfaceFormMismatch,
    Pattern,
    HeadPattern,
    NonHeadPattern,
    RequiredSyntacticFeatureStruct,
    HeadRequiredSyntacticFeatureStruct,
    NonHeadRequiredSyntacticFeatureStruct,
    HeadProdRestrictMprFeatures,
    NonHeadProdRestrictMprFeatures,
    RequiredMprFeatures,
    ExcludedMprFeatures,
    RequiredStemName,
    ExcludedStemName,
    PartialParse,
    BoundRoot,
    NonPartialRuleProhibitedAfterFinalTemplate,
    NonPartialRuleRequiredAfterNonFinalTemplate,
    MaxApplicationCount,
}

/// One node of the trace tree, with owned snapshots of the words its event carried.
#[derive(Clone, Debug)]
pub struct TraceNode<W> {
    pub type_: TraceType,
    pub source: TraceSource,
    /// Which subrule or allomorph fired, where the event concerns one.
    pub subrule_index: Option<i32>,
    pub input: Option<W>,
    pub output: Option<W>,
    pub failure_reason: Option<FailureReason>,
    pub children: Vec<TraceHandle>,
}

impl<W> TraceNode<W> {
    fn new(type_: TraceType, source: TraceSource) -> (n: Self)
        ensures
            n.type_ == type_,
            n.source == source,
            n.subrule_index is None,
            n.input is None,
            n.output is None,
            n.failure_reason is None,
            n.children@ == Seq::<TraceHandle>::empty(),
    {
        TraceNode {
            type_,
            source,
            subrule_index: None,
            input: None,
            output: None,
            failure_reason: None,
            children: Vec::new(),
        }
    }
}

/// The event surface of a trace. Call sites check `is_tracing` first and emit events only on a
/// tracing sink; each event takes the handle it belongs under and returns the handle of its node.
pub trait TraceSink<W> {
    /// Whether this sink records events.
    spec fn tracing(&self) -> bool;

    /// Whether a new root node can be recorded.
    spec fn can_open(&self) -> bool;

    /// Whether a node can be recorded under `parent`.
    spec fn can_append(&self, parent: TraceHandle) -> bool;

    /// Whether a node can be recorded under the last child of `parent`.
    spec fn can_append_below_last(&self, parent: TraceHandle) -> bool;

    fn is_tracing(&self) -> (b: bool)
        ensures
            b == self.tracing(),
    ;

    /// The root node of one word analysis.
    fn analyze_word(&mut self, input: &W) -> (h: TraceHandle)
        requires
            old(self).can_open(),
    ;

    /// The root node of one word generation; a sink that is not tracing records nothing and returns
    /// the placeholder handle.
    fn generate_words(&mut self) -> (h: TraceHandle)
        requires
            old(self).can_open(),
        ensures
            !old(self).tracing() ==> h.index() == u32::MAX,
    ;

    fn begin_unapply_stratum(&mut self, parent: TraceHandle, stratum: StratumId, input: &W) -> (h: TraceHandle)
        requires
            old(self).can_append(parent),
    ;

    fn end_unapply_stratum(&mut self, parent: TraceHandle, stratum: StratumId, output: &W) -> (h: TraceHandle)
        requires
            old(self).can_append(parent),
    ;

    fn begin_apply_stratum(&mut self, parent: TraceHandle, stratum: StratumId, input: &W) -> (h: TraceHandle)
        requires
            old(self).can_append(parent),
    ;

    fn end_apply_stratum(&mut self, parent: TraceHandle, stratum: StratumId, output: &W) -> (h: TraceHandle)
        requires
            old(self).can_append(parent),
    ;

    fn begin_unapply_template(&mut self, parent: TraceHandle, template: TemplateId, input: &W) -> (h: TraceHandle)
        requires
            old(self).can_append(parent),
    ;

    /// The output is recorded only when the template was unapplied.
    fn end_unapply_template(&mut self, parent: TraceHandle, template: TemplateId, output: &W, unapplied: bool) -> (h:
        TraceHandle)
        requires
            old(self).can_append(parent),
    ;

    fn begin_apply_template(&mut self, parent: TraceHandle, template: TemplateId, input: &W) -> (h: TraceHandle)
        requires
            old(self).can_append(parent),
    ;

    /// The output is recorded only when the template was applied.
    fn end_apply_template(&mut self, parent: TraceHandle, template: TemplateId, output: &W, applied: bool) -> (h:
        TraceHandle)
        requires
            old(self).can_append(parent),
    ;

    /// A non-final template applied last in `stratum`: a partial parse.
    fn non_final_template_applied_last(&mut self, parent: TraceHandle, stratum: StratumId, output: &W) -> (h:
        TraceHandle)
        requires
            old(self).can_append(parent),
    ;

    /// Applicable templates of `stratum` were not applied: a partial parse, recorded on the input.
    fn applicable_templates_not_applied(&mut self, parent: TraceHandle, stratum: StratumId, input: &W) -> (h:
        TraceHandle)
        requires
            old(self).can_append(parent),
    ;

    fn phonological_rule_unapplied(&mut self, parent: TraceHandle, rule: PRuleId, subrule: i32, output: &W) -> (h:
        TraceHandle)
        requires
            old(self).can_append(parent),
    ;

    fn phonological_rule_not_unapplied(&mut self, parent: TraceHandle, rule: PRuleId, subrule: i32, input: &W) -> (h:
        TraceHandle)
        requires
            old(self).can_append(parent),
    ;

    fn phonological_rule_applied(&mut self, parent: TraceHandle, rule: PRuleId, subrule: i32, output: &W) -> (h:
        TraceHandle)
        requires
            old(self).can_append(parent),
    ;

    fn phonological_rule_not_applied(
        &mut self,
        parent: TraceHandle,
        rule: PRuleId,
        subrule: i32,
        input: &W,
        reason: FailureReason,
    ) -> (h: TraceHandle)
        requires
            old(self).can_append(parent),
    ;

    fn morphological_rule_unapplied(&mut self, parent: TraceHandle, rule: MRuleId, subrule: i32, output: &W) -> (h:
        TraceHandle)
        requires
            old(self).can_append(parent),
    ;

    fn morphological_rule_not_unapplied(
        &mut self,
        parent: TraceHandle,
        rule: MRuleId,
        subrule: i32,
        input: &W,
        reason: FailureReason,
    ) -> (h: TraceHandle)
        requires
            old(self).can_append(parent),
    ;

    fn morphological_rule_applied(&mut self, parent: TraceHandle, rule: MRuleId, subrule: i32, output: &W) -> (h:
        TraceHandle)
        requires
            old(self).can_append(parent),
    ;

    fn morphological_rule_not_applied(
        &mut self,
        parent: TraceHandle,
        rule: MRuleId,
        subrule: i32,
        input: &W,
        reason: FailureReason,
    ) -> (h: TraceHandle)
        requires
            old(self).can_append(parent),
    ;

    fn compounding_rule_not_unapplied(&mut self, parent: TraceHandle, rule: MRuleId, input: &W) -> (h: TraceHandle)
        requires
            old(self).can_append(parent),
    ;

    fn compounding_rule_not_applied(
        &mut self,
        parent: TraceHandle,
        rule: MRuleId,
        input: &W,
        reason: FailureReason,
    ) -> (h: TraceHandle)
        requires
            old(self).can_append(parent),
    ;

    /// One stratum's root-allomorph search.
    fn lexical_lookup(&mut self, parent: TraceHandle, stratum: StratumId, input: &W) -> (h: TraceHandle)
        requires
            old(self).can_append(parent),
    ;

    /// A rule blocked from re-applying to its own output.
    fn blocked(&mut self, parent: TraceHandle, rule: MRuleId, output: &W) -> (h: TraceHandle)
        requires
            old(self).can_append(parent),
    ;

    fn successful(&mut self, parent: TraceHandle, word: &W) -> (h: TraceHandle)
        requires
            old(self).can_append(parent),
    ;

    fn failed(&mut self, parent: TraceHandle, word: &W, reason: FailureReason) -> (h: TraceHandle)
        requires
            old(self).can_append(parent),
    ;

    /// Recorded under the last child of `parent` (the lexical lookup just recorded), two levels
    /// below `parent`.
    fn synthesize_word(&mut self, parent: TraceHandle, input: &W) -> (h: TraceHandle)
        requires
            old(self).can_append_below_last(parent),
    ;
}

/// The sink every untraced path uses: it is not tracing and records nothing. Call sites check
/// `is_tracing()` first, so its events are not emitted; an event that is accepts anything and returns
/// the placeholder handle.
pub struct NoopSink;

impl<W> TraceSink<W> for NoopSink {
    open spec fn tracing(&self) -> bool {
        false
    }

    open spec fn can_open(&self) -> bool {
        true
    }

    open spec fn can_append(&self, parent: TraceHandle) -> bool {
        true
    }

    open spec fn can_append_below_last(&self, parent: TraceHandle) -> bool {
        true
    }

    fn is_tracing(&self) -> (b: bool) {
        false
    }

    fn analyze_word(&mut self, input: &W) -> (h: TraceHandle)
        ensures
            h.index() == u32::MAX,
    {
        TraceHandle::dummy()
    }

    fn generate_words(&mut self) -> (h: TraceHandle) {
        TraceHandle::dummy()
    }

    fn begin_unapply_stratum(&mut self, parent: TraceHandle, stratum: StratumId, input: &W) -> (h: TraceHandle)
        ensures
            h.index() == u32::MAX,
    {
        TraceHandle::dummy()
    }

    fn end_unapply_stratum(&mut self, parent: TraceHandle, stratum: StratumId, output: &W) -> (h: TraceHandle)
        ensures
            h.index() == u32::MAX,
    {
        TraceHandle::dummy()
    }

    fn begin_apply_stratum(&mut self, parent: TraceHandle, stratum: StratumId, input: &W) -> (h: TraceHandle)
        ensures
            h.index() == u32::MAX,
    {
        TraceHandle::dummy()
    }

    fn end_apply_stratum(&mut self, parent: TraceHandle, stratum: StratumId, output: &W) -> (h: TraceHandle)
        ensures
            h.index() == u32::MAX,
    {
        TraceHandle::dummy()
    }

    fn begin_unapply_template(&mut self, parent: TraceHandle, template: TemplateId, input: &W) -> (h: TraceHandle)
        ensures
            h.index() == u32::MAX,
    {
        TraceHandle::dummy()
    }

    fn end_unapply_template(&mut self, parent: TraceHandle, template: TemplateId, output: &W, unapplied: bool) -> (h:
        TraceHandle)
        ensures
            h.index() == u32::MAX,
    {
        TraceHandle::dummy()
    }

    fn begin_apply_template(&mut self, parent: TraceHandle, template: TemplateId, input: &W) -> (h: TraceHandle)
        ensures
            h.index() == u32::MAX,
    {
        TraceHandle::dummy()
    }

    fn end_apply_template(&mut self, parent: TraceHandle, template: TemplateId, output: &W, applied: bool) -> (h:
        TraceHandle)
        ensures
            h.index() == u32::MAX,
    {
        TraceHandle::dummy()
    }

    fn non_final_template_applied_last(&mut self, parent: TraceHandle, stratum: StratumId, output: &W) -> (h:
        TraceHandle)
        ensures
            h.index() == u32::MAX,
    {
        TraceHandle::dummy()
    }

    fn applicable_templates_not_applied(&mut self, parent: TraceHandle, stratum: StratumId, input: &W) -> (h:
        TraceHandle)
        ensures
            h.index() == u32::MAX,
    {
        TraceHandle::dummy()
    }

    fn phonological_rule_unapplied(&mut self, parent: TraceHandle, rule: PRuleId, subrule: i32, output: &W) -> (h:
        TraceHandle)
        ensures
            h.index() == u32::MAX,
    {
        TraceHandle::dummy()
    }

    fn phonological_rule_not_unapplied(&mut self, parent: TraceHandle, rule: PRuleId, subrule: i32, input: &W) -> (h:
        TraceHandle)
        ensures
            h.index() == u32::MAX,
    {
        TraceHandle::dummy()
    }

    fn phonological_rule_applied(&mut self, parent: TraceHandle, rule: PRuleId, subrule: i32, output: &W) -> (h:
        TraceHandle)
        ensures
            h.index() == u32::MAX,
    {
        TraceHandle::dummy()
    }

    fn phonological_rule_not_applied(
        &mut self,
        parent: TraceHandle,
        rule: PRuleId,
        subrule: i32,
        input: &W,
        reason: FailureReason,
    ) -> (h: TraceHandle)
        ensures
            h.index() == u32::MAX,
    {
        TraceHandle::dummy()
    }

    fn morphological_rule_unapplied(&mut self, parent: TraceHandle, rule: MRuleId, subrule: i32, output: &W) -> (h:
        TraceHandle)
        ensures
            h.index() == u32::MAX,
    {
        TraceHandle::dummy()
    }

    fn morphological_rule_not_unapplied(
        &mut self,
        parent: TraceHandle,
        rule: MRuleId,
        subrule: i32,
        input: &W,
        reason: FailureReason,
    ) -> (h: TraceHandle)
        ensures
            h.index() == u32::MAX,
    {
        TraceHandle::dummy()
    }

    fn morphological_rule_applied(&mut self, parent: TraceHandle, rule: MRuleId, subrule: i32, output: &W) -> (h:
        TraceHandle)
        ensures
            h.index() == u32::MAX,
    {
        TraceHandle::dummy()
    }

    fn morphological_rule_not_applied(
        &mut self,
        parent: TraceHandle,
        rule: MRuleId,
        subrule: i32,
        input: &W,
        reason: FailureReason,
    ) -> (h: TraceHandle)
        ensures
            h.index() == u32::MAX,
    {
        TraceHandle::dummy()
    }

    fn compounding_rule_not_unapplied(&mut self, parent: TraceHandle, rule: MRuleId, input: &W) -> (h: TraceHandle)
        ensures
            h.index() == u32::MAX,
    {
        TraceHandle::dummy()
    }

    fn compounding_rule_not_applied(
        &mut self,
        parent: TraceHandle,
        rule: MRuleId,
        input: &W,
        reason: FailureReason,
    ) -> (h: TraceHandle)
        ensures
            h.index() == u32::MAX,
    {
        TraceHandle::dummy()
    }

    fn lexical_lookup(&mut self, parent: TraceHandle, stratum: StratumId, input: &W) -> (h: TraceHandle)
        ensures
            h.index() == u32::MAX,
    {
        TraceHandle::dummy()
    }

    fn blocked(&mut self, parent: TraceHandle, rule: MRuleId, output: &W) -> (h: TraceHandle)
        ensures
            h.index() == u32::MAX,
    {
        TraceHandle::dummy()
    }

    fn successful(&mut self, parent: TraceHandle, word: &W) -> (h: TraceHandle)
        ensures
            h.index() == u32::MAX,
    {
        TraceHandle::dummy()
    }

    fn failed(&mut self, parent: TraceHandle, word: &W, reason: FailureReason) -> (h: TraceHandle)
        ensures
            h.index() == u32::MAX,
    {
        TraceHandle::dummy()
    }

    fn synthesize_word(&mut self, parent: TraceHandle, input: &W) -> (h: TraceHandle)
        ensures
            h.index() == u32::MAX,
    {
        TraceHandle::dummy()
    }
}

/// Whether `got` snapshots `src`: absent when there was nothing to record, else a clone of it.
pub open spec fn snapshot_of<W: Clone>(src: Option<W>, got: Option<W>) -> bool {
    match src {
        None => got is None,
        Some(w) => got is Some && cloned(w, got->0),
    }
}

/// The tree builder: an arena of nodes, each handle an index into it, appended in event order.
pub struct TreeTraceSink<W> {
    nodes: Vec<TraceNode<W>>,
    root: Option<TraceHandle>,
}

impl<W> TreeTraceSink<W> {
    /// The number of nodes recorded so far.
    pub closed spec fn size(&self) -> nat {
        self.nodes@.len()
    }

    /// Whether `h` names a recorded node.
    pub closed spec fn holds(&self, h: TraceHandle) -> bool {
        h.index() < self.nodes@.len()
    }

    /// The node `h` names.
    pub closed spec fn at(&self, h: TraceHandle) -> TraceNode<W> {
        self.nodes@[h.index() as int]
    }

    /// The children of the node `h` names, in the order they were recorded.
    pub open spec fn children_of(&self, h: TraceHandle) -> Seq<TraceHandle> {
        self.at(h).children@
    }

    /// The most recently minted root.
    pub closed spec fn root_spec(&self) -> Option<TraceHandle> {
        self.root
    }

    /// `self` is `before` with one childless node recorded as `h`, the new last child of `parent`;
    /// every other node, and `parent` apart from its children, is unchanged.
    pub open spec fn extends(&self, before: &Self, parent: TraceHandle, h: TraceHandle) -> bool {
        &&& !before.holds(h)
        &&& self.holds(h)
        &&& self.size() == before.size() + 1
        &&& self.root_spec() == before.root_spec()
        &&& self.children_of(h) == Seq::<TraceHandle>::empty()
        &&& self.children_of(parent) == before.children_of(parent).push(h)
        &&& same_but_children(self.at(parent), before.at(parent))
        &&& forall|g: TraceHandle| #[trigger] before.holds(g) ==> self.holds(g)
        &&& forall|g: TraceHandle| before.holds(g) && g != parent ==> #[trigger] self.at(g) == before.at(g)
    }

    /// `self` is `before` with one childless node recorded as `h`, the new root.
    pub open spec fn opens(&self, before: &Self, h: TraceHandle) -> bool {
        &&& !before.holds(h)
        &&& self.holds(h)
        &&& self.size() == before.size() + 1
        &&& self.root_spec() == Some(h)
        &&& self.children_of(h) == Seq::<TraceHandle>::empty()
        &&& forall|g: TraceHandle| #[trigger] before.holds(g) ==> self.holds(g)
        &&& forall|g: TraceHandle| #[trigger] before.holds(g) ==> self.at(g) == before.at(g)
    }

    /// An empty tree with no root yet.
    pub fn new() -> (t: Self)
        ensures
            t.size() == 0,
            t.root_spec() is None,
    {
        TreeTraceSink { nodes: Vec::new(), root: None }
    }

    /// The most recently minted root, if any.
    pub fn root(&self) -> (r: Option<TraceHandle>)
        ensures
            r == self.root_spec(),
    {
        self.root
    }

    /// The node `h` names.
    pub fn node(&self, h: TraceHandle) -> (n: &TraceNode<W>)
        requires
            self.holds(h),
        ensures
            *n == self.at(h),
    {
        &self.nodes[h.0 as usize]
    }

    /// The number of nodes recorded so far.
    pub fn len(&self) -> (n: usize)
        ensures
            n == self.size(),
    {
        self.nodes.len()
    }

    pub fn is_empty(&self) -> (b: bool)
        ensures
            b == (self.size() == 0),
    {
        self.nodes.len() == 0
    }

    fn append(&mut self, parent: TraceHandle, node: TraceNode<W>) -> (h: TraceHandle)
        requires
            old(self).holds(parent),
            old(self).size() < u32::MAX,
            node.children@ == Seq::<TraceHandle>::empty(),
        ensures
            final(self).extends(old(self), parent, h),
            same_but_children(final(self).at(h), node),
    {
        let h = TraceHandle(self.nodes.len() as u32);
        self.nodes.push(node);
        self.nodes[parent.0 as usize].children.push(h);
        h
    }

    fn append_root(&mut self, node: TraceNode<W>) -> (h: TraceHandle)
        requires
            old(self).size() < u32::MAX,
            node.children@ == Seq::<TraceHandle>::empty(),
        ensures
            final(self).opens(old(self), h),
            same_but_children(final(self).at(h), node),
    {
        let h = TraceHandle(self.nodes.len() as u32);
        self.nodes.push(node);
        self.root = Some(h);
        h
    }

    /// The last child of `parent`.
    fn last_child(&self, parent: TraceHandle) -> (c: TraceHandle)
        requires
            self.holds(parent),
            self.children_of(parent).len() > 0,
        ensures
            c == self.children_of(parent).last(),
    {
        let children = &self.nodes[parent.0 as usize].children;
        children[children.len() - 1]
    }
}

impl<W: Clone> TreeTraceSink<W> {
    /// The node `h` records an event of type `t` from `s`, with subrule `sub`, snapshots of
    /// `input` and `output`, and failure `reason`.
    pub open spec fn records(
        &self,
        h: TraceHandle,
        t: TraceType,
        s: TraceSource,
        sub: Option<i32>,
        input: Option<W>,
        output: Option<W>,
        reason: Option<FailureReason>,
    ) -> bool {
        let n = self.at(h);
        &&& n.type_ == t
        &&& n.source == s
        &&& n.subrule_index == sub
        &&& n.failure_reason == reason
        &&& snapshot_of(input, n.input)
        &&& snapshot_of(output, n.output)
    }
}

impl<W: Clone> TraceSink<W> for TreeTraceSink<W> {
    open spec fn tracing(&self) -> bool {
        true
    }

    open spec fn can_open(&self) -> bool {
        self.size() < u32::MAX
    }

    open spec fn can_append(&self, parent: TraceHandle) -> bool {
        self.holds(parent) && self.size() < u32::MAX
    }

    open spec fn can_append_below_last(&self, parent: TraceHandle) -> bool {
        &&& self.holds(parent)
        &&& self.children_of(parent).len() > 0
        &&& self.holds(self.children_of(parent).last())
        &&& self.size() < u32::MAX
    }

    fn is_tracing(&self) -> (b: bool) {
        true
    }

    fn analyze_word(&mut self, input: &W) -> (h: TraceHandle)
        ensures
            final(self).opens(old(self), h),
            final(self).records(h, TraceType::WordAnalysis, TraceSource::Language, None, Some(*input), None, None),
    {
        let mut n = TraceNode::new(TraceType::WordAnalysis, TraceSource::Language);
        n.input = Some(input.clone());
        self.append_root(n)
    }

    fn generate_words(&mut self) -> (h: TraceHandle)
        ensures
            final(self).opens(old(self), h),
            final(self).records(h, TraceType::GenerateWords, TraceSource::Language, None, None, None, None),
    {
        self.append_root(TraceNode::new(TraceType::GenerateWords, TraceSource::Language))
    }

    fn begin_unapply_stratum(&mut self, parent: TraceHandle, stratum: StratumId, input: &W) -> (h: TraceHandle)
        ensures
            final(self).extends(old(self), parent, h),
            final(self).records(h, TraceType::StratumAnalysisInput, TraceSource::Stratum(stratum), None, Some(*input), None, None),
    {
        let mut n = TraceNode::new(TraceType::StratumAnalysisInput, TraceSource::Stratum(stratum));
        n.input = Some(input.clone());
        self.append(parent, n)
    }

    fn end_unapply_stratum(&mut self, parent: TraceHandle, stratum: StratumId, output: &W) -> (h: TraceHandle)
        ensures
            final(self).extends(old(self), parent, h),
            final(self).records(h, TraceType::StratumAnalysisOutput, TraceSource::Stratum(stratum), None, None, Some(*output), None),
    {
        let mut n = TraceNode::new(TraceType::StratumAnalysisOutput, TraceSource::Stratum(stratum));
        n.output = Some(output.clone());
        self.append(parent, n)
    }

    fn begin_apply_stratum(&mut self, parent: TraceHandle, stratum: StratumId, input: &W) -> (h: TraceHandle)
        ensures
            final(self).extends(old(self), parent, h),
            final(self).records(h, TraceType::StratumSynthesisInput, TraceSource::Stratum(stratum), None, Some(*input), None, None),
    {
        let mut n = TraceNode::new(TraceType::StratumSynthesisInput, TraceSource::Stratum(stratum));
        n.input = Some(input.clone());
        self.append(parent, n)
    }

    fn end_apply_stratum(&mut self, parent: TraceHandle, stratum: StratumId, output: &W) -> (h: TraceHandle)
        ensures
            final(self).extends(old(self), parent, h),
            final(self).records(h, TraceType::StratumSynthesisOutput, TraceSource::Stratum(stratum), None, None, Some(*output), None),
    {
        let mut n = TraceNode::new(TraceType::StratumSynthesisOutput, TraceSource::Stratum(stratum));
        n.output = Some(output.clone());
        self.append(parent, n)
    }

    fn begin_unapply_template(&mut self, parent: TraceHandle, template: TemplateId, input: &W) -> (h: TraceHandle)
        ensures
            final(self).extends(old(self), parent, h),
            final(self).records(h, TraceType::TemplateAnalysisInput, TraceSource::Template(template), None, Some(*input), None, None),
    {
        let mut n = TraceNode::new(TraceType::TemplateAnalysisInput, TraceSource::Template(template));
        n.input = Some(input.clone());
        self.append(parent, n)
    }

    fn end_unapply_template(&mut self, parent: TraceHandle, template: TemplateId, output: &W, unapplied: bool) -> (h: TraceHandle)
        ensures
            final(self).extends(old(self), parent, h),
            final(self).records(h, TraceType::TemplateAnalysisOutput, TraceSource::Template(template), None, None, (if unapplied { Some(*output) } else { None }), None),
    {
        let mut n = TraceNode::new(TraceType::TemplateAnalysisOutput, TraceSource::Template(template));
        if unapplied {
            n.output = Some(output.clone());
        }
        self.append(parent, n)
    }

    fn begin_apply_template(&mut self, parent: TraceHandle, template: TemplateId, input: &W) -> (h: TraceHandle)
        ensures
            final(self).extends(old(self), parent, h),
            final(self).records(h, TraceType::TemplateSynthesisInput, TraceSource::Template(template), None, Some(*input), None, None),
    {
        let mut n = TraceNode::new(TraceType::TemplateSynthesisInput, TraceSource::Template(template));
        n.input = Some(input.clone());
        self.append(parent, n)
    }

    fn end_apply_template(&mut self, parent: TraceHandle, template: TemplateId, output: &W, applied: bool) -> (h: TraceHandle)
        ensures
            final(self).extends(old(self), parent, h),
            final(self).records(h, TraceType::TemplateSynthesisOutput, TraceSource::Template(template), None, None, (if applied { Some(*output) } else { None }), None),
    {
        let mut n = TraceNode::new(TraceType::TemplateSynthesisOutput, TraceSource::Template(template));
        if applied {
            n.output = Some(output.clone());
        }
        self.append(parent, n)
    }

    fn non_final_template_applied_last(&mut self, parent: TraceHandle, stratum: StratumId, output: &W) -> (h: TraceHandle)
        ensures
            final(self).extends(old(self), parent, h),
            final(self).records(h, TraceType::StratumSynthesisOutput, TraceSource::Stratum(stratum), None, None, Some(*output), Some(FailureReason::PartialParse)),
    {
        let mut n = TraceNode::new(TraceType::StratumSynthesisOutput, TraceSource::Stratum(stratum));
        n.output = Some(output.clone());
        n.failure_reason = Some(FailureReason::PartialParse);
        self.append(parent, n)
    }

    fn applicable_templates_not_applied(&mut self, parent: TraceHandle, stratum: StratumId, input: &W) -> (h: TraceHandle)
        ensures
            final(self).extends(old(self), parent, h),
            final(self).records(h, TraceType::StratumSynthesisOutput, TraceSource::Stratum(stratum), None, Some(*input), None, Some(FailureReason::PartialParse)),
    {
        let mut n = TraceNode::new(TraceType::StratumSynthesisOutput, TraceSource::Stratum(stratum));
        n.input = Some(input.clone());
        n.failure_reason = Some(FailureReason::PartialParse);
        self.append(parent, n)
    }

    fn phonological_rule_unapplied(&mut self, parent: TraceHandle, rule: PRuleId, subrule: i32, output: &W) -> (h: TraceHandle)
        ensures
            final(self).extends(old(self), parent, h),
            final(self).records(h, TraceType::PhonologicalRuleAnalysis, TraceSource::PhonRule(rule), Some(subrule), None, Some(*output), None),
    {
        let mut n = TraceNode::new(TraceType::PhonologicalRuleAnalysis, TraceSource::PhonRule(rule));
        n.subrule_index = Some(subrule);
        n.output = Some(output.clone());
        self.append(parent, n)
    }

    fn phonological_rule_not_unapplied(&mut self, parent: TraceHandle, rule: PRuleId, subrule: i32, input: &W) -> (h: TraceHandle)
        ensures
            final(self).extends(old(self), parent, h),
            final(self).records(h, TraceType::PhonologicalRuleAnalysis, TraceSource::PhonRule(rule), Some(subrule), Some(*input), None, None),
    {
        let mut n = TraceNode::new(TraceType::PhonologicalRuleAnalysis, TraceSource::PhonRule(rule));
        n.subrule_index = Some(subrule);
        n.input = Some(input.clone());
        self.append(parent, n)
    }

    fn phonological_rule_applied(&mut self, parent: TraceHandle, rule: PRuleId, subrule: i32, output: &W) -> (h: TraceHandle)
        ensures
            final(self).extends(old(self), parent, h),
            final(self).records(h, TraceType::PhonologicalRuleSynthesis, TraceSource::PhonRule(rule), Some(subrule), None, Some(*output), None),
    {
        let mut n = TraceNode::new(TraceType::PhonologicalRuleSynthesis, TraceSource::PhonRule(rule));
        n.subrule_index = Some(subrule);
        n.output = Some(output.clone());
        self.append(parent, n)
    }

    fn phonological_rule_not_applied(&mut self, parent: TraceHandle, rule: PRuleId, subrule: i32, input: &W, reason: FailureReason) -> (h: TraceHandle)
        ensures
            final(self).extends(old(self), parent, h),
            final(self).records(h, TraceType::PhonologicalRuleSynthesis, TraceSource::PhonRule(rule), Some(subrule), Some(*input), None, Some(reason)),
    {
        let mut n = TraceNode::new(TraceType::PhonologicalRuleSynthesis, TraceSource::PhonRule(rule));
        n.subrule_index = Some(subrule);
        n.input = Some(input.clone());
        n.failure_reason = Some(reason);
        self.append(parent, n)
    }

    fn morphological_rule_unapplied(&mut self, parent: TraceHandle, rule: MRuleId, subrule: i32, output: &W) -> (h: TraceHandle)
        ensures
            final(self).extends(old(self), parent, h),
            final(self).records(h, TraceType::MorphologicalRuleAnalysis, TraceSource::MorphRule(rule), Some(subrule), None, Some(*output), None),
    {
        let mut n = TraceNode::new(TraceType::MorphologicalRuleAnalysis, TraceSource::MorphRule(rule));
        n.subrule_index = Some(subrule);
        n.output = Some(output.clone());
        self.append(parent, n)
    }

    fn morphological_rule_not_unapplied(&mut self, parent: TraceHandle, rule: MRuleId, subrule: i32, input: &W, reason: FailureReason) -> (h: TraceHandle)
        ensures
            final(self).extends(old(self), parent, h),
            final(self).records(h, TraceType::MorphologicalRuleAnalysis, TraceSource::MorphRule(rule), Some(subrule), Some(*input), None, Some(reason)),
    {
        let mut n = TraceNode::new(TraceType::MorphologicalRuleAnalysis, TraceSource::MorphRule(rule));
        n.subrule_index = Some(subrule);
        n.input = Some(input.clone());
        n.failure_reason = Some(reason);
        self.append(parent, n)
    }

    fn morphological_rule_applied(&mut self, parent: TraceHandle, rule: MRuleId, subrule: i32, output: &W) -> (h: TraceHandle)
        ensures
            final(self).extends(old(self), parent, h),
            final(self).records(h, TraceType::MorphologicalRuleSynthesis, TraceSource::MorphRule(rule), Some(subrule), None, Some(*output), None),
    {
        let mut n = TraceNode::new(TraceType::MorphologicalRuleSynthesis, TraceSource::MorphRule(rule));
        n.subrule_index = Some(subrule);
        n.output = Some(output.clone());
        self.append(parent, n)
    }

    fn morphological_rule_not_applied(&mut self, parent: TraceHandle, rule: MRuleId, subrule: i32, input: &W, reason: FailureReason) -> (h: TraceHandle)
        ensures
            final(self).extends(old(self), parent, h),
            final(self).records(h, TraceType::MorphologicalRuleSynthesis, TraceSource::MorphRule(rule), Some(subrule), Some(*input), None, Some(reason)),
    {
        let mut n = TraceNode::new(TraceType::MorphologicalRuleSynthesis, TraceSource::MorphRule(rule));
        n.subrule_index = Some(subrule);
        n.input = Some(input.clone());
        n.failure_reason = Some(reason);
        self.append(parent, n)
    }

    fn compounding_rule_not_unapplied(&mut self, parent: TraceHandle, rule: MRuleId, input: &W) -> (h: TraceHandle)
        ensures
            final(self).extends(old(self), parent, h),
            final(self).records(h, TraceType::CompoundingRuleAnalysis, TraceSource::MorphRule(rule), None, Some(*input), None, None),
    {
        let mut n = TraceNode::new(TraceType::CompoundingRuleAnalysis, TraceSource::MorphRule(rule));
        n.input = Some(input.clone());
        self.append(parent, n)
    }

    fn compounding_rule_not_applied(&mut self, parent: TraceHandle, rule: MRuleId, input: &W, reason: FailureReason) -> (h: TraceHandle)
        ensures
            final(self).extends(old(self), parent, h),
            final(self).records(h, TraceType::CompoundingRuleSynthesis, TraceSource::MorphRule(rule), None, Some(*input), None, Some(reason)),
    {
        let mut n = TraceNode::new(TraceType::CompoundingRuleSynthesis, TraceSource::MorphRule(rule));
        n.input = Some(input.clone());
        n.failure_reason = Some(reason);
        self.append(parent, n)
    }

    fn lexical_lookup(&mut self, parent: TraceHandle, stratum: StratumId, input: &W) -> (h: TraceHandle)
        ensures
            final(self).extends(old(self), parent, h),
            final(self).records(h, TraceType::LexicalLookup, TraceSource::Stratum(stratum), None, Some(*input), None, None),
    {
        let mut n = TraceNode::new(TraceType::LexicalLookup, TraceSource::Stratum(stratum));
        n.input = Some(input.clone());
        self.append(parent, n)
    }

    fn blocked(&mut self, parent: TraceHandle, rule: MRuleId, output: &W) -> (h: TraceHandle)
        ensures
            final(self).extends(old(self), parent, h),
            final(self).records(h, TraceType::Blocked, TraceSource::MorphRule(rule), None, None, Some(*output), None),
    {
        let mut n = TraceNode::new(TraceType::Blocked, TraceSource::MorphRule(rule));
        n.output = Some(output.clone());
        self.append(parent, n)
    }

    fn successful(&mut self, parent: TraceHandle, word: &W) -> (h: TraceHandle)
        ensures
            final(self).extends(old(self), parent, h),
            final(self).records(h, TraceType::Successful, TraceSource::NoSource, None, None, Some(*word), None),
    {
        let mut n = TraceNode::new(TraceType::Successful, TraceSource::NoSource);
        n.output = Some(word.clone());
        self.append(parent, n)
    }

    fn failed(&mut self, parent: TraceHandle, word: &W, reason: FailureReason) -> (h: TraceHandle)
        ensures
            final(self).extends(old(self), parent, h),
            final(self).records(h, TraceType::Failed, TraceSource::NoSource, None, None, Some(*word), Some(reason)),
    {
        let mut n = TraceNode::new(TraceType::Failed, TraceSource::NoSource);
        n.output = Some(word.clone());
        n.failure_reason = Some(reason);
        self.append(parent, n)
    }

    fn synthesize_word(&mut self, parent: TraceHandle, input: &W) -> (h: TraceHandle)
        ensures
            final(self).extends(old(self), old(self).children_of(parent).last(), h),
            final(self).records(h, TraceType::WordSynthesis, TraceSource::NoSource, None, Some(*input), None, None),
    {
        let target = self.last_child(parent);
        let mut n = TraceNode::new(TraceType::WordSynthesis, TraceSource::NoSource);
        n.input = Some(input.clone());
        self.append(target, n)
    }
}

/// Two nodes agree on everything but their children.
pub open spec fn same_but_children<W>(a: TraceNode<W>, b: TraceNode<W>) -> bool {
    &&& a.type_ == b.type_
    &&& a.source == b.source
    &&& a.subrule_index == b.subrule_index
    &&& a.input == b.input
    &&& a.output == b.output
    &&& a.failure_reason == b.failure_reason
}

} // verus!
