//! Rhythmic structure: groupings and the time-budget controller.
//!
//! A [`Grouping`] is a hierarchical unit of rhythmic time: a leaf [`Beat`]
//! or a composite [`Measure`] whose children are consumed front to back as
//! time elapses (the children are stored in reverse playback order and
//! popped from the back).  The [`GroupingController`] owns a stack of
//! groupings currently being consumed, outermost first, together with the
//! queue of top-level groupings not yet entered; consuming a span of time
//! depletes every active level in lockstep and reports each grouping it
//! exhausts, innermost first.

use vstd::prelude::*;

verus! {

use crate::{Duration, Error};
use crate::arith::{
    Frac, reduced, frac_zero, frac_add, frac_sub, frac_fits, le_val, lt_val, eq_val,
    lemma_frac_add_props, lemma_frac_sub_props, lemma_sub_self, lemma_add_zero,
    lemma_zero_reduced, lemma_sub_add_shuffle,
};

/// The mathematical shape of a grouping: its duration as an exact fraction
/// and the durations of its remaining children.
pub ghost enum GroupingV {
    /// A leaf spanning a fixed duration.
    Beat { duration: Frac },
    /// A composite whose remaining children stand in reverse playback order.
    Measure { duration: Frac, contents: Seq<GroupingV> },
}

impl GroupingV {
    /// The total duration spanned.
    pub open spec fn duration(self) -> Frac {
        match self {
            GroupingV::Beat { duration } => duration,
            GroupingV::Measure { duration, .. } => duration,
        }
    }

    /// The remaining children, next one last.
    pub open spec fn contents(self) -> Seq<GroupingV> {
        match self {
            GroupingV::Beat { .. } => Seq::empty(),
            GroupingV::Measure { contents, .. } => contents,
        }
    }

    /// Whether no child remains to descend into.
    pub open spec fn is_empty(self) -> bool {
        self.contents().len() == 0
    }

    /// The annotation emitted when the controller first descends into this
    /// grouping.
    pub open spec fn start_annotation(self) -> Seq<char> {
        match self {
            GroupingV::Beat { .. } => Seq::empty(),
            GroupingV::Measure { .. } => " %m. \n "@,
        }
    }

    /// The annotation emitted when this grouping is exhausted.
    pub open spec fn end_annotation(self) -> Seq<char> {
        match self {
            GroupingV::Beat { .. } => Seq::empty(),
            GroupingV::Measure { .. } => " |\n "@,
        }
    }

    /// Well-formed: every duration is reduced and a measure spans exactly
    /// the sum of its children.
    pub open spec fn wf(self) -> bool
        decreases self,
    {
        match self {
            GroupingV::Beat { duration } => reduced(duration),
            GroupingV::Measure { duration, contents } => {
                &&& reduced(duration)
                &&& duration == sum_of(contents)
                &&& all_wf(contents)
            },
        }
    }

    /// The number of groupings in this tree.
    pub open spec fn nodes(self) -> nat
        decreases self,
    {
        match self {
            GroupingV::Beat { .. } => 1,
            GroupingV::Measure { contents, .. } => 1 + nodes_of(contents),
        }
    }
}

/// The total duration of a sequence of groupings, summed back to front.
pub open spec fn sum_of(s: Seq<GroupingV>) -> Frac
    decreases s.len(),
{
    if s.len() == 0 {
        frac_zero()
    } else {
        frac_add(s.last().duration(), sum_of(s.drop_last()))
    }
}

/// Whether every grouping in a sequence is well-formed.
pub open spec fn all_wf(s: Seq<GroupingV>) -> bool
    decreases s,
{
    forall|i: int| 0 <= i < s.len() ==> (#[trigger] s[i]).wf()
}

/// The number of groupings in a forest.
pub open spec fn nodes_of(s: Seq<GroupingV>) -> nat
    decreases s,
{
    if s.len() == 0 {
        0
    } else {
        nodes_of(s.drop_last()) + s.last().nodes()
    }
}

/// A sum of well-formed groupings is a reduced fraction.
pub proof fn lemma_sum_of_reduced(s: Seq<GroupingV>)
    requires
        all_wf(s),
    ensures
        reduced(sum_of(s)),
    decreases s.len(),
{
    if s.len() == 0 {
    } else {
        assert(all_wf(s.drop_last())) by {
            assert(forall|i: int| 0 <= i < s.drop_last().len() ==> s.drop_last()[i]
                == #[trigger] s[i]);
        }
        lemma_sum_of_reduced(s.drop_last());
        assert(s.last().wf());
        lemma_wf_duration_reduced(s.last());
        lemma_frac_add_props(s.last().duration(), sum_of(s.drop_last()));
    }
}

/// The duration of a well-formed grouping is reduced.
pub proof fn lemma_wf_duration_reduced(g: GroupingV)
    requires
        g.wf(),
    ensures
        reduced(g.duration()),
{
}

/// The pieces of well-formedness of a grouping.
pub proof fn lemma_wf_parts(g: GroupingV)
    requires
        g.wf(),
    ensures
        reduced(g.duration()),
        g is Measure ==> g.duration() == sum_of(g.contents()),
        all_wf(g.contents()),
{
    match g {
        GroupingV::Beat { .. } => {
            assert(g.contents() =~= Seq::<GroupingV>::empty());
        },
        GroupingV::Measure { duration, contents } => {
            assert(g.contents() == contents);
        },
    }
}

/// Every grouping counts at least one node.
pub proof fn lemma_nodes_pos(g: GroupingV)
    ensures
        g.nodes() >= 1,
{
}

/// Node counts decompose at the front.
pub proof fn lemma_nodes_of_first(s: Seq<GroupingV>)
    requires
        s.len() > 0,
    ensures
        nodes_of(s) == s[0].nodes() + nodes_of(s.drop_first()),
    decreases s.len(),
{
    if s.len() == 1 {
        assert(s.drop_first() =~= Seq::<GroupingV>::empty());
        assert(s.drop_last() =~= Seq::<GroupingV>::empty());
        assert(s.last() == s[0]);
    } else {
        let dl = s.drop_last();
        lemma_nodes_of_first(dl);
        assert(dl[0] == s[0]);
        assert(dl.drop_first() =~= s.drop_first().drop_last());
        assert(s.drop_first().last() == s.last());
        assert(nodes_of(s.drop_first()) == nodes_of(s.drop_first().drop_last()) + s.last().nodes());
    }
}

/// The simplest grouping: a fixed span of time with no subdivisions.
#[derive(Clone, Copy, Debug, PartialEq, Eq, Structural)]
pub struct Beat {
    pub duration: Duration,
}

/// A grouping that contains other groupings, stored in reverse playback
/// order and consumed from the back.
#[derive(Debug)]
pub struct Measure {
    pub duration: Duration,
    pub contents: Vec<Grouping>,
}

/// A hierarchical unit of rhythmic time.
#[derive(Debug)]
pub enum Grouping {
    Beat(Beat),
    Measure(Measure),
}

/// The mathematical shape of a grouping.
pub open spec fn g_view(g: Grouping) -> GroupingV
    decreases g,
{
    match g {
        Grouping::Beat(b) => GroupingV::Beat { duration: b.duration@ },
        Grouping::Measure(m) => GroupingV::Measure {
            duration: m.duration@,
            contents: gs_view(m.contents@),
        },
    }
}

/// The mathematical shapes of a sequence of groupings.
pub open spec fn gs_view(s: Seq<Grouping>) -> Seq<GroupingV>
    decreases s,
{
    if s.len() == 0 {
        Seq::empty()
    } else {
        gs_view(s.drop_last()).push(g_view(s.last()))
    }
}

impl View for Grouping {
    type V = GroupingV;

    open spec fn view(&self) -> GroupingV {
        g_view(*self)
    }
}

/// A sequence view keeps length and maps elementwise.
pub proof fn lemma_gs_view_props(s: Seq<Grouping>)
    ensures
        gs_view(s).len() == s.len(),
        forall|i: int| 0 <= i < s.len() ==> gs_view(s)[i] == g_view(s[i]),
    decreases s.len(),
{
    if s.len() > 0 {
        lemma_gs_view_props(s.drop_last());
    }
}

impl Grouping {
    /// Well-formed: every duration reduced, every measure spanning the sum
    /// of its children.
    pub open spec fn wf(self) -> bool {
        g_view(self).wf()
    }

    /// The total duration spanned by this grouping.
    pub fn duration(&self) -> (d: Duration)
        ensures
            d@ == self@.duration(),
    {
        match self {
            Grouping::Beat(b) => b.duration,
            Grouping::Measure(m) => m.duration,
        }
    }

    /// Remove and return the next subdivision to consume, if any.
    pub fn next(&mut self) -> (r: Option<Grouping>)
        ensures
            old(self)@.is_empty() ==> r is None && final(self)@ == old(self)@,
            !old(self)@.is_empty() ==> {
                &&& r is Some
                &&& g_view(r->0) == old(self)@.contents().last()
                &&& final(self)@ == (GroupingV::Measure {
                    duration: old(self)@.duration(),
                    contents: old(self)@.contents().drop_last(),
                })
            },
    {
        match self {
            Grouping::Beat(_) => None,
            Grouping::Measure(m) => {
                let ghost pre = m.contents@;
                let r = m.contents.pop();
                proof {
                    lemma_gs_view_props(pre);
                    if pre.len() > 0 {
                        assert(m.contents@ =~= pre.drop_last());
                        assert(gs_view(pre).drop_last() =~= gs_view(pre.drop_last()));
                        assert(gs_view(pre).last() == g_view(pre.last()));
                    } else {
                        assert(gs_view(pre).len() == 0);
                    }
                }
                r
            },
        }
    }

    /// Whether no subdivision remains.
    pub fn is_empty(&self) -> (r: bool)
        ensures
            r == self@.is_empty(),
    {
        match self {
            Grouping::Beat(_) => true,
            Grouping::Measure(m) => {
                proof {
                    lemma_gs_view_props(m.contents@);
                }
                m.contents.len() == 0
            },
        }
    }

    /// The annotation emitted when the controller first descends into this
    /// grouping.
    pub fn start_annotation(&self) -> (r: &str)
        ensures
            r@ == self@.start_annotation(),
    {
        match self {
            Grouping::Beat(_) => {
                proof {
                    reveal_strlit("");
                }
                assert(""@ =~= Seq::<char>::empty());
                ""
            },
            Grouping::Measure(_) => " %m. \n ",
        }
    }

    /// The annotation emitted when this grouping is exhausted.
    pub fn end_annotation(&self) -> (r: &str)
        ensures
            r@ == self@.end_annotation(),
    {
        match self {
            Grouping::Beat(_) => {
                proof {
                    reveal_strlit("");
                }
                assert(""@ =~= Seq::<char>::empty());
                ""
            },
            Grouping::Measure(_) => " |\n ",
        }
    }
}

impl Beat {
    /// A beat spanning the given ratio of a whole note.
    pub fn new_ratio(a: u32, b: u32) -> (r: Beat)
        requires
            b >= 1,
        ensures
            r.duration.wf(),
            r.duration@ == crate::arith::reduce(Frac { n: a as nat, d: b as nat }),
            Grouping::Beat(r).wf(),
    {
        Beat { duration: Duration::new(a, b) }
    }
}

/// Whether every prefix sum of durations fits the machine word.
pub open spec fn sums_fit(s: Seq<GroupingV>) -> bool {
    forall|i: int| 0 <= i <= s.len() ==> frac_fits(#[trigger] sum_of(s.subrange(0, i)))
}

impl Measure {
    /// A measure spanning the given children, which must stand in reverse
    /// playback order; its duration is their sum, computed once.
    pub fn from_contents(contents: Vec<Grouping>) -> (r: Measure)
        requires
            forall|i: int| 0 <= i < contents@.len() ==> (#[trigger] contents@[i]).wf(),
            sums_fit(gs_view(contents@)),
        ensures
            r.contents@ == contents@,
            r.duration@ == sum_of(gs_view(contents@)),
            Grouping::Measure(r).wf(),
    {
        proof {
            lemma_gs_view_props(contents@);
        }
        let ghost sv = gs_view(contents@);
        let mut total_duration = Duration::new(0, 1);
        proof {
            assert(sv.subrange(0, 0) =~= Seq::<GroupingV>::empty());
            lemma_zero_reduced(total_duration@);
        }
        let n = contents.len();
        let mut i: usize = 0;
        while i < n
            invariant
                0 <= i <= n,
                n == contents@.len(),
                sv == gs_view(contents@),
                sv.len() == n,
                forall|k: int| 0 <= k < n ==> sv[k] == g_view(contents@[k]),
                forall|k: int| 0 <= k < contents@.len() ==> (#[trigger] contents@[k]).wf(),
                sums_fit(sv),
                total_duration@ == sum_of(sv.subrange(0, i as int)),
                total_duration.wf(),
            decreases n - i,
        {
            let d = contents[i].duration();
            proof {
                let pref = sv.subrange(0, i as int + 1);
                assert(pref.last() == sv[i as int]);
                assert(pref.drop_last() =~= sv.subrange(0, i as int));
                assert(sum_of(pref) == frac_add(d@, total_duration@));
                assert(frac_fits(sum_of(pref)));
                assert(contents@[i as int].wf());
                lemma_wf_duration_reduced(sv[i as int]);
            }
            total_duration = d.add(total_duration);
            i = i + 1;
        }
        proof {
            assert(sv.subrange(0, n as int) =~= sv);
        }
        let r = Measure { duration: total_duration, contents };
        proof {
            lemma_sum_of_reduced(sv);
        }
        r
    }
}

/// A grouping currently being consumed, with its remaining time.
///
/// `left` starts at the grouping's full duration when the controller enters
/// it and is depleted uniformly as time is consumed.
pub struct ControlledGrouping {
    pub left: Duration,
    pub grouping: Grouping,
}

/// The mathematical shape of a controlled grouping.
pub ghost struct CGV {
    pub left: Frac,
    pub grouping: GroupingV,
}

impl View for ControlledGrouping {
    type V = CGV;

    open spec fn view(&self) -> CGV {
        CGV { left: self.left@, grouping: g_view(self.grouping) }
    }
}

impl ControlledGrouping {
    /// Whether the controller has just entered this grouping, with nothing
    /// of it consumed yet.
    pub fn is_start_of_grouping(&self) -> (r: bool)
        ensures
            r == (self@.left == self@.grouping.duration()),
    {
        let d = self.grouping.duration();
        let (dn, dd) = d.as_ratio();
        let (ln, ld) = self.left.as_ratio();
        dn == ln && dd == ld
    }
}

/// The mathematical shapes of a stack of controlled groupings.
pub open spec fn cgs_view(s: Seq<ControlledGrouping>) -> Seq<CGV>
    decreases s.len(),
{
    if s.len() == 0 {
        Seq::empty()
    } else {
        cgs_view(s.drop_last()).push(s.last()@)
    }
}

/// A stack view keeps length and maps elementwise.
pub proof fn lemma_cgs_view_props(s: Seq<ControlledGrouping>)
    ensures
        cgs_view(s).len() == s.len(),
        forall|i: int| 0 <= i < s.len() ==> cgs_view(s)[i] == s[i]@,
    decreases s.len(),
{
    if s.len() > 0 {
        lemma_cgs_view_props(s.drop_last());
    }
}

/// The controller's state: the active stack, outermost first, and the
/// top-level groupings not yet entered, next one first.
pub ghost struct MState {
    pub stack: Seq<CGV>,
    pub queue: Seq<GroupingV>,
}

/// The number of groupings held by a stack.
pub open spec fn stack_nodes(s: Seq<CGV>) -> nat
    decreases s.len(),
{
    if s.len() == 0 {
        0
    } else {
        stack_nodes(s.drop_last()) + s.last().grouping.nodes()
    }
}

/// The number of groupings held by a state.
pub open spec fn state_nodes(s: MState) -> nat {
    stack_nodes(s.stack) + nodes_of(s.queue)
}

/// Stack node counts add under push.
pub proof fn lemma_stack_nodes_push(s: Seq<CGV>, c: CGV)
    ensures
        stack_nodes(s.push(c)) == stack_nodes(s) + c.grouping.nodes(),
{
    assert(s.push(c).last() == c);
    assert(s.push(c).drop_last() =~= s);
}

/// Enter a grouping: its remaining time starts at its full duration.
pub open spec fn enter(g: GroupingV) -> CGV {
    CGV { left: g.duration(), grouping: g }
}

/// The outcome of a controller step: the new state with what was exhausted,
/// a failure with the state it leaves behind, or a value outside the
/// machine-word range.
pub ghost enum MOut {
    Done { s: MState, out: Seq<GroupingV> },
    Failed { err: Error, s: MState },
    Unrepresentable,
}

/// Pop the exhausted innermost grouping and replenish the stack: from the
/// queue if the stack emptied, then look at the new top.
pub open spec fn advance_model(s: MState) -> MOut
    decreases state_nodes(s), 0int,
    via advance_model_dec
{
    if s.stack.len() == 0 {
        MOut::Failed { err: Error::InvariantViolation, s }
    } else {
        let popped = s.stack.last().grouping;
        let stack1 = s.stack.drop_last();
        if stack1.len() == 0 {
            if s.queue.len() == 0 {
                MOut::Failed {
                    err: Error::StructureExhausted,
                    s: MState { stack: stack1, queue: s.queue },
                }
            } else {
                advance_examine(
                    MState { stack: stack1.push(enter(s.queue.first())), queue: s.queue.drop_first() },
                    popped,
                )
            }
        } else {
            advance_examine(MState { stack: stack1, queue: s.queue }, popped)
        }
    }
}

/// After replenishing: descend one level into the top's next subdivision;
/// or, if the top is exhausted with no time left, pop it as well.
pub open spec fn advance_examine(s: MState, popped: GroupingV) -> MOut
    decreases state_nodes(s), 2int,
    via advance_examine_dec
{
    if s.stack.len() == 0 {
        MOut::Failed { err: Error::InvariantViolation, s }
    } else {
        advance_examine_top(s, popped)
    }
}

/// The examination of a non-empty replenished stack.
pub open spec fn advance_examine_top(s: MState, popped: GroupingV) -> MOut
    decreases state_nodes(s), 1int,
    via advance_examine_top_dec
{
    let top = s.stack.last();
    if top.grouping.is_empty() {
        if top.left.n == 0 {
            match advance_model(s) {
                MOut::Done { s: s2, out: out2 } => MOut::Done { s: s2, out: seq![popped] + out2 },
                MOut::Failed { err, s: s2 } => MOut::Failed { err, s: s2 },
                MOut::Unrepresentable => MOut::Unrepresentable,
            }
        } else {
            MOut::Done { s, out: seq![popped] }
        }
    } else {
        let child = top.grouping.contents().last();
        let top2 = CGV {
            left: top.left,
            grouping: GroupingV::Measure {
                duration: top.grouping.duration(),
                contents: top.grouping.contents().drop_last(),
            },
        };
        MOut::Done {
            s: MState {
                stack: s.stack.drop_last().push(top2).push(enter(child)),
                queue: s.queue,
            },
            out: seq![popped],
        }
    }
}

#[via_fn]
proof fn advance_model_dec(s: MState) {
    if s.stack.len() > 0 {
        let popped = s.stack.last();
        lemma_nodes_pos(popped.grouping);
        let stack1 = s.stack.drop_last();
        if stack1.len() == 0 && s.queue.len() > 0 {
            lemma_stack_nodes_push(stack1, enter(s.queue.first()));
            lemma_nodes_of_first(s.queue);
        }
    }
}

#[via_fn]
proof fn advance_examine_dec(s: MState, popped: GroupingV) {
}

#[via_fn]
proof fn advance_examine_top_dec(s: MState, popped: GroupingV) {
}

/// Whether a uniform subtraction from every active level stays within
/// bounds and representable in the machine word.
pub open spec fn deplete_ok(stack: Seq<CGV>, t: Frac) -> bool {
    forall|i: int| 0 <= i < stack.len() ==> le_val(t, (#[trigger] stack[i]).left) && frac_fits(
        frac_sub(stack[i].left, t),
    )
}

/// Subtract a span of time from every active level in lockstep.
pub open spec fn deplete(stack: Seq<CGV>, t: Frac) -> Seq<CGV> {
    Seq::new(stack.len(), |i: int| CGV { left: frac_sub(stack[i].left, t), grouping: stack[i].grouping })
}

/// Depleting does not change what groupings are held.
pub proof fn lemma_deplete_nodes(stack: Seq<CGV>, t: Frac)
    ensures
        stack_nodes(deplete(stack, t)) == stack_nodes(stack),
    decreases stack.len(),
{
    if stack.len() > 0 {
        lemma_deplete_nodes(stack.drop_last(), t);
        assert(deplete(stack, t).drop_last() =~= deplete(stack.drop_last(), t));
        assert(deplete(stack, t).last().grouping == stack.last().grouping);
    }
}

/// An advance that succeeds leaves strictly fewer groupings.
pub proof fn lemma_advance_nodes(s: MState)
    ensures
        advance_model(s) matches MOut::Done { s: s2, .. } ==> state_nodes(s2) < state_nodes(s),
    decreases state_nodes(s), 2int,
{
    if s.stack.len() > 0 {
        let popped = s.stack.last();
        lemma_nodes_pos(popped.grouping);
        let stack1 = s.stack.drop_last();
        if stack1.len() == 0 {
            if s.queue.len() > 0 {
                let s1 = MState {
                    stack: stack1.push(enter(s.queue.first())),
                    queue: s.queue.drop_first(),
                };
                lemma_stack_nodes_push(stack1, enter(s.queue.first()));
                lemma_nodes_of_first(s.queue);
                lemma_examine_nodes(s1, popped.grouping);
            }
        } else {
            lemma_examine_nodes(MState { stack: stack1, queue: s.queue }, popped.grouping);
        }
    }
}

/// Examining the replenished top never adds groupings.
pub proof fn lemma_examine_nodes(s: MState, popped: GroupingV)
    ensures
        advance_examine(s, popped) matches MOut::Done { s: s2, .. } ==> state_nodes(s2)
            <= state_nodes(s),
    decreases state_nodes(s), 3int,
{
    let top = s.stack.last();
    if top.grouping.is_empty() {
        if top.left.n == 0 {
            lemma_advance_nodes(s);
        }
    } else {
        let child = top.grouping.contents().last();
        let top2 = CGV {
            left: top.left,
            grouping: GroupingV::Measure {
                duration: top.grouping.duration(),
                contents: top.grouping.contents().drop_last(),
            },
        };
        if s.stack.len() > 0 {
            lemma_stack_nodes_push(s.stack.drop_last(), top2);
            lemma_stack_nodes_push(s.stack.drop_last().push(top2), enter(child));
            assert(top.grouping.nodes() == 1 + nodes_of(top.grouping.contents()));
            assert(nodes_of(top.grouping.contents()) == nodes_of(
                top.grouping.contents().drop_last(),
            ) + child.nodes());
        }
    }
}

/// Consume a span of time: while any remains, deplete every level by the
/// innermost remaining time or the whole request, whichever is smaller, and
/// advance past each exhausted grouping, collecting them innermost first.
pub open spec fn consume_model(s: MState, t: Frac) -> MOut
    decreases state_nodes(s), 4int,
    via consume_model_dec
{
    if t.n == 0 {
        MOut::Done { s, out: Seq::empty() }
    } else if s.stack.len() == 0 {
        MOut::Failed { err: Error::InvariantViolation, s }
    } else {
        let left = s.stack.last().left;
        if lt_val(left, t) {
            if !deplete_ok(s.stack, left) || !frac_fits(frac_sub(t, left)) {
                MOut::Unrepresentable
            } else {
                let s1 = MState { stack: deplete(s.stack, left), queue: s.queue };
                let t2 = frac_sub(t, left);
                match advance_model(s1) {
                    MOut::Done { s: s2, out: out2 } => match consume_model(s2, t2) {
                        MOut::Done { s: s3, out: out3 } => MOut::Done { s: s3, out: out2 + out3 },
                        MOut::Failed { err, s: s3 } => MOut::Failed { err, s: s3 },
                        MOut::Unrepresentable => MOut::Unrepresentable,
                    },
                    MOut::Failed { err, s: s2 } => MOut::Failed { err, s: s2 },
                    MOut::Unrepresentable => MOut::Unrepresentable,
                }
            }
        } else if lt_val(t, left) {
            if !deplete_ok(s.stack, t) {
                MOut::Unrepresentable
            } else {
                MOut::Done { s: MState { stack: deplete(s.stack, t), queue: s.queue }, out: Seq::empty() }
            }
        } else {
            if !deplete_ok(s.stack, t) {
                MOut::Unrepresentable
            } else {
                advance_model(MState { stack: deplete(s.stack, t), queue: s.queue })
            }
        }
    }
}

#[via_fn]
proof fn consume_model_dec(s: MState, t: Frac) {
    if t.n != 0 && s.stack.len() > 0 {
        let left = s.stack.last().left;
        if lt_val(left, t) {
            if deplete_ok(s.stack, left) && frac_fits(frac_sub(t, left)) {
                let s1 = MState { stack: deplete(s.stack, left), queue: s.queue };
                lemma_deplete_nodes(s.stack, left);
                lemma_advance_nodes(s1);
            }
        } else if !lt_val(t, left) {
            if deplete_ok(s.stack, t) {
                lemma_deplete_nodes(s.stack, t);
            }
        }
    }
}

/// Consuming exactly the innermost remaining time advances past at least
/// one grouping, so a successful consumption leaves strictly fewer.
pub proof fn lemma_consume_exact_nodes(s: MState, t: Frac)
    requires
        s.stack.len() > 0,
        t == s.stack.last().left,
        t.n != 0,
    ensures
        consume_model(s, t) matches MOut::Done { s: s2, .. } ==> state_nodes(s2) < state_nodes(s),
{
    let left = s.stack.last().left;
    assert(!lt_val(left, t) && !lt_val(t, left));
    if deplete_ok(s.stack, t) {
        let s1 = MState { stack: deplete(s.stack, t), queue: s.queue };
        lemma_deplete_nodes(s.stack, t);
        lemma_advance_nodes(s1);
    }
}

/// Whatever else an advance pops, the innermost grouping comes out first.
pub proof fn lemma_advance_out_first(s: MState)
    ensures
        advance_model(s) matches MOut::Done { out, .. } ==> out.len() >= 1 && out[0]
            == s.stack.last().grouping,
{
}

/// Consuming exactly the time remaining in both the innermost grouping and
/// its enclosing measure reports the inner grouping's exhaustion before the
/// measure's in the returned sequence.
pub proof fn lemma_nested_exhaustion_order(s: MState, t: Frac)
    requires
        state_inv(s),
        s.stack.len() == 2,
        s.stack[0].grouping.is_empty(),
        t == s.stack[1].left,
        t.n != 0,
    ensures
        consume_model(s, t) matches MOut::Done { out, .. } ==> {
            &&& out.len() >= 2
            &&& out[0] == s.stack[1].grouping
            &&& out[1] == s.stack[0].grouping
        },
{
    let inner = s.stack[1];
    let outer = s.stack[0];
    assert(entry_ok(inner) && entry_ok(outer));
    // The enclosing level has exactly the same time left: it is tied to the
    // inner level, whose unentered children sum to zero.
    assert(linked(s.stack[0], s.stack[0int + 1]));
    assert(sum_of(outer.grouping.contents()) == frac_zero());
    lemma_add_zero(inner.left);
    assert(outer.left == t);
    let left = s.stack.last().left;
    assert(left == t);
    assert(!lt_val(left, t) && !lt_val(t, left));
    if deplete_ok(s.stack, t) {
        let d = deplete(s.stack, t);
        let s1 = MState { stack: d, queue: s.queue };
        lemma_sub_self(t);
        assert(d.len() == 2);
        assert(d[1] == CGV { left: frac_zero(), grouping: inner.grouping });
        assert(d[0] == CGV { left: frac_zero(), grouping: outer.grouping });
        assert(consume_model(s, t) == advance_model(s1));
        // The advance pops the exhausted inner grouping, finds the outer
        // level also empty with no time left, and pops it too.
        let stack1 = d.drop_last();
        assert(stack1.len() == 1 && stack1[0] == d[0]);
        let s2 = MState { stack: stack1, queue: s.queue };
        assert(advance_model(s1) == advance_examine(s2, inner.grouping));
        assert(stack1.last() == d[0]);
        assert(d[0].grouping.is_empty() && d[0].left.n == 0);
        lemma_advance_out_first(s2);
        match advance_model(s2) {
            MOut::Done { s: s3, out: out2 } => {
                assert(advance_examine(s2, inner.grouping) == (MOut::Done {
                    s: s3,
                    out: seq![inner.grouping] + out2,
                }));
                assert((seq![inner.grouping] + out2)[0] == inner.grouping);
                assert((seq![inner.grouping] + out2)[1] == out2[0]);
                assert(out2[0] == stack1.last().grouping);
            },
            _ => {
            },
        }
    }
}

/// A stack entry is consistent: remaining time reduced, every remaining
/// child fully well-formed.
pub open spec fn entry_ok(c: CGV) -> bool {
    &&& reduced(c.left)
    &&& all_wf(c.grouping.contents())
}

/// Adjacent stack levels tie together: the outer level's remaining time is
/// the inner level's plus the sum of the outer grouping's unentered
/// children.
pub open spec fn linked(parent: CGV, child: CGV) -> bool {
    &&& parent.grouping is Measure
    &&& parent.left == frac_add(child.left, sum_of(parent.grouping.contents()))
}

/// The controller invariant over the mathematical state.
pub open spec fn state_inv(s: MState) -> bool {
    &&& forall|i: int| 0 <= i < s.stack.len() ==> entry_ok(#[trigger] s.stack[i])
    &&& forall|i: int| 0 <= i < s.stack.len() - 1 ==> linked(s.stack[i], #[trigger] s.stack[i + 1])
    &&& forall|i: int| 0 <= i < s.queue.len() ==> (#[trigger] s.queue[i]).wf()
}

/// Sequence views distribute over concatenation.
pub proof fn lemma_gs_view_concat(a: Seq<Grouping>, b: Seq<Grouping>)
    ensures
        gs_view(a + b) == gs_view(a) + gs_view(b),
    decreases b.len(),
{
    lemma_gs_view_props(a);
    lemma_gs_view_props(b);
    lemma_gs_view_props(a + b);
    assert(gs_view(a + b) =~= gs_view(a) + gs_view(b));
}

/// Stack views respect push.
pub proof fn lemma_cgs_view_push(s: Seq<ControlledGrouping>, c: ControlledGrouping)
    ensures
        cgs_view(s.push(c)) == cgs_view(s).push(c@),
{
    assert(s.push(c).last() == c);
    assert(s.push(c).drop_last() =~= s);
}

/// Depleting a stack that meets the invariant keeps the invariant: every
/// remaining time stays reduced and adjacent levels stay tied together.
pub proof fn lemma_deplete_inv(stack: Seq<CGV>, t: Frac)
    requires
        forall|k: int| 0 <= k < stack.len() ==> entry_ok(#[trigger] stack[k]),
        forall|k: int| 0 <= k < stack.len() - 1 ==> linked(stack[k], #[trigger] stack[k + 1]),
        reduced(t),
        deplete_ok(stack, t),
    ensures
        forall|k: int| 0 <= k < stack.len() ==> entry_ok(#[trigger] deplete(stack, t)[k]),
        forall|k: int| 0 <= k < stack.len() - 1 ==> linked(
            deplete(stack, t)[k],
            #[trigger] deplete(stack, t)[k + 1],
        ),
{
    let d = deplete(stack, t);
    assert forall|k: int| 0 <= k < stack.len() implies entry_ok(#[trigger] d[k]) by {
        assert(entry_ok(stack[k]));
        assert(le_val(t, stack[k].left));
        lemma_frac_sub_props(stack[k].left, t);
    }
    assert forall|k: int| 0 <= k < stack.len() - 1 implies linked(d[k], #[trigger] d[k + 1]) by {
        assert(linked(stack[k], stack[k + 1]));
        assert(entry_ok(stack[k]));
        assert(entry_ok(stack[k + 1]));
        let cts = stack[k].grouping.contents();
        lemma_sum_of_reduced(cts);
        assert(le_val(t, stack[k + 1].left));
        lemma_sub_add_shuffle(stack[k].left, stack[k + 1].left, sum_of(cts), t);
    }
}

/// Restriction: a prefix of a well-formed forest is well-formed.
proof fn lemma_all_wf_drop_last(s: Seq<GroupingV>)
    requires
        all_wf(s),
        s.len() > 0,
    ensures
        all_wf(s.drop_last()),
{
    assert(forall|i: int| 0 <= i < s.drop_last().len() ==> s.drop_last()[i] == #[trigger] s[i]);
}

/// An advance keeps the controller invariant, provided the popped innermost
/// grouping had no time left.
pub proof fn lemma_advance_preserves_inv(s: MState)
    requires
        state_inv(s),
        s.stack.len() > 0 ==> s.stack.last().left == frac_zero(),
    ensures
        advance_model(s) matches MOut::Done { s: s2, .. } ==> state_inv(s2),
        advance_model(s) matches MOut::Failed { s: s2, .. } ==> state_inv(s2),
    decreases state_nodes(s), 5int,
{
    if s.stack.len() > 0 {
        let popped = s.stack.last();
        let stack1 = s.stack.drop_last();
        assert(forall|k: int| 0 <= k < stack1.len() ==> stack1[k] == #[trigger] s.stack[k]);
        if stack1.len() == 0 {
            if s.queue.len() > 0 {
                let g = s.queue.first();
                assert(g.wf());
                lemma_wf_parts(g);
                let s1 = MState { stack: stack1.push(enter(g)), queue: s.queue.drop_first() };
                assert(state_inv(s1)) by {
                    assert(s1.stack.len() == 1 && s1.stack[0] == enter(g));
                    assert(forall|k: int| 0 <= k < s1.queue.len() ==> s1.queue[k]
                        == #[trigger] s.queue[k + 1]);
                }
                assert(!g.is_empty() ==> g.duration() == sum_of(g.contents()));
                lemma_stack_nodes_push(stack1, enter(g));
                lemma_nodes_of_first(s.queue);
                lemma_nodes_pos(popped.grouping);
                lemma_examine_preserves_inv(s1, popped.grouping);
            }
        } else {
            let s1 = MState { stack: stack1, queue: s.queue };
            assert(state_inv(s1));
            lemma_nodes_pos(popped.grouping);
            let top = stack1.last();
            if !top.grouping.is_empty() {
                // The new top's remaining time is exactly the sum of its
                // unentered children: the link to the popped grouping,
                // whose time was zero.
                assert(linked(top, popped)) by {
                    let j = s.stack.len() - 2;
                    assert(linked(s.stack[j], s.stack[j + 1]));
                }
                assert(entry_ok(top));
                lemma_sum_of_reduced(top.grouping.contents());
                lemma_add_zero(sum_of(top.grouping.contents()));
                assert(top.left == sum_of(top.grouping.contents()));
            }
            lemma_examine_preserves_inv(s1, popped.grouping);
        }
    }
}

/// Examining the replenished top keeps the controller invariant, provided a
/// composite top's remaining time is the sum of its unentered children.
pub proof fn lemma_examine_preserves_inv(s: MState, popped: GroupingV)
    requires
        state_inv(s),
        s.stack.len() > 0,
        !s.stack.last().grouping.is_empty() ==> s.stack.last().left == sum_of(
            s.stack.last().grouping.contents(),
        ),
    ensures
        advance_examine(s, popped) matches MOut::Done { s: s2, .. } ==> state_inv(s2),
        advance_examine(s, popped) matches MOut::Failed { s: s2, .. } ==> state_inv(s2),
    decreases state_nodes(s), 6int,
{
    let top = s.stack.last();
    assert(entry_ok(top)) by {
        assert(entry_ok(s.stack[s.stack.len() - 1]));
    }
    if top.grouping.is_empty() {
        if top.left.n == 0 {
            lemma_zero_reduced(top.left);
            lemma_advance_preserves_inv(s);
        }
    } else {
        let cts = top.grouping.contents();
        let child = cts.last();
        assert(child.wf()) by {
            assert(cts[cts.len() - 1].wf());
        }
        lemma_wf_parts(child);
        let top2 = CGV {
            left: top.left,
            grouping: GroupingV::Measure { duration: top.grouping.duration(), contents: cts.drop_last() },
        };
        let stack2 = s.stack.drop_last().push(top2).push(enter(child));
        assert(state_inv(MState { stack: stack2, queue: s.queue })) by {
            assert(forall|k: int| 0 <= k < s.stack.len() - 1 ==> stack2[k] == #[trigger] s.stack[k]);
            assert(stack2[s.stack.len() - 1] == top2);
            assert(stack2[s.stack.len() as int] == enter(child));
            assert(stack2.len() == s.stack.len() + 1);
            // Every entry is consistent.
            lemma_all_wf_drop_last(cts);
            assert(entry_ok(top2));
            assert(entry_ok(enter(child)));
            // Links among untouched levels, to the modified top, and from
            // the modified top down to the entered child.
            assert(forall|k: int| 0 <= k < s.stack.len() - 2 ==> linked(
                s.stack[k],
                #[trigger] s.stack[k + 1],
            ));
            if s.stack.len() >= 2 {
                let j = s.stack.len() - 2;
                assert(linked(s.stack[j], s.stack[j + 1]));
                assert(stack2[j] == s.stack[j]);
                assert(linked(stack2[j], top2));
            }
            assert(sum_of(cts) == frac_add(child.duration(), sum_of(cts.drop_last())));
            assert(linked(top2, enter(child)));
            assert forall|k: int| 0 <= k < stack2.len() - 1 implies linked(
                stack2[k],
                #[trigger] stack2[k + 1],
            ) by {
                if k < s.stack.len() - 2 {
                    assert(linked(s.stack[k], s.stack[k + 1]));
                }
            }
        }
    }
}

/// Consuming time keeps the controller invariant.
pub proof fn lemma_consume_preserves_inv(s: MState, t: Frac)
    requires
        state_inv(s),
        reduced(t),
    ensures
        consume_model(s, t) matches MOut::Done { s: s2, .. } ==> state_inv(s2),
        consume_model(s, t) matches MOut::Failed { s: s2, .. } ==> state_inv(s2),
    decreases state_nodes(s), 7int,
{
    if t.n != 0 && s.stack.len() > 0 {
        let left = s.stack.last().left;
        assert(entry_ok(s.stack[s.stack.len() - 1]));
        if lt_val(left, t) {
            if deplete_ok(s.stack, left) && frac_fits(frac_sub(t, left)) {
                let d = deplete(s.stack, left);
                let s1 = MState { stack: d, queue: s.queue };
                lemma_deplete_inv(s.stack, left);
                assert(state_inv(s1));
                assert(d.last().left == frac_sub(left, left));
                lemma_sub_self(left);
                lemma_advance_preserves_inv(s1);
                lemma_deplete_nodes(s.stack, left);
                match advance_model(s1) {
                    MOut::Done { s: s2, out: _ } => {
                        lemma_advance_nodes(s1);
                        assert(le_val(left, t));
                        lemma_frac_sub_props(t, left);
                        lemma_consume_preserves_inv(s2, frac_sub(t, left));
                    },
                    _ => {
                    },
                }
            }
        } else if lt_val(t, left) {
            if deplete_ok(s.stack, t) {
                lemma_deplete_inv(s.stack, t);
            }
        } else {
            if deplete_ok(s.stack, t) {
                let d = deplete(s.stack, t);
                let s1 = MState { stack: d, queue: s.queue };
                lemma_deplete_inv(s.stack, t);
                assert(state_inv(s1));
                assert(d.last().left == frac_sub(left, t));
                assert(frac_sub(left, t).n == 0) by {
                    assert(eq_val(left, t));
                    lemma_frac_sub_props(left, t);
                    assert(crate::arith::sub_val(left, t).n == 0);
                    lemma_zero_reduced(frac_sub(left, t));
                }
                lemma_zero_reduced(frac_sub(left, t));
                lemma_advance_preserves_inv(s1);
            }
        }
    }
}

/// The controller state produced by construction: the first top-level
/// grouping is entered with its full duration, and one level of its first
/// subdivision, if any, is entered below it.
pub open spec fn init_model(gs: Seq<GroupingV>) -> MState {
    let g = gs.first();
    let queue = gs.drop_first();
    if g.is_empty() {
        MState { stack: seq![enter(g)], queue }
    } else {
        let child = g.contents().last();
        let g2 = GroupingV::Measure { duration: g.duration(), contents: g.contents().drop_last() };
        MState { stack: seq![CGV { left: g.duration(), grouping: g2 }, enter(child)], queue }
    }
}

/// The grouping controller: a stack of the groupings currently being
/// consumed, outermost first, and the queue of top-level groupings not yet
/// entered.
pub struct GroupingController {
    pub stack: Vec<ControlledGrouping>,
    pub queue: Vec<Grouping>,
}

impl GroupingController {
    /// The mathematical state of the controller.
    pub open spec fn state(self) -> MState {
        MState { stack: cgs_view(self.stack@), queue: gs_view(self.queue@) }
    }

    /// The controller invariant.
    pub open spec fn inv(self) -> bool {
        state_inv(self.state())
    }

    /// Construct a controller over the given top-level groupings, in
    /// playback order; fails exactly when none is supplied.
    pub fn new(groupings: Vec<Grouping>) -> (r: Result<GroupingController, Error>)
        requires
            forall|i: int| 0 <= i < groupings@.len() ==> (#[trigger] groupings@[i]).wf(),
        ensures
            match r {
                Err(e) => e == Error::ConstructionError && groupings@.len() == 0,
                Ok(c) => {
                    &&& groupings@.len() > 0
                    &&& c.inv()
                    &&& c.state() == init_model(gs_view(groupings@))
                },
            },
    {
        let ghost gs0 = gs_view(groupings@);
        proof {
            lemma_gs_view_props(groupings@);
        }
        let mut queue = groupings;
        if queue.len() == 0 {
            return Err(Error::ConstructionError);
        }
        let mut current_grouping = queue.remove(0);
        proof {
            lemma_gs_view_props(queue@);
            assert(gs_view(queue@) =~= gs0.drop_first());
            assert(g_view(current_grouping) == gs0.first());
        }
        let count_left = current_grouping.duration();
        let sub = current_grouping.next();
        let mut stack: Vec<ControlledGrouping> = Vec::new();
        let ghost g0 = gs0.first();
        stack.push(ControlledGrouping { left: count_left, grouping: current_grouping });
        proof {
            lemma_cgs_view_push(Seq::empty(), ControlledGrouping { left: count_left, grouping: current_grouping });
            assert(cgs_view(Seq::<ControlledGrouping>::empty()) =~= Seq::<CGV>::empty());
        }
        match sub {
            Some(sub_grouping) => {
                let d = sub_grouping.duration();
                proof {
                    lemma_cgs_view_push(stack@, ControlledGrouping { left: d, grouping: sub_grouping });
                }
                stack.push(ControlledGrouping { left: d, grouping: sub_grouping });
            },
            None => {},
        }
        let r = GroupingController { stack, queue };
        proof {
            let st = r.state();
            assert(st.queue == gs0.drop_first());
            if g0.is_empty() {
                assert(st.stack =~= seq![enter(g0)]);
            } else {
                let child = g0.contents().last();
                let g2 = GroupingV::Measure {
                    duration: g0.duration(),
                    contents: g0.contents().drop_last(),
                };
                assert(st.stack =~= seq![CGV { left: g0.duration(), grouping: g2 }, enter(child)]);
                // The link between the entered grouping and its first
                // subdivision: the full duration is the subdivision's
                // duration plus the sum of the others.
                assert(g0.wf());
                lemma_wf_parts(g0);
                assert(g0.duration() == sum_of(g0.contents()));
                assert(g0.contents()[g0.contents().len() - 1].wf());
                assert(child.wf());
                lemma_wf_parts(child);
                lemma_wf_duration_reduced(child);
                assert(forall|k: int| 0 <= k < g0.contents().len() - 1
                    ==> g2.contents()[k] == #[trigger] g0.contents()[k]);
            }
            assert(st == init_model(gs0));
            assert(r.inv());
        }
        Ok(r)
    }

    /// The innermost grouping currently being consumed.
    pub fn current(&self) -> (r: Result<&ControlledGrouping, Error>)
        ensures
            match r {
                Ok(cg) => {
                    &&& self.stack@.len() > 0
                    &&& *cg == self.stack@.last()
                    &&& cg@ == self.state().stack.last()
                },
                Err(e) => e == Error::InvariantViolation && self.stack@.len() == 0,
            },
    {
        proof {
            lemma_cgs_view_props(self.stack@);
        }
        if self.stack.len() == 0 {
            Err(Error::InvariantViolation)
        } else {
            let i = self.stack.len() - 1;
            Ok(&self.stack[i])
        }
    }

    /// Subtract a span of time from every active level in lockstep.
    fn deplete_time(&mut self, time: Duration)
        requires
            time.wf(),
            forall|k: int| 0 <= k < old(self).state().stack.len() ==> reduced(
                (#[trigger] old(self).state().stack[k]).left,
            ),
            deplete_ok(old(self).state().stack, time@),
        ensures
            final(self).state().stack == deplete(old(self).state().stack, time@),
            final(self).state().queue == old(self).state().queue,
    {
        proof {
            lemma_cgs_view_props(old(self).stack@);
            assert forall|k: int| 0 <= k < old(self).stack@.len() implies reduced(
                (#[trigger] old(self).stack@[k])@.left,
            ) by {
                assert(old(self).state().stack[k] == old(self).stack@[k]@);
            }
        }
        let ghost stack0 = self.stack@;
        let n = self.stack.len();
        let mut i: usize = 0;
        while i < n
            invariant
                0 <= i <= n,
                n == self.stack@.len(),
                n == stack0.len(),
                time.wf(),
                self.queue == old(self).queue,
                stack0 == old(self).stack@,
                forall|k: int| 0 <= k < stack0.len() ==> reduced((#[trigger] stack0[k])@.left),
                deplete_ok(cgs_view(stack0), time@),
                cgs_view(stack0).len() == n,
                forall|k: int| 0 <= k < stack0.len() ==> cgs_view(stack0)[k] == stack0[k]@,
                forall|k: int| i <= k < n ==> self.stack@[k] == #[trigger] stack0[k],
                forall|k: int| 0 <= k < i ==> (#[trigger] self.stack@[k]).grouping
                    == stack0[k].grouping && self.stack@[k].left@ == frac_sub(
                    stack0[k]@.left,
                    time@,
                ),
            decreases n - i,
        {
            proof {
                assert(cgs_view(stack0)[i as int] == stack0[i as int]@);
                assert(le_val(time@, stack0[i as int]@.left));
                assert(frac_fits(frac_sub(stack0[i as int]@.left, time@)));
                assert(self.stack@[i as int] == stack0[i as int]);
            }
            let new_left = self.stack[i].left.sub(time);
            let cg = &mut self.stack[i];
            cg.left = new_left;
            i = i + 1;
        }
        proof {
            lemma_cgs_view_props(self.stack@);
            assert(cgs_view(self.stack@) =~= deplete(cgs_view(stack0), time@));
        }
    }

    /// Pop the exhausted innermost grouping and replenish the stack: from
    /// the queue if the stack emptied, then descend one level into the new
    /// top, or pop that too if it is exhausted with no time left.  Returns
    /// what was exhausted, innermost first.
    fn advance_grouping(&mut self) -> (r: Result<Vec<Grouping>, Error>)
        ensures
            match r {
                Ok(v) => advance_model(old(self).state()) == (MOut::Done {
                    s: final(self).state(),
                    out: gs_view(v@),
                }),
                Err(e) => advance_model(old(self).state()) == (MOut::Failed {
                    err: e,
                    s: final(self).state(),
                }),
            },
        decreases state_nodes(self.state()),
    {
        let ghost s0 = self.state();
        let ghost stack_pre = self.stack@;
        let popped_cg = match self.stack.pop() {
            None => {
                return Err(Error::InvariantViolation);
            },
            Some(cg) => cg,
        };
        proof {
            assert(self.stack@ =~= stack_pre.drop_last());
            assert(cgs_view(self.stack@) == s0.stack.drop_last());
            assert(popped_cg@ == s0.stack.last());
            lemma_stack_nodes_push(cgs_view(self.stack@), popped_cg@);
            assert(s0.stack =~= cgs_view(self.stack@).push(popped_cg@));
            lemma_nodes_pos(popped_cg@.grouping);
        }
        let mut out: Vec<Grouping> = Vec::new();
        out.push(popped_cg.grouping);
        proof {
            lemma_gs_view_props(out@);
            assert(gs_view(out@) =~= seq![g_view(popped_cg.grouping)]);
        }
        if self.stack.len() == 0 {
            if self.queue.len() == 0 {
                return Err(Error::StructureExhausted);
            }
            let ghost queue_pre = self.queue@;
            let g = self.queue.remove(0);
            proof {
                lemma_gs_view_props(queue_pre);
                lemma_gs_view_props(self.queue@);
                assert(self.queue@ =~= queue_pre.drop_first());
                assert(gs_view(self.queue@) =~= s0.queue.drop_first());
                assert(g_view(g) == s0.queue.first());
            }
            let d = g.duration();
            proof {
                lemma_cgs_view_push(self.stack@, ControlledGrouping { left: d, grouping: g });
                assert(cgs_view(self.stack@) =~= Seq::<CGV>::empty());
            }
            self.stack.push(ControlledGrouping { left: d, grouping: g });
            proof {
                assert(cgs_view(self.stack@) =~= seq![enter(g_view(g))]);
                lemma_nodes_of_first(s0.queue);
                lemma_stack_nodes_push(Seq::<CGV>::empty(), enter(g_view(g)));
                assert(stack_nodes(cgs_view(self.stack@)) == g_view(g).nodes());
            }
        }
        let ghost s1 = self.state();
        proof {
            lemma_cgs_view_props(self.stack@);
        }
        let idx = self.stack.len() - 1;
        let top_empty = self.stack[idx].grouping.is_empty();
        proof {
            assert(self.stack@[idx as int]@ == s1.stack.last());
        }
        if top_empty {
            if self.stack[idx].left.is_zero() {
                proof {
                    assert(state_nodes(s1) < state_nodes(s0));
                }
                let rest_r = self.advance_grouping();
                match rest_r {
                    Ok(mut rest) => {
                        proof {
                            lemma_gs_view_concat(out@, rest@);
                        }
                        out.append(&mut rest);
                        Ok(out)
                    },
                    Err(e) => Err(e),
                }
            } else {
                Ok(out)
            }
        } else {
            let mut top = match self.stack.pop() {
                Some(cg) => cg,
                None => {
                    // The stack was replenished above, so it cannot be empty.
                    proof {
                        assert(false);
                    }
                    return Err(Error::InvariantViolation);
                },
            };
            let ghost stack_mid = self.stack@;
            proof {
                assert(stack_mid =~= self.stack@);
                assert(cgs_view(stack_mid) == s1.stack.drop_last());
                assert(top@ == s1.stack.last());
            }
            let child = match top.grouping.next() {
                Some(c) => c,
                None => {
                    // The top was just found non-empty, so a subdivision exists.
                    proof {
                        assert(false);
                    }
                    return Err(Error::InvariantViolation);
                },
            };
            let d = child.duration();
            proof {
                lemma_cgs_view_push(self.stack@, top);
            }
            self.stack.push(top);
            proof {
                lemma_cgs_view_push(self.stack@, ControlledGrouping { left: d, grouping: child });
            }
            self.stack.push(ControlledGrouping { left: d, grouping: child });
            proof {
                let topv = s1.stack.last();
                let top2 = CGV {
                    left: topv.left,
                    grouping: GroupingV::Measure {
                        duration: topv.grouping.duration(),
                        contents: topv.grouping.contents().drop_last(),
                    },
                };
                assert(cgs_view(self.stack@) =~= s1.stack.drop_last().push(top2).push(
                    enter(g_view(child)),
                ));
                assert(g_view(child) == topv.grouping.contents().last());
            }
            Ok(out)
        }
    }

    /// Consume a span of time from the controller: deplete every active
    /// level in lockstep, advancing past each grouping this exhausts, and
    /// return the exhausted groupings, innermost first.  Fails with
    /// `StructureExhausted` when more time is requested than the remaining
    /// groupings can supply.
    pub fn consume_time(&mut self, time: Duration) -> (r: Result<Vec<Grouping>, Error>)
        requires
            old(self).inv(),
            time.wf(),
            !(consume_model(old(self).state(), time@) is Unrepresentable),
        ensures
            final(self).inv(),
            match r {
                Ok(v) => consume_model(old(self).state(), time@) == (MOut::Done {
                    s: final(self).state(),
                    out: gs_view(v@),
                }),
                Err(e) => consume_model(old(self).state(), time@) == (MOut::Failed {
                    err: e,
                    s: final(self).state(),
                }),
            },
        decreases state_nodes(self.state()),
    {
        let ghost s0 = self.state();
        proof {
            lemma_consume_preserves_inv(s0, time@);
            lemma_cgs_view_props(self.stack@);
        }
        if time.is_zero() {
            let out: Vec<Grouping> = Vec::new();
            proof {
                assert(gs_view(out@) =~= Seq::<GroupingV>::empty());
            }
            return Ok(out);
        }
        if self.stack.len() == 0 {
            return Err(Error::InvariantViolation);
        }
        let idx = self.stack.len() - 1;
        let left = self.stack[idx].left;
        proof {
            assert(self.stack@[idx as int]@ == s0.stack.last());
            assert(left@ == s0.stack.last().left);
            assert(entry_ok(s0.stack[idx as int]));
            assert(reduced(left@));
        }
        if left < time {
            proof {
                assert(lt_val(left@, time@));
                assert(deplete_ok(s0.stack, left@) && frac_fits(frac_sub(time@, left@)));
                assert forall|k: int| 0 <= k < s0.stack.len() implies reduced(
                    (#[trigger] s0.stack[k]).left,
                ) by {
                    assert(entry_ok(s0.stack[k]));
                }
            }
            let time2 = time.sub(left);
            self.deplete_time(left);
            let ghost s1 = MState { stack: deplete(s0.stack, left@), queue: s0.queue };
            proof {
                assert(self.state() == s1);
                lemma_deplete_inv(s0.stack, left@);
                assert(state_inv(s1));
                assert(s1.stack.last().left == frac_sub(left@, left@));
                lemma_sub_self(left@);
                lemma_advance_preserves_inv(s1);
                lemma_deplete_nodes(s0.stack, left@);
                lemma_advance_nodes(s1);
            }
            let adv = self.advance_grouping();
            match adv {
                Ok(mut out) => {
                    proof {
                        lemma_frac_sub_props(time@, left@);
                    }
                    let rest_r = self.consume_time(time2);
                    match rest_r {
                        Ok(mut rest) => {
                            proof {
                                lemma_gs_view_concat(out@, rest@);
                            }
                            out.append(&mut rest);
                            Ok(out)
                        },
                        Err(e) => Err(e),
                    }
                },
                Err(e) => Err(e),
            }
        } else if time < left {
            proof {
                assert(lt_val(time@, left@));
                assert(deplete_ok(s0.stack, time@));
                assert forall|k: int| 0 <= k < s0.stack.len() implies reduced(
                    (#[trigger] s0.stack[k]).left,
                ) by {
                    assert(entry_ok(s0.stack[k]));
                }
            }
            self.deplete_time(time);
            let out: Vec<Grouping> = Vec::new();
            proof {
                assert(gs_view(out@) =~= Seq::<GroupingV>::empty());
            }
            Ok(out)
        } else {
            proof {
                assert(!lt_val(left@, time@) && !lt_val(time@, left@));
                assert(eq_val(left@, time@));
                assert(deplete_ok(s0.stack, time@));
                assert forall|k: int| 0 <= k < s0.stack.len() implies reduced(
                    (#[trigger] s0.stack[k]).left,
                ) by {
                    assert(entry_ok(s0.stack[k]));
                }
            }
            self.deplete_time(time);
            let ghost s1 = MState { stack: deplete(s0.stack, time@), queue: s0.queue };
            proof {
                assert(self.state() == s1);
                lemma_deplete_nodes(s0.stack, time@);
            }
            self.advance_grouping()
        }
    }
}

} // verus!

