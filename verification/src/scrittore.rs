//! Rendering a stream of notes as notation text.
//!
//! The formatter walks a sequence of notes against a
//! [`GroupingController`]: a note that fits inside the innermost active
//! grouping is emitted whole; one that overflows it is split at every
//! rhythmic boundary it crosses into fragments joined by tie markers, with
//! each exhausted grouping's end annotation (a barline, for a measure)
//! interleaved at exactly the boundary it closes.

use vstd::prelude::*;

verus! {

use crate::{Duration, Error, notation_spec};
use crate::arith::{Frac, frac_sub, frac_fits, le_val, lt_val};
use crate::notes::Note;
use crate::sequenza::{
    GroupingController, GroupingV, CGV, MState, MOut, consume_model, state_nodes,
    lemma_consume_exact_nodes, entry_ok, g_view, gs_view, lemma_cgs_view_props,
    lemma_gs_view_props,
};
use vstd::string::StringExecFns;

/// A homogeneous collection of notes.
pub struct Notes<N> {
    data: Vec<N>,
}

impl<N: Note> Notes<N> {
    /// The notes, in order.
    pub closed spec fn notes(self) -> Seq<N> {
        self.data@
    }

    /// Collect notes for formatting.
    pub fn new(notes: Vec<N>) -> (r: Notes<N>)
        ensures
            r.notes() == notes@,
    {
        Notes { data: notes }
    }
}

/// The outcome of a formatting step: the rendered text with the state it
/// leaves, a failure with the state it leaves, or a value outside the
/// machine-word range.
pub ghost enum FOut {
    Done { s: MState, out: Seq<char> },
    Failed { err: Error, s: MState },
    Unrepresentable,
}

/// The start annotations owed before a note: one for every active grouping
/// standing at the very start of its span, outermost first.
pub open spec fn starts_text(stack: Seq<CGV>) -> Seq<char>
    decreases stack.len(),
{
    if stack.len() == 0 {
        Seq::empty()
    } else {
        starts_text(stack.drop_last()) + (if stack.last().left == stack.last().grouping.duration() {
            stack.last().grouping.start_annotation()
        } else {
            Seq::empty()
        })
    }
}

/// The end annotations of a run of exhausted groupings, in the order they
/// were exhausted.
pub open spec fn ends_text(ex: Seq<GroupingV>) -> Seq<char>
    decreases ex.len(),
{
    if ex.len() == 0 {
        Seq::empty()
    } else {
        ends_text(ex.drop_last()) + ex.last().end_annotation()
    }
}

/// Format the remainder of a note after its first fragment: while the
/// innermost remaining time fits in what is left of the note, emit a tied
/// continuation fragment of that length and consume it; a final remainder
/// is emitted with the notation of the current remaining time, unconsumed.
pub open spec fn format_tail_model(s: MState, text: Seq<char>, d: Frac) -> FOut
    decreases state_nodes(s),
    via format_tail_model_dec
{
    if s.stack.len() == 0 {
        FOut::Failed { err: Error::InvariantViolation, s }
    } else {
        let left = s.stack.last().left;
        if le_val(left, d) {
            match notation_spec(left) {
                None => FOut::Failed { err: Error::UnsupportedDurationNotation, s },
                Some(tok) => {
                    if !frac_fits(frac_sub(d, left)) {
                        FOut::Unrepresentable
                    } else {
                        let d2 = frac_sub(d, left);
                        let tie: Seq<char> = if d2.n > 0 {
                            " ~ "@
                        } else {
                            Seq::empty()
                        };
                        match consume_model(s, left) {
                            MOut::Done { s: s2, out: ex } => match format_tail_model(s2, text, d2) {
                                FOut::Done { s: s3, out: out3 } => FOut::Done {
                                    s: s3,
                                    out: text + tok + tie + ends_text(ex) + out3,
                                },
                                FOut::Failed { err, s: s3 } => FOut::Failed { err, s: s3 },
                                FOut::Unrepresentable => FOut::Unrepresentable,
                            },
                            MOut::Failed { err, s: s2 } => FOut::Failed { err, s: s2 },
                            MOut::Unrepresentable => FOut::Unrepresentable,
                        }
                    }
                },
            }
        } else {
            if d.n > 0 {
                match notation_spec(left) {
                    None => FOut::Failed { err: Error::UnsupportedDurationNotation, s },
                    Some(tok) => FOut::Done { s, out: text + tok },
                }
            } else {
                FOut::Done { s, out: Seq::empty() }
            }
        }
    }
}

#[via_fn]
proof fn format_tail_model_dec(s: MState, text: Seq<char>, d: Frac) {
    if s.stack.len() > 0 {
        let left = s.stack.last().left;
        if le_val(left, d) && notation_spec(left) is Some {
            lemma_consume_exact_nodes(s, left);
        }
    }
}

/// Format one note against the controller: the start annotations owed, then
/// either the whole note if it fits the innermost active grouping, or a
/// first fragment of the remaining time followed by tied continuations
/// across every boundary crossed, with exhausted groupings' end annotations
/// interleaved.
pub open spec fn format_note_model(s: MState, text: Seq<char>, annot: Seq<char>, d: Frac) -> FOut {
    let pre = starts_text(s.stack);
    if s.stack.len() == 0 {
        FOut::Failed { err: Error::InvariantViolation, s }
    } else {
        let left = s.stack.last().left;
        if lt_val(left, d) {
            match notation_spec(left) {
                None => FOut::Failed { err: Error::UnsupportedDurationNotation, s },
                Some(tok) => {
                    let head = pre + text + tok + annot + " ~ "@;
                    match consume_model(s, left) {
                        MOut::Done { s: s2, out: ex } => {
                            if !frac_fits(frac_sub(d, left)) {
                                FOut::Unrepresentable
                            } else {
                                match format_tail_model(s2, text, frac_sub(d, left)) {
                                    FOut::Done { s: s3, out: out3 } => FOut::Done {
                                        s: s3,
                                        out: head + ends_text(ex) + out3,
                                    },
                                    FOut::Failed { err, s: s3 } => FOut::Failed { err, s: s3 },
                                    FOut::Unrepresentable => FOut::Unrepresentable,
                                }
                            }
                        },
                        MOut::Failed { err, s: s2 } => FOut::Failed { err, s: s2 },
                        MOut::Unrepresentable => FOut::Unrepresentable,
                    }
                },
            }
        } else {
            match notation_spec(d) {
                None => FOut::Failed { err: Error::UnsupportedDurationNotation, s },
                Some(tok) => match consume_model(s, d) {
                    MOut::Done { s: s2, out: ex } => FOut::Done {
                        s: s2,
                        out: pre + text + tok + annot + ends_text(ex),
                    },
                    MOut::Failed { err, s: s2 } => FOut::Failed { err, s: s2 },
                    MOut::Unrepresentable => FOut::Unrepresentable,
                },
            }
        }
    }
}

/// Format a stream of notes, joining the rendered notes with single spaces.
pub open spec fn format_notes_model<N: Note>(s: MState, notes: Seq<N>) -> FOut
    decreases notes.len(),
{
    if notes.len() == 0 {
        FOut::Done { s, out: Seq::empty() }
    } else {
        match format_note_model(
            s,
            notes[0].text_spec(),
            notes[0].annotations_spec(),
            notes[0].duration_spec()@,
        ) {
            FOut::Done { s: s2, out: out1 } => match format_notes_model(s2, notes.drop_first()) {
                FOut::Done { s: s3, out: out2 } => FOut::Done {
                    s: s3,
                    out: if notes.len() == 1 {
                        out1
                    } else {
                        out1 + " "@ + out2
                    },
                },
                FOut::Failed { err, s: s3 } => FOut::Failed { err, s: s3 },
                FOut::Unrepresentable => FOut::Unrepresentable,
            },
            FOut::Failed { err, s: s2 } => FOut::Failed { err, s: s2 },
            FOut::Unrepresentable => FOut::Unrepresentable,
        }
    }
}

/// Format the remainder of a note after its first fragment: tied
/// continuation fragments while the innermost remaining time fits, then a
/// final unconsumed remainder, if any, with the notation of the current
/// remaining time.
fn format_note_tail<N: Note>(note: &N, dur: Duration, controller: &mut GroupingController) -> (r:
    Result<String, Error>)
    requires
        old(controller).inv(),
        note.renderable(),
        dur.wf(),
        !(format_tail_model(old(controller).state(), note.text_spec(), dur@)
            is Unrepresentable),
    ensures
        final(controller).inv(),
        match r {
            Ok(out) => format_tail_model(old(controller).state(), note.text_spec(), dur@)
                == (FOut::Done { s: final(controller).state(), out: out@ }),
            Err(e) => format_tail_model(old(controller).state(), note.text_spec(), dur@)
                == (FOut::Failed { err: e, s: final(controller).state() }),
        },
    decreases state_nodes(controller.state()),
{
    let ghost s0 = controller.state();
    proof {
        lemma_cgs_view_props(controller.stack@);
    }
    if controller.stack.len() == 0 {
        return Err(Error::InvariantViolation);
    }
    let idx = controller.stack.len() - 1;
    let left = controller.stack[idx].left;
    proof {
        assert(left@ == s0.stack.last().left);
        assert(entry_ok(s0.stack[idx as int]));
    }
    if left <= dur {
        let tok = match left.render_notation() {
            Ok(t) => t,
            Err(e) => {
                return Err(e);
            },
        };
        let mut out = note.text();
        out.append(tok.as_str());
        let dur2 = dur.sub(left);
        if !dur2.is_zero() {
            proof {
                reveal_strlit(" ~ ");
            }
            out.append(" ~ ");
        }
        proof {
            lemma_consume_exact_nodes(s0, left@);
        }
        let ex = match controller.consume_time(left) {
            Ok(v) => v,
            Err(e) => {
                return Err(e);
            },
        };
        let ghost exv = gs_view(ex@);
        let ghost head = out@;
        proof {
            lemma_gs_view_props(ex@);
        }
        let k = ex.len();
        let mut j: usize = 0;
        while j < k
            invariant
                0 <= j <= k,
                k == ex@.len(),
                exv == gs_view(ex@),
                exv.len() == k,
                forall|q: int| 0 <= q < k ==> exv[q] == g_view(ex@[q]),
                out@ == head + ends_text(exv.subrange(0, j as int)),
            decreases k - j,
        {
            let ann = ex[j].end_annotation();
            out.append(ann);
            proof {
                let pref = exv.subrange(0, j as int + 1);
                assert(pref.drop_last() =~= exv.subrange(0, j as int));
                assert(pref.last() == exv[j as int]);
                assert(out@ =~= head + ends_text(pref));
            }
            j = j + 1;
        }
        proof {
            assert(exv.subrange(0, k as int) =~= exv);
        }
        let rest = match format_note_tail(note, dur2, controller) {
            Ok(t) => t,
            Err(e) => {
                return Err(e);
            },
        };
        out.append(rest.as_str());
        Ok(out)
    } else {
        if !dur.is_zero() {
            let tok = match left.render_notation() {
                Ok(t) => t,
                Err(e) => {
                    return Err(e);
                },
            };
            let mut out = note.text();
            out.append(tok.as_str());
            Ok(out)
        } else {
            let out = String::new();
            proof {
                assert(out@ =~= Seq::<char>::empty());
            }
            Ok(out)
        }
    }
}

/// Format one note against the controller, splitting it across every
/// rhythmic boundary it crosses into fragments joined by tie markers, and
/// interleaving grouping annotations at the boundaries.
pub fn format_note<N: Note>(note: &N, controller: &mut GroupingController) -> (r: Result<
    String,
    Error,
>)
    requires
        old(controller).inv(),
        note.renderable(),
        note.duration_spec().wf(),
        !(format_note_model(
            old(controller).state(),
            note.text_spec(),
            note.annotations_spec(),
            note.duration_spec()@,
        ) is Unrepresentable),
    ensures
        final(controller).inv(),
        match r {
            Ok(out) => format_note_model(
                old(controller).state(),
                note.text_spec(),
                note.annotations_spec(),
                note.duration_spec()@,
            ) == (FOut::Done { s: final(controller).state(), out: out@ }),
            Err(e) => format_note_model(
                old(controller).state(),
                note.text_spec(),
                note.annotations_spec(),
                note.duration_spec()@,
            ) == (FOut::Failed { err: e, s: final(controller).state() }),
        },
{
    let ghost s0 = controller.state();
    proof {
        lemma_cgs_view_props(controller.stack@);
    }
    let mut out = String::new();
    let n = controller.stack.len();
    let mut i: usize = 0;
    // Start annotations of every active grouping standing at the start of
    // its span, outermost first.
    while i < n
        invariant
            0 <= i <= n,
            n == controller.stack@.len(),
            controller.stack@ == old(controller).stack@,
            controller.queue@ == old(controller).queue@,
            s0 == old(controller).state(),
            s0.stack.len() == n,
            forall|q: int| 0 <= q < n ==> s0.stack[q] == (#[trigger] controller.stack@[q])@,
            out@ == starts_text(s0.stack.subrange(0, i as int)),
        decreases n - i,
    {
        let is_start = controller.stack[i].is_start_of_grouping();
        if is_start {
            let ann = controller.stack[i].grouping.start_annotation();
            out.append(ann);
        }
        proof {
            let pref = s0.stack.subrange(0, i as int + 1);
            assert(pref.drop_last() =~= s0.stack.subrange(0, i as int));
            assert(pref.last() == s0.stack[i as int]);
            assert(out@ =~= starts_text(pref));
        }
        i = i + 1;
    }
    proof {
        assert(s0.stack.subrange(0, n as int) =~= s0.stack);
    }
    if controller.stack.len() == 0 {
        return Err(Error::InvariantViolation);
    }
    let idx = controller.stack.len() - 1;
    let left = controller.stack[idx].left;
    proof {
        assert(left@ == s0.stack.last().left);
        assert(entry_ok(s0.stack[idx as int]));
    }
    let dur = note.duration();
    if left < dur {
        // The note overflows the innermost active grouping: a first
        // fragment of the remaining time, tied to what follows.
        let tok = match left.render_notation() {
            Ok(t) => t,
            Err(e) => {
                return Err(e);
            },
        };
        let text = note.text();
        out.append(text.as_str());
        out.append(tok.as_str());
        out.append(note.annotations());
        proof {
            reveal_strlit(" ~ ");
        }
        out.append(" ~ ");
        let ex = match controller.consume_time(left) {
            Ok(v) => v,
            Err(e) => {
                return Err(e);
            },
        };
        let ghost exv = gs_view(ex@);
        let ghost head = out@;
        proof {
            lemma_gs_view_props(ex@);
        }
        let k = ex.len();
        let mut j: usize = 0;
        while j < k
            invariant
                0 <= j <= k,
                k == ex@.len(),
                exv == gs_view(ex@),
                exv.len() == k,
                forall|q: int| 0 <= q < k ==> exv[q] == g_view(ex@[q]),
                out@ == head + ends_text(exv.subrange(0, j as int)),
            decreases k - j,
        {
            let ann = ex[j].end_annotation();
            out.append(ann);
            proof {
                let pref = exv.subrange(0, j as int + 1);
                assert(pref.drop_last() =~= exv.subrange(0, j as int));
                assert(pref.last() == exv[j as int]);
                assert(out@ =~= head + ends_text(pref));
            }
            j = j + 1;
        }
        proof {
            assert(exv.subrange(0, k as int) =~= exv);
        }
        let dur2 = dur.sub(left);
        let tail = match format_note_tail(note, dur2, controller) {
            Ok(t) => t,
            Err(e) => {
                return Err(e);
            },
        };
        out.append(tail.as_str());
        Ok(out)
    } else {
        // The note fits entirely within the current grouping.
        let tok = match dur.render_notation() {
            Ok(t) => t,
            Err(e) => {
                return Err(e);
            },
        };
        let text = note.text();
        out.append(text.as_str());
        out.append(tok.as_str());
        out.append(note.annotations());
        let ex = match controller.consume_time(dur) {
            Ok(v) => v,
            Err(e) => {
                return Err(e);
            },
        };
        let ghost exv = gs_view(ex@);
        let ghost head = out@;
        proof {
            lemma_gs_view_props(ex@);
        }
        let k = ex.len();
        let mut j: usize = 0;
        while j < k
            invariant
                0 <= j <= k,
                k == ex@.len(),
                exv == gs_view(ex@),
                exv.len() == k,
                forall|q: int| 0 <= q < k ==> exv[q] == g_view(ex@[q]),
                out@ == head + ends_text(exv.subrange(0, j as int)),
            decreases k - j,
        {
            let ann = ex[j].end_annotation();
            out.append(ann);
            proof {
                let pref = exv.subrange(0, j as int + 1);
                assert(pref.drop_last() =~= exv.subrange(0, j as int));
                assert(pref.last() == exv[j as int]);
                assert(out@ =~= head + ends_text(pref));
            }
            j = j + 1;
        }
        proof {
            assert(exv.subrange(0, k as int) =~= exv);
        }
        Ok(out)
    }
}

/// Format a stream of notes in order, joining the rendered notes with
/// single spaces.
fn format_notes_from<N: Note>(
    notes: &Vec<N>,
    i: usize,
    controller: &mut GroupingController,
) -> (r: Result<String, Error>)
    requires
        i <= notes@.len(),
        old(controller).inv(),
        forall|k: int| i <= k < notes@.len() ==> (#[trigger] notes@[k]).renderable()
            && notes@[k].duration_spec().wf(),
        !(format_notes_model(old(controller).state(), notes@.skip(i as int))
            is Unrepresentable),
    ensures
        final(controller).inv(),
        match r {
            Ok(out) => format_notes_model(old(controller).state(), notes@.skip(i as int))
                == (FOut::Done { s: final(controller).state(), out: out@ }),
            Err(e) => format_notes_model(old(controller).state(), notes@.skip(i as int))
                == (FOut::Failed { err: e, s: final(controller).state() }),
        },
    decreases notes@.len() - i,
{
    let ghost rem = notes@.skip(i as int);
    if i == notes.len() {
        let out = String::new();
        proof {
            assert(out@ =~= Seq::<char>::empty());
        }
        return Ok(out);
    }
    proof {
        assert(rem[0] == notes@[i as int]);
        assert(rem.drop_first() =~= notes@.skip(i as int + 1));
    }
    let mut first = match format_note(&notes[i], controller) {
        Ok(t) => t,
        Err(e) => {
            return Err(e);
        },
    };
    if i + 1 == notes.len() {
        Ok(first)
    } else {
        let rest = match format_notes_from(notes, i + 1, controller) {
            Ok(t) => t,
            Err(e) => {
                return Err(e);
            },
        };
        proof {
            reveal_strlit(" ");
        }
        first.append(" ");
        first.append(rest.as_str());
        Ok(first)
    }
}

/// Format a collection of notes against the controller, joining the
/// rendered notes with single spaces.
pub fn format_notes<N: Note>(notes: &Notes<N>, controller: &mut GroupingController) -> (r: Result<
    String,
    Error,
>)
    requires
        old(controller).inv(),
        forall|k: int| 0 <= k < notes.notes().len() ==> (#[trigger] notes.notes()[k]).renderable()
            && notes.notes()[k].duration_spec().wf(),
        !(format_notes_model(old(controller).state(), notes.notes()) is Unrepresentable),
    ensures
        final(controller).inv(),
        match r {
            Ok(out) => format_notes_model(old(controller).state(), notes.notes()) == (FOut::Done {
                s: final(controller).state(),
                out: out@,
            }),
            Err(e) => format_notes_model(old(controller).state(), notes.notes()) == (FOut::Failed {
                err: e,
                s: final(controller).state(),
            }),
        },
{
    proof {
        assert(notes.data@.skip(0) =~= notes.notes());
    }
    format_notes_from(&notes.data, 0, controller)
}

} // verus!
