//! Notes: the events that pass through the formatter.
//!
//! Every value representing a point in time implements [`Note`], exposing a
//! duration, onset text and an optional annotation.  [`crate::Pitch`] is the
//! capability of naming a pitch for display; [`ETPitch`] names twelve-tone
//! equal-tempered pitches from their MIDI numbers.

use vstd::prelude::*;
use vstd::seq_lib::assert_seqs_equal;

verus! {

use crate::{Duration, Pitch};
use vstd::string::StringExecFns;

/// A musical event with a duration, onset text, and annotation.
pub trait Note {
    /// The onset text, at the specification level.
    spec fn text_spec(&self) -> Seq<char>;

    /// The annotation text, at the specification level.
    spec fn annotations_spec(&self) -> Seq<char>;

    /// The duration, at the specification level.
    spec fn duration_spec(&self) -> Duration;

    /// Whether the onset text is defined for this note (a chord must hold
    /// at least one pitch).
    spec fn renderable(&self) -> bool;

    /// Text of the beginning of the note (excluding duration), which is
    /// repeated as necessary following any ties.
    fn text(&self) -> (r: String)
        requires
            self.renderable(),
        ensures
            r@ == self.text_spec(),
    ;

    /// Annotation text printed above the initial note onset, but not at any
    /// later point.
    fn annotations(&self) -> (r: &str)
        ensures
            r@ == self.annotations_spec(),
    ;

    /// The rational duration of the note.
    fn duration(&self) -> (r: Duration)
        ensures
            r == self.duration_spec(),
    ;
}

/// A twelve-tone equal-tempered pitch, identified by its MIDI note number.
#[derive(Clone, Copy, Debug, PartialEq, Eq, Structural)]
pub struct ETPitch {
    pub midi: u32,
}

impl ETPitch {
    /// The pitch with the given MIDI note number.
    pub fn new(midi: u32) -> (r: ETPitch)
        ensures
            r.midi == midi,
    {
        ETPitch { midi }
    }
}

/// The name of an equal-tempered pitch class.
pub open spec fn et_scale_name(pc: nat) -> Seq<char> {
    if pc == 0 {
        "c"@
    } else if pc == 1 {
        "csharp"@
    } else if pc == 2 {
        "d"@
    } else if pc == 3 {
        "eflat"@
    } else if pc == 4 {
        "e"@
    } else if pc == 5 {
        "f"@
    } else if pc == 6 {
        "fsharp"@
    } else if pc == 7 {
        "g"@
    } else if pc == 8 {
        "gsharp"@
    } else if pc == 9 {
        "a"@
    } else if pc == 10 {
        "bflat"@
    } else {
        "b"@
    }
}

impl Pitch for ETPitch {
    open spec fn pitch_spec(&self) -> Seq<char> {
        et_scale_name((self.midi % 12) as nat)
    }

    fn pitch(&self) -> (r: String) {
        let pc = self.midi % 12;
        let s: &str = if pc == 0 {
            "c"
        } else if pc == 1 {
            "csharp"
        } else if pc == 2 {
            "d"
        } else if pc == 3 {
            "eflat"
        } else if pc == 4 {
            "e"
        } else if pc == 5 {
            "f"
        } else if pc == 6 {
            "fsharp"
        } else if pc == 7 {
            "g"
        } else if pc == 8 {
            "gsharp"
        } else if pc == 9 {
            "a"
        } else if pc == 10 {
            "bflat"
        } else {
            "b"
        };
        s.to_owned()
    }

    fn pitch_type(&self) -> (r: &'static str) {
        "ETPitch"
    }
}

impl From<u32> for ETPitch {
    /// The pitch with the given MIDI note number.
    fn from(f: u32) -> (r: ETPitch) {
        ETPitch::new(f)
    }
}

impl vstd::std_specs::convert::FromSpecImpl<u32> for ETPitch {
    open spec fn obeys_from_spec() -> bool {
        true
    }

    open spec fn from_spec(f: u32) -> ETPitch {
        ETPitch { midi: f }
    }
}

/// A single pitch sounding for a duration.
#[derive(Clone, Debug, PartialEq)]
pub struct SingleNote<P: Pitch> {
    duration: Duration,
    pitch: P,
}

impl<P: Pitch> SingleNote<P> {
    /// A note of the given pitch and duration.
    pub fn new(pitch: P, duration: Duration) -> (r: SingleNote<P>)
        ensures
            r.duration_spec() == duration,
            r.text_spec() == pitch.pitch_spec(),
            r.annotations_spec() == Seq::<char>::empty(),
            r.renderable(),
    {
        SingleNote { duration, pitch }
    }
}

impl<P: Pitch> Note for SingleNote<P> {
    closed spec fn text_spec(&self) -> Seq<char> {
        self.pitch.pitch_spec()
    }

    closed spec fn annotations_spec(&self) -> Seq<char> {
        Seq::empty()
    }

    closed spec fn duration_spec(&self) -> Duration {
        self.duration
    }

    closed spec fn renderable(&self) -> bool {
        true
    }

    fn text(&self) -> (r: String) {
        self.pitch.pitch()
    }

    fn annotations(&self) -> (r: &str) {
        proof {
            reveal_strlit("");
        }
        assert(""@ =~= Seq::<char>::empty());
        ""
    }

    fn duration(&self) -> (r: Duration) {
        self.duration
    }
}

/// The pitch names of a chord, separated by single spaces.
pub open spec fn pitch_names_join<P: Pitch>(s: Seq<P>) -> Seq<char>
    decreases s.len(),
{
    if s.len() == 0 {
        Seq::empty()
    } else if s.len() == 1 {
        s[0].pitch_spec()
    } else {
        pitch_names_join(s.drop_last()) + seq![' '] + s.last().pitch_spec()
    }
}

/// Several pitches sounding together for one duration.
#[derive(Clone, Debug, PartialEq)]
pub struct Chord<P: Pitch> {
    duration: Duration,
    pitches: Vec<P>,
}

impl<P: Pitch> Chord<P> {
    /// A chord of the given pitches and duration.
    pub fn new(pitches: Vec<P>, duration: Duration) -> (r: Chord<P>)
        ensures
            r.duration_spec() == duration,
            r.text_spec() == seq!['<'] + pitch_names_join(pitches@) + seq!['>'],
            r.annotations_spec() == Seq::<char>::empty(),
            r.renderable() == (pitches@.len() > 0),
    {
        Chord { duration, pitches }
    }
}

impl<P: Pitch> Note for Chord<P> {
    closed spec fn text_spec(&self) -> Seq<char> {
        seq!['<'] + pitch_names_join(self.pitches@) + seq!['>']
    }

    closed spec fn annotations_spec(&self) -> Seq<char> {
        Seq::empty()
    }

    closed spec fn duration_spec(&self) -> Duration {
        self.duration
    }

    closed spec fn renderable(&self) -> bool {
        self.pitches@.len() > 0
    }

    fn text(&self) -> (r: String) {
        proof {
            reveal_strlit("<");
            reveal_strlit(" ");
            reveal_strlit(">");
        }
        let mut out: String = "<".to_owned();
        assert(out@ =~= seq!['<']);
        let n = self.pitches.len();
        let mut i: usize = 0;
        // All pitch names but the last, each followed by a space.
        while i < n - 1
            invariant
                0 <= i <= n - 1,
                n == self.pitches@.len(),
                n >= 1,
                i == 0 ==> out@ == seq!['<'],
                i > 0 ==> out@ == seq!['<'] + pitch_names_join(self.pitches@.subrange(0, i as int))
                    + seq![' '],
            decreases n - i,
        {
            let name = self.pitches[i].pitch();
            out.append(name.as_str());
            out.append(" ");
            proof {
                reveal_strlit(" ");
                let all = self.pitches@;
                let pref = all.subrange(0, i as int + 1);
                assert(pref.len() == i + 1);
                assert(pref.last() == all[i as int]);
                if i == 0 {
                    assert(pref[0] == all[0]);
                    assert(pitch_names_join(pref) == pref[0].pitch_spec());
                } else {
                    assert(pref.drop_last() =~= all.subrange(0, i as int));
                    assert(pitch_names_join(pref) == pitch_names_join(pref.drop_last())
                        + seq![' '] + pref.last().pitch_spec());
                }
                assert(" "@ =~= seq![' ']);
                assert_seqs_equal!(out@ == seq!['<'] + pitch_names_join(pref) + seq![' ']);
            }
            i = i + 1;
        }
        // The last pitch name.
        let name = self.pitches[n - 1].pitch();
        out.append(name.as_str());
        out.append(">");
        proof {
            let all = self.pitches@;
            if n > 1 {
                assert(all.subrange(0, n - 1) =~= all.drop_last());
                assert(all =~= all.subrange(0, n as int));
            } else {
                assert(all[0] == all.last());
            }
            assert(">"@ =~= seq!['>']);
            assert(out@ =~= seq!['<'] + pitch_names_join(all) + seq!['>']);
        }
        out
    }

    fn annotations(&self) -> (r: &str) {
        proof {
            reveal_strlit("");
        }
        assert(""@ =~= Seq::<char>::empty());
        ""
    }

    fn duration(&self) -> (r: Duration) {
        self.duration
    }
}

} // verus!
