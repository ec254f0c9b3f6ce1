//! The per-track sequencer: a pull-based state machine that walks a track's
//! note list in time and, for each output sample pair, decides which note is
//! sounding and at what offset into its waveform.

use vstd::prelude::*;

use crate::file::{OrgNote, OrgProps, OrgTrack};

verus! {

/// What one pull of a sequencer asks the synthesis stage to produce: either
/// silence, or one sample pair of the sounding note at the given offset
/// since its onset.
#[derive(Clone, Copy, Debug, PartialEq, Eq, Structural)]
pub enum Frame {
    /// No note is sounding: a zero sample pair.
    Silence,
    /// The sounding note's byte fields and its local sample offset.
    Play { note: u8, volume: u8, pan: u8, offset: u64 },
}

/// The sequencer of one track.
pub struct Sequencer {
    /// The track's decoded, overlap-corrected notes.
    pub notes: Vec<OrgNote>,
    /// When set, the track is permanently muted.
    pub pi: bool,
    /// Whether the track plays one-shot drum samples.
    pub drum: bool,
    /// For a drum track, the waveform's sample count: a drum note past this
    /// offset is exhausted.
    pub drum_len: u64,
    /// Samples per row at the fixed 44100 Hz output rate.
    pub click: u32,
    /// Row at which the loop restarts.
    pub loop_start: u32,
    /// Row at which the row counter jumps back to `loop_start`.
    pub loop_end: u32,
    /// Fine counter: samples into the current row.
    pub time: u32,
    /// The row counter.
    pub row: u64,
    /// Index of the sounding note, if any.
    pub current: Option<usize>,
    /// Samples since the sounding note's onset.
    pub offset: u64,
}

/// The first note at or after index `j` whose position is exactly `row`.
pub open spec fn first_note_at(notes: Seq<OrgNote>, row: int, j: int) -> Option<int>
    decreases notes.len() - j,
{
    if j < 0 || j >= notes.len() {
        Option::None
    } else if notes[j].position == row {
        Option::Some(j)
    } else {
        first_note_at(notes, row, j + 1)
    }
}

/// The note that starts sounding when the row counter lands on `row`.
pub open spec fn spec_onset(notes: Seq<OrgNote>, row: int) -> Option<usize> {
    match first_note_at(notes, row, 0) {
        Option::Some(j) => Option::Some(j as usize),
        Option::None => Option::None,
    }
}

impl Sequencer {
    /// The sequencer's internal invariant.
    pub open spec fn wf(self) -> bool {
        &&& match self.current {
            Option::Some(i) => i < self.notes@.len(),
            Option::None => true,
        }
        &&& (self.pi ==> self.current matches Option::None)
        &&& (self.click > 0 ==> self.time < self.click)
        &&& (self.click == 0 ==> self.time == 0)
    }
}

/// The frame one pull of `s` produces: the sounding note's fields at the
/// current offset, or silence when nothing sounds or the drum sample is
/// exhausted.
pub open spec fn emit(s: Sequencer) -> Frame {
    match s.current {
        Option::None => Frame::Silence,
        Option::Some(i) => {
            if s.drum && s.offset >= s.drum_len {
                Frame::Silence
            } else {
                Frame::Play {
                    note: s.notes@[i as int].note,
                    volume: s.notes@[i as int].volume,
                    pan: s.notes@[i as int].pan,
                    offset: s.offset,
                }
            }
        },
    }
}

/// The state right after producing a frame: an exhausted drum note falls
/// silent, a sounding note advances one sample.
pub open spec fn after_emit(s: Sequencer) -> Sequencer {
    match s.current {
        Option::None => s,
        Option::Some(i) => {
            if s.drum && s.offset >= s.drum_len {
                Sequencer { current: Option::None, offset: 0, ..s }
            } else if s.offset < u64::MAX {
                Sequencer { offset: (s.offset + 1) as u64, ..s }
            } else {
                s
            }
        },
    }
}

/// The next value of the row counter: `loop_start` when the counter reaches
/// `loop_end`, else one more.
pub open spec fn next_row(s: Sequencer) -> u64 {
    if s.row + 1 == s.loop_end {
        s.loop_start as u64
    } else if s.row == u64::MAX {
        s.row
    } else {
        (s.row + 1) as u64
    }
}

/// One row advance: the loop wrap cuts any sounding note, an expired melodic
/// sustain falls silent, and a note whose position is the new row starts
/// sounding — unless the track is muted.
pub open spec fn row_advance(s: Sequencer) -> Sequencer {
    let nr = next_row(s);
    let cleared = if s.row + 1 == s.loop_end {
        Sequencer { current: Option::None, offset: 0, ..s }
    } else {
        match s.current {
            Option::Some(i) => {
                if !s.drum && s.notes@[i as int].position + s.notes@[i as int].length <= nr {
                    Sequencer { current: Option::None, offset: 0, ..s }
                } else {
                    s
                }
            },
            Option::None => s,
        }
    };
    let moved = Sequencer { time: 0, row: nr, ..cleared };
    if s.pi {
        moved
    } else {
        match spec_onset(s.notes@, nr as int) {
            Option::Some(j) => Sequencer { current: Option::Some(j), offset: 0, ..moved },
            Option::None => moved,
        }
    }
}

/// One whole pull: produce a frame, advance the fine counter, and advance
/// the row when the fine counter completes a row.
pub open spec fn spec_step(s: Sequencer) -> Sequencer {
    let a = after_emit(s);
    if a.click == 0 || a.time + 1 >= a.click {
        row_advance(a)
    } else {
        Sequencer { time: (a.time + 1) as u32, ..a }
    }
}

/// Finds the first note whose position is exactly `row`.
fn find_note_at(notes: &Vec<OrgNote>, row: u64) -> (r: Option<usize>)
    ensures
        r == spec_onset(notes@, row as int),
        match r {
            Option::Some(j) => j < notes@.len(),
            Option::None => true,
        },
{
    let m: usize = notes.len();
    let mut j: usize = 0;
    while j < m
        invariant
            m == notes@.len(),
            j <= m,
            first_note_at(notes@, row as int, 0) == first_note_at(notes@, row as int, j as int),
        decreases m - j,
    {
        if notes[j].position as u64 == row {
            return Some(j);
        }
        j = j + 1;
    }
    None
}

impl Sequencer {
    /// Builds the sequencer of one track. `drum_len` is the sample count of
    /// the track's waveform for a drum track; melodic tracks ignore it.
    pub fn new(track: &OrgTrack, props: &OrgProps, drum: bool, drum_len: u64) -> (r: Sequencer)
        ensures
            r.wf(),
            r.notes@ == track.notes@,
            r.pi == track.pi,
            r.drum == drum,
            r.drum_len == drum_len,
            r.click == props.click * 441 / 10,
            r.loop_start == props.loop_start,
            r.loop_end == props.loop_end,
            r.time == 0,
            r.row == 0,
            r.offset == 0,
            r.current == if track.pi {
                Option::<usize>::None
            } else {
                spec_onset(track.notes@, 0)
            },
    {
        let mut notes: Vec<OrgNote> = Vec::new();
        let mut i: usize = 0;
        let m: usize = track.notes.len();
        while i < m
            invariant
                m == track.notes@.len(),
                i <= m,
                notes@.len() == i,
                forall|k: int| 0 <= k < i ==> notes@[k] == track.notes@[k],
            decreases m - i,
        {
            notes.push(track.notes[i]);
            i = i + 1;
        }
        proof {
            assert(notes@ =~= track.notes@);
        }
        let current: Option<usize> = if track.pi {
            None
        } else {
            find_note_at(&notes, 0)
        };
        Sequencer {
            notes,
            pi: track.pi,
            drum,
            drum_len,
            click: props.click as u32 * 441 / 10,
            loop_start: props.loop_start,
            loop_end: props.loop_end,
            time: 0,
            row: 0,
            current,
            offset: 0,
        }
    }

    /// Pulls one frame and advances the state machine by one sample pair.
    pub fn step(&mut self) -> (r: Frame)
        requires
            old(self).wf(),
        ensures
            r == emit(*old(self)),
            *final(self) == spec_step(*old(self)),
            final(self).wf(),
    {
        let r: Frame;
        match self.current {
            Option::None => {
                r = Frame::Silence;
            },
            Option::Some(i) => {
                if self.drum && self.offset >= self.drum_len {
                    r = Frame::Silence;
                    self.current = None;
                    self.offset = 0;
                } else {
                    let nt: OrgNote = self.notes[i];
                    r = Frame::Play {
                        note: nt.note,
                        volume: nt.volume,
                        pan: nt.pan,
                        offset: self.offset,
                    };
                    if self.offset < u64::MAX {
                        self.offset = self.offset + 1;
                    }
                }
            },
        }
        proof {
            assert(r == emit(*old(self)));
            assert(*self == after_emit(*old(self)));
        }
        if self.click == 0 || self.time + 1 >= self.click {
            self.time = 0;
            if self.row < u64::MAX && self.row + 1 == self.loop_end as u64 {
                self.current = None;
                self.offset = 0;
                self.row = self.loop_start as u64;
            } else {
                if self.row < u64::MAX {
                    self.row = self.row + 1;
                }
                if !self.drum {
                    match self.current {
                        Option::Some(i) => {
                            let nt: OrgNote = self.notes[i];
                            if nt.position as u64 + nt.length as u64 <= self.row {
                                self.current = None;
                                self.offset = 0;
                            }
                        },
                        Option::None => {},
                    }
                }
            }
            if !self.pi {
                match find_note_at(&self.notes, self.row) {
                    Some(j) => {
                        self.current = Some(j);
                        self.offset = 0;
                    },
                    None => {},
                }
            }
        } else {
            self.time = self.time + 1;
        }
        r
    }
}

/// What `first_note_at` finds is exact: a hit is the first note at that row,
/// a miss means no note sits at that row.
pub proof fn lemma_first_note_at_props(notes: Seq<OrgNote>, row: int, j: int)
    requires
        0 <= j,
    ensures
        match first_note_at(notes, row, j) {
            Option::Some(k) => j <= k < notes.len() && notes[k].position == row && forall|l: int|
                #![trigger notes[l]]
                j <= l < k ==> notes[l].position != row,
            Option::None => forall|l: int|
                #![trigger notes[l]]
                j <= l < notes.len() ==> notes[l].position != row,
        },
    decreases notes.len() - j,
{
    if j < notes.len() && notes[j].position != row {
        lemma_first_note_at_props(notes, row, j + 1);
    }
}

/// The fields that stepping never changes: the track data and the song's
/// timing constants.
pub open spec fn constants_eq(a: Sequencer, b: Sequencer) -> bool {
    &&& a.notes == b.notes
    &&& a.pi == b.pi
    &&& a.drum == b.drum
    &&& a.drum_len == b.drum_len
    &&& a.click == b.click
    &&& a.loop_start == b.loop_start
    &&& a.loop_end == b.loop_end
}

/// Stepping only moves the counters and the sounding note.
pub proof fn lemma_step_constants(s: Sequencer)
    ensures
        constants_eq(spec_step(s), s),
{
}

/// Stepping preserves the sequencer's invariant.
pub proof fn lemma_step_wf(s: Sequencer)
    requires
        s.wf(),
    ensures
        spec_step(s).wf(),
{
    let a = after_emit(s);
    if a.click == 0 || a.time + 1 >= a.click {
        let nr = next_row(a);
        if !s.pi {
            lemma_first_note_at_props(s.notes@, nr as int, 0);
        }
    }
}

/// A track whose descriptor has the pi flag set never produces a sounding
/// frame: it emits silence now, and stepping keeps it muted forever.
pub proof fn lemma_pi_silent(s: Sequencer)
    requires
        s.wf(),
        s.pi,
    ensures
        emit(s) == Frame::Silence,
        spec_step(s).pi,
        spec_step(s).wf(),
        spec_step(s).current matches Option::None,
{
    lemma_step_wf(s);
}

/// The canonical state right after a loop wrap: counters reset, the row
/// counter at `loop_start`, any sounding note cut, and the onset scan run at
/// `loop_start`. It depends only on the track and the timing constants.
pub open spec fn post_wrap(s: Sequencer) -> Sequencer {
    let base = Sequencer {
        time: 0,
        row: s.loop_start as u64,
        current: Option::None,
        offset: 0,
        ..s
    };
    if s.pi {
        base
    } else {
        match spec_onset(s.notes@, s.loop_start as int) {
            Option::Some(j) => Sequencer { current: Option::Some(j), offset: 0, ..base },
            Option::None => base,
        }
    }
}

/// The canonical post-wrap state is well formed.
pub proof fn lemma_post_wrap_wf(s: Sequencer)
    ensures
        post_wrap(s).wf(),
{
    if !s.pi {
        lemma_first_note_at_props(s.notes@, s.loop_start as int, 0);
    }
}

/// Wrapping again lands in the same state: the canonical post-wrap state is
/// a fixed point, so `lemma_loop_periodic` applies to it.
pub proof fn lemma_post_wrap_idempotent(s: Sequencer)
    ensures
        post_wrap(post_wrap(s)) == post_wrap(s),
{
}

/// Looping, first half: on the pull that ends the row before `loop_end`,
/// the next row produced is `loop_start`, and the state lands in the
/// canonical post-wrap state.
pub proof fn lemma_loop_wrap(s: Sequencer)
    requires
        s.wf(),
        s.click == 0 || s.time + 1 >= s.click,
        s.row + 1 == s.loop_end,
    ensures
        spec_step(s).row == s.loop_start,
        spec_step(s) == post_wrap(s),
{
}

/// The state after `k` pulls.
pub open spec fn run(s: Sequencer, k: nat) -> Sequencer
    decreases k,
{
    if k == 0 {
        s
    } else {
        spec_step(run(s, (k - 1) as nat))
    }
}

/// Pulling `a + b` times is pulling `a` times, then `b` times.
pub proof fn lemma_run_add(s: Sequencer, a: nat, b: nat)
    ensures
        run(s, a + b) == run(run(s, a), b),
    decreases b,
{
    if b > 0 {
        lemma_run_add(s, a, (b - 1) as nat);
    }
}

/// Samples in one whole loop cycle: rows from `loop_start` up to `loop_end`,
/// each `click` samples long.
pub open spec fn cycle_samples(s: Sequencer) -> int {
    (s.loop_end - s.loop_start) * s.click
}

proof fn lemma_cycle_aux(s: Sequencer, k: nat)
    requires
        s.wf(),
        s.click >= 1,
        s.loop_start < s.loop_end,
        s == post_wrap(s),
        k <= cycle_samples(s),
    ensures
        run(s, k).wf(),
        constants_eq(run(s, k), s),
        k < cycle_samples(s) ==> {
            &&& s.loop_start <= run(s, k).row < s.loop_end
            &&& run(s, k).time < s.click
            &&& k == (run(s, k).row - s.loop_start) * s.click + run(s, k).time
        },
        k == cycle_samples(s) ==> run(s, k) == s,
    decreases k,
{
    let ls = s.loop_start as int;
    let le = s.loop_end as int;
    let c = s.click as int;
    let d = le - ls;
    assert(d * c >= 1 * c) by (nonlinear_arith)
        requires
            d >= 1,
            c >= 0,
    ;
    if k == 0 {
        assert(run(s, 0) == s);
        assert(s.row == s.loop_start && s.time == 0);
        assert((s.row - ls) * c + s.time == 0) by (nonlinear_arith)
            requires
                s.row == ls,
                s.time == 0,
        ;
    } else {
        let t0 = run(s, (k - 1) as nat);
        lemma_cycle_aux(s, (k - 1) as nat);
        lemma_step_constants(t0);
        lemma_step_wf(t0);
        assert(run(s, k) == spec_step(t0));
        let row0 = t0.row as int;
        let time0 = t0.time as int;
        let a = after_emit(t0);
        assert(a.row == t0.row && a.time == t0.time && constants_eq(a, t0));
        if a.time + 1 < a.click {
            // still inside the row
            let t = spec_step(t0);
            assert(t.row == t0.row && t.time == t0.time + 1);
            assert(k == (row0 - ls) * c + time0 + 1);
            assert(k <= (d - 1) * c + c - 1) by (nonlinear_arith)
                requires
                    k == (row0 - ls) * c + time0 + 1,
                    ls <= row0 < le,
                    d == le - ls,
                    time0 + 1 < c,
            ;
            assert((d - 1) * c + c == d * c) by (nonlinear_arith);
            assert(k < cycle_samples(s));
        } else {
            // this pull ends the row
            assert(time0 == c - 1);
            if row0 + 1 == le {
                // the wrap: back to the canonical state
                lemma_loop_wrap(t0);
                assert(spec_step(t0) == post_wrap(t0));
                assert(post_wrap(t0) == post_wrap(s));
                assert(k == (le - 1 - ls) * c + c - 1 + 1);
                assert((le - 1 - ls) * c + c == d * c) by (nonlinear_arith)
                    requires
                        d == le - ls,
                ;
                assert(k == cycle_samples(s));
            } else {
                let t = spec_step(t0);
                assert(t.row == row0 + 1 && t.time == 0);
                assert(k == (row0 - ls) * c + c);
                assert((row0 - ls) * c + c == (row0 + 1 - ls) * c) by (nonlinear_arith);
                assert(k == (t.row - ls) * c + t.time);
                assert(t.row < le);
                assert(k <= (d - 1) * c) by (nonlinear_arith)
                    requires
                        k == (row0 + 1 - ls) * c,
                        ls <= row0,
                        row0 + 1 < le,
                        d == le - ls,
                        c >= 1,
                ;
                assert((d - 1) * c < d * c) by (nonlinear_arith)
                    requires
                        c >= 1,
                ;
                assert(k < cycle_samples(s));
            }
        }
    }
}

/// One whole cycle returns the sequencer to the canonical post-wrap state.
pub proof fn lemma_loop_cycle(s: Sequencer)
    requires
        s.wf(),
        s.click >= 1,
        s.loop_start < s.loop_end,
        s == post_wrap(s),
    ensures
        run(s, cycle_samples(s) as nat) == s,
{
    lemma_cycle_aux(s, cycle_samples(s) as nat);
}

/// Looping, second half: from the state right after a wrap, playback is
/// periodic — every pull repeats exactly one cycle later, so consecutive
/// cycles produce identical frames.
pub proof fn lemma_loop_periodic(s: Sequencer, k: nat)
    requires
        s.wf(),
        s.click >= 1,
        s.loop_start < s.loop_end,
        s == post_wrap(s),
    ensures
        run(s, k + cycle_samples(s) as nat) == run(s, k),
        emit(run(s, k + cycle_samples(s) as nat)) == emit(run(s, k)),
{
    lemma_loop_cycle(s);
    lemma_run_add(s, cycle_samples(s) as nat, k);
    assert(k + cycle_samples(s) as nat == cycle_samples(s) as nat + k);
}

} // verus!
