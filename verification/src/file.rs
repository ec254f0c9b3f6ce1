//! The song parser: header, instrument descriptors and note blocks.

use vstd::prelude::*;

use crate::bytes::{le16, le32, read_u16_le, read_u32_le};
use crate::error::FormatError;
use crate::text::{check_utf8, is_utf8};

verus! {

/// One note event of a track.
#[derive(Clone, Copy, Debug, PartialEq, Eq, Structural)]
pub struct OrgNote {
    /// Tick at which the note starts.
    pub position: u32,
    /// Semitone index.
    pub note: u8,
    /// Sustain duration in ticks.
    pub length: u8,
    /// Volume byte, 0 to 255.
    pub volume: u8,
    /// Stereo balance byte, 0 to 12 nominally.
    pub pan: u8,
    /// Whether every column of the note has been decoded.
    pub complete: bool,
}

impl Default for OrgNote {
    fn default() -> (r: Self)
        ensures
            r == (OrgNote { position: 0, note: 0, length: 0, volume: 0, pan: 0, complete: false }),
    {
        OrgNote { position: 0, note: 0, length: 0, volume: 0, pan: 0, complete: false }
    }
}

/// The value that the sentinel decoding of column `col` yields at index `i`:
/// byte `0xFF` repeats the previous decoded value, and a leading `0xFF`
/// decodes to 0.
pub open spec fn sentinel_value(col: Seq<u8>, i: int) -> u8
    decreases i,
{
    if i < 0 || i >= col.len() {
        0
    } else if col[i] != 255 {
        col[i]
    } else if i == 0 {
        0
    } else {
        sentinel_value(col, i - 1)
    }
}

/// A column of raw bytes decodes its leading `0xFF` sentinel to 0.
pub proof fn lemma_sentinel_leading_default(col: Seq<u8>)
    requires
        col.len() > 0,
        col[0] == 255,
    ensures
        sentinel_value(col, 0) == 0,
{
}

/// Decodes the sentinel column `data[start..start + n]`.
fn decode_column(data: &Vec<u8>, start: usize, n: usize) -> (r: Vec<u8>)
    requires
        start + n <= data@.len(),
    ensures
        r@.len() == n,
        forall|i: int|
            0 <= i < n ==> r@[i] == sentinel_value(
                data@.subrange(start as int, start + n),
                i,
            ),
{
    let ghost col = data@.subrange(start as int, start + n);
    let _n: usize = data.len();
    let mut out: Vec<u8> = Vec::new();
    let mut prev: u8 = 0;
    let mut i: usize = 0;
    while i < n
        invariant
            start + n <= data@.len(),
            data@.len() <= usize::MAX,
            col == data@.subrange(start as int, start + n),
            i <= n,
            out@.len() == i,
            forall|k: int| 0 <= k < i ==> out@[k] == sentinel_value(col, k),
            prev == if i == 0 {
                0u8
            } else {
                sentinel_value(col, i - 1)
            },
        decreases n - i,
    {
        proof {
            assert(col[i as int] == data@[start + i]);
        }
        let b: u8 = data[start + i];
        let v: u8 = if b == 255 {
            prev
        } else {
            b
        };
        out.push(v);
        prev = v;
        i = i + 1;
    }
    out
}

/// The length that note `i` has at the moment the overlap-correction pass
/// examines the pair `(i, i + 1)`: its decoded length, unless the pass
/// extended it while clipping the pair `(i - 1, i)`.
pub open spec fn run_length(s: Seq<OrgNote>, i: int) -> int
    decreases i,
{
    if i < 0 || i >= s.len() {
        0
    } else if i == 0 {
        s[0].length as int
    } else if s[i - 1].position <= s[i].position && s[i].position < s[i - 1].position + run_length(
        s,
        i - 1,
    ) {
        s[i - 1].position + run_length(s, i - 1) - s[i].position
    } else {
        s[i].length as int
    }
}

/// Whether the overlap-correction pass clips the pair `(i - 1, i)`:
/// note `i` starts before note `i - 1` has ended.
pub open spec fn clipped(s: Seq<OrgNote>, i: int) -> bool {
    s[i - 1].position <= s[i].position && s[i].position < s[i - 1].position + run_length(s, i - 1)
}

/// The length of note `i` once the overlap-correction pass is done: clipped
/// so that note `i` ends exactly where note `i + 1` begins, where the two
/// would otherwise overlap.
pub open spec fn fixed_length(s: Seq<OrgNote>, i: int) -> int {
    if 0 <= i && i + 1 < s.len() && clipped(s, i + 1) {
        s[i + 1].position - s[i].position
    } else {
        run_length(s, i)
    }
}

/// The note sequence `s` after the overlap-correction pass: positions and
/// the other columns are kept, lengths are corrected.
pub open spec fn fix_notes(s: Seq<OrgNote>) -> Seq<OrgNote> {
    Seq::new(s.len(), |i: int| OrgNote { length: fixed_length(s, i) as u8, ..s[i] })
}

/// Every length the pass works with stays within a byte.
pub proof fn lemma_run_length_bound(s: Seq<OrgNote>, i: int)
    ensures
        0 <= run_length(s, i) <= 255,
    decreases i,
{
    if 0 < i < s.len() {
        lemma_run_length_bound(s, i - 1);
    }
}

/// So does every corrected length.
pub proof fn lemma_fixed_length_bound(s: Seq<OrgNote>, i: int)
    ensures
        0 <= fixed_length(s, i) <= 255,
{
    lemma_run_length_bound(s, i);
    if 0 <= i && i + 1 < s.len() && clipped(s, i + 1) {
        lemma_run_length_bound(s, i);
    }
}

/// Notes are ordered by non-decreasing position.
pub open spec fn positions_sorted(s: Seq<OrgNote>) -> bool {
    forall|i: int| #![trigger s[i]] 0 < i < s.len() ==> s[i - 1].position <= s[i].position
}

/// No two consecutive notes overlap in time.
pub open spec fn overlap_free(s: Seq<OrgNote>) -> bool {
    forall|i: int|
        #![trigger s[i]]
        0 < i < s.len() ==> s[i - 1].position + s[i - 1].length <= s[i].position
}

/// The overlap invariant: on a position-sorted note sequence, the
/// overlap-correction pass leaves every pair of consecutive notes
/// non-overlapping, and keeps the positions themselves.
pub proof fn lemma_fix_notes_overlap_free(s: Seq<OrgNote>)
    requires
        positions_sorted(s),
    ensures
        overlap_free(fix_notes(s)),
        positions_sorted(fix_notes(s)),
        fix_notes(s).len() == s.len(),
        forall|i: int| 0 <= i < s.len() ==> fix_notes(s)[i].position == s[i].position,
{
    let f = fix_notes(s);
    assert forall|i: int| #![trigger f[i]] 0 < i < f.len() implies f[i - 1].position + f[i
        - 1].length <= f[i].position by {
        lemma_fixed_length_bound(s, i - 1);
        lemma_run_length_bound(s, i - 1);
        assert(f[i - 1].length == fixed_length(s, i - 1));
        if clipped(s, i) {
            assert(fixed_length(s, i - 1) == s[i].position - s[i - 1].position);
        } else {
            assert(s[i - 1].position <= s[i].position);
            assert(s[i].position >= s[i - 1].position + run_length(s, i - 1));
        }
    }
}

/// Runs the overlap-correction pass: a single forward pass in which each
/// note reads only its immediate predecessor.
fn fix_overlaps(notes: &mut Vec<OrgNote>)
    ensures
        final(notes)@ == fix_notes(old(notes)@),
{
    let ghost s = old(notes)@;
    let n: usize = notes.len();
    if n == 0 {
        proof {
            assert(fix_notes(s) =~= s);
        }
        return ;
    }
    let mut i: usize = 1;
    while i < n
        invariant
            n == s.len(),
            notes@.len() == n,
            1 <= i <= n,
            forall|k: int| 0 <= k < i - 1 ==> notes@[k] == fix_notes(s)[k],
            notes@[i - 1] == (OrgNote { length: run_length(s, i - 1) as u8, ..s[i - 1] }),
            forall|k: int| i <= k < n ==> notes@[k] == s[k],
        decreases n - i,
    {
        let prev: OrgNote = notes[i - 1];
        let cur: OrgNote = notes[i];
        proof {
            lemma_run_length_bound(s, i - 1);
            lemma_run_length_bound(s, i as int);
        }
        if prev.position <= cur.position && (cur.position as u64) < prev.position as u64
            + prev.length as u64 {
            let new_cur: u8 = ((prev.position as u64 + prev.length as u64) - cur.position as u64)
                as u8;
            let new_prev: u8 = (cur.position - prev.position) as u8;
            notes.set(i, OrgNote { length: new_cur, ..cur });
            notes.set(i - 1, OrgNote { length: new_prev, ..prev });
            proof {
                assert(clipped(s, i as int));
                assert(notes@[i - 1] == fix_notes(s)[i - 1]);
            }
        } else {
            proof {
                assert(!clipped(s, i as int));
                assert(notes@[i - 1] == fix_notes(s)[i - 1]);
            }
        }
        i = i + 1;
    }
    proof {
        assert(notes@ =~= fix_notes(s));
    }
}

/// Note `i` of the note block at `data[start..]` holding `n` notes, before
/// overlap correction: positions first, then the four sentinel columns.
pub open spec fn raw_note(data: Seq<u8>, start: int, n: int, i: int) -> OrgNote {
    OrgNote {
        position: le32(data, start + 4 * i) as u32,
        note: sentinel_value(data.subrange(start + 4 * n, start + 5 * n), i),
        length: sentinel_value(data.subrange(start + 5 * n, start + 6 * n), i),
        volume: sentinel_value(data.subrange(start + 6 * n, start + 7 * n), i),
        pan: sentinel_value(data.subrange(start + 7 * n, start + 8 * n), i),
        complete: true,
    }
}

/// The note block at `data[start..]` holding `n` notes, before overlap
/// correction.
pub open spec fn raw_notes(data: Seq<u8>, start: int, n: int) -> Seq<OrgNote> {
    Seq::new(n as nat, |i: int| raw_note(data, start, n, i))
}

/// The largest position among the first `i` notes of `s`, or -1 when `i` is
/// 0.
pub open spec fn max_pos(s: Seq<OrgNote>, i: int) -> int
    decreases i,
{
    if i <= 0 {
        -1
    } else if s[i - 1].position >= max_pos(s, i - 1) {
        s[i - 1].position as int
    } else {
        max_pos(s, i - 1)
    }
}

/// The first `i` notes of `s` with every note that starts earlier than one
/// before it dropped: the greedy in-order subsequence. On a note block whose
/// positions are already non-decreasing this keeps every note; it normalizes
/// a malformed block so that the ordering invariant holds of every track.
pub open spec fn sorted_filter(s: Seq<OrgNote>, i: int) -> Seq<OrgNote>
    decreases i,
{
    if i <= 0 {
        Seq::empty()
    } else if s[i - 1].position >= max_pos(s, i - 1) {
        sorted_filter(s, i - 1).push(s[i - 1])
    } else {
        sorted_filter(s, i - 1)
    }
}

/// The greedy in-order subsequence is sorted by position, and is bounded by
/// the running maximum.
pub proof fn lemma_sorted_filter_sorted(s: Seq<OrgNote>, i: int)
    ensures
        positions_sorted(sorted_filter(s, i)),
        forall|m: int|
            0 <= m < sorted_filter(s, i).len() ==> (#[trigger] sorted_filter(s, i)[m]).position
                <= max_pos(s, i),
    decreases i,
{
    if i > 0 {
        lemma_sorted_filter_sorted(s, i - 1);
        let rest = sorted_filter(s, i - 1);
        let f = sorted_filter(s, i);
        if s[i - 1].position >= max_pos(s, i - 1) {
            assert forall|m: int| #![trigger f[m]] 0 < m < f.len() implies f[m - 1].position
                <= f[m].position by {
                if m < rest.len() {
                    assert(f[m] == rest[m] && f[m - 1] == rest[m - 1]);
                } else {
                    assert(f[m] == s[i - 1] && f[m - 1] == rest[m - 1]);
                }
            }
        }
    }
}

/// A sorted note block passes the greedy filter unchanged: the
/// normalization touches malformed blocks only.
pub proof fn lemma_sorted_filter_identity(s: Seq<OrgNote>, i: int)
    requires
        positions_sorted(s),
        0 <= i <= s.len(),
    ensures
        sorted_filter(s, i) == s.subrange(0, i),
    decreases i,
{
    if i > 0 {
        lemma_sorted_filter_identity(s, i - 1);
        lemma_max_pos_sorted(s, i - 1);
        assert(sorted_filter(s, i) =~= s.subrange(0, i));
    } else {
        assert(sorted_filter(s, i) =~= s.subrange(0, i));
    }
}

/// In a sorted block the running maximum is the last position seen.
proof fn lemma_max_pos_sorted(s: Seq<OrgNote>, i: int)
    requires
        positions_sorted(s),
        0 <= i <= s.len(),
    ensures
        i > 0 ==> max_pos(s, i) == s[i - 1].position,
    decreases i,
{
    if i > 1 {
        lemma_max_pos_sorted(s, i - 1);
        assert(s[i - 2].position <= s[i - 1].position);
    } else if i == 1 {
        assert(max_pos(s, 0) == -1);
    }
}

/// The note block at `data[start..]` holding `n` notes, as the parser
/// delivers it: decoded, normalized to non-decreasing positions, then
/// overlap-corrected.
pub open spec fn parsed_notes(data: Seq<u8>, start: int, n: int) -> Seq<OrgNote> {
    fix_notes(sorted_filter(raw_notes(data, start, n), n))
}

/// The data-model invariant, in the parser's terms: the notes a track ends
/// up with are ordered by non-decreasing position, and satisfy
/// `a.position + a.length <= b.position` for every consecutive pair — for
/// every note block, well formed or not.
pub proof fn lemma_parsed_notes_overlap_free(data: Seq<u8>, start: int, n: int)
    ensures
        overlap_free(parsed_notes(data, start, n)),
        positions_sorted(parsed_notes(data, start, n)),
{
    lemma_sorted_filter_sorted(raw_notes(data, start, n), n);
    lemma_fix_notes_overlap_free(sorted_filter(raw_notes(data, start, n), n));
}

/// Global properties of a song.
#[derive(Clone, Debug)]
pub struct OrgProps {
    /// The 6-byte format tag, validated as text and kept as raw bytes.
    pub version: Vec<u8>,
    /// Timing unit of one row, convertible to milliseconds.
    pub click: u16,
    /// Informational: steps per bar.
    pub steps_per_bar: u8,
    /// Informational: beats per step.
    pub beats_per_step: u8,
    /// Row at which the loop restarts.
    pub loop_start: u32,
    /// Row at which playback jumps back to `loop_start`; never below
    /// `loop_start` (an inverted header value is raised to `loop_start`).
    pub loop_end: u32,
}

/// One instrument track: its descriptor and its decoded notes.
#[derive(Clone, Debug)]
pub struct OrgTrack {
    /// Track-wide tuning offset.
    pub pitch: u16,
    /// Index into the waveform bank's melodic or drum section.
    pub instrument: u8,
    /// When set, the track is permanently muted.
    pub pi: bool,
    /// Count of the track's note events.
    pub num_notes: u16,
    /// The decoded, overlap-corrected note events.
    pub notes: Vec<OrgNote>,
}

impl Default for OrgTrack {
    fn default() -> (r: Self)
        ensures
            r.pitch == 0,
            r.instrument == 0,
            !r.pi,
            r.num_notes == 0,
            r.notes@.len() == 0,
    {
        OrgTrack { pitch: 0, instrument: 0, pi: false, num_notes: 0, notes: Vec::new() }
    }
}

/// A parsed song: properties plus 8 melodic and 8 drum tracks.
pub struct OrgFile {
    /// The song's global properties.
    pub properties: OrgProps,
    /// The 8 melodic tracks, in file order.
    pub sounds: Vec<OrgTrack>,
    /// The 8 drum tracks, in file order.
    pub drums: Vec<OrgTrack>,
}

/// The loop end a parsed song carries: the header's value, raised to
/// `loop_start` when the header holds the two in the wrong order, so that
/// `loop_start <= loop_end` holds of every parsed song.
pub open spec fn spec_loop_end(data: Seq<u8>, start: int) -> int {
    if le32(data, start + 14) >= le32(data, start + 10) {
        le32(data, start + 14)
    } else {
        le32(data, start + 10)
    }
}

/// The header fields that `props` must carry for a song starting at `start`.
pub open spec fn props_match(props: OrgProps, data: Seq<u8>, start: int) -> bool {
    &&& props.version@ == data.subrange(start, start + 6)
    &&& props.click == le16(data, start + 6)
    &&& props.steps_per_bar == data[start + 8]
    &&& props.beats_per_step == data[start + 9]
    &&& props.loop_start == le32(data, start + 10)
    &&& props.loop_end == spec_loop_end(data, start)
    &&& props.loop_start <= props.loop_end
}

impl OrgProps {
    /// Parses the fixed 18-byte header at `data[start..]`, establishing the
    /// properties' invariant `loop_start <= loop_end`.
    pub fn new(data: &Vec<u8>, start: usize) -> (r: Result<(OrgProps, usize), FormatError>)
        ensures
            match r {
                Ok(p) => {
                    &&& data@.len() >= start + 18
                    &&& is_utf8(data@.subrange(start as int, start + 6))
                    &&& props_match(p.0, data@, start as int)
                    &&& p.1 == start + 18
                },
                Err(e) => {
                    &&& (e == FormatError::Truncated <==> data@.len() < start + 18)
                    &&& (e == FormatError::InvalidTag <==> data@.len() >= start + 18 && !is_utf8(
                        data@.subrange(start as int, start + 6),
                    ))
                },
            },
    {
        let len: usize = data.len();
        if len < start || len - start < 18 {
            return Err(FormatError::Truncated);
        }
        if !check_utf8(data, start, 6) {
            return Err(FormatError::InvalidTag);
        }
        let mut version: Vec<u8> = Vec::new();
        let mut i: usize = 0;
        while i < 6
            invariant
                start + 18 <= data@.len(),
                data@.len() <= usize::MAX,
                i <= 6,
                version@.len() == i,
                forall|k: int| 0 <= k < i ==> version@[k] == data@[start + k],
            decreases 6 - i,
        {
            version.push(data[start + i]);
            i = i + 1;
        }
        proof {
            assert(version@ =~= data@.subrange(start as int, start + 6));
        }
        let loop_start: u32 = read_u32_le(data, start + 10);
        let loop_end_raw: u32 = read_u32_le(data, start + 14);
        let props = OrgProps {
            version,
            click: read_u16_le(data, start + 6),
            steps_per_bar: data[start + 8],
            beats_per_step: data[start + 9],
            loop_start,
            loop_end: if loop_end_raw >= loop_start {
                loop_end_raw
            } else {
                loop_start
            },
        };
        Ok((props, start + 18))
    }
}

impl OrgTrack {
    /// Parses the fixed 6-byte instrument descriptor at `data[start..]`.
    /// The track's notes are decoded later, from the song's note blocks.
    pub fn new(data: &Vec<u8>, start: usize) -> (r: Result<(OrgTrack, usize), FormatError>)
        ensures
            match r {
                Ok(p) => {
                    &&& data@.len() >= start + 6
                    &&& p.0.pitch == le16(data@, start as int)
                    &&& p.0.instrument == data@[start + 2]
                    &&& p.0.pi == (data@[start + 3] != 0)
                    &&& p.0.num_notes == le16(data@, start + 4)
                    &&& p.0.notes@.len() == 0
                    &&& p.1 == start + 6
                },
                Err(e) => {
                    &&& e == FormatError::Truncated
                    &&& data@.len() < start + 6
                },
            },
    {
        let len: usize = data.len();
        if len < start || len - start < 6 {
            return Err(FormatError::Truncated);
        }
        let track = OrgTrack {
            pitch: read_u16_le(data, start),
            instrument: data[start + 2],
            pi: data[start + 3] != 0,
            num_notes: read_u16_le(data, start + 4),
            notes: Vec::new(),
        };
        Ok((track, start + 6))
    }
}

impl OrgNote {
    /// Decodes the note block at `data[start..]` into `instrument`'s note
    /// list: `num_notes` positions, then the four sentinel columns, then the
    /// overlap-correction pass. Returns the offset just past the block.
    pub fn new(data: &Vec<u8>, instrument: &mut OrgTrack, start: usize) -> (r: Result<
        usize,
        FormatError,
    >)
        ensures
            match r {
                Ok(end) => {
                    &&& start + 8 * (old(instrument).num_notes as int) <= data@.len()
                    &&& end == start + 8 * (old(instrument).num_notes as int)
                    &&& final(instrument).notes@ == parsed_notes(
                        data@,
                        start as int,
                        old(instrument).num_notes as int,
                    )
                    &&& positions_sorted(final(instrument).notes@)
                    &&& overlap_free(final(instrument).notes@)
                    &&& final(instrument).pitch == old(instrument).pitch
                    &&& final(instrument).instrument == old(instrument).instrument
                    &&& final(instrument).pi == old(instrument).pi
                    &&& final(instrument).num_notes == old(instrument).num_notes
                },
                Err(e) => {
                    &&& e == FormatError::Truncated
                    &&& data@.len() < start + 8 * (old(instrument).num_notes as int)
                    &&& *final(instrument) == *old(instrument)
                },
            },
    {
        let n: usize = instrument.num_notes as usize;
        let len: usize = data.len();
        let need: usize = 8 * n;
        if len < start || len - start < need {
            return Err(FormatError::Truncated);
        }
        let col_note: Vec<u8> = decode_column(data, start + 4 * n, n);
        let col_len: Vec<u8> = decode_column(data, start + 5 * n, n);
        let col_vol: Vec<u8> = decode_column(data, start + 6 * n, n);
        let col_pan: Vec<u8> = decode_column(data, start + 7 * n, n);
        let mut notes: Vec<OrgNote> = Vec::new();
        let mut i: usize = 0;
        while i < n
            invariant
                start + 8 * n <= data@.len(),
                data@.len() <= usize::MAX,
                i <= n,
                notes@.len() == i,
                col_note@.len() == n,
                col_len@.len() == n,
                col_vol@.len() == n,
                col_pan@.len() == n,
                forall|k: int|
                    0 <= k < n ==> col_note@[k] == sentinel_value(
                        data@.subrange(start + 4 * n, start + 5 * n),
                        k,
                    ),
                forall|k: int|
                    0 <= k < n ==> col_len@[k] == sentinel_value(
                        data@.subrange(start + 5 * n, start + 6 * n),
                        k,
                    ),
                forall|k: int|
                    0 <= k < n ==> col_vol@[k] == sentinel_value(
                        data@.subrange(start + 6 * n, start + 7 * n),
                        k,
                    ),
                forall|k: int|
                    0 <= k < n ==> col_pan@[k] == sentinel_value(
                        data@.subrange(start + 7 * n, start + 8 * n),
                        k,
                    ),
                forall|k: int|
                    0 <= k < i ==> notes@[k] == raw_note(data@, start as int, n as int, k),
            decreases n - i,
        {
            let pos: u32 = read_u32_le(data, start + 4 * i);
            notes.push(
                OrgNote {
                    position: pos,
                    note: col_note[i],
                    length: col_len[i],
                    volume: col_vol[i],
                    pan: col_pan[i],
                    complete: true,
                },
            );
            i = i + 1;
        }
        proof {
            assert(notes@ =~= raw_notes(data@, start as int, n as int));
        }
        let ghost raw = notes@;
        // normalize a malformed block: drop any note that starts earlier
        // than a note before it, so the ordering invariant always holds
        let mut kept: Vec<OrgNote> = Vec::new();
        let mut maxp: u32 = 0;
        let mut i: usize = 0;
        while i < n
            invariant
                raw.len() == n,
                notes@ == raw,
                i <= n,
                kept@ == sorted_filter(raw, i as int),
                i > 0 ==> maxp == max_pos(raw, i as int),
            decreases n - i,
        {
            let nt: OrgNote = notes[i];
            if i == 0 || nt.position >= maxp {
                kept.push(nt);
                maxp = nt.position;
            }
            i = i + 1;
        }
        proof {
            lemma_sorted_filter_sorted(raw, n as int);
            lemma_fix_notes_overlap_free(sorted_filter(raw, n as int));
        }
        fix_overlaps(&mut kept);
        instrument.notes = kept;
        Ok(start + 8 * n)
    }
}

/// The note count that track `t`'s descriptor declares, for `0 <= t < 16`.
pub open spec fn spec_num_notes(data: Seq<u8>, t: int) -> int {
    le16(data, 22 + 6 * t)
}

/// The offset of track `t`'s note block: the blocks follow the 16
/// descriptors back to back, 8 bytes per declared note.
pub open spec fn block_start(data: Seq<u8>, t: int) -> int
    decreases t,
{
    if t <= 0 {
        114
    } else {
        block_start(data, t - 1) + 8 * spec_num_notes(data, t - 1)
    }
}

/// Note-block offsets never move backwards.
pub proof fn lemma_block_start_mono(data: Seq<u8>, a: int, b: int)
    requires
        0 <= a <= b,
    ensures
        block_start(data, a) <= block_start(data, b),
    decreases b,
{
    if a < b {
        lemma_block_start_mono(data, a, b - 1);
    }
}

/// The whole song fits in `data`: the header, the 16 descriptors, and all
/// 16 note blocks.
pub open spec fn parse_ok(data: Seq<u8>) -> bool {
    &&& data.len() >= 114
    &&& is_utf8(data.subrange(0, 6))
    &&& block_start(data, 16) <= data.len()
}

/// Track `tr` is track `t` of the song `data`, `0 <= t < 16`: the
/// descriptor's fields, and the decoded, overlap-corrected notes of the
/// track's note block.
pub open spec fn track_matches(tr: OrgTrack, data: Seq<u8>, t: int) -> bool {
    &&& tr.pitch == le16(data, 18 + 6 * t)
    &&& tr.instrument == data[20 + 6 * t]
    &&& tr.pi == (data[21 + 6 * t] != 0)
    &&& tr.num_notes == spec_num_notes(data, t)
    &&& tr.notes@ == parsed_notes(data, block_start(data, t), spec_num_notes(data, t))
    &&& positions_sorted(tr.notes@)
    &&& overlap_free(tr.notes@)
}

impl OrgFile {
    /// Parses a whole song: the 18-byte header, 16 instrument descriptors
    /// (8 melodic, then 8 drum), and the 16 note blocks in the same order.
    pub fn new(org_data: &Vec<u8>) -> (r: Result<OrgFile, FormatError>)
        ensures
            match r {
                Ok(file) => {
                    &&& parse_ok(org_data@)
                    &&& props_match(file.properties, org_data@, 0)
                    &&& file.properties.loop_start <= file.properties.loop_end
                    &&& file.sounds@.len() == 8
                    &&& file.drums@.len() == 8
                    &&& forall|t: int| 0 <= t < 8 ==> track_matches(#[trigger] file.sounds@[t], org_data@, t)
                    &&& forall|t: int|
                        0 <= t < 8 ==> track_matches(#[trigger] file.drums@[t], org_data@, t + 8)
                },
                Err(e) => {
                    &&& !parse_ok(org_data@)
                    &&& (e == FormatError::InvalidTag <==> org_data@.len() >= 18 && !is_utf8(
                        org_data@.subrange(0, 6),
                    ))
                    &&& (e == FormatError::Truncated <==> org_data@.len() < 18 || (is_utf8(
                        org_data@.subrange(0, 6),
                    ) && !parse_ok(org_data@)))
                },
            },
    {
        let properties: OrgProps;
        let mut ptr: usize;
        match OrgProps::new(org_data, 0) {
            Ok(p) => {
                properties = p.0;
                ptr = p.1;
            },
            Err(e) => {
                return Err(e);
            },
        }
        // The 16 descriptors, kept as parallel columns of plain fields.
        let mut pitches: Vec<u16> = Vec::new();
        let mut instruments: Vec<u8> = Vec::new();
        let mut pis: Vec<bool> = Vec::new();
        let mut nums: Vec<u16> = Vec::new();
        let mut t: usize = 0;
        while t < 16
            invariant
                org_data@.len() >= 18,
                is_utf8(org_data@.subrange(0, 6)),
                t <= 16,
                ptr == 18 + 6 * t,
                org_data@.len() >= ptr,
                pitches@.len() == t,
                instruments@.len() == t,
                pis@.len() == t,
                nums@.len() == t,
                forall|k: int| 0 <= k < t ==> pitches@[k] == le16(org_data@, 18 + 6 * k),
                forall|k: int| 0 <= k < t ==> instruments@[k] == org_data@[20 + 6 * k],
                forall|k: int| 0 <= k < t ==> pis@[k] == (org_data@[21 + 6 * k] != 0),
                forall|k: int| 0 <= k < t ==> nums@[k] == spec_num_notes(org_data@, k),
            decreases 16 - t,
        {
            match OrgTrack::new(org_data, ptr) {
                Ok(p) => {
                    pitches.push(p.0.pitch);
                    instruments.push(p.0.instrument);
                    pis.push(p.0.pi);
                    nums.push(p.0.num_notes);
                    ptr = p.1;
                },
                Err(e) => {
                    return Err(e);
                },
            }
            t = t + 1;
        }
        // The 16 note blocks, in the same order.
        let mut sounds: Vec<OrgTrack> = Vec::new();
        let mut drums: Vec<OrgTrack> = Vec::new();
        let mut t: usize = 0;
        while t < 16
            invariant
                org_data@.len() >= 114,
                is_utf8(org_data@.subrange(0, 6)),
                t <= 16,
                ptr == block_start(org_data@, t as int),
                org_data@.len() >= ptr,
                pitches@.len() == 16,
                instruments@.len() == 16,
                pis@.len() == 16,
                nums@.len() == 16,
                forall|k: int| 0 <= k < 16 ==> pitches@[k] == le16(org_data@, 18 + 6 * k),
                forall|k: int| 0 <= k < 16 ==> instruments@[k] == org_data@[20 + 6 * k],
                forall|k: int| 0 <= k < 16 ==> pis@[k] == (org_data@[21 + 6 * k] != 0),
                forall|k: int| 0 <= k < 16 ==> nums@[k] == spec_num_notes(org_data@, k),
                sounds@.len() == if t <= 8 {
                    t as int
                } else {
                    8int
                },
                drums@.len() == if t <= 8 {
                    0int
                } else {
                    t - 8
                },
                forall|k: int|
                    0 <= k < sounds@.len() ==> track_matches(#[trigger] sounds@[k], org_data@, k),
                forall|k: int|
                    0 <= k < drums@.len() ==> track_matches(#[trigger] drums@[k], org_data@, k + 8),
            decreases 16 - t,
        {
            let mut tr = OrgTrack {
                pitch: pitches[t],
                instrument: instruments[t],
                pi: pis[t],
                num_notes: nums[t],
                notes: Vec::new(),
            };
            match OrgNote::new(org_data, &mut tr, ptr) {
                Ok(np) => {
                    proof {
                        assert(block_start(org_data@, t + 1) == block_start(org_data@, t as int)
                            + 8 * spec_num_notes(org_data@, t as int));
                    }
                    ptr = np;
                },
                Err(_) => {
                    proof {
                        lemma_block_start_mono(org_data@, t + 1, 16);
                        assert(block_start(org_data@, t + 1) == block_start(org_data@, t as int)
                            + 8 * spec_num_notes(org_data@, t as int));
                    }
                    return Err(FormatError::Truncated);
                },
            }
            if t < 8 {
                sounds.push(tr);
            } else {
                drums.push(tr);
            }
            t = t + 1;
        }
        Ok(OrgFile { properties, sounds, drums })
    }
}

} // verus!
