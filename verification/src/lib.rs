mod bytes;
mod error;
mod text;
mod file;
mod bank;
mod sequencer;

pub use bytes::{le16, le32, be24, read_u16_le, read_u32_le, read_u24_be};
pub use error::{FormatError, IoError, ConfigError};
pub use text::{is_utf8, check_utf8};
pub use sequencer::{Frame, Sequencer, first_note_at, spec_onset, emit, after_emit, next_row,
    row_advance, spec_step, lemma_first_note_at_props, constants_eq, lemma_step_constants,
    lemma_step_wf, lemma_pi_silent, post_wrap, lemma_post_wrap_wf, lemma_post_wrap_idempotent, lemma_loop_wrap, run, lemma_run_add,
    cycle_samples, lemma_loop_cycle, lemma_loop_periodic};
pub use bank::{as_signed, melodic_count, cycle_length, melodic_start, drum_section,
    drum_count, drum_start, drum_len, drums_fit, lemma_drums_fit_prefix, bank_ok, bank_ok_head,
    WaveformBank};
pub use file::{OrgNote, sentinel_value, lemma_sentinel_leading_default, run_length, clipped,
    fixed_length, fix_notes, lemma_run_length_bound, lemma_fixed_length_bound, positions_sorted,
    overlap_free, lemma_fix_notes_overlap_free, raw_note, raw_notes, max_pos, sorted_filter, lemma_sorted_filter_sorted,
    lemma_sorted_filter_identity, parsed_notes, lemma_parsed_notes_overlap_free, spec_loop_end,
    OrgProps, OrgTrack, OrgFile, props_match,
    spec_num_notes, block_start, lemma_block_start_mono, parse_ok, track_matches};
