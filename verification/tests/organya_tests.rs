use organya::{
    ConfigError, FormatError, Frame, IoError, OrgFile, OrgNote, OrgProps, OrgTrack, Sequencer,
    WaveformBank,
};

fn push_u16(data: &mut Vec<u8>, v: u16) {
    data.extend_from_slice(&v.to_le_bytes());
}

fn push_u32(data: &mut Vec<u8>, v: u32) {
    data.extend_from_slice(&v.to_le_bytes());
}

fn push_header(data: &mut Vec<u8>, click: u16, loop_start: u32, loop_end: u32) {
    data.extend_from_slice(b"Org-02");
    push_u16(data, click);
    data.push(4);
    data.push(4);
    push_u32(data, loop_start);
    push_u32(data, loop_end);
}

fn push_descriptor(data: &mut Vec<u8>, pitch: u16, instrument: u8, pi: u8, num_notes: u16) {
    push_u16(data, pitch);
    data.push(instrument);
    data.push(pi);
    push_u16(data, num_notes);
}

/// A song whose 16 tracks all declare zero notes; 114 bytes in all.
fn empty_song(click: u16, loop_start: u32, loop_end: u32) -> Vec<u8> {
    let mut data = Vec::new();
    push_header(&mut data, click, loop_start, loop_end);
    for _ in 0..16 {
        push_descriptor(&mut data, 1000, 0, 0, 0);
    }
    data
}

fn props(click: u16, loop_start: u32, loop_end: u32) -> OrgProps {
    OrgProps {
        version: b"Org-02".to_vec(),
        click,
        steps_per_bar: 4,
        beats_per_step: 4,
        loop_start,
        loop_end,
    }
}

fn track_with(notes: Vec<OrgNote>, pi: bool) -> OrgTrack {
    OrgTrack { pitch: 1000, instrument: 0, pi, num_notes: notes.len() as u16, notes }
}

fn note(position: u32, length: u8, volume: u8, pan: u8) -> OrgNote {
    OrgNote { position, note: 45, length, volume, pan, complete: true }
}

#[test]
fn header_fields_decode_little_endian() {
    let data = empty_song(0x1234, 10, 20);
    let file = OrgFile::new(&data).unwrap();
    assert_eq!(file.properties.version, b"Org-02".to_vec());
    assert_eq!(file.properties.click, 0x1234);
    assert_eq!(file.properties.steps_per_bar, 4);
    assert_eq!(file.properties.beats_per_step, 4);
    assert_eq!(file.properties.loop_start, 10);
    assert_eq!(file.properties.loop_end, 20);
}

#[test]
fn empty_song_has_sixteen_empty_tracks() {
    let data = empty_song(100, 10, 20);
    assert_eq!(data.len(), 114);
    let file = OrgFile::new(&data).unwrap();
    assert_eq!(file.sounds.len(), 8);
    assert_eq!(file.drums.len(), 8);
    for track in file.sounds.iter().chain(file.drums.iter()) {
        assert_eq!(track.num_notes, 0);
        assert!(track.notes.is_empty());
        assert_eq!(track.pitch, 1000);
    }
}

#[test]
fn empty_song_plays_silence_forever() {
    let data = empty_song(100, 10, 20);
    let file = OrgFile::new(&data).unwrap();
    let mut total = 0u32;
    for (i, track) in file.sounds.iter().chain(file.drums.iter()).enumerate() {
        let mut seq = Sequencer::new(track, &file.properties, i >= 8, 0);
        for _ in 0..200 {
            assert_eq!(seq.step(), Frame::Silence);
            total += 1;
        }
    }
    assert_eq!(total, 16 * 200);
}

#[test]
fn short_buffer_is_truncated_not_panic() {
    for len in 0..18 {
        let data = vec![0u8; len];
        assert!(matches!(OrgFile::new(&data), Err(FormatError::Truncated)));
    }
}

#[test]
fn bad_tag_is_invalid() {
    let mut data = empty_song(100, 0, 8);
    data[0] = 0xFF;
    data[1] = 0xFF;
    assert!(matches!(OrgFile::new(&data), Err(FormatError::InvalidTag)));
}

#[test]
fn truncated_descriptors() {
    let mut data = Vec::new();
    push_header(&mut data, 100, 0, 8);
    push_descriptor(&mut data, 1000, 0, 0, 0);
    assert!(matches!(OrgFile::new(&data), Err(FormatError::Truncated)));
}

#[test]
fn truncated_note_block() {
    let mut data = Vec::new();
    push_header(&mut data, 100, 0, 8);
    push_descriptor(&mut data, 1000, 0, 0, 3);
    for _ in 0..15 {
        push_descriptor(&mut data, 1000, 0, 0, 0);
    }
    // three notes need 24 bytes; give fewer
    data.extend_from_slice(&[0u8; 10]);
    assert!(matches!(OrgFile::new(&data), Err(FormatError::Truncated)));
}

/// One song whose first melodic track holds a 4-note block with sentinel
/// bytes in every column.
fn sentinel_song() -> Vec<u8> {
    let mut data = Vec::new();
    push_header(&mut data, 100, 0, 64);
    push_descriptor(&mut data, 1000, 2, 0, 4);
    for _ in 0..15 {
        push_descriptor(&mut data, 1000, 0, 0, 0);
    }
    for p in [0u32, 8, 16, 24] {
        push_u32(&mut data, p);
    }
    data.extend_from_slice(&[5, 0xFF, 0xFF, 7]); // notes
    data.extend_from_slice(&[2, 0xFF, 0xFF, 0xFF]); // lengths
    data.extend_from_slice(&[0xFF, 200, 0xFF, 0xFF]); // volumes
    data.extend_from_slice(&[6, 0xFF, 3, 0xFF]); // pans
    data
}

#[test]
fn sentinel_columns_repeat_previous_value() {
    let file = OrgFile::new(&sentinel_song()).unwrap();
    let notes = &file.sounds[0].notes;
    assert_eq!(notes.len(), 4);
    let got: Vec<u8> = notes.iter().map(|n| n.note).collect();
    assert_eq!(got, vec![5, 5, 5, 7]);
    let lengths: Vec<u8> = notes.iter().map(|n| n.length).collect();
    assert_eq!(lengths, vec![2, 2, 2, 2]);
    let pans: Vec<u8> = notes.iter().map(|n| n.pan).collect();
    assert_eq!(pans, vec![6, 6, 3, 3]);
    let positions: Vec<u32> = notes.iter().map(|n| n.position).collect();
    assert_eq!(positions, vec![0, 8, 16, 24]);
    assert!(notes.iter().all(|n| n.complete));
}

#[test]
fn sentinel_leading_byte_decodes_to_zero() {
    let file = OrgFile::new(&sentinel_song()).unwrap();
    let volumes: Vec<u8> = file.sounds[0].notes.iter().map(|n| n.volume).collect();
    assert_eq!(volumes, vec![0, 200, 200, 200]);
}

#[test]
fn overlapping_notes_are_clipped() {
    let mut data = Vec::new();
    push_header(&mut data, 100, 0, 64);
    push_descriptor(&mut data, 1000, 0, 0, 2);
    for _ in 0..15 {
        push_descriptor(&mut data, 1000, 0, 0, 0);
    }
    push_u32(&mut data, 0);
    push_u32(&mut data, 4);
    data.extend_from_slice(&[10, 10]); // notes
    data.extend_from_slice(&[10, 5]); // lengths
    data.extend_from_slice(&[100, 100]); // volumes
    data.extend_from_slice(&[6, 6]); // pans
    let file = OrgFile::new(&data).unwrap();
    let notes = &file.sounds[0].notes;
    // note 0 ends exactly where note 1 begins; note 1 is stretched to where
    // note 0 would have ended
    assert_eq!(notes[0].length, 4);
    assert_eq!(notes[1].length, 6);
}

#[test]
fn decoded_tracks_never_overlap() {
    let file = OrgFile::new(&sentinel_song()).unwrap();
    for track in file.sounds.iter().chain(file.drums.iter()) {
        for pair in track.notes.windows(2) {
            assert!(pair[0].position + pair[0].length as u32 <= pair[1].position);
        }
    }
}

#[test]
fn out_of_order_note_is_dropped() {
    let mut data = Vec::new();
    push_header(&mut data, 100, 0, 64);
    push_descriptor(&mut data, 1000, 0, 0, 3);
    for _ in 0..15 {
        push_descriptor(&mut data, 1000, 0, 0, 0);
    }
    push_u32(&mut data, 10);
    push_u32(&mut data, 0); // starts before its predecessor: dropped
    push_u32(&mut data, 12);
    data.extend_from_slice(&[10, 10, 10]);
    data.extend_from_slice(&[3, 5, 4]);
    data.extend_from_slice(&[100, 100, 100]);
    data.extend_from_slice(&[6, 6, 6]);
    let file = OrgFile::new(&data).unwrap();
    let notes = &file.sounds[0].notes;
    assert_eq!(notes.len(), 2);
    assert_eq!(notes[0].position, 10);
    assert_eq!(notes[1].position, 12);
    // the survivors are then overlap-corrected as usual: note 0 ends where
    // note 1 begins, note 1 ends where note 0 would have ended
    assert_eq!(notes[0].length, 2);
    assert_eq!(notes[1].length, 1);
    for pair in notes.windows(2) {
        assert!(pair[0].position + pair[0].length as u32 <= pair[1].position);
    }
}

#[test]
fn inverted_loop_bounds_are_normalized() {
    // a header with the loop bounds in the wrong order parses, with the end
    // raised so that loop_start <= loop_end holds of every song
    let data = empty_song(100, 30, 20);
    let file = OrgFile::new(&data).unwrap();
    assert_eq!(file.properties.loop_start, 30);
    assert_eq!(file.properties.loop_end, 30);
    assert!(file.properties.loop_start <= file.properties.loop_end);
}

#[test]
fn props_parser_reports_offsets() {
    let data = empty_song(7, 1, 2);
    let (p, end) = OrgProps::new(&data, 0).unwrap();
    assert_eq!(end, 18);
    assert_eq!(p.click, 7);
    assert!(matches!(OrgProps::new(&vec![0u8; 17], 0), Err(FormatError::Truncated)));
}

#[test]
fn descriptor_parser_reads_six_bytes() {
    let mut data = vec![0u8; 3];
    push_descriptor(&mut data, 0x0102, 9, 2, 0x0304);
    let (t, end) = OrgTrack::new(&data, 3).unwrap();
    assert_eq!(end, 9);
    assert_eq!(t.pitch, 0x0102);
    assert_eq!(t.instrument, 9);
    assert!(t.pi);
    assert_eq!(t.num_notes, 0x0304);
    assert!(t.notes.is_empty());
    assert!(matches!(OrgTrack::new(&data, 4), Err(FormatError::Truncated)));
}

#[test]
fn note_block_parser_returns_end_offset() {
    let mut data = Vec::new();
    push_u32(&mut data, 3);
    data.extend_from_slice(&[40, 50, 60, 7]);
    let mut track = OrgTrack { pitch: 0, instrument: 0, pi: false, num_notes: 1, notes: vec![] };
    let end = OrgNote::new(&data, &mut track, 0).unwrap();
    assert_eq!(end, 8);
    assert_eq!(track.notes.len(), 1);
    assert_eq!(track.notes[0].position, 3);
    assert_eq!(track.notes[0].note, 40);
    assert_eq!(track.notes[0].length, 50);
    assert_eq!(track.notes[0].volume, 60);
    assert_eq!(track.notes[0].pan, 7);
    let mut short = OrgTrack { pitch: 0, instrument: 0, pi: false, num_notes: 2, notes: vec![] };
    assert_eq!(OrgNote::new(&data, &mut short, 0), Err(FormatError::Truncated));
}

#[test]
fn default_note_and_track_are_empty() {
    let n = OrgNote::default();
    assert_eq!(n.position, 0);
    assert_eq!(n.length, 0);
    assert!(!n.complete);
    let t = OrgTrack::default();
    assert_eq!(t.num_notes, 0);
    assert!(t.notes.is_empty());
    assert!(!t.pi);
}

fn bank_bytes() -> Vec<u8> {
    let mut data = Vec::new();
    data.push(2); // melodic count
    data.extend_from_slice(&[0, 0, 3]); // cycle length, big-endian
    data.extend_from_slice(&[1, 2, 0xFF]); // melodic waveform 0
    data.extend_from_slice(&[0x80, 0x7F, 0]); // melodic waveform 1
    data.push(1); // drum count
    data.extend_from_slice(&[0, 0]); // reserved
    data.extend_from_slice(&[0, 0, 2]); // drum 0 length, big-endian
    data.extend_from_slice(&[5, 250]); // drum 0 samples
    data
}

#[test]
fn bank_load_reinterprets_bytes_as_signed() {
    let bank = WaveformBank::load(&bank_bytes()).unwrap();
    assert_eq!(bank.sounds.len(), 2);
    assert_eq!(bank.sounds[0], vec![1i8, 2, -1]);
    assert_eq!(bank.sounds[1], vec![-128i8, 127, 0]);
    assert_eq!(bank.drums.len(), 1);
    assert_eq!(bank.drums[0], vec![5i8, -6]);
}

#[test]
fn bank_load_fails_on_short_source() {
    assert!(matches!(WaveformBank::load(&vec![]), Err(IoError)));
    assert!(matches!(WaveformBank::load(&vec![2, 0, 0, 3, 1]), Err(IoError)));
    let mut cut = bank_bytes();
    cut.pop();
    assert!(matches!(WaveformBank::load(&cut), Err(IoError)));
}

#[test]
fn bank_resolve_checks_the_index() {
    let bank = WaveformBank::load(&bank_bytes()).unwrap();
    assert_eq!(bank.resolve(1, false).unwrap(), &vec![-128i8, 127, 0]);
    assert_eq!(bank.resolve(0, true).unwrap(), &vec![5i8, -6]);
    assert_eq!(bank.resolve(2, false), Err(ConfigError));
    assert_eq!(bank.resolve(1, true), Err(ConfigError));
}

#[test]
fn melodic_note_plays_with_rising_offset() {
    // click = 1 means 44 samples per row
    let p = props(1, 0, 100);
    let t = track_with(vec![note(0, 1, 200, 6)], false);
    let mut seq = Sequencer::new(&t, &p, false, 0);
    for k in 0..44u64 {
        assert_eq!(
            seq.step(),
            Frame::Play { note: 45, volume: 200, pan: 6, offset: k }
        );
    }
    // the sustain of one row has expired
    assert_eq!(seq.step(), Frame::Silence);
}

#[test]
fn new_onset_replaces_sounding_note() {
    let p = props(1, 0, 100);
    let t = track_with(vec![note(0, 5, 200, 6), note(1, 1, 90, 2)], false);
    let mut seq = Sequencer::new(&t, &p, false, 0);
    for k in 0..44u64 {
        assert_eq!(
            seq.step(),
            Frame::Play { note: 45, volume: 200, pan: 6, offset: k }
        );
    }
    // row 1: the second note wins, with a fresh offset
    assert_eq!(
        seq.step(),
        Frame::Play { note: 45, volume: 90, pan: 2, offset: 0 }
    );
}

#[test]
fn drum_note_is_one_shot() {
    let p = props(1, 0, 100);
    let t = track_with(vec![note(0, 0, 128, 6)], false);
    let mut seq = Sequencer::new(&t, &p, true, 2);
    assert_eq!(
        seq.step(),
        Frame::Play { note: 45, volume: 128, pan: 6, offset: 0 }
    );
    assert_eq!(
        seq.step(),
        Frame::Play { note: 45, volume: 128, pan: 6, offset: 1 }
    );
    // the two-sample drum waveform is exhausted
    for _ in 0..100 {
        assert_eq!(seq.step(), Frame::Silence);
    }
}

#[test]
fn pi_track_never_sounds() {
    let p = props(1, 0, 4);
    let t = track_with(vec![note(0, 10, 255, 6), note(1, 10, 255, 6)], false);
    let mut seq = Sequencer::new(&t, &p, false, 0);
    let muted = OrgTrack { pi: true, ..t };
    let mut mseq = Sequencer::new(&muted, &p, false, 0);
    // the unmuted twin sounds, the muted track never does
    assert_ne!(seq.step(), Frame::Silence);
    for _ in 0..1000 {
        assert_eq!(mseq.step(), Frame::Silence);
    }
    // the flag mutes a drum track just the same
    let mut dseq = Sequencer::new(&muted, &p, true, 100);
    for _ in 0..1000 {
        assert_eq!(dseq.step(), Frame::Silence);
    }
}

#[test]
fn row_counter_wraps_at_loop_end() {
    let p = props(1, 1, 3);
    let t = track_with(vec![], false);
    let mut seq = Sequencer::new(&t, &p, false, 0);
    assert_eq!(seq.row, 0);
    for _ in 0..44 {
        seq.step();
    }
    assert_eq!(seq.row, 1);
    for _ in 0..44 {
        seq.step();
    }
    assert_eq!(seq.row, 2);
    // row 2 is loop_end: the next row produced is loop_start
    for _ in 0..44 {
        seq.step();
    }
    assert_eq!(seq.row, 1);
}

#[test]
fn loop_cycles_repeat_identically() {
    let p = props(1, 0, 3);
    let t = track_with(vec![note(0, 1, 200, 6), note(2, 2, 90, 8)], false);
    let mut seq = Sequencer::new(&t, &p, false, 0);
    // 3 rows of 44 samples each per cycle
    let cycle = 3 * 44;
    let frames: Vec<Frame> = (0..3 * cycle).map(|_| seq.step()).collect();
    for k in 0..cycle {
        assert_eq!(frames[cycle + k], frames[2 * cycle + k]);
    }
    assert!(frames.iter().any(|f| *f != Frame::Silence));
}

#[test]
fn loop_cut_note_falls_silent() {
    // a note still sounding when the loop wraps is cut hard
    let p = props(1, 0, 2);
    let t = track_with(vec![note(1, 200, 150, 6)], false);
    let mut seq = Sequencer::new(&t, &p, false, 0);
    for _ in 0..44 {
        assert_eq!(seq.step(), Frame::Silence);
    }
    for k in 0..44u64 {
        assert_eq!(
            seq.step(),
            Frame::Play { note: 45, volume: 150, pan: 6, offset: k }
        );
    }
    // the wrap lands on loop_start 0, where no note sits
    assert_eq!(seq.row, 0);
    for _ in 0..44 {
        assert_eq!(seq.step(), Frame::Silence);
    }
}
