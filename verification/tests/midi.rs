use ez_core::midi::{parse, DrumKind, MidiError, MidiNote};

/// A one-track file at `bpm`: kick (ch 10) on every beat for `beats`
/// beats and an A4 then C5 melody note in the first two beats.
fn sample_file(bpm: f32, beats: u32) -> Vec<u8> {
    let mut trk: Vec<u8> = Vec::new();
    let tempo = (60_000_000.0 / bpm) as u32;
    trk.extend_from_slice(&[0x00, 0xff, 0x51, 0x03]);
    trk.extend_from_slice(&tempo.to_be_bytes()[1..]);
    // melody: A4 at 0 for one beat, C5 at 1 beat
    trk.extend_from_slice(&[0x00, 0x90, 69, 100]);
    for b in 0..beats {
        // kick note on (running status not used)
        let dt: &[u8] = if b == 0 { &[0x00] } else { &[0x83, 0x60] }; // 480 ticks
        trk.extend_from_slice(dt);
        trk.extend_from_slice(&[0x99, 36, 110]);
        if b == 1 {
            trk.extend_from_slice(&[0x00, 0x80, 69, 0, 0x00, 0x90, 72, 90]);
        }
    }
    trk.extend_from_slice(&[0x83, 0x60, 0x80, 72, 0]);
    trk.extend_from_slice(&[0x00, 0xff, 0x2f, 0x00]);
    let mut f = Vec::new();
    f.extend_from_slice(b"MThd");
    f.extend_from_slice(&6u32.to_be_bytes());
    f.extend_from_slice(&0u16.to_be_bytes());
    f.extend_from_slice(&1u16.to_be_bytes());
    f.extend_from_slice(&480u16.to_be_bytes());
    f.extend_from_slice(b"MTrk");
    f.extend_from_slice(&(trk.len() as u32).to_be_bytes());
    f.extend_from_slice(&trk);
    f
}

fn seconds(m: &ez_core::midi::MidiData, tick: u64) -> f64 {
    m.micros_at(tick) as f64 / 1e6
}

#[test]
fn parses_notes_and_tempo() {
    let m = parse(&sample_file(120.0, 8)).unwrap();
    let bpm = m.first_tempo().map(|t| (60_000_000.0 / t as f32).round());
    assert_eq!(bpm, Some(120.0));
    let kicks: Vec<&MidiNote> = m
        .notes()
        .iter()
        .filter(|n| n.drum() == Some(DrumKind::Kick))
        .collect();
    assert_eq!(kicks.len(), 8);
    assert!((seconds(&m, kicks[3].start) - 1.5).abs() < 1e-3);
    let mel: Vec<&MidiNote> = m.notes().iter().filter(|n| n.drum().is_none()).collect();
    assert_eq!(mel.len(), 2);
    assert_eq!(mel[1].key, 72);
    assert!((seconds(&m, mel[1].start) - 0.5).abs() < 1e-3);
    assert!(parse(b"nope").is_err());
}

#[test]
fn notes_end_at_the_next_event_of_their_key() {
    let m = parse(&sample_file(120.0, 2)).unwrap();
    let mel: Vec<&MidiNote> = m.notes().iter().filter(|n| n.channel == 0).collect();
    assert_eq!(mel[0].start, 0);
    assert_eq!(mel[0].end, Some(480));
    assert_eq!(mel[1].start, 480);
    assert_eq!(mel[1].end, Some(960));
    let kicks: Vec<&MidiNote> = m.notes().iter().filter(|n| n.channel == 9).collect();
    assert_eq!(kicks[0].end, Some(480), "the next kick cuts the previous one");
    assert_eq!(kicks[1].end, None, "the last kick is never switched off");
    assert_eq!(m.ticks_per_quarter(), 480);
    for w in m.notes().windows(2) {
        assert!(w[0].start <= w[1].start);
    }
}

#[test]
fn tempo_changes_move_later_notes() {
    // 60 BPM: a quarter note lasts a second.
    let m = parse(&sample_file(60.0, 4)).unwrap();
    assert_eq!(m.first_tempo(), Some(1_000_000));
    assert_eq!(m.micros_at(480), 1_000_000);
    assert_eq!(m.micros_at(240), 500_000);
    assert_eq!(m.tempos().len(), 1);
}

#[test]
fn drums_by_key() {
    let n = |channel: u8, key: u8| MidiNote { start: 0, end: None, key, velocity: 1, channel };
    assert_eq!(n(9, 36).drum(), Some(DrumKind::Kick));
    assert_eq!(n(9, 38).drum(), Some(DrumKind::Snare));
    assert_eq!(n(9, 42).drum(), Some(DrumKind::Hat));
    assert_eq!(n(9, 60).drum(), Some(DrumKind::Other));
    assert_eq!(n(0, 36).drum(), None);
}

#[test]
fn each_error_has_its_input() {
    assert_eq!(parse(b"nope").err(), Some(MidiError::NotMidi));
    let mut smpte = sample_file(120.0, 1);
    smpte[12] = 0xe7;
    assert_eq!(parse(&smpte).err(), Some(MidiError::Smpte));
    let mut short = sample_file(120.0, 1);
    short.truncate(short.len() - 6);
    assert_eq!(parse(&short).err(), Some(MidiError::UnexpectedEnd));
    let mut header = b"MThd".to_vec();
    header.extend_from_slice(&6u32.to_be_bytes());
    header.extend_from_slice(&[0, 0, 0, 1, 1, 0xe0]);
    let mut bad_var = header.clone();
    bad_var.extend_from_slice(b"MTrk");
    bad_var.extend_from_slice(&6u32.to_be_bytes());
    bad_var.extend_from_slice(&[0x80, 0x80, 0x80, 0x80, 0x00, 0x00]);
    assert_eq!(parse(&bad_var).err(), Some(MidiError::BadVarLength));
    let mut corrupt = header.clone();
    corrupt.extend_from_slice(b"MTrk");
    corrupt.extend_from_slice(&2u32.to_be_bytes());
    corrupt.extend_from_slice(&[0x00, 0xf4]);
    assert_eq!(parse(&corrupt).err(), Some(MidiError::CorruptTrack));
    assert_eq!(MidiError::NotMidi.message(), "not a MIDI file");
}
