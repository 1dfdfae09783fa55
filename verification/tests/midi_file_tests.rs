use libatm::{
    gen_midi_file_size, gen_midi_track_size, MIDIChannelVoiceMessage, MIDIFile, MIDIFormat,
    MIDINote, MIDINoteType, MIDIStatus,
};

#[test]
fn test_midievent_noteon() {
    let note = MIDINote::new(MIDINoteType::C, 4);
    let event = MIDIChannelVoiceMessage::new(0, &note, 100, MIDIStatus::NoteOn, 0);
    let status = 0b10010000;
    assert_eq!(status, event.status);
}

#[test]
fn test_midievent_runningstatus() {
    let note = MIDINote::new(MIDINoteType::C, 4);
    let event = MIDIChannelVoiceMessage::new(0, &note, 100, MIDIStatus::RunningStatus, 0);
    assert_eq!(0, event.status);
}

#[test]
fn test_midievent_channel_in_status() {
    let note = MIDINote::new(MIDINoteType::C, 4);
    let event = MIDIChannelVoiceMessage::new(0, &note, 100, MIDIStatus::NoteOn, 3);
    assert_eq!(0x93, event.status);
}

#[test]
fn test_midievent_rest_forces_velocity_zero() {
    let note = MIDINote::new(MIDINoteType::Rest, 4);
    let event = MIDIChannelVoiceMessage::new(0, &note, 100, MIDIStatus::NoteOn, 0);
    assert_eq!(0, event.velocity);
    assert_eq!(0xff, event.note);
}

#[test]
fn test_midievent_write_buffer_running_status_is_three_bytes() {
    let note = MIDINote::new(MIDINoteType::C, 4);
    let on = MIDIChannelVoiceMessage::new(0, &note, 0x64, MIDIStatus::NoteOn, 0);
    let off = MIDIChannelVoiceMessage::new(5, &note, 0, MIDIStatus::RunningStatus, 0);
    let mut buffer: Vec<u8> = Vec::new();
    on.write_buffer(&mut buffer);
    off.write_buffer(&mut buffer);
    assert_eq!(vec![0x00, 0x90, 0x3c, 0x64, 0x05, 0x3c, 0x00], buffer);
}

#[test]
fn test_midi_size_formulas() {
    assert_eq!(1, gen_midi_track_size(0));
    assert_eq!(7, gen_midi_track_size(1));
    assert_eq!(19, gen_midi_track_size(3));
    assert_eq!(23, gen_midi_file_size(0));
    assert_eq!(29, gen_midi_file_size(1));
    assert_eq!(41, gen_midi_file_size(3));
}

#[test]
fn test_midifile_size() {
    let sequence = libatm::parse_midi_note_sequence("C:4,D:4,E:4,C:4,D:4,E:4,C:4,D:4,E:4,C:4,D:4,E:4")
        .unwrap();
    let mfile = MIDIFile::new(sequence, MIDIFormat::Format0, 1, 1);
    assert_eq!(95, mfile.gen_size());
    assert_eq!(95, mfile.gen_file().len());
}

#[test]
fn test_midifile_single_note_exact_bytes() {
    let sequence = libatm::parse_midi_note_sequence("C:4").unwrap();
    let mfile = MIDIFile::new(sequence, MIDIFormat::Format0, 1, 1);
    assert_eq!(29, mfile.gen_size());
    let bytes = mfile.gen_file();
    let expected: Vec<u8> = vec![
        0x4d, 0x54, 0x68, 0x64, // MThd
        0x00, 0x00, 0x00, 0x06, // header length
        0x00, 0x00, // format 0
        0x00, 0x01, // one track
        0x00, 0x01, // division 1
        0x4d, 0x54, 0x72, 0x6b, // MTrk
        0x00, 0x00, 0x00, 0x07, // track length 6*1+1
        0x00, 0x90, 0x3c, 0x64, // delta 0, NoteOn ch 0, note 60, velocity 0x64
        0x01, 0x3c, 0x00, // delta 1, running status, note 60, velocity 0
    ];
    assert_eq!(expected, bytes);
}

#[test]
fn test_midifile_three_notes_size() {
    let sequence = libatm::parse_midi_note_sequence("C:4,D:4,E:4").unwrap();
    let mfile = MIDIFile::new(sequence, MIDIFormat::Format0, 1, 1);
    assert_eq!(22 + 6 * 3 + 1, mfile.gen_size());
    assert_eq!(41, mfile.gen_file().len());
}

#[test]
fn test_midifile_empty_sequence_emits_header_chunks_only() {
    let mfile = MIDIFile::new(Vec::new(), MIDIFormat::Format0, 1, 1);
    // The closed-form size formula counts one byte that an empty event
    // stream never emits; the actual bytes are the two headers alone.
    assert_eq!(23, mfile.gen_size());
    assert_eq!(22, mfile.gen_file().len());
}

#[test]
fn test_midifile_division_truncated_in_release_delta() {
    let sequence = libatm::parse_midi_note_sequence("C:4").unwrap();
    let mfile = MIDIFile::new(sequence, MIDIFormat::Format0, 1, 257);
    let track = mfile.gen_track();
    assert_eq!(2, track.len());
    assert_eq!(0, track[0].delta_time);
    assert_eq!(1, track[1].delta_time);
}

#[test]
fn test_midifile_track_uses_running_status_after_first_note() {
    let sequence = libatm::parse_midi_note_sequence("C:4,rest:0,D:4").unwrap();
    let mfile = MIDIFile::new(sequence, MIDIFormat::Format0, 1, 1);
    let track = mfile.gen_track();
    assert_eq!(6, track.len());
    assert_eq!(0x90, track[0].status);
    for event in track.iter().skip(1) {
        assert_eq!(0, event.status);
    }
    // The rest is emitted as note 0xff with velocity 0 in both its events.
    assert_eq!(0xff, track[2].note);
    assert_eq!(0, track[2].velocity);
}

#[test]
fn test_midifile_gen_header_fields() {
    let mfile = MIDIFile::new(Vec::new(), MIDIFormat::Format1, 2, 96);
    let header = mfile.gen_header();
    assert_eq!(vec![0x4d, 0x54, 0x68, 0x64], header.chunk_type);
    assert_eq!(6, header.length);
    assert_eq!(1, header.format);
    assert_eq!(2, header.tracks);
    assert_eq!(96, header.division);
}

#[test]
fn test_midifile_gen_track_header_fields() {
    let sequence = libatm::parse_midi_note_sequence("C:4,D:4").unwrap();
    let mfile = MIDIFile::new(sequence, MIDIFormat::Format0, 1, 1);
    let track_header = mfile.gen_track_header();
    assert_eq!(vec![0x4d, 0x54, 0x72, 0x6b], track_header.chunk_type);
    assert_eq!(13, track_header.length);
}

#[test]
fn test_midifile_gen_hash() {
    let mfile = MIDIFile::new(
        vec![
            MIDINote::new(MIDINoteType::C, 4),
            MIDINote::new(MIDINoteType::CSharp, 8),
            MIDINote::new(MIDINoteType::D, 5),
            MIDINote::new(MIDINoteType::DSharp, 3),
        ],
        MIDIFormat::Format0,
        1,
        1,
    );
    assert_eq!("601097451", mfile.gen_hash());
}

#[test]
fn test_midifile_gen_hash_deterministic() {
    let sequence = libatm::parse_midi_note_sequence("C:4,D:4,rest:0").unwrap();
    let a = MIDIFile::new(sequence.clone(), MIDIFormat::Format0, 1, 1);
    let b = MIDIFile::new(sequence, MIDIFormat::Format0, 1, 1);
    assert_eq!(a.gen_hash(), b.gen_hash());
}

#[test]
fn test_midifile_gen_hash_distinguishes_order() {
    let a = MIDIFile::new(
        libatm::parse_midi_note_sequence("C:4,D:4").unwrap(),
        MIDIFormat::Format0,
        1,
        1,
    );
    let b = MIDIFile::new(
        libatm::parse_midi_note_sequence("D:4,C:4").unwrap(),
        MIDIFormat::Format0,
        1,
        1,
    );
    assert_eq!("6062", a.gen_hash());
    assert_eq!("6260", b.gen_hash());
}

#[test]
fn test_midifile_gen_hash_collision_across_widths() {
    // The fingerprint concatenates decimal numbers with no separator or
    // fixed width, so aligned numbers of different widths can collide:
    // C:0 (12) then A:27 (345) reads the same as D#:9 (123) then A:2 (45).
    let a = MIDIFile::new(
        vec![
            MIDINote::new(MIDINoteType::C, 0),
            MIDINote::new(MIDINoteType::A, 27),
        ],
        MIDIFormat::Format0,
        1,
        1,
    );
    let b = MIDIFile::new(
        vec![
            MIDINote::new(MIDINoteType::DSharp, 9),
            MIDINote::new(MIDINoteType::A, 2),
        ],
        MIDIFormat::Format0,
        1,
        1,
    );
    assert_eq!("12345", a.gen_hash());
    assert_eq!(a.gen_hash(), b.gen_hash());
}

#[test]
fn test_midifile_gen_hash_of_rest_is_sentinel_text() {
    let mfile = MIDIFile::new(
        vec![MIDINote::new(MIDINoteType::Rest, 3)],
        MIDIFormat::Format0,
        1,
        1,
    );
    assert_eq!("4294967295", mfile.gen_hash());
}
