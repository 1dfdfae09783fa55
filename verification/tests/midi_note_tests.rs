use libatm::{
    MIDINote, MIDINoteSet, MIDINoteType, ParseMIDINoteError, ParseMIDINoteSequenceError,
    ParseMIDINoteSetError, ParseMIDINoteTypeError,
};

#[test]
fn test_midi_note_from_str_valid() {
    let observed = "C#:5".parse::<MIDINote>();
    let expected = Ok(MIDINote::new(MIDINoteType::CSharp, 5));
    assert_eq!(expected, observed);
}

#[test]
fn test_midi_note_from_str_invalid_note_type() {
    let observed = "C$:5".parse::<MIDINote>();
    let expected = Err(ParseMIDINoteError::UnknownNoteType(
        ParseMIDINoteTypeError::UnknownNoteType {
            input: "C$".to_string(),
        },
    ));
    assert_eq!(expected, observed);
}

#[test]
fn test_midi_note_from_str_invalid_format() {
    let input = "C#;5".to_string();
    let observed = input.as_str().parse::<MIDINote>();
    let expected = Err(ParseMIDINoteError::InvalidNoteFormat { input });
    assert_eq!(expected, observed);
}

#[test]
fn test_midi_note_from_str_invalid_octive() {
    let input = "C#:12.3".to_string();
    let observed = input.as_str().parse::<MIDINote>();
    assert!(observed.is_err());
}

#[test]
fn test_midi_note_set_from_str_valid_no_duplicate() {
    let observed = "C:4,D:4,E:4,F:4,F#:4,DFlat:5".parse::<MIDINoteSet>();
    let expected = Ok(MIDINoteSet::new(vec![
        MIDINote::new(MIDINoteType::C, 4),
        MIDINote::new(MIDINoteType::D, 4),
        MIDINote::new(MIDINoteType::E, 4),
        MIDINote::new(MIDINoteType::F, 4),
        MIDINote::new(MIDINoteType::FSharp, 4),
        MIDINote::new(MIDINoteType::CSharp, 5),
    ]));
    assert_eq!(expected, observed);
}

#[test]
fn test_midi_note_set_from_str_valid_with_duplicate() {
    let observed = "C:4,C:4,D:5".parse::<MIDINoteSet>();
    let expected = Ok(MIDINoteSet::new(vec![
        MIDINote::new(MIDINoteType::C, 4),
        MIDINote::new(MIDINoteType::D, 5),
    ]));
    assert_eq!(expected, observed);
}

#[test]
fn test_midi_note_set_from_str_invalid_note_type() {
    let input = "C:4,CL:8,D:6".to_string();
    let observed = input.as_str().parse::<MIDINoteSet>();
    let expected = Err(ParseMIDINoteSetError::ParseMIDINote(
        1,
        ParseMIDINoteError::UnknownNoteType(ParseMIDINoteTypeError::UnknownNoteType {
            input: "CL".to_string(),
        }),
    ));
    assert_eq!(expected, observed);
}

#[test]
fn test_midi_note_set_from_str_extra_comma() {
    let input = "C:4,C:8,D:6,".to_string();
    let observed = input.as_str().parse::<MIDINoteSet>();
    let expected = Err(ParseMIDINoteSetError::ParseMIDINote(
        3,
        ParseMIDINoteError::InvalidNoteFormat {
            input: "".to_string(),
        },
    ));
    assert_eq!(expected, observed);
}

#[test]
fn test_midi_note_type_enharmonic_spellings() {
    for text in ["Dflat", "d\u{266d}", "Db", "CSHARP", "c#"] {
        assert_eq!(Ok(MIDINoteType::CSharp), text.parse::<MIDINoteType>());
    }
    assert_eq!(Ok(MIDINoteType::C), "B#".parse::<MIDINoteType>());
    assert_eq!(Ok(MIDINoteType::B), "Cb".parse::<MIDINoteType>());
    assert_eq!(Ok(MIDINoteType::Rest), "REST".parse::<MIDINoteType>());
    assert_eq!(Ok(MIDINoteType::Rest), "empty".parse::<MIDINoteType>());
}

#[test]
fn test_midi_note_convert_middle_c() {
    let note = MIDINote::new(MIDINoteType::C, 4);
    assert_eq!(60, note.convert());
}

#[test]
fn test_midi_note_convert_rest_is_sentinel_for_every_octave() {
    assert_eq!(u32::MAX, MIDINote::new(MIDINoteType::Rest, 0).convert());
    assert_eq!(u32::MAX, MIDINote::new(MIDINoteType::Rest, 4).convert());
    assert_eq!(u32::MAX, MIDINote::new(MIDINoteType::Rest, 4000).convert());
}

#[test]
fn test_midi_note_from_str_rest_zero() {
    let observed = "rest:0".parse::<MIDINote>();
    let expected = Ok(MIDINote::new(MIDINoteType::Rest, 0));
    assert_eq!(expected, observed);
    assert_eq!(u32::MAX, observed.unwrap().convert());
}

#[test]
fn test_midi_note_from_str_invalid_octave_overflow() {
    assert!("C:4294967296".parse::<MIDINote>().is_err());
    assert_eq!(
        Ok(MIDINote::new(MIDINoteType::C, 4294967295)),
        "C:4294967295".parse::<MIDINote>()
    );
}

#[test]
fn test_midi_note_from_str_plus_octave() {
    assert_eq!(
        Ok(MIDINote::new(MIDINoteType::G, 3)),
        "g:+3".parse::<MIDINote>()
    );
    assert!("g:+".parse::<MIDINote>().is_err());
    assert!("g:-3".parse::<MIDINote>().is_err());
    assert!("g:".parse::<MIDINote>().is_err());
}

#[test]
fn test_midi_note_sequence_preserves_order_and_duplicates() {
    let observed = libatm::parse_midi_note_sequence("D:5,C:4,C:4").unwrap();
    let expected = vec![
        MIDINote::new(MIDINoteType::D, 5),
        MIDINote::new(MIDINoteType::C, 4),
        MIDINote::new(MIDINoteType::C, 4),
    ];
    assert_eq!(expected, observed);
}

#[test]
fn test_midi_note_sequence_trailing_comma_fails_at_empty_element() {
    let observed = libatm::parse_midi_note_sequence("C:4,D:4,");
    let expected = Err(ParseMIDINoteSequenceError::ParseMIDINote(
        2,
        ParseMIDINoteError::InvalidNoteFormat {
            input: "".to_string(),
        },
    ));
    assert_eq!(expected, observed);
}

#[test]
fn test_midi_note_set_iteration_is_sorted() {
    let set = "B:0,C:8,C:0,A:4".parse::<MIDINoteSet>().unwrap();
    let notes = set.notes();
    let expected = vec![
        MIDINote::new(MIDINoteType::C, 0),
        MIDINote::new(MIDINoteType::C, 8),
        MIDINote::new(MIDINoteType::A, 4),
        MIDINote::new(MIDINoteType::B, 0),
    ];
    assert_eq!(&expected, notes);
}
