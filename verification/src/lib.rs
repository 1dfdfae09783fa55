//! `libatm` builds byte-exact single-track, single-channel Standard MIDI Files
//! from sequences of notes, optimized for the smallest possible output.
//!
//! The library models notes and their MIDI numbers (`midi_note`), the channel
//! voice messages that make up a track (`midi_event`), and the chunk headers
//! and whole-file assembly (`midi_file`).  Every byte that reaches a file is
//! described by the contracts in these modules.

pub mod decimal;
pub mod midi_event;
pub mod midi_file;
pub mod midi_note;

pub use midi_event::{
    spec_message_bytes, spec_status_byte, spec_status_nibble, MIDIChannelVoiceMessage, MIDIStatus,
};
pub use midi_file::{
    gen_midi_file_size, gen_midi_track_size, lemma_file_size_exact, lemma_hash_deterministic,
    lemma_hash_distinct, spec_attack_message, spec_be16,
    spec_be32, spec_events_bytes, spec_file_bytes, spec_format_number, spec_hash_of,
    spec_header_bytes, spec_header_chunk_bytes, spec_release_message, spec_track_chunk_header_bytes,
    spec_track_events, spec_track_header_bytes, MIDIFile, MIDIFormat, MIDIHeader, MIDITrackHeader,
};
pub use midi_note::{
    lemma_convert_formula, lemma_find_char, lemma_first_bad, lemma_note_order_trichotomy,
    lemma_silence_sentinel, lemma_split_at_first, lemma_split_len_ge1, lemma_split_len_ge2,
    lemma_split_none, parse_midi_note_sequence, spec_char_matches, spec_class_of, spec_convert,
    spec_digits_value, spec_find_char, spec_first_bad, spec_is_digit, spec_list_parts,
    spec_note_error_matches, spec_note_lt, spec_note_ordinal, spec_note_parts, spec_note_text_ok,
    spec_parsed_note, spec_parsed_notes, spec_sign_stripped, spec_sorted_unique, spec_split,
    spec_text_matches, spec_u32_text, MIDINote, MIDINoteSet, MIDINoteType, ParseMIDINoteError,
    ParseMIDINoteSequenceError, ParseMIDINoteSetError, ParseMIDINoteTypeError,
};
