use vstd::prelude::*;

verus! {

use crate::midi_note::{spec_convert, MIDINote, MIDINoteType};

/// MIDI message status.  Each channel message starts with a status byte whose
/// high nibble names the message kind; `RunningStatus` stands apart: it means
/// "reuse the previous message's status byte", so no status byte is written
/// at all.  This library emits only `NoteOn` and `RunningStatus`; the other
/// kinds are recognized but never produced by the file assembler.
#[derive(Clone, Copy, Debug)]
pub enum MIDIStatus {
    /// Assume status bytes of previous MIDI channel message
    RunningStatus,
    /// Note released
    NoteOff,
    /// Note pressed
    NoteOn,
    /// Pressure on key after pressed down
    PolyphonicAftertouch,
    /// Controller value change
    ControlChange,
    /// Change program (patch) number
    ProgramChange,
    /// Greatest pressure on key after pressed down
    Aftertouch,
    /// Change pitch wheel
    PitchWheelChange,
}

/// The status nibble of a message kind: the high four bits of the status
/// byte.  Real status nibbles are all at least 0b1000; `RunningStatus` is
/// given 0, which no real kind can collide with, so a whole status byte of 0
/// unambiguously means "status omitted".
pub open spec fn spec_status_nibble(s: MIDIStatus) -> u8 {
    match s {
        MIDIStatus::RunningStatus => 0b0000,
        MIDIStatus::NoteOff => 0b1000,
        MIDIStatus::NoteOn => 0b1001,
        MIDIStatus::PolyphonicAftertouch => 0b1010,
        MIDIStatus::ControlChange => 0b1011,
        MIDIStatus::ProgramChange => 0b1100,
        MIDIStatus::Aftertouch => 0b1101,
        MIDIStatus::PitchWheelChange => 0b1110,
    }
}

impl MIDIStatus {
    /// The status nibble of this message kind (see [`spec_status_nibble`]).
    pub fn nibble(self) -> (r: u8)
        ensures
            r == spec_status_nibble(self),
    {
        match self {
            MIDIStatus::RunningStatus => 0b0000,
            MIDIStatus::NoteOff => 0b1000,
            MIDIStatus::NoteOn => 0b1001,
            MIDIStatus::PolyphonicAftertouch => 0b1010,
            MIDIStatus::ControlChange => 0b1011,
            MIDIStatus::ProgramChange => 0b1100,
            MIDIStatus::Aftertouch => 0b1101,
            MIDIStatus::PitchWheelChange => 0b1110,
        }
    }
}

/// The status byte that a message built from `status` and `channel` carries:
/// 0 when the status is elided (running status), else the status nibble in
/// the high four bits and the channel in the low four.
pub open spec fn spec_status_byte(status: MIDIStatus, channel: u8) -> u8 {
    if status == MIDIStatus::RunningStatus {
        0
    } else {
        (spec_status_nibble(status) * 16 + channel) as u8
    }
}

/// One MIDI channel voice message: a delta time (ticks since the previous
/// event), a status byte (0 meaning "omitted, running status"), a note
/// number, and a velocity.  Its wire form is given by [`spec_message_bytes`].
#[derive(Clone, Copy, Debug, Eq, PartialEq, Structural)]
pub struct MIDIChannelVoiceMessage {
    pub delta_time: u8,
    pub status: u8,
    pub note: u8,
    pub velocity: u8,
}

/// The bytes a message occupies on disk, in order: delta time, then the
/// status byte unless it is elided (0), then note number, then velocity.
pub open spec fn spec_message_bytes(m: MIDIChannelVoiceMessage) -> Seq<u8> {
    if m.status != 0 {
        seq![m.delta_time, m.status, m.note, m.velocity]
    } else {
        seq![m.delta_time, m.note, m.velocity]
    }
}

impl MIDIChannelVoiceMessage {
    /// Create a new `MIDIChannelVoiceMessage` playing `note`.
    ///
    /// The channel must be below 16 and the velocity below 128; violating
    /// either is a caller bug, not a recoverable condition.  A silent note
    /// (`Rest`) forces the velocity to 0 whatever the caller supplied, and
    /// the note number is the low byte of the converted note number.  A
    /// `NoteOn` with velocity 0 is equivalent to a `NoteOff`; the file
    /// assembler exploits this, together with running status, to keep files
    /// minimal.
    pub fn new(
        delta_time: u8,
        note: &MIDINote,
        velocity: u8,
        status: MIDIStatus,
        channel: u8,
    ) -> (r: MIDIChannelVoiceMessage)
        requires
            channel < 0x10,
            velocity < 0x80,
        ensures
            r.delta_time == delta_time,
            r.status == spec_status_byte(status, channel),
            r.note == spec_convert(*note) % 256,
            r.velocity == (if note.note_type == MIDINoteType::Rest {
                0u8
            } else {
                velocity
            }),
    {
        let velocity = match note.note_type {
            MIDINoteType::Rest => 0u8,
            _ => velocity,
        };

        let event_status = match status {
            MIDIStatus::RunningStatus => 0u8,
            _ => status.nibble() * 16 + channel,
        };

        MIDIChannelVoiceMessage {
            delta_time,
            status: event_status,
            note: (note.convert() % 256) as u8,
            velocity,
        }
    }

    /// Append this message's wire form (see [`spec_message_bytes`]) to a
    /// byte buffer: delta time, status byte unless elided, note, velocity.
    pub fn write_buffer(&self, target: &mut Vec<u8>)
        ensures
            final(target)@ == old(target)@ + spec_message_bytes(*self),
    {
        target.push(self.delta_time);
        if self.status != 0 {
            target.push(self.status);
        }
        target.push(self.note);
        target.push(self.velocity);
        proof {
            assert(target@ =~= old(target)@ + spec_message_bytes(*self));
        }
    }
}

} // verus!
