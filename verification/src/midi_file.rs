use vstd::prelude::*;

verus! {

use crate::midi_event::{spec_message_bytes, spec_status_byte, MIDIChannelVoiceMessage, MIDIStatus};
use crate::midi_note::{spec_convert, MIDINote, MIDINoteType};

/// MIDI file format.  Format 0 files hold a single track chunk; formats 1
/// and 2 allow one or more.  This library emits a single track whatever the
/// declared format.
#[derive(Clone, Copy, Debug, Eq, Hash, PartialEq)]
pub enum MIDIFormat {
    /// Single track.
    Format0,
    /// One or more simultaneous tracks.
    Format1,
    /// One or more independent tracks.
    Format2,
}

/// The 16-bit format number written into the header chunk for each format.
pub open spec fn spec_format_number(f: MIDIFormat) -> u16 {
    match f {
        MIDIFormat::Format0 => 0,
        MIDIFormat::Format1 => 1,
        MIDIFormat::Format2 => 2,
    }
}

impl MIDIFormat {
    /// The 16-bit format number of this format (see [`spec_format_number`]).
    pub fn number(self) -> (r: u16)
        ensures
            r == spec_format_number(self),
    {
        match self {
            MIDIFormat::Format0 => 0,
            MIDIFormat::Format1 => 1,
            MIDIFormat::Format2 => 2,
        }
    }
}

/// The two big-endian bytes of a 16-bit value, most significant first.
pub open spec fn spec_be16(v: u16) -> Seq<u8> {
    seq![(v / 256) as u8, (v % 256) as u8]
}

/// The four big-endian bytes of a 32-bit value, most significant first.
pub open spec fn spec_be32(v: u32) -> Seq<u8> {
    seq![
        (v / 0x100_0000) as u8,
        ((v / 0x1_0000) % 256) as u8,
        ((v / 256) % 256) as u8,
        (v % 256) as u8,
    ]
}

/// Append the two big-endian bytes of `v` to `target`.
fn push_be16(target: &mut Vec<u8>, v: u16)
    ensures
        final(target)@ == old(target)@ + spec_be16(v),
{
    target.push((v / 256) as u8);
    target.push((v % 256) as u8);
    proof {
        assert(target@ =~= old(target)@ + spec_be16(v));
    }
}

/// Append the four big-endian bytes of `v` to `target`.
fn push_be32(target: &mut Vec<u8>, v: u32)
    ensures
        final(target)@ == old(target)@ + spec_be32(v),
{
    target.push((v / 0x100_0000) as u8);
    target.push(((v / 0x1_0000) % 256) as u8);
    target.push(((v / 256) % 256) as u8);
    target.push((v % 256) as u8);
    proof {
        assert(target@ =~= old(target)@ + spec_be32(v));
    }
}

/// MIDI track chunk header: the chunk tag (`MTrk`) and the byte length of
/// the event stream that follows.  The length is load-bearing: readers use
/// it to find the end of the track, so it must be exact.
#[derive(Clone, Debug, PartialEq)]
pub struct MIDITrackHeader {
    pub chunk_type: Vec<u8>,
    pub length: u32,
}

/// The bytes of a track chunk header: the tag bytes, then the length as a
/// big-endian 32-bit value.
pub open spec fn spec_track_header_bytes(h: MIDITrackHeader) -> Seq<u8> {
    h.chunk_type@ + spec_be32(h.length)
}

impl MIDITrackHeader {
    /// Create a new `MIDITrackHeader`.
    pub fn new(chunk_type: Vec<u8>, length: u32) -> (r: Self)
        ensures
            r.chunk_type == chunk_type,
            r.length == length,
    {
        Self { chunk_type, length }
    }

    /// Append this header's bytes (see [`spec_track_header_bytes`]) to a
    /// byte buffer.
    pub fn write_buffer(&self, target: &mut Vec<u8>)
        ensures
            final(target)@ == old(target)@ + spec_track_header_bytes(*self),
    {
        let mut i: usize = 0;
        while i < self.chunk_type.len()
            invariant
                i <= self.chunk_type@.len(),
                target@ == old(target)@ + self.chunk_type@.subrange(0, i as int),
            decreases self.chunk_type@.len() - i,
        {
            target.push(self.chunk_type[i]);
            i = i + 1;
            proof {
                assert(target@ =~= old(target)@ + self.chunk_type@.subrange(0, i as int));
            }
        }
        push_be32(target, self.length);
        proof {
            assert(target@ =~= old(target)@ + spec_track_header_bytes(*self));
        }
    }
}

/// MIDI file header chunk: the chunk tag (`MThd`), the length of the chunk
/// body (always 6 here), and the three 16-bit data fields: format, track
/// count, and division (ticks per quarter note).
#[derive(Clone, Debug, PartialEq)]
pub struct MIDIHeader {
    pub chunk_type: Vec<u8>,
    pub length: u32,
    pub format: u16,
    pub tracks: u16,
    pub division: u16,
}

/// The bytes of a file header chunk: the tag bytes, the length as big-endian
/// 32 bits, then format, track count and division as big-endian 16 bits each.
pub open spec fn spec_header_bytes(h: MIDIHeader) -> Seq<u8> {
    h.chunk_type@ + spec_be32(h.length) + spec_be16(h.format) + spec_be16(h.tracks) + spec_be16(
        h.division,
    )
}

impl MIDIHeader {
    /// Create a new `MIDIHeader`.
    pub fn new(chunk_type: Vec<u8>, length: u32, format: MIDIFormat, tracks: u16, division: u16) -> (r:
        Self)
        ensures
            r.chunk_type == chunk_type,
            r.length == length,
            r.format == spec_format_number(format),
            r.tracks == tracks,
            r.division == division,
    {
        Self { chunk_type, length, format: format.number(), tracks, division }
    }

    /// Append this header's bytes (see [`spec_header_bytes`]) to a byte
    /// buffer.
    pub fn write_buffer(&self, target: &mut Vec<u8>)
        ensures
            final(target)@ == old(target)@ + spec_header_bytes(*self),
    {
        let mut i: usize = 0;
        while i < self.chunk_type.len()
            invariant
                i <= self.chunk_type@.len(),
                target@ == old(target)@ + self.chunk_type@.subrange(0, i as int),
            decreases self.chunk_type@.len() - i,
        {
            target.push(self.chunk_type[i]);
            i = i + 1;
            proof {
                assert(target@ =~= old(target)@ + self.chunk_type@.subrange(0, i as int));
            }
        }
        push_be32(target, self.length);
        push_be16(target, self.format);
        push_be16(target, self.tracks);
        push_be16(target, self.division);
        proof {
            assert(target@ =~= old(target)@ + spec_header_bytes(*self));
        }
    }
}

/// Size in bytes of a MIDI track chunk body holding `num_notes` notes: the
/// first note costs a 4-byte attack, every later note a 3-byte attack
/// (status elided), and every note a 3-byte release, so `6 * n + 1`.
pub fn gen_midi_track_size(num_notes: u32) -> (r: u32)
    requires
        6 * num_notes + 1 <= u32::MAX,
    ensures
        r == 6 * num_notes + 1,
{
    (num_notes * 6) + 1
}

/// Size in bytes of a whole MIDI file holding `num_notes` notes: a 14-byte
/// header chunk plus an 8-byte track chunk header plus the track body.
pub fn gen_midi_file_size(num_notes: u32) -> (r: u32)
    requires
        6 * num_notes + 23 <= u32::MAX,
    ensures
        r == 22 + 6 * num_notes + 1,
{
    22 + gen_midi_track_size(num_notes)
}

/// The attack message for one note of a track: delta time 0, velocity 0x64
/// (0 for silence), and an explicit `NoteOn` status byte only for the very
/// first note of the sequence; every later attack reuses it (running status).
pub open spec fn spec_attack_message(note: MIDINote, first: bool) -> MIDIChannelVoiceMessage {
    MIDIChannelVoiceMessage {
        delta_time: 0,
        status: if first {
            spec_status_byte(MIDIStatus::NoteOn, 0)
        } else {
            0
        },
        note: (spec_convert(note) % 256) as u8,
        velocity: if note.note_type == MIDINoteType::Rest {
            0
        } else {
            0x64
        },
    }
}

/// The release message for one note of a track: it comes `division` ticks
/// after the attack (truncated to one byte), reuses the `NoteOn` status
/// (running status), and has velocity 0, which MIDI reads as a note-off.
pub open spec fn spec_release_message(note: MIDINote, division: u16) -> MIDIChannelVoiceMessage {
    MIDIChannelVoiceMessage {
        delta_time: (division % 256) as u8,
        status: 0,
        note: (spec_convert(note) % 256) as u8,
        velocity: 0,
    }
}

/// The ordered event stream of a track: for each note, its attack followed
/// by its release; only the very first attack carries a status byte.
pub open spec fn spec_track_events(notes: Seq<MIDINote>, division: u16) -> Seq<
    MIDIChannelVoiceMessage,
> {
    Seq::new(
        2 * notes.len(),
        |k: int|
            if k % 2 == 0 {
                spec_attack_message(notes[k / 2], k == 0)
            } else {
                spec_release_message(notes[k / 2], division)
            },
    )
}

/// The bytes of an event stream: each event's wire form, in order.
pub open spec fn spec_events_bytes(events: Seq<MIDIChannelVoiceMessage>) -> Seq<u8>
    decreases events.len(),
{
    if events.len() == 0 {
        Seq::<u8>::empty()
    } else {
        spec_events_bytes(events.drop_last()) + spec_message_bytes(events.last())
    }
}

/// The bytes of the header chunk a file emits: tag `MThd`, body length 6,
/// then format, track count and division.
pub open spec fn spec_header_chunk_bytes(f: MIDIFile) -> Seq<u8> {
    seq![0x4du8, 0x54u8, 0x68u8, 0x64u8] + spec_be32(6) + spec_be16(spec_format_number(f.format))
        + spec_be16(f.tracks) + spec_be16(f.division)
}

/// The bytes of the track chunk header a file emits: tag `MTrk`, then the
/// exact byte length of the event stream.
pub open spec fn spec_track_chunk_header_bytes(f: MIDIFile) -> Seq<u8> {
    seq![0x4du8, 0x54u8, 0x72u8, 0x6bu8] + spec_be32((6 * f.sequence@.len() + 1) as u32)
}

/// Every byte of the file, in order: header chunk, track chunk header, then
/// the event stream.
pub open spec fn spec_file_bytes(f: MIDIFile) -> Seq<u8> {
    spec_header_chunk_bytes(f) + spec_track_chunk_header_bytes(f) + spec_events_bytes(
        spec_track_events(f.sequence@, f.division),
    )
}

/// The fingerprint of a note sequence: the decimal texts of the converted
/// note numbers, concatenated in order with no separator.
pub open spec fn spec_hash_of(notes: Seq<MIDINote>) -> Seq<char>
    decreases notes.len(),
{
    if notes.len() == 0 {
        Seq::<char>::empty()
    } else {
        spec_hash_of(notes.drop_last()) + crate::decimal::spec_dec_digits(
            spec_convert(notes.last()) as nat,
        )
    }
}

/// MIDI file representation: a note sequence together with the format, track
/// count and division written into the header.  This library emits the
/// smallest possible single-track files, so the intended values are format
/// 0 and one track.
#[derive(Clone, Debug)]
pub struct MIDIFile {
    /// Sequence of notes to generate the track chunk from
    pub sequence: Vec<MIDINote>,
    /// Format written into the header (intended: [`MIDIFormat::Format0`])
    pub format: MIDIFormat,
    /// Number of tracks written into the header (intended: 1)
    pub tracks: u16,
    /// Number of ticks representing a quarter note; values of 256 and above
    /// are truncated to one byte in the release events
    pub division: u16,
}

impl MIDIFile {
    /// Create a new `MIDIFile`.
    pub fn new(sequence: Vec<MIDINote>, format: MIDIFormat, tracks: u16, division: u16) -> (r:
        MIDIFile)
        ensures
            r.sequence == sequence,
            r.format == format,
            r.tracks == tracks,
            r.division == division,
    {
        MIDIFile { sequence, format, tracks, division }
    }

    /// The fingerprint of this file's note sequence (see [`spec_hash_of`]):
    /// the decimal converted note numbers concatenated in order.  Its
    /// intended use is as a lookup key for files on disk; see
    /// [`lemma_hash_distinct`] for how far the scheme separates sequences.
    pub fn gen_hash(&self) -> (r: String)
        ensures
            r@ == spec_hash_of(self.sequence@),
    {
        let mut hash = String::new();
        let mut i: usize = 0;
        while i < self.sequence.len()
            invariant
                i <= self.sequence@.len(),
                hash@ == spec_hash_of(self.sequence@.subrange(0, i as int)),
            decreases self.sequence@.len() - i,
        {
            let text = crate::decimal::u32_to_decimal(self.sequence[i].convert());
            hash.append(text.as_str());
            i = i + 1;
            proof {
                let pre = self.sequence@.subrange(0, i as int);
                assert(pre.drop_last() =~= self.sequence@.subrange(0, i - 1));
            }
        }
        proof {
            assert(self.sequence@.subrange(0, self.sequence@.len() as int) =~= self.sequence@);
        }
        hash
    }

    /// Generate the header chunk of this file: tag `MThd`, body length 6,
    /// and the file's format, track count and division.
    pub fn gen_header(&self) -> (r: MIDIHeader)
        ensures
            r.chunk_type@ == seq![0x4du8, 0x54u8, 0x68u8, 0x64u8],
            r.length == 6,
            r.format == spec_format_number(self.format),
            r.tracks == self.tracks,
            r.division == self.division,
    {
        let mut tag: Vec<u8> = Vec::new();
        tag.push(0x4d);
        tag.push(0x54);
        tag.push(0x68);
        tag.push(0x64);
        proof {
            assert(tag@ =~= seq![0x4du8, 0x54u8, 0x68u8, 0x64u8]);
        }
        MIDIHeader::new(tag, 0x06, self.format, self.tracks, self.division)
    }

    /// The byte length of this file's track chunk body: `6 * n + 1` for `n`
    /// notes.
    pub fn gen_track_size(&self) -> (r: u32)
        requires
            6 * self.sequence@.len() + 1 <= u32::MAX,
        ensures
            r == 6 * self.sequence@.len() + 1,
    {
        gen_midi_track_size(self.sequence.len() as u32)
    }

    /// Generate the track chunk header of this file: tag `MTrk` and the
    /// exact byte length of the event stream.
    pub fn gen_track_header(&self) -> (r: MIDITrackHeader)
        requires
            6 * self.sequence@.len() + 1 <= u32::MAX,
        ensures
            r.chunk_type@ == seq![0x4du8, 0x54u8, 0x72u8, 0x6bu8],
            r.length == 6 * self.sequence@.len() + 1,
    {
        let mut tag: Vec<u8> = Vec::new();
        tag.push(0x4d);
        tag.push(0x54);
        tag.push(0x72);
        tag.push(0x6b);
        proof {
            assert(tag@ =~= seq![0x4du8, 0x54u8, 0x72u8, 0x6bu8]);
        }
        MIDITrackHeader::new(tag, self.gen_track_size())
    }

    /// Generate the ordered event stream of this file (see
    /// [`spec_track_events`]): per note an attack and a release, with one
    /// explicit `NoteOn` status byte on the first attack and running status
    /// everywhere after it.
    pub fn gen_track(&self) -> (r: Vec<MIDIChannelVoiceMessage>)
        ensures
            r@ == spec_track_events(self.sequence@, self.division),
    {
        let ghost goal = spec_track_events(self.sequence@, self.division);
        let delta_time = (self.division % 256) as u8;
        let mut events: Vec<MIDIChannelVoiceMessage> = Vec::new();
        let mut i: usize = 0;
        while i < self.sequence.len()
            invariant
                i <= self.sequence@.len(),
                goal == spec_track_events(self.sequence@, self.division),
                delta_time == (self.division % 256) as u8,
                events@.len() == 2 * i,
                forall|k: int| 0 <= k < 2 * i ==> events@[k] == goal[k],
            decreases self.sequence@.len() - i,
        {
            let note = self.sequence[i];
            let first_status = if i == 0 {
                MIDIStatus::NoteOn
            } else {
                MIDIStatus::RunningStatus
            };
            events.push(MIDIChannelVoiceMessage::new(0, &note, 0x64, first_status, 0));
            events.push(MIDIChannelVoiceMessage::new(delta_time, &note, 0, MIDIStatus::RunningStatus, 0));
            i = i + 1;
        }
        proof {
            assert(events@ =~= goal);
        }
        events
    }

    /// The byte size of this file on disk: `22 + 6 * n + 1` for `n` notes.
    pub fn gen_size(&self) -> (r: u32)
        requires
            6 * self.sequence@.len() + 23 <= u32::MAX,
        ensures
            r == 22 + 6 * self.sequence@.len() + 1,
    {
        gen_midi_file_size(self.sequence.len() as u32)
    }

    /// Append the complete file (see [`spec_file_bytes`]) to a byte buffer:
    /// header chunk, track chunk header, then every event in order.
    pub fn write_buffer(&self, target: &mut Vec<u8>)
        requires
            6 * self.sequence@.len() + 1 <= u32::MAX,
        ensures
            final(target)@ == old(target)@ + spec_file_bytes(*self),
    {
        let header = self.gen_header();
        header.write_buffer(target);
        proof {
            assert(spec_header_bytes(header) =~= spec_header_chunk_bytes(*self));
        }

        let track_header = self.gen_track_header();
        track_header.write_buffer(target);
        proof {
            assert(spec_track_header_bytes(track_header) =~= spec_track_chunk_header_bytes(*self));
        }

        let ghost base = old(target)@ + spec_header_chunk_bytes(*self)
            + spec_track_chunk_header_bytes(*self);
        assert(target@ == base);

        let track = self.gen_track();
        let mut i: usize = 0;
        while i < track.len()
            invariant
                i <= track@.len(),
                track@ == spec_track_events(self.sequence@, self.division),
                target@ == base + spec_events_bytes(track@.subrange(0, i as int)),
            decreases track@.len() - i,
        {
            track[i].write_buffer(target);
            i = i + 1;
            proof {
                let pre = track@.subrange(0, i as int);
                assert(pre.drop_last() =~= track@.subrange(0, i - 1));
                assert(target@ == base + spec_events_bytes(pre));
            }
        }
        proof {
            assert(track@.subrange(0, track@.len() as int) =~= track@);
            assert(target@ =~= old(target)@ + spec_file_bytes(*self));
        }
    }

    /// Generate the complete file as a byte buffer (see
    /// [`spec_file_bytes`]).  Building in memory cannot fail, so the bytes
    /// are returned directly.
    pub fn gen_file(&self) -> (r: Vec<u8>)
        requires
            6 * self.sequence@.len() + 23 <= u32::MAX,
        ensures
            r@ == spec_file_bytes(*self),
            self.sequence@.len() >= 1 ==> r@.len() == 22 + 6 * self.sequence@.len() + 1,
    {
        let mut buffer: Vec<u8> = Vec::with_capacity(self.gen_size() as usize);
        self.write_buffer(&mut buffer);
        proof {
            assert(buffer@ =~= spec_file_bytes(*self));
            if self.sequence@.len() >= 1 {
                lemma_file_size_exact(*self);
            }
        }
        buffer
    }
}

/// Law: the fingerprint is deterministic — it is a pure function of the
/// note sequence, so equal sequences always fingerprint to equal strings.
pub proof fn lemma_hash_deterministic(a: Seq<MIDINote>, b: Seq<MIDINote>)
    requires
        a == b,
    ensures
        spec_hash_of(a) == spec_hash_of(b),
{
}

/// Law: two sequences of equal length whose converted note numbers have
/// equal decimal widths position by position, and differ in at least one
/// position, fingerprint to different strings.
///
/// The width condition is necessary: the scheme concatenates decimal
/// numbers with no separator or fixed width, so sequences whose aligned
/// numbers differ in width can collide — the sequences converting to
/// `[12, 345]` and `[123, 45]` both fingerprint to `"12345"`.
pub proof fn lemma_hash_distinct(a: Seq<MIDINote>, b: Seq<MIDINote>)
    requires
        a.len() == b.len(),
        forall|i: int|
            0 <= i < a.len() ==> crate::decimal::spec_dec_digits(spec_convert(a[i]) as nat).len()
                == crate::decimal::spec_dec_digits(spec_convert(b[i]) as nat).len(),
        exists|i: int| 0 <= i < a.len() && spec_convert(a[i]) != spec_convert(b[i]),
    ensures
        spec_hash_of(a) != spec_hash_of(b),
    decreases a.len(),
{
    let n = a.len() as int;
    let xa = spec_hash_of(a.drop_last());
    let xb = spec_hash_of(b.drop_last());
    let wa = crate::decimal::spec_dec_digits(spec_convert(a.last()) as nat);
    let wb = crate::decimal::spec_dec_digits(spec_convert(b.last()) as nat);
    assert(spec_hash_of(a) == xa + wa);
    assert(spec_hash_of(b) == xb + wb);
    assert(wa.len() == wb.len());
    if spec_convert(a.last()) != spec_convert(b.last()) {
        crate::decimal::lemma_dec_digits_injective(
            spec_convert(a.last()) as nat,
            spec_convert(b.last()) as nat,
        );
        if spec_hash_of(a) == spec_hash_of(b) {
            assert(xa.len() == xb.len());
            assert(wa =~= (xa + wa).subrange(xa.len() as int, (xa + wa).len() as int));
            assert(wb =~= (xb + wb).subrange(xb.len() as int, (xb + wb).len() as int));
            assert(false);
        }
    } else {
        let i0 = choose|i: int| 0 <= i < a.len() && spec_convert(a[i]) != spec_convert(b[i]);
        assert(i0 < n - 1);
        assert(a.drop_last()[i0] == a[i0]);
        assert(b.drop_last()[i0] == b[i0]);
        assert forall|i: int| 0 <= i < a.drop_last().len() implies crate::decimal::spec_dec_digits(
            spec_convert(a.drop_last()[i]) as nat,
        ).len() == crate::decimal::spec_dec_digits(
            spec_convert(b.drop_last()[i]) as nat,
        ).len() by {
            assert(a.drop_last()[i] == a[i]);
            assert(b.drop_last()[i] == b[i]);
        }
        lemma_hash_distinct(a.drop_last(), b.drop_last());
        if spec_hash_of(a) == spec_hash_of(b) {
            assert(xa.len() == xb.len());
            assert(xa =~= (xa + wa).subrange(0, xa.len() as int));
            assert(xb =~= (xb + wb).subrange(0, xb.len() as int));
            assert(false);
        }
    }
}

/// The byte length of an event stream whose first event carries a status
/// byte and whose later events all elide it: 4 bytes for the first event and
/// 3 for each of the rest.
proof fn lemma_events_bytes_len(events: Seq<MIDIChannelVoiceMessage>)
    requires
        events.len() >= 1 ==> events[0].status != 0,
        forall|k: int| 1 <= k < events.len() ==> events[k].status == 0,
    ensures
        events.len() == 0 ==> spec_events_bytes(events).len() == 0,
        events.len() >= 1 ==> spec_events_bytes(events).len() == 4 + 3 * (events.len() - 1),
    decreases events.len(),
{
    if events.len() >= 1 {
        lemma_events_bytes_len(events.drop_last());
    }
}

/// Law: for a sequence of at least one note, the bytes the file actually
/// produces number exactly `22 + 6 * n + 1` — the closed-form size formulas
/// match the emitted stream with zero slack.  (An empty sequence emits no
/// event bytes at all, so the formula overshoots it by one.)
pub proof fn lemma_file_size_exact(f: MIDIFile)
    requires
        f.sequence@.len() >= 1,
    ensures
        spec_file_bytes(f).len() == 22 + 6 * f.sequence@.len() + 1,
{
    let events = spec_track_events(f.sequence@, f.division);
    assert(events[0].status == spec_status_byte(MIDIStatus::NoteOn, 0));
    assert(events[0].status != 0);
    lemma_events_bytes_len(events);
}

} // verus!
