use vstd::prelude::*;

verus! {

use vstd::string::{StrSliceExecFns, StringExecFns};

/// One note class of the chromatic scale, with sharps as the canonical
/// spelling, plus `Rest` for silence (the absence of a note).  A note type
/// combines with an octave to name a key (see [`MIDINote`]).
#[derive(Clone, Copy, Debug, Eq, Hash, Ord, PartialEq, PartialOrd)]
pub enum MIDINoteType {
    C,
    CSharp,
    D,
    DSharp,
    E,
    F,
    FSharp,
    G,
    GSharp,
    A,
    ASharp,
    B,
    Rest,
}

/// Chromatic offset of a note type within one octave, 0 for C up to 11 for B.
/// `Rest` is given the next value so that the order of note types is total;
/// its offset never enters note-number math (`spec_convert` treats it apart).
pub open spec fn spec_note_ordinal(t: MIDINoteType) -> u32 {
    match t {
        MIDINoteType::C => 0,
        MIDINoteType::CSharp => 1,
        MIDINoteType::D => 2,
        MIDINoteType::DSharp => 3,
        MIDINoteType::E => 4,
        MIDINoteType::F => 5,
        MIDINoteType::FSharp => 6,
        MIDINoteType::G => 7,
        MIDINoteType::GSharp => 8,
        MIDINoteType::A => 9,
        MIDINoteType::ASharp => 10,
        MIDINoteType::B => 11,
        MIDINoteType::Rest => 12,
    }
}

impl MIDINoteType {
    /// Chromatic offset of this note type (see [`spec_note_ordinal`]).
    pub fn ordinal(self) -> (r: u32)
        ensures
            r == spec_note_ordinal(self),
    {
        match self {
            MIDINoteType::C => 0,
            MIDINoteType::CSharp => 1,
            MIDINoteType::D => 2,
            MIDINoteType::DSharp => 3,
            MIDINoteType::E => 4,
            MIDINoteType::F => 5,
            MIDINoteType::FSharp => 6,
            MIDINoteType::G => 7,
            MIDINoteType::GSharp => 8,
            MIDINoteType::A => 9,
            MIDINoteType::ASharp => 10,
            MIDINoteType::B => 11,
            MIDINoteType::Rest => 12,
        }
    }
}

/// A key on the piano: a note type together with an octave.  Middle C is
/// `MIDINote { note_type: MIDINoteType::C, octave: 4 }`.  The octave is not
/// validated; only values up to 9 name real MIDI notes, but construction
/// accepts any `u32` and conversion then yields an out-of-range number.
#[derive(Clone, Copy, Debug, Eq, Hash, Ord, PartialEq, PartialOrd)]
pub struct MIDINote {
    pub note_type: MIDINoteType,
    pub octave: u32,
}

/// The MIDI note number of a note: `12 * (octave + 1)` plus the chromatic
/// offset, reduced mod 2^32 so that it is total in the octave.  Silence maps
/// to `u32::MAX`, a sentinel no real note number (0..128) can reach.
pub open spec fn spec_convert(n: MIDINote) -> u32 {
    if n.note_type == MIDINoteType::Rest {
        u32::MAX
    } else {
        (((n.octave + 1) * 12 + spec_note_ordinal(n.note_type)) % 0x1_0000_0000) as u32
    }
}

impl MIDINote {
    /// Create a new `MIDINote` from a note type and an (unvalidated) octave.
    pub fn new(note_type: MIDINoteType, octave: u32) -> (r: Self)
        ensures
            r.note_type == note_type,
            r.octave == octave,
    {
        Self { note_type, octave }
    }

    /// The MIDI note number of this note (see [`spec_convert`]): the sentinel
    /// `u32::MAX` for `Rest`, else `12 * (octave + 1)` plus the chromatic
    /// offset, reduced mod 2^32.
    pub fn convert(&self) -> (r: u32)
        ensures
            r == spec_convert(*self),
    {
        match self.note_type {
            MIDINoteType::Rest => u32::MAX,
            _ => {
                let wide: u64 = (self.octave as u64 + 1) * 12 + self.note_type.ordinal() as u64;
                (wide % 0x1_0000_0000) as u32
            },
        }
    }
}

/// Whether input character `c` matches pattern character `d`, where the
/// pattern is already lower case: either the characters are equal, or `c` is
/// an ASCII capital whose lower-case form is `d`.
pub open spec fn spec_char_matches(c: char, d: char) -> bool {
    c == d || (65 <= c as u32 <= 90 && c as u32 + 32 == d as u32)
}

/// Whether `s` matches the lower-case pattern `t` case-insensitively,
/// character by character.
pub open spec fn spec_text_matches(s: Seq<char>, t: Seq<char>) -> bool {
    s.len() == t.len() && forall|i: int| 0 <= i < s.len() ==> spec_char_matches(s[i], t[i])
}

/// Whether `s` matches the lower-case pattern `pat` case-insensitively (see
/// [`spec_text_matches`]).
fn text_matches(s: &str, pat: &str) -> (r: bool)
    ensures
        r == spec_text_matches(s@, pat@),
{
    let n = s.unicode_len();
    if n != pat.unicode_len() {
        return false;
    }
    let mut i: usize = 0;
    while i < n
        invariant
            i <= n,
            n == s@.len() == pat@.len(),
            forall|j: int| 0 <= j < i ==> spec_char_matches(s@[j], pat@[j]),
        decreases n - i,
    {
        let c = s.get_char(i);
        let d = pat.get_char(i);
        let cv = c as u32;
        if !(c == d || (65 <= cv && cv <= 90 && cv + 32 == d as u32)) {
            return false;
        }
        i = i + 1;
    }
    true
}

/// The note type a piece of text names, if any: each note type is accepted
/// under its canonical sharp spelling, its common enharmonic spellings
/// (`flat` written out, the flat sign, or a trailing `b`), and `#` for
/// `sharp`, all case-insensitively; `rest` and `empty` name silence.
pub open spec fn spec_class_of(s: Seq<char>) -> Option<MIDINoteType> {
    if spec_text_matches(s, "bsharp"@) || spec_text_matches(s, "b#"@) || spec_text_matches(
        s,
        "c"@,
    ) {
        Some(MIDINoteType::C)
    } else if spec_text_matches(s, "csharp"@) || spec_text_matches(s, "c#"@) || spec_text_matches(
        s,
        "dflat"@,
    ) || spec_text_matches(s, "d\u{266d}"@) || spec_text_matches(s, "db"@) {
        Some(MIDINoteType::CSharp)
    } else if spec_text_matches(s, "d"@) {
        Some(MIDINoteType::D)
    } else if spec_text_matches(s, "dsharp"@) || spec_text_matches(s, "d#"@) || spec_text_matches(
        s,
        "eflat"@,
    ) || spec_text_matches(s, "e\u{266d}"@) || spec_text_matches(s, "eb"@) {
        Some(MIDINoteType::DSharp)
    } else if spec_text_matches(s, "e"@) || spec_text_matches(s, "fflat"@) || spec_text_matches(
        s,
        "f\u{266d}"@,
    ) || spec_text_matches(s, "fb"@) {
        Some(MIDINoteType::E)
    } else if spec_text_matches(s, "esharp"@) || spec_text_matches(s, "e#"@) || spec_text_matches(
        s,
        "f"@,
    ) {
        Some(MIDINoteType::F)
    } else if spec_text_matches(s, "fsharp"@) || spec_text_matches(s, "f#"@) || spec_text_matches(
        s,
        "gflat"@,
    ) || spec_text_matches(s, "g\u{266d}"@) || spec_text_matches(s, "gb"@) {
        Some(MIDINoteType::FSharp)
    } else if spec_text_matches(s, "g"@) {
        Some(MIDINoteType::G)
    } else if spec_text_matches(s, "gsharp"@) || spec_text_matches(s, "g#"@) || spec_text_matches(
        s,
        "aflat"@,
    ) || spec_text_matches(s, "a\u{266d}"@) || spec_text_matches(s, "ab"@) {
        Some(MIDINoteType::GSharp)
    } else if spec_text_matches(s, "a"@) {
        Some(MIDINoteType::A)
    } else if spec_text_matches(s, "asharp"@) || spec_text_matches(s, "a#"@) || spec_text_matches(
        s,
        "bflat"@,
    ) || spec_text_matches(s, "b\u{266d}"@) || spec_text_matches(s, "bb"@) {
        Some(MIDINoteType::ASharp)
    } else if spec_text_matches(s, "cflat"@) || spec_text_matches(s, "c\u{266d}"@)
        || spec_text_matches(s, "cb"@) || spec_text_matches(s, "b"@) {
        Some(MIDINoteType::B)
    } else if spec_text_matches(s, "rest"@) || spec_text_matches(s, "empty"@) {
        Some(MIDINoteType::Rest)
    } else {
        None
    }
}

/// Error type for parsing [`MIDINoteType`] from `&str`.
#[derive(Debug, PartialEq)]
pub enum ParseMIDINoteTypeError {
    /// The text names no recognized note type; it is carried back verbatim.
    UnknownNoteType { input: String },
}

impl MIDINoteType {
    /// Parse a note type from text (see [`spec_class_of`]): the recognized
    /// spellings, case-insensitively; any other text is an
    /// [`ParseMIDINoteTypeError::UnknownNoteType`] carrying the text itself.
    pub fn from_str(s: &str) -> (r: Result<MIDINoteType, ParseMIDINoteTypeError>)
        ensures
            match r {
                Ok(t) => spec_class_of(s@) == Some(t),
                Err(e) => spec_class_of(s@) is None && (e matches
                    ParseMIDINoteTypeError::UnknownNoteType { input } && input@ == s@),
            },
    {
        if text_matches(s, "bsharp") || text_matches(s, "b#") || text_matches(s, "c") {
            Ok(MIDINoteType::C)
        } else if text_matches(s, "csharp") || text_matches(s, "c#") || text_matches(s, "dflat")
            || text_matches(s, "d\u{266d}") || text_matches(s, "db") {
            Ok(MIDINoteType::CSharp)
        } else if text_matches(s, "d") {
            Ok(MIDINoteType::D)
        } else if text_matches(s, "dsharp") || text_matches(s, "d#") || text_matches(s, "eflat")
            || text_matches(s, "e\u{266d}") || text_matches(s, "eb") {
            Ok(MIDINoteType::DSharp)
        } else if text_matches(s, "e") || text_matches(s, "fflat") || text_matches(s, "f\u{266d}")
            || text_matches(s, "fb") {
            Ok(MIDINoteType::E)
        } else if text_matches(s, "esharp") || text_matches(s, "e#") || text_matches(s, "f") {
            Ok(MIDINoteType::F)
        } else if text_matches(s, "fsharp") || text_matches(s, "f#") || text_matches(s, "gflat")
            || text_matches(s, "g\u{266d}") || text_matches(s, "gb") {
            Ok(MIDINoteType::FSharp)
        } else if text_matches(s, "g") {
            Ok(MIDINoteType::G)
        } else if text_matches(s, "gsharp") || text_matches(s, "g#") || text_matches(s, "aflat")
            || text_matches(s, "a\u{266d}") || text_matches(s, "ab") {
            Ok(MIDINoteType::GSharp)
        } else if text_matches(s, "a") {
            Ok(MIDINoteType::A)
        } else if text_matches(s, "asharp") || text_matches(s, "a#") || text_matches(s, "bflat")
            || text_matches(s, "b\u{266d}") || text_matches(s, "bb") {
            Ok(MIDINoteType::ASharp)
        } else if text_matches(s, "cflat") || text_matches(s, "c\u{266d}") || text_matches(s, "cb")
            || text_matches(s, "b") {
            Ok(MIDINoteType::B)
        } else if text_matches(s, "rest") || text_matches(s, "empty") {
            Ok(MIDINoteType::Rest)
        } else {
            Err(ParseMIDINoteTypeError::UnknownNoteType { input: String::from_str(s) })
        }
    }
}

/// Whether `c` is an ASCII decimal digit.
pub open spec fn spec_is_digit(c: char) -> bool {
    48 <= c as u32 <= 57
}

/// The number named by a sequence of decimal digits, most significant
/// first.  Only meaningful when every character is a digit.
pub open spec fn spec_digits_value(s: Seq<char>) -> nat
    decreases s.len(),
{
    if s.len() == 0 {
        0
    } else {
        spec_digits_value(s.drop_last()) * 10 + (if s.last() as u32 >= 48 {
            (s.last() as u32 - 48) as nat
        } else {
            0
        })
    }
}

/// The value of a digit string only grows as digits are appended: every
/// prefix names a number no larger than the whole.
proof fn lemma_digits_value_monotonic(s: Seq<char>, i: int)
    requires
        0 <= i <= s.len(),
    ensures
        spec_digits_value(s.subrange(0, i)) <= spec_digits_value(s),
    decreases s.len(),
{
    if i == s.len() {
        assert(s.subrange(0, i) =~= s);
    } else if s.len() > 0 {
        assert(s.drop_last().subrange(0, i) =~= s.subrange(0, i));
        lemma_digits_value_monotonic(s.drop_last(), i);
    }
}

/// The digits of a number text: the text with one optional leading `+`
/// stripped.
pub open spec fn spec_sign_stripped(s: Seq<char>) -> Seq<char> {
    if s.len() > 0 && s[0] == '+' {
        s.drop_first()
    } else {
        s
    }
}

/// The unsigned number a piece of text names, as `u32::from_str` reads it:
/// an optional leading `+`, then at least one decimal digit, with a value
/// that fits in 32 bits; anything else names no number.
pub open spec fn spec_u32_text(s: Seq<char>) -> Option<u32> {
    let ds = spec_sign_stripped(s);
    if ds.len() > 0 && (forall|i: int| 0 <= i < ds.len() ==> spec_is_digit(ds[i]))
        && spec_digits_value(ds) <= u32::MAX {
        Some(spec_digits_value(ds) as u32)
    } else {
        None
    }
}

/// Parse an unsigned 32-bit number from text (see [`spec_u32_text`]).
fn parse_u32_text(s: &str) -> (r: Option<u32>)
    ensures
        r == spec_u32_text(s@),
{
    let n = s.unicode_len();
    let start: usize = if n > 0 && s.get_char(0) == '+' {
        1
    } else {
        0
    };
    let ghost ds = spec_sign_stripped(s@);
    proof {
        assert(ds =~= s@.subrange(start as int, n as int));
    }
    if n == start {
        return None;
    }
    let mut acc: u64 = 0;
    let mut i: usize = start;
    while i < n
        invariant
            start <= i <= n,
            n == s@.len(),
            ds == spec_sign_stripped(s@),
            ds == s@.subrange(start as int, n as int),
            forall|j: int| 0 <= j < i - start ==> spec_is_digit(ds[j]),
            acc == spec_digits_value(ds.subrange(0, i - start)),
            acc <= u32::MAX,
        decreases n - i,
    {
        let c = s.get_char(i);
        let cv = c as u32;
        if !(48 <= cv && cv <= 57) {
            assert(!spec_is_digit(ds[i - start]));
            return None;
        }
        acc = acc * 10 + (cv - 48) as u64;
        i = i + 1;
        proof {
            let pre = ds.subrange(0, i - start);
            assert(pre.drop_last() =~= ds.subrange(0, i - 1 - start));
            assert(pre.last() == ds[i - 1 - start]);
        }
        if acc > 0xffff_ffff {
            proof {
                if forall|j: int| 0 <= j < ds.len() ==> spec_is_digit(ds[j]) {
                    lemma_digits_value_monotonic(ds, i - start);
                }
            }
            return None;
        }
    }
    proof {
        assert(ds.subrange(0, n - start) =~= ds);
    }
    Some(acc as u32)
}

/// The index of the first occurrence of `c` in `s`, or `s.len()` when `c`
/// does not occur.
pub open spec fn spec_find_char(s: Seq<char>, c: char) -> nat
    decreases s.len(),
{
    if s.len() == 0 {
        0
    } else if s[0] == c {
        0
    } else {
        1 + spec_find_char(s.drop_first(), c)
    }
}

/// What [`spec_find_char`] finds: an index no greater than the length,
/// holding `c` when within it, with no occurrence of `c` before it.
pub proof fn lemma_find_char(s: Seq<char>, c: char)
    ensures
        spec_find_char(s, c) <= s.len(),
        spec_find_char(s, c) < s.len() ==> s[spec_find_char(s, c) as int] == c,
        forall|j: int| 0 <= j < spec_find_char(s, c) ==> s[j] != c,
    decreases s.len(),
{
    if s.len() > 0 && s[0] != c {
        lemma_find_char(s.drop_first(), c);
        assert forall|j: int| 0 <= j < spec_find_char(s, c) implies s[j] != c by {
            if j > 0 {
                assert(s[j] == s.drop_first()[j - 1]);
            }
        }
    }
}

/// The parts of `s` between occurrences of the separator `c`, in order.
/// Every occurrence separates two parts, so leading, trailing and repeated
/// separators all yield empty parts; a text without the separator is one
/// part, and there is always at least one part.
pub open spec fn spec_split(s: Seq<char>, c: char) -> Seq<Seq<char>>
    decreases s.len(),
{
    let f = spec_find_char(s, c) as int;
    if f >= s.len() {
        seq![s]
    } else {
        seq![s.subrange(0, f)] + spec_split(s.subrange(f + 1, s.len() as int), c)
    }
}

/// A text without the separator splits into itself alone.
pub proof fn lemma_split_none(s: Seq<char>, c: char)
    requires
        forall|j: int| 0 <= j < s.len() ==> s[j] != c,
    ensures
        spec_split(s, c) == seq![s],
{
    lemma_find_char(s, c);
    if spec_find_char(s, c) < s.len() {
        assert(false);
    }
}

/// A text whose first separator stands at `i` splits into the part before
/// `i` followed by the parts of the text after `i`.
pub proof fn lemma_split_at_first(s: Seq<char>, c: char, i: int)
    requires
        0 <= i < s.len(),
        s[i] == c,
        forall|j: int| 0 <= j < i ==> s[j] != c,
    ensures
        spec_split(s, c) == seq![s.subrange(0, i)] + spec_split(
            s.subrange(i + 1, s.len() as int),
            c,
        ),
{
    lemma_find_char(s, c);
    let f = spec_find_char(s, c) as int;
    if f < i {
        assert(s[f] == c);
        assert(false);
    }
    if i < f {
        assert(false);
    }
}

/// A split always yields at least one part.
pub proof fn lemma_split_len_ge1(s: Seq<char>, c: char)
    ensures
        spec_split(s, c).len() >= 1,
    decreases s.len(),
{
    lemma_find_char(s, c);
    let f = spec_find_char(s, c) as int;
    if f < s.len() {
        lemma_split_len_ge1(s.subrange(f + 1, s.len() as int), c);
    }
}

/// A text holding the separator splits into at least two parts.
pub proof fn lemma_split_len_ge2(s: Seq<char>, c: char, i: int)
    requires
        0 <= i < s.len(),
        s[i] == c,
    ensures
        spec_split(s, c).len() >= 2,
{
    lemma_find_char(s, c);
    let f = spec_find_char(s, c) as int;
    if i < f {
        assert(false);
    }
    lemma_split_len_ge1(s.subrange(f + 1, s.len() as int), c);
}

/// The two parts a note text must split into on `:`: the note type text and
/// the octave text.
pub open spec fn spec_note_parts(s: Seq<char>) -> Seq<Seq<char>> {
    spec_split(s, ':')
}

/// Error type for parsing [`MIDINote`] from `&str`.
#[derive(Debug, PartialEq)]
pub enum ParseMIDINoteError {
    /// The text does not split into exactly one note type and one octave;
    /// it is carried back verbatim.
    InvalidNoteFormat { input: String },
    /// The octave text names no unsigned 32-bit number; it is carried back
    /// verbatim.
    InvalidOctave { input: String },
    /// The note type text names no recognized note type.
    UnknownNoteType(ParseMIDINoteTypeError),
}

impl MIDINote {
    /// Parse a note from text of the form `<note>:<octave>`.  The text must
    /// split on `:` into exactly two parts; the first must name a note type
    /// (see [`spec_class_of`]) and the second an unsigned number (see
    /// [`spec_u32_text`]), else the failing part comes back in the error.
    pub fn from_str(s: &str) -> (r: Result<MIDINote, ParseMIDINoteError>)
        ensures
            spec_note_parts(s@).len() != 2 ==> (r matches Err(
                ParseMIDINoteError::InvalidNoteFormat { input },
            ) && input@ == s@),
            spec_note_parts(s@).len() == 2 && spec_class_of(spec_note_parts(s@)[0]) is None ==> (
            r matches Err(
                ParseMIDINoteError::UnknownNoteType(
                    ParseMIDINoteTypeError::UnknownNoteType { input },
                ),
            ) && input@ == spec_note_parts(s@)[0]),
            spec_note_parts(s@).len() == 2 && spec_class_of(spec_note_parts(s@)[0]) is Some
                && spec_u32_text(spec_note_parts(s@)[1]) is None ==> (r matches Err(
                ParseMIDINoteError::InvalidOctave { input },
            ) && input@ == spec_note_parts(s@)[1]),
            spec_note_parts(s@).len() == 2 && spec_class_of(spec_note_parts(s@)[0]) is Some
                && spec_u32_text(spec_note_parts(s@)[1]) is Some ==> (r matches Ok(note)
                && note.note_type == spec_class_of(spec_note_parts(s@)[0]).unwrap()
                && note.octave == spec_u32_text(spec_note_parts(s@)[1]).unwrap()),
    {
        let n = s.unicode_len();
        let mut i: usize = 0;
        while i < n && s.get_char(i) != ':'
            invariant
                0 <= i <= n,
                n == s@.len(),
                forall|j: int| 0 <= j < i ==> s@[j] != ':',
            decreases n - i,
        {
            i = i + 1;
        }
        if i == n {
            proof {
                lemma_split_none(s@, ':');
            }
            return Err(ParseMIDINoteError::InvalidNoteFormat { input: String::from_str(s) });
        }
        proof {
            lemma_split_at_first(s@, ':', i as int);
        }
        let ghost tail_view = s@.subrange(i as int + 1, n as int);
        let mut k: usize = i + 1;
        while k < n && s.get_char(k) != ':'
            invariant
                i + 1 <= k <= n,
                n == s@.len(),
                tail_view == s@.subrange(i as int + 1, n as int),
                forall|j: int| i + 1 <= j < k ==> s@[j] != ':',
            decreases n - k,
        {
            k = k + 1;
        }
        if k < n {
            proof {
                assert(tail_view[k - i - 1] == ':');
                lemma_split_len_ge2(tail_view, ':', k - i - 1);
            }
            return Err(ParseMIDINoteError::InvalidNoteFormat { input: String::from_str(s) });
        }
        proof {
            assert(forall|j: int| 0 <= j < tail_view.len() ==> tail_view[j] != ':');
            lemma_split_none(tail_view, ':');
            assert(spec_note_parts(s@).len() == 2);
            assert(spec_note_parts(s@)[0] == s@.subrange(0, i as int));
            assert(spec_note_parts(s@)[1] == tail_view);
        }
        let head = s.substring_char(0, i);
        let tail = s.substring_char(i + 1, n);
        let note_type = match MIDINoteType::from_str(head) {
            Ok(t) => t,
            Err(e) => {
                return Err(ParseMIDINoteError::UnknownNoteType(e));
            },
        };
        let octave = match parse_u32_text(tail) {
            Some(v) => v,
            None => {
                return Err(ParseMIDINoteError::InvalidOctave { input: String::from_str(tail) });
            },
        };
        Ok(MIDINote { note_type, octave })
    }
}

/// Whether one element of a note list parses: it splits on `:` into exactly
/// two parts, a recognized note type and a valid octave number.
pub open spec fn spec_note_text_ok(part: Seq<char>) -> bool {
    let parts = spec_note_parts(part);
    parts.len() == 2 && spec_class_of(parts[0]) is Some && spec_u32_text(parts[1]) is Some
}

/// The note one element of a note list names.  Only meaningful when
/// [`spec_note_text_ok`] holds of it.
pub open spec fn spec_parsed_note(part: Seq<char>) -> MIDINote {
    let parts = spec_note_parts(part);
    MIDINote {
        note_type: spec_class_of(parts[0]).unwrap(),
        octave: spec_u32_text(parts[1]).unwrap(),
    }
}

/// The error that parsing one element of a note list reports: the element
/// text for a malformed pair, the note type text for an unknown note type,
/// the octave text for a bad octave.  False of an element that parses.
pub open spec fn spec_note_error_matches(part: Seq<char>, e: ParseMIDINoteError) -> bool {
    let parts = spec_note_parts(part);
    if parts.len() != 2 {
        e matches ParseMIDINoteError::InvalidNoteFormat { input } && input@ == part
    } else if spec_class_of(parts[0]) is None {
        e matches ParseMIDINoteError::UnknownNoteType(
            ParseMIDINoteTypeError::UnknownNoteType { input },
        ) && input@ == parts[0]
    } else if spec_u32_text(parts[1]) is None {
        e matches ParseMIDINoteError::InvalidOctave { input } && input@ == parts[1]
    } else {
        false
    }
}

/// The index of the first element of a note list that does not parse, or
/// the number of elements when all parse.
pub open spec fn spec_first_bad(parts: Seq<Seq<char>>) -> nat
    decreases parts.len(),
{
    if parts.len() == 0 {
        0
    } else if !spec_note_text_ok(parts[0]) {
        0
    } else {
        1 + spec_first_bad(parts.drop_first())
    }
}

/// What [`spec_first_bad`] finds: an index no greater than the length,
/// holding a failing element when within it, with every element before it
/// parsing.
pub proof fn lemma_first_bad(parts: Seq<Seq<char>>)
    ensures
        spec_first_bad(parts) <= parts.len(),
        spec_first_bad(parts) < parts.len() ==> !spec_note_text_ok(
            parts[spec_first_bad(parts) as int],
        ),
        forall|j: int| 0 <= j < spec_first_bad(parts) ==> spec_note_text_ok(parts[j]),
    decreases parts.len(),
{
    if parts.len() > 0 && spec_note_text_ok(parts[0]) {
        lemma_first_bad(parts.drop_first());
        assert forall|j: int| 0 <= j < spec_first_bad(parts) implies spec_note_text_ok(
            parts[j],
        ) by {
            if j > 0 {
                assert(parts[j] == parts.drop_first()[j - 1]);
            }
        }
    }
}

/// The notes the elements of a note list name, in list order.  Only
/// meaningful when every element parses.
pub open spec fn spec_parsed_notes(parts: Seq<Seq<char>>) -> Seq<MIDINote> {
    Seq::new(parts.len(), |i: int| spec_parsed_note(parts[i]))
}

/// The elements of a note list text: its parts between commas.
pub open spec fn spec_list_parts(s: Seq<char>) -> Seq<Seq<char>> {
    spec_split(s, ',')
}

/// Error type for parsing an ordered sequence of [`MIDINote`] from `&str`.
#[derive(Debug, PartialEq)]
pub enum ParseMIDINoteSequenceError {
    /// The element at this zero-based index failed to parse, for the given
    /// reason.
    ParseMIDINote(usize, ParseMIDINoteError),
}

/// Parse a comma-separated list of notes in order, duplicates and order
/// preserved.  The first element that fails to parse is reported with its
/// zero-based index; a trailing comma yields an empty trailing element,
/// which fails at its own index rather than being dropped.
pub fn parse_midi_note_sequence(s: &str) -> (r: Result<
    Vec<MIDINote>,
    ParseMIDINoteSequenceError,
>)
    ensures
        spec_first_bad(spec_list_parts(s@)) == spec_list_parts(s@).len() ==> (r matches Ok(notes)
            && notes@ == spec_parsed_notes(spec_list_parts(s@))),
        spec_first_bad(spec_list_parts(s@)) < spec_list_parts(s@).len() ==> (r matches Err(
            ParseMIDINoteSequenceError::ParseMIDINote(idx, e),
        ) && idx == spec_first_bad(spec_list_parts(s@)) && spec_note_error_matches(
            spec_list_parts(s@)[spec_first_bad(spec_list_parts(s@)) as int],
            e,
        )),
{
    let ghost parts = spec_list_parts(s@);
    let n = s.unicode_len();
    let mut pos: usize = 0;
    let mut out: Vec<MIDINote> = Vec::new();
    proof {
        assert(s@.subrange(0, n as int) =~= s@);
    }
    loop
        invariant_except_break
            n == s@.len(),
            pos <= n,
            parts == spec_list_parts(s@),
            out@.len() <= parts.len(),
            spec_split(s@.subrange(pos as int, n as int), ',') == parts.subrange(
                out@.len() as int,
                parts.len() as int,
            ),
            forall|j: int| 0 <= j < out@.len() ==> spec_note_text_ok(parts[j]),
            out@ == spec_parsed_notes(parts.subrange(0, out@.len() as int)),
        ensures
            parts == spec_list_parts(s@),
            out@.len() == parts.len(),
            forall|j: int| 0 <= j < parts.len() ==> spec_note_text_ok(parts[j]),
            out@ == spec_parsed_notes(parts),
        decreases n - pos,
    {
        let ghost suffix = s@.subrange(pos as int, n as int);
        proof {
            lemma_split_len_ge1(suffix, ',');
            assert(parts.subrange(out@.len() as int, parts.len() as int).len() >= 1);
        }
        let mut j: usize = pos;
        while j < n && s.get_char(j) != ','
            invariant
                pos <= j <= n,
                n == s@.len(),
                forall|k: int| pos <= k < j ==> s@[k] != ',',
            decreases n - j,
        {
            j = j + 1;
        }
        let part = s.substring_char(pos, j);
        let ghost this = out@.len() as int;
        proof {
            let remaining = parts.subrange(this, parts.len() as int);
            if j < n {
                assert(suffix[j - pos] == ',');
                lemma_split_at_first(suffix, ',', j - pos);
                let tail = suffix.subrange(j - pos + 1, suffix.len() as int);
                assert(suffix.subrange(0, j - pos) =~= s@.subrange(pos as int, j as int));
                assert(remaining[0] == (seq![part@] + spec_split(tail, ','))[0]);
            } else {
                assert(forall|k: int| 0 <= k < suffix.len() ==> suffix[k] != ',');
                lemma_split_none(suffix, ',');
                assert(suffix =~= s@.subrange(pos as int, j as int));
                assert(remaining[0] == seq![part@][0]);
            }
            assert(parts[this] == remaining[0]);
            assert(parts[this] == part@);
        }
        let parsed = match MIDINote::from_str(part) {
            Ok(note) => note,
            Err(e) => {
                proof {
                    lemma_first_bad(parts);
                    assert(!spec_note_text_ok(parts[out@.len() as int]));
                    assert(spec_first_bad(parts) == out@.len());
                }
                return Err(
                    ParseMIDINoteSequenceError::ParseMIDINote(out.len(), e),
                );
            },
        };
        out.push(parsed);
        proof {
            assert(out@.subrange(0, out@.len() - 1) =~= out@.drop_last());
            assert(out@ =~= spec_parsed_notes(parts.subrange(0, out@.len() as int)));
        }
        if j == n {
            proof {
                assert(parts.subrange(out@.len() - 1, parts.len() as int).len() == 1);
                assert(out@.len() == parts.len());
                assert(parts.subrange(0, out@.len() as int) =~= parts);
            }
            break;
        }
        proof {
            let new_suffix = s@.subrange(j as int + 1, n as int);
            let tail = suffix.subrange(j - pos + 1, suffix.len() as int);
            assert(new_suffix =~= tail);
            let remaining = parts.subrange(this, parts.len() as int);
            assert(remaining == seq![part@] + spec_split(tail, ','));
            assert forall|i2: int| 0 <= i2 < parts.len() - this - 1 implies parts[this + 1 + i2]
                == spec_split(tail, ',')[i2] by {
                assert(parts[this + 1 + i2] == remaining[1 + i2]);
                assert(remaining[1 + i2] == (seq![part@] + spec_split(tail, ','))[1 + i2]);
            }
            assert(spec_split(new_suffix, ',') =~= parts.subrange(
                this + 1,
                parts.len() as int,
            ));
        }
        pos = j + 1;
    }
    proof {
        lemma_first_bad(parts);
    }
    Ok(out)
}

/// The strict total order on notes that the note set keeps: by chromatic
/// ordinal of the note type first, then by octave.  It is deterministic
/// across runs, so iterating a set is stable for callers that hash or diff
/// its contents.
pub open spec fn spec_note_lt(a: MIDINote, b: MIDINote) -> bool {
    spec_note_ordinal(a.note_type) < spec_note_ordinal(b.note_type) || (spec_note_ordinal(
        a.note_type,
    ) == spec_note_ordinal(b.note_type) && a.octave < b.octave)
}

/// Whether a sequence of notes is strictly ascending in the note order —
/// sorted, with no duplicates.
pub open spec fn spec_sorted_unique(s: Seq<MIDINote>) -> bool {
    forall|i: int, j: int| 0 <= i < j < s.len() ==> spec_note_lt(s[i], s[j])
}

/// The note order is trichotomous: of two notes, either one is strictly
/// below the other, or they are the same note.
pub proof fn lemma_note_order_trichotomy(a: MIDINote, b: MIDINote)
    ensures
        !spec_note_lt(a, b) && !spec_note_lt(b, a) ==> a == b,
        spec_note_lt(a, b) ==> !spec_note_lt(b, a),
        spec_note_lt(a, b) ==> a != b,
{
    if spec_note_ordinal(a.note_type) == spec_note_ordinal(b.note_type) {
        assert(a.note_type == b.note_type);
    }
}

/// Whether `a` comes strictly before `b` in the note order (see
/// [`spec_note_lt`]).
fn note_lt(a: MIDINote, b: MIDINote) -> (r: bool)
    ensures
        r == spec_note_lt(a, b),
{
    let oa = a.note_type.ordinal();
    let ob = b.note_type.ordinal();
    oa < ob || (oa == ob && a.octave < b.octave)
}

/// Insert a note into a sorted, duplicate-free vector, keeping it so; a
/// note already present is left alone.
#[verifier::rlimit(50)]
fn insert_note(notes: &mut Vec<MIDINote>, note: MIDINote)
    requires
        spec_sorted_unique(old(notes)@),
    ensures
        spec_sorted_unique(final(notes)@),
        forall|x: MIDINote|
            final(notes)@.contains(x) <==> (old(notes)@.contains(x) || x == note),
{
    let mut i: usize = 0;
    while i < notes.len() && note_lt(notes[i], note)
        invariant
            i <= notes@.len(),
            notes@ == old(notes)@,
            forall|j: int| 0 <= j < i ==> spec_note_lt(notes@[j], note),
        decreases notes@.len() - i,
    {
        i = i + 1;
    }
    if i < notes.len() && !note_lt(note, notes[i]) {
        proof {
            lemma_note_order_trichotomy(notes@[i as int], note);
            assert(notes@[i as int] == note);
            assert(notes@.contains(note));
        }
        return;
    }
    notes.insert(i, note);
    proof {
        let prior = old(notes)@;
        let ins = prior.insert(i as int, note);
        assert(notes@ == ins);
        assert(i < prior.len() ==> spec_note_lt(note, prior[i as int]));
        prior.insert_ensures(i as int, note);
        assert forall|p: int, q: int| 0 <= p < q < ins.len() implies spec_note_lt(
            ins[p],
            ins[q],
        ) by {
            if p < i && q < i {
                assert(ins[p] == prior[p]);
                assert(ins[q] == prior[q]);
                assert(spec_note_lt(prior[p], prior[q]));
            } else if p < i && q == i {
                assert(ins[p] == prior[p]);
                assert(ins[q] == note);
                assert(spec_note_lt(prior[p], note));
            } else if p < i && q > i {
                assert(ins[p] == prior[p]);
                assert(ins[q - 1 + 1] == prior[q - 1]);
                assert(spec_note_lt(prior[p], prior[q - 1]));
            } else if p == i {
                assert(ins[p] == note);
                assert(ins[q - 1 + 1] == prior[q - 1]);
                assert(spec_note_lt(note, prior[i as int]));
                if q - 1 > i {
                    assert(spec_note_lt(prior[i as int], prior[q - 1]));
                }
            } else {
                assert(ins[p - 1 + 1] == prior[p - 1]);
                assert(ins[q - 1 + 1] == prior[q - 1]);
                assert(spec_note_lt(prior[p - 1], prior[q - 1]));
            }
        }
        assert forall|x: MIDINote|
            ins.contains(x) <==> (prior.contains(x) || x == note) by {
            if ins.contains(x) {
                let w = choose|w: int| 0 <= w < ins.len() && ins[w] == x;
                if w < i {
                    assert(ins[w] == prior[w]);
                    assert(prior.contains(x));
                } else if w == i {
                    assert(ins[w] == note);
                } else {
                    assert(ins[w - 1 + 1] == prior[w - 1]);
                    assert(prior.contains(x));
                }
            }
            if prior.contains(x) {
                let w = choose|w: int| 0 <= w < prior.len() && prior[w] == x;
                if w < i {
                    assert(ins[w] == prior[w]);
                } else {
                    assert(ins[w + 1] == prior[w]);
                }
                assert(ins.contains(x));
            }
            if x == note {
                assert(ins[i as int] == x);
                assert(ins.contains(x));
            }
        }
    }
}

/// Error type for parsing [`MIDINoteSet`] from `&str`.
#[derive(Debug, PartialEq)]
pub enum ParseMIDINoteSetError {
    /// The element at this zero-based index failed to parse, for the given
    /// reason.
    ParseMIDINote(usize, ParseMIDINoteError),
}

/// A deduplicated collection of [`MIDINote`], kept in the strict total
/// order of [`spec_note_lt`] so that iteration is deterministic across
/// runs.  Its view is the sorted sequence of its distinct notes.
#[derive(Clone, Debug, PartialEq)]
pub struct MIDINoteSet {
    notes: Vec<MIDINote>,
}

impl View for MIDINoteSet {
    type V = Seq<MIDINote>;

    closed spec fn view(&self) -> Seq<MIDINote> {
        self.notes@
    }
}

impl MIDINoteSet {
    /// Create a new `MIDINoteSet` holding the distinct notes of `notes`,
    /// in sorted order whatever the input order.
    pub fn new(notes: Vec<MIDINote>) -> (r: Self)
        ensures
            spec_sorted_unique(r@),
            forall|x: MIDINote| r@.contains(x) <==> notes@.contains(x),
    {
        let mut sorted: Vec<MIDINote> = Vec::new();
        let mut i: usize = 0;
        while i < notes.len()
            invariant
                i <= notes@.len(),
                spec_sorted_unique(sorted@),
                forall|x: MIDINote|
                    sorted@.contains(x) <==> notes@.subrange(0, i as int).contains(x),
            decreases notes@.len() - i,
        {
            insert_note(&mut sorted, notes[i]);
            i = i + 1;
            proof {
                let pre = notes@.subrange(0, i as int);
                assert forall|x: MIDINote|
                    sorted@.contains(x) <==> pre.contains(x) by {
                    assert(pre.drop_last() =~= notes@.subrange(0, i - 1));
                    if sorted@.contains(x) {
                        if pre.drop_last().contains(x) {
                            let w = choose|w: int|
                                0 <= w < pre.drop_last().len() && pre.drop_last()[w] == x;
                            assert(pre[w] == x);
                        } else {
                            assert(x == notes@[i - 1]);
                            assert(pre[i - 1] == x);
                        }
                        assert(pre.contains(x));
                    }
                    if pre.contains(x) {
                        let w = choose|w: int| 0 <= w < pre.len() && pre[w] == x;
                        if w < i - 1 {
                            assert(pre.drop_last()[w] == x);
                            assert(pre.drop_last().contains(x));
                        } else {
                            assert(x == notes@[i - 1]);
                        }
                        assert(sorted@.contains(x));
                    }
                }
            }
        }
        proof {
            assert(notes@.subrange(0, notes@.len() as int) =~= notes@);
        }
        Self { notes: sorted }
    }

    /// The notes of this set, in sorted order.
    pub fn notes(&self) -> (r: &Vec<MIDINote>)
        ensures
            r@ == self@,
    {
        &self.notes
    }

    /// Parse a comma-separated list of notes into a set: every element must
    /// parse (see [`parse_midi_note_sequence`]), duplicates are collapsed,
    /// and the result is in sorted order, not input order.  The first
    /// element that fails is reported with its zero-based index; a trailing
    /// comma yields an empty trailing element, which fails at its own index.
    pub fn from_str(s: &str) -> (r: Result<MIDINoteSet, ParseMIDINoteSetError>)
        ensures
            spec_first_bad(spec_list_parts(s@)) == spec_list_parts(s@).len() ==> (r matches Ok(set)
                && spec_sorted_unique(set@) && (forall|x: MIDINote|
                set@.contains(x) <==> spec_parsed_notes(spec_list_parts(s@)).contains(x))),
            spec_first_bad(spec_list_parts(s@)) < spec_list_parts(s@).len() ==> (r matches Err(
                ParseMIDINoteSetError::ParseMIDINote(idx, e),
            ) && idx == spec_first_bad(spec_list_parts(s@)) && spec_note_error_matches(
                spec_list_parts(s@)[spec_first_bad(spec_list_parts(s@)) as int],
                e,
            )),
    {
        match parse_midi_note_sequence(s) {
            Ok(notes) => Ok(MIDINoteSet::new(notes)),
            Err(ParseMIDINoteSequenceError::ParseMIDINote(idx, e)) => Err(
                ParseMIDINoteSetError::ParseMIDINote(idx, e),
            ),
        }
    }
}

impl std::str::FromStr for MIDINoteType {
    type Err = ParseMIDINoteTypeError;

    fn from_str(s: &str) -> Result<Self, Self::Err> {
        MIDINoteType::from_str(s)
    }
}

impl std::str::FromStr for MIDINote {
    type Err = ParseMIDINoteError;

    fn from_str(s: &str) -> Result<Self, Self::Err> {
        MIDINote::from_str(s)
    }
}

impl std::str::FromStr for MIDINoteSet {
    type Err = ParseMIDINoteSetError;

    fn from_str(s: &str) -> Result<Self, Self::Err> {
        MIDINoteSet::from_str(s)
    }
}

/// Law: for every note whose class is not silence and whose formula value
/// fits in a `u32`, the converted number is exactly `12 * (octave + 1)` plus
/// the chromatic offset of the class.
pub proof fn lemma_convert_formula(n: MIDINote)
    requires
        n.note_type != MIDINoteType::Rest,
        (n.octave + 1) * 12 + spec_note_ordinal(n.note_type) <= u32::MAX,
    ensures
        spec_convert(n) == (n.octave + 1) * 12 + spec_note_ordinal(n.note_type),
{
}

/// Law: silence converts to the same sentinel whatever the octave, and that
/// sentinel is distinct from every real MIDI note number in 0..128.
pub proof fn lemma_silence_sentinel(a: MIDINote, b: MIDINote)
    requires
        a.note_type == MIDINoteType::Rest,
        b.note_type == MIDINoteType::Rest,
    ensures
        spec_convert(a) == spec_convert(b),
        spec_convert(a) == u32::MAX,
        spec_convert(a) >= 128,
{
}

} // verus!
