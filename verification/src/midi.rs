//! Programs out of Standard MIDI Files. The file format is read by the
//! `midly` crate; which events count and what they spell is decided here.

use crate::parser::{after_events, parse, DecodeError, Instruction, NoteEvent, NoteKind};
use vstd::prelude::*;

verus! {

/// The error with which `midly` refuses a file.
#[verifier::external_type_specification]
#[verifier::external_body]
pub struct ExMidiError(midly::Error);

/// Why a file gives no program.
#[derive(Debug, Clone, Copy, PartialEq, Eq, Structural)]
pub enum FileError {
    /// The bytes are no Standard MIDI File.
    Malformed,
    /// The file has no track of the number asked for.
    NoSuchTrack,
    /// The track has more events than an operand can count.
    TrackTooLong,
    /// The key events of the track cannot be decoded.
    Decode(DecodeError),
}

/// The tracks that `midly` reads out of a file of these bytes, each event
/// reduced to the key event it is, if it is one; `None` for bytes it refuses.
pub uninterp spec fn midi_file_tracks(bytes: Seq<u8>) -> Option<Seq<Seq<Option<NoteEvent>>>>;

/// The tracks as sequences of sequences.
pub open spec fn tracks_view(tracks: Vec<Vec<Option<NoteEvent>>>) -> Seq<Seq<Option<NoteEvent>>> {
    tracks@.map_values(|track: Vec<Option<NoteEvent>>| track@)
}

/// Parses `bytes` with `midly::Smf::parse` and hands out its tracks event by
/// event: a note-on or note-off message of any channel as the key event it
/// is, with the key number `midly` gives, every other event as `None`. The
/// result is a function of the bytes alone, and that is all the contract
/// says of it.
#[verifier::external_body]
fn read_tracks(bytes: &[u8]) -> (r: Result<Vec<Vec<Option<NoteEvent>>>, midly::Error>)
    ensures
        match r {
            Ok(tracks) => midi_file_tracks(bytes@) == Some(tracks_view(tracks)),
            Err(_) => midi_file_tracks(bytes@).is_none(),
        },
{
    let smf = midly::Smf::parse(bytes)?;
    Ok(smf.tracks.iter().map(|track| track.iter().map(|event| match event.kind {
        midly::TrackEventKind::Midi { message: midly::MidiMessage::NoteOn { key, .. }, .. } =>
            Some(NoteEvent { kind: NoteKind::On, key: key.as_int() }),
        midly::TrackEventKind::Midi { message: midly::MidiMessage::NoteOff { key, .. }, .. } =>
            Some(NoteEvent { kind: NoteKind::Off, key: key.as_int() }),
        _ => None,
    }).collect()).collect())
}

/// The key events among `items`, in their order.
pub open spec fn notes_of(items: Seq<Option<NoteEvent>>) -> Seq<NoteEvent>
    decreases items.len(),
{
    if items.len() == 0 {
        Seq::empty()
    } else {
        match items.last() {
            Some(event) => notes_of(items.drop_last()).push(event),
            None => notes_of(items.drop_last()),
        }
    }
}

/// There are no more key events than events.
pub proof fn lemma_notes_of_len(items: Seq<Option<NoteEvent>>)
    ensures
        notes_of(items).len() <= items.len(),
    decreases items.len(),
{
    if items.len() > 0 {
        lemma_notes_of_len(items.drop_last());
    }
}

/// Picks the key events out of the events of a track.
pub fn note_events(items: &Vec<Option<NoteEvent>>) -> (events: Vec<NoteEvent>)
    ensures
        events@ == notes_of(items@),
{
    let mut events: Vec<NoteEvent> = Vec::new();
    let mut i: usize = 0;
    proof {
        assert(items@.take(0) =~= Seq::<Option<NoteEvent>>::empty());
    }
    while i < items.len()
        invariant
            i <= items.len(),
            events@ == notes_of(items@.take(i as int)),
        decreases items.len() - i,
    {
        proof {
            assert(items@.take(i + 1).drop_last() =~= items@.take(i as int));
        }
        match items[i] {
            Some(event) => {
                events.push(event);
            },
            None => {},
        }
        i += 1;
    }
    proof {
        assert(items@.take(i as int) =~= items@);
    }
    events
}

/// The program that track number `track` of `tracks` spells, or why it
/// spells none.
pub open spec fn track_program(tracks: Seq<Seq<Option<NoteEvent>>>, track: int) -> Result<
    Seq<Instruction>,
    FileError,
> {
    if !(0 <= track < tracks.len()) {
        Err(FileError::NoSuchTrack)
    } else if tracks[track].len() > u32::MAX {
        Err(FileError::TrackTooLong)
    } else {
        match after_events(notes_of(tracks[track])) {
            Some(s) => Ok(s.program),
            None => Err(FileError::Decode(DecodeError::HeldKeyMismatch)),
        }
    }
}

/// Decodes track number `track` of the tracks of a file.
pub fn program_of_track(tracks: &Vec<Vec<Option<NoteEvent>>>, track: usize) -> (r: Result<
    Vec<Instruction>,
    FileError,
>)
    ensures
        match track_program(tracks_view(*tracks), track as int) {
            Ok(program) => r.is_ok() && r.unwrap()@ == program,
            Err(e) => r == Err::<Vec<Instruction>, FileError>(e),
        },
{
    if track >= tracks.len() {
        return Err(FileError::NoSuchTrack);
    }
    let items = &tracks[track];
    if items.len() > 0xFFFF_FFFF {
        return Err(FileError::TrackTooLong);
    }
    proof {
        lemma_notes_of_len(items@);
    }
    let events = note_events(items);
    match parse(&events) {
        Ok(program) => Ok(program),
        Err(e) => Err(FileError::Decode(e)),
    }
}

/// Decodes track number `track` of the Standard MIDI File `bytes`.
pub fn parse_file(bytes: &[u8], track: usize) -> (r: Result<Vec<Instruction>, FileError>)
    ensures
        match midi_file_tracks(bytes@) {
            Some(tracks) => match track_program(tracks, track as int) {
                Ok(program) => r.is_ok() && r.unwrap()@ == program,
                Err(e) => r == Err::<Vec<Instruction>, FileError>(e),
            },
            None => r == Err::<Vec<Instruction>, FileError>(FileError::Malformed),
        },
{
    match read_tracks(bytes) {
        Ok(tracks) => program_of_track(&tracks, track),
        Err(_) => Err(FileError::Malformed),
    }
}

} // verus!
