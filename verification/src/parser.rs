//! From note events to instructions: the enrollment table, which learns the
//! meaning of each pitch class, and the extractor, which follows the held keys
//! and turns signalling chords into instructions.

use crate::keys::{signal_pitch, KeySet};
use vstd::prelude::*;

verus! {

/// What an instruction does.
#[derive(Debug, Clone, Copy, PartialEq, Eq, Structural)]
pub enum Operation {
    MovePointerRight,
    MovePointerLeft,
    ToggleIncDec,
    BeginLoop,
    EndLoop,
    Output,
    Input,
    SpecialInstruction,
}

/// One operation with its two operands.
#[derive(Debug, Clone, Copy, PartialEq, Eq, Structural)]
pub struct Instruction {
    pub operation: Operation,
    pub repetitions: u32,
    pub change_in_value: u32,
}

/// The operation that stands at slot `i` of the enrollment table.
pub open spec fn slot_operation(i: int) -> Option<Operation> {
    if i == 0 {
        Some(Operation::MovePointerRight)
    } else if i == 1 {
        Some(Operation::MovePointerLeft)
    } else if i == 2 {
        Some(Operation::ToggleIncDec)
    } else if i == 3 {
        Some(Operation::BeginLoop)
    } else if i == 4 {
        Some(Operation::EndLoop)
    } else if i == 5 {
        Some(Operation::Output)
    } else if i == 6 {
        Some(Operation::Input)
    } else if i == 7 {
        Some(Operation::SpecialInstruction)
    } else {
        None
    }
}

/// The operation of table slot `i`, if `i` is one of the eight slots.
pub fn index_to_operation(i: usize) -> (r: Option<Operation>)
    ensures
        r == slot_operation(i as int),
{
    match i {
        0 => Some(Operation::MovePointerRight),
        1 => Some(Operation::MovePointerLeft),
        2 => Some(Operation::ToggleIncDec),
        3 => Some(Operation::BeginLoop),
        4 => Some(Operation::EndLoop),
        5 => Some(Operation::Output),
        6 => Some(Operation::Input),
        7 => Some(Operation::SpecialInstruction),
        _ => None,
    }
}

/// Number of slots of the enrollment table.
pub const TABLE_SLOTS: usize = 8;

/// Slot `i` is the first slot of `t` that holds `pc`.
pub open spec fn is_first_slot(t: Seq<Option<u8>>, pc: u8, i: int) -> bool {
    &&& 0 <= i < t.len()
    &&& t[i] == Some(pc)
    &&& forall|j: int| 0 <= j < i ==> t[j] != Some(pc)
}

/// The first slot of `t` that holds `pc`. A slot spent on a collision holds
/// no pitch class and is never found.
pub open spec fn table_lookup(t: Seq<Option<u8>>, pc: u8) -> Option<int> {
    if exists|i: int| is_first_slot(t, pc, i) {
        Some(choose|i: int| is_first_slot(t, pc, i))
    } else {
        None
    }
}

/// The table after one more chord of pitch class `pc` while it is open: a
/// new pitch class takes the next slot, a known one spends it.
pub open spec fn table_enroll(t: Seq<Option<u8>>, pc: u8) -> Seq<Option<u8>> {
    if table_lookup(t, pc).is_some() {
        t.push(None)
    } else {
        t.push(Some(pc))
    }
}

/// What a chord of pitch class `pc` does to the table, and the operation it
/// stands for: none while the table is open, the slot's once it is closed.
pub open spec fn table_resolve(t: Seq<Option<u8>>, pc: u8) -> (Seq<Option<u8>>, Option<Operation>) {
    if t.len() < 8 {
        (table_enroll(t, pc), None)
    } else {
        (
            t,
            match table_lookup(t, pc) {
                Some(i) => slot_operation(i),
                None => None,
            },
        )
    }
}

/// The first slot that holds a pitch class is what a lookup answers.
pub proof fn lemma_lookup_found(t: Seq<Option<u8>>, pc: u8, i: int)
    requires
        is_first_slot(t, pc, i),
    ensures
        table_lookup(t, pc) == Some(i),
{
    let c = choose|c: int| is_first_slot(t, pc, c);
    assert(!(c < i));
    assert(!(i < c));
}

/// A pitch class that no slot holds is not found.
pub proof fn lemma_lookup_absent(t: Seq<Option<u8>>, pc: u8)
    requires
        forall|i: int| 0 <= i < t.len() ==> t[i] != Some(pc),
    ensures
        table_lookup(t, pc).is_none(),
{
}

/// A successful lookup names a slot that holds the pitch class, and no
/// earlier slot does.
pub proof fn lemma_lookup_is_first(t: Seq<Option<u8>>, pc: u8)
    requires
        table_lookup(t, pc).is_some(),
    ensures
        is_first_slot(t, pc, table_lookup(t, pc).unwrap()),
{
}

/// Enrolling a pitch class a second time spends a slot on a collision mark,
/// and a lookup of that pitch class keeps answering with the slot of its
/// first enrollment, whatever is enrolled afterwards.
pub proof fn lemma_duplicate_enrollment(t: Seq<Option<u8>>, pc: u8, later: u8)
    requires
        table_lookup(t, pc).is_some(),
    ensures
        table_enroll(t, pc) == t.push(None),
        table_lookup(table_enroll(t, pc), pc) == table_lookup(t, pc),
        table_lookup(table_enroll(t, pc), pc).unwrap() < t.len(),
        table_lookup(table_enroll(t, later), pc) == table_lookup(t, pc),
{
    let i = table_lookup(t, pc).unwrap();
    assert(is_first_slot(t.push(None), pc, i));
    lemma_lookup_found(t.push(None), pc, i);
    assert(is_first_slot(table_enroll(t, later), pc, i));
    lemma_lookup_found(table_enroll(t, later), pc, i);
}

/// A pitch class enrolled for the first time is found at the slot it took.
pub proof fn lemma_first_enrollment(t: Seq<Option<u8>>, pc: u8)
    requires
        table_lookup(t, pc).is_none(),
    ensures
        table_enroll(t, pc) == t.push(Some(pc)),
        table_lookup(table_enroll(t, pc), pc) == Some(t.len() as int),
{
    let t2 = t.push(Some(pc));
    assert forall|j: int| 0 <= j < t.len() implies t2[j] != Some(pc) by {
        if t[j] == Some(pc) {
            lemma_first_exists(t, pc, j);
        }
    }
    assert(is_first_slot(t2, pc, t.len() as int));
    lemma_lookup_found(t2, pc, t.len() as int);
}

/// Where some slot up to `j` holds `pc`, a first such slot exists.
pub proof fn lemma_first_exists(t: Seq<Option<u8>>, pc: u8, j: int)
    requires
        0 <= j < t.len(),
        t[j] == Some(pc),
    ensures
        table_lookup(t, pc).is_some(),
        table_lookup(t, pc).unwrap() <= j,
    decreases j,
{
    if exists|k: int| 0 <= k < j && t[k] == Some(pc) {
        let k = choose|k: int| 0 <= k < j && t[k] == Some(pc);
        lemma_first_exists(t, pc, k);
    } else {
        assert(is_first_slot(t, pc, j));
        lemma_lookup_found(t, pc, j);
    }
}

/// The pitch classes learned so far, in the order in which they were met.
pub struct EnrollmentTable {
    slots: Vec<Option<u8>>,
}

impl EnrollmentTable {
    /// The table never holds more than eight slots.
    pub closed spec fn wf(&self) -> bool {
        self.slots.len() <= 8
    }

    /// The slots in order; `None` marks a slot spent on a collision.
    pub closed spec fn view(&self) -> Seq<Option<u8>> {
        self.slots@
    }

    /// A table with no slot taken.
    pub fn new() -> (t: EnrollmentTable)
        ensures
            t.wf(),
            t@ == Seq::<Option<u8>>::empty(),
    {
        EnrollmentTable { slots: Vec::new() }
    }

    /// Number of slots taken.
    pub fn len(&self) -> (n: usize)
        ensures
            n == self@.len(),
    {
        self.slots.len()
    }

    /// Whether all eight slots are taken, which ends enrollment for good.
    pub fn is_closed(&self) -> (b: bool)
        requires
            self.wf(),
        ensures
            b == (self@.len() == 8),
    {
        self.slots.len() == TABLE_SLOTS
    }

    /// The first slot that holds `pitch_class`.
    pub fn lookup(&self, pitch_class: u8) -> (r: Option<usize>)
        ensures
            match r {
                Some(i) => table_lookup(self@, pitch_class) == Some(i as int),
                None => table_lookup(self@, pitch_class).is_none(),
            },
    {
        let mut i: usize = 0;
        while i < self.slots.len()
            invariant
                i <= self.slots.len(),
                forall|j: int| 0 <= j < i ==> self.slots@[j] != Some(pitch_class),
            decreases self.slots.len() - i,
        {
            let hit = match self.slots[i] {
                Some(p) => p == pitch_class,
                None => false,
            };
            if hit {
                proof {
                    assert(is_first_slot(self@, pitch_class, i as int));
                    lemma_lookup_found(self@, pitch_class, i as int);
                }
                return Some(i);
            }
            i += 1;
        }
        proof {
            lemma_lookup_absent(self@, pitch_class);
        }
        None
    }

    /// Handles the pitch class of a chord: while the table is open it is
    /// enrolled and stands for nothing yet; once the table is closed, the
    /// table stays as it is and the operation of the first slot holding the
    /// pitch class is answered.
    pub fn enroll_or_lookup(&mut self, pitch_class: u8) -> (r: Option<Operation>)
        requires
            old(self).wf(),
        ensures
            final(self).wf(),
            (final(self)@, r) == table_resolve(old(self)@, pitch_class),
    {
        if self.slots.len() < TABLE_SLOTS {
            let known = self.lookup(pitch_class);
            if known.is_some() {
                self.slots.push(None);
            } else {
                self.slots.push(Some(pitch_class));
            }
            None
        } else {
            match self.lookup(pitch_class) {
                Some(i) => index_to_operation(i),
                None => None,
            }
        }
    }
}

/// Whether a key went down or came up.
#[derive(Debug, Clone, Copy, PartialEq, Eq, Structural)]
pub enum NoteKind {
    On,
    Off,
}

/// One key event of a performance. Events are handled in the order in which
/// they stand in their stream.
#[derive(Debug, Clone, Copy, PartialEq, Eq, Structural)]
pub struct NoteEvent {
    pub kind: NoteKind,
    pub key: u8,
}

/// Why a stream of events cannot be decoded.
#[derive(Debug, Clone, Copy, PartialEq, Eq, Structural)]
pub enum DecodeError {
    /// A key came up that was not down.
    HeldKeyMismatch,
}

/// A recognised chord whose keys are not all released yet.
pub struct Detection {
    /// The keys that were held when the chord was recognised.
    pub snapshot: Set<u8>,
    /// The operation the chord stands for, if it stands for one.
    pub pending: Option<Operation>,
    /// Presses of snapshot keys since then.
    pub repetitions: nat,
    /// Presses of other keys since then.
    pub magnitude: nat,
}

/// The extractor as a mathematical value.
pub struct DecoderState {
    pub held: Set<u8>,
    pub detection: Option<Detection>,
    pub table: Seq<Option<u8>>,
    pub program: Seq<Instruction>,
}

/// Nothing held, nothing enrolled, nothing emitted.
pub open spec fn initial_state() -> DecoderState {
    DecoderState {
        held: Set::empty(),
        detection: None,
        table: Seq::empty(),
        program: Seq::empty(),
    }
}

/// Key presses counted by the open detection.
pub open spec fn operand_total(s: DecoderState) -> nat {
    match s.detection {
        Some(d) => d.repetitions + d.magnitude,
        None => 0,
    }
}

/// The state after `key` goes down. With a detection open the press is
/// counted: as a repetition if the key belongs to the snapshot, towards the
/// magnitude if not. Otherwise the held keys are searched for a chord, and a
/// chord opens a detection and is resolved through the table.
pub open spec fn after_note_on(s: DecoderState, key: u8) -> DecoderState {
    let held = s.held.insert(key);
    match s.detection {
        Some(d) => {
            let counted = if d.snapshot.contains(key) {
                Detection { repetitions: d.repetitions + 1, ..d }
            } else {
                Detection { magnitude: d.magnitude + 1, ..d }
            };
            DecoderState { held, detection: Some(counted), ..s }
        },
        None => match signal_pitch(held) {
            Some(pc) => {
                let (table, pending) = table_resolve(s.table, pc);
                DecoderState {
                    held,
                    detection: Some(
                        Detection { snapshot: held, pending, repetitions: 0, magnitude: 0 },
                    ),
                    table,
                    program: s.program,
                }
            },
            None => DecoderState { held, ..s },
        },
    }
}

/// The program after the detection `d` closes: with the table closed and an
/// operation pending, one instruction more.
pub open spec fn program_after_close(
    program: Seq<Instruction>,
    table: Seq<Option<u8>>,
    d: Detection,
) -> Seq<Instruction> {
    match d.pending {
        Some(operation) if table.len() == 8 => program.push(
            Instruction {
                operation,
                repetitions: d.repetitions as u32,
                change_in_value: d.magnitude as u32,
            },
        ),
        _ => program,
    }
}

/// The state after `key` comes up, or `None` if it was not down. The release
/// of a snapshot key that leaves no snapshot key held closes the detection.
pub open spec fn after_note_off(s: DecoderState, key: u8) -> Option<DecoderState> {
    if !s.held.contains(key) {
        None
    } else {
        let held = s.held.remove(key);
        match s.detection {
            Some(d) if d.snapshot.contains(key) && held.disjoint(d.snapshot) => Some(
                DecoderState {
                    held,
                    detection: None,
                    table: s.table,
                    program: program_after_close(s.program, s.table, d),
                },
            ),
            _ => Some(DecoderState { held, ..s }),
        }
    }
}

/// The state after one event.
pub open spec fn after_event(s: DecoderState, event: NoteEvent) -> Option<DecoderState> {
    match event.kind {
        NoteKind::On => Some(after_note_on(s, event.key)),
        NoteKind::Off => after_note_off(s, event.key),
    }
}

/// The state after all of `events`, or `None` if one of them releases a key
/// that is not held.
pub open spec fn after_events(events: Seq<NoteEvent>) -> Option<DecoderState>
    decreases events.len(),
{
    if events.len() == 0 {
        Some(initial_state())
    } else {
        match after_events(events.drop_last()) {
            Some(s) => after_event(s, events.last()),
            None => None,
        }
    }
}

/// Follows a stream of note events and collects the instructions it spells.
pub struct Extractor {
    held: KeySet,
    active: bool,
    snapshot: KeySet,
    pending: Option<Operation>,
    repetitions: u32,
    magnitude: u32,
    table: EnrollmentTable,
    program: Vec<Instruction>,
}

impl Extractor {
    /// The key sets and the table are well formed.
    pub closed spec fn wf(&self) -> bool {
        self.held.wf() && self.snapshot.wf() && self.table.wf()
    }

    /// The extractor as a mathematical value.
    pub closed spec fn view(&self) -> DecoderState {
        DecoderState {
            held: self.held@,
            detection: if self.active {
                Some(
                    Detection {
                        snapshot: self.snapshot@,
                        pending: self.pending,
                        repetitions: self.repetitions as nat,
                        magnitude: self.magnitude as nat,
                    },
                )
            } else {
                None
            },
            table: self.table@,
            program: self.program@,
        }
    }

    /// An extractor that has seen no event.
    pub fn new() -> (e: Extractor)
        ensures
            e.wf(),
            e@ == initial_state(),
    {
        Extractor {
            held: KeySet::new(),
            active: false,
            snapshot: KeySet::new(),
            pending: None,
            repetitions: 0,
            magnitude: 0,
            table: EnrollmentTable::new(),
            program: Vec::new(),
        }
    }

    /// Handles a key going down.
    pub fn note_on(&mut self, key: u8)
        requires
            old(self).wf(),
            operand_total(old(self)@) < u32::MAX,
        ensures
            final(self).wf(),
            final(self)@ == after_note_on(old(self)@, key),
    {
        self.held.insert(key);
        if self.active {
            if self.snapshot.contains(key) {
                self.repetitions = self.repetitions + 1;
            } else {
                self.magnitude = self.magnitude + 1;
            }
        } else {
            match self.held.signal() {
                Some(pc) => {
                    self.snapshot = self.held.snapshot();
                    self.pending = self.table.enroll_or_lookup(pc);
                    self.repetitions = 0;
                    self.magnitude = 0;
                    self.active = true;
                },
                None => {},
            }
        }
    }

    /// Handles a key coming up. A key that is not down is refused, and the
    /// extractor stays as it was.
    pub fn note_off(&mut self, key: u8) -> (r: Result<(), DecodeError>)
        requires
            old(self).wf(),
        ensures
            final(self).wf(),
            match after_note_off(old(self)@, key) {
                Some(s) => r.is_ok() && final(self)@ == s,
                None => r == Err::<(), DecodeError>(DecodeError::HeldKeyMismatch) && final(self)@
                    == old(self)@,
            },
    {
        if !self.held.contains(key) {
            return Err(DecodeError::HeldKeyMismatch);
        }
        self.held.remove(key);
        if self.active && self.snapshot.contains(key) && self.held.is_disjoint(&self.snapshot) {
            if self.table.is_closed() {
                match self.pending {
                    Some(operation) => {
                        self.program.push(
                            Instruction {
                                operation,
                                repetitions: self.repetitions,
                                change_in_value: self.magnitude,
                            },
                        );
                    },
                    None => {},
                }
            }
            self.active = false;
        }
        Ok(())
    }

    /// Handles one event.
    pub fn feed(&mut self, event: NoteEvent) -> (r: Result<(), DecodeError>)
        requires
            old(self).wf(),
            operand_total(old(self)@) < u32::MAX,
        ensures
            final(self).wf(),
            match after_event(old(self)@, event) {
                Some(s) => r.is_ok() && final(self)@ == s,
                None => r == Err::<(), DecodeError>(DecodeError::HeldKeyMismatch) && final(self)@
                    == old(self)@,
            },
    {
        match event.kind {
            NoteKind::On => {
                self.note_on(event.key);
                Ok(())
            },
            NoteKind::Off => self.note_off(event.key),
        }
    }

    /// Hands out the instructions emitted so far.
    pub fn into_program(self) -> (program: Vec<Instruction>)
        ensures
            program@ == self@.program,
    {
        self.program
    }
}

/// One event adds at most one to the presses a detection has counted.
pub proof fn lemma_operand_total_step(s: DecoderState, event: NoteEvent)
    ensures
        match after_event(s, event) {
            Some(t) => operand_total(t) <= operand_total(s) + 1,
            None => true,
        },
{
}

/// A detection never counts more presses than events were handled.
pub proof fn lemma_operand_total_bound(events: Seq<NoteEvent>)
    ensures
        match after_events(events) {
            Some(s) => operand_total(s) <= events.len(),
            None => true,
        },
    decreases events.len(),
{
    if events.len() > 0 {
        lemma_operand_total_bound(events.drop_last());
        match after_events(events.drop_last()) {
            Some(s) => lemma_operand_total_step(s, events.last()),
            None => {},
        }
    }
}

/// Once a release is refused, no longer stream is decoded.
pub proof fn lemma_refusal_is_final(events: Seq<NoteEvent>, n: int)
    requires
        0 <= n <= events.len(),
        after_events(events.take(n)).is_none(),
    ensures
        after_events(events).is_none(),
    decreases events.len() - n,
{
    if n < events.len() {
        assert(events.take(n + 1).drop_last() =~= events.take(n));
        lemma_refusal_is_final(events, n + 1);
    } else {
        assert(events.take(n) =~= events);
    }
}

/// Decodes a stream of note events into the program it spells. The stream is
/// refused as a whole if it releases a key that is not held.
pub fn parse(events: &Vec<NoteEvent>) -> (r: Result<Vec<Instruction>, DecodeError>)
    requires
        events.len() <= u32::MAX,
    ensures
        match after_events(events@) {
            Some(s) => r.is_ok() && r.unwrap()@ == s.program,
            None => r == Err::<Vec<Instruction>, DecodeError>(DecodeError::HeldKeyMismatch),
        },
{
    let mut extractor = Extractor::new();
    let mut i: usize = 0;
    proof {
        assert(events@.take(0) =~= Seq::<NoteEvent>::empty());
    }
    while i < events.len()
        invariant
            i <= events.len(),
            events.len() <= u32::MAX,
            extractor.wf(),
            after_events(events@.take(i as int)) == Some(extractor@),
        decreases events.len() - i,
    {
        proof {
            lemma_operand_total_bound(events@.take(i as int));
            assert(events@.take(i + 1).drop_last() =~= events@.take(i as int));
        }
        match extractor.feed(events[i]) {
            Ok(()) => {},
            Err(e) => {
                proof {
                    lemma_refusal_is_final(events@, i + 1);
                }
                return Err(e);
            },
        }
        i += 1;
    }
    proof {
        assert(events@.take(i as int) =~= events@);
    }
    Ok(extractor.into_program())
}

/// No instruction was emitted and the open detection, if there is one,
/// stands for no operation.
pub open spec fn nothing_resolved(s: DecoderState) -> bool {
    s.program.len() == 0 && match s.detection {
        Some(d) => d.pending.is_none(),
        None => true,
    }
}

/// While the table is open, one event leaves nothing resolved, and the table
/// never outgrows its eight slots.
pub proof fn lemma_open_table_step(s: DecoderState, event: NoteEvent)
    requires
        s.table.len() <= 8,
        s.table.len() < 8 ==> nothing_resolved(s),
    ensures
        match after_event(s, event) {
            Some(t) => s.table.len() <= t.table.len() <= 8 && (t.table.len() < 8
                ==> nothing_resolved(t)),
            None => true,
        },
{
}

/// As long as fewer than eight chords were signalled, so that the table is
/// still open, no chord was resolved to an operation and the program is empty.
pub proof fn lemma_open_table_resolves_nothing(events: Seq<NoteEvent>)
    ensures
        match after_events(events) {
            Some(s) => s.table.len() <= 8 && (s.table.len() < 8 ==> nothing_resolved(s)),
            None => true,
        },
    decreases events.len(),
{
    if events.len() > 0 {
        lemma_open_table_resolves_nothing(events.drop_last());
        match after_events(events.drop_last()) {
            Some(s) => lemma_open_table_step(s, events.last()),
            None => {},
        }
    }
}

} // verus!
