//! The interrupt dispatch table, the exception and hardware-interrupt
//! handlers, and the cascaded controller pair with its per-vector
//! acknowledgement protocol.

use vstd::prelude::*;
use vstd::string::StringSliceAdditionalSpecFns;
use crate::vga_buffer::{Writer, hex_bytes, lemma_write_bytes_append, write_bytes_spec};

verus! {

/// Vector base of the primary controller, clear of the 32 CPU-reserved
/// vectors.
pub const PIC_1_OFFSET: u8 = 32;

/// Vector base of the secondary controller, cascaded behind the primary.
pub const PIC_2_OFFSET: u8 = PIC_1_OFFSET + 8;

/// Index of the dedicated alternate stack on which double-fault delivery
/// runs, drawn from the small fixed pool set up earlier in boot.
pub const DOUBLE_FAULT_IST_INDEX: u16 = 0;

/// The two hardware interrupt lines in use.
#[derive(Debug, Clone, Copy, PartialEq, Eq, Structural)]
pub enum InterruptIndex {
    Timer,
    Keyboard,
}

pub open spec fn interrupt_vector(i: InterruptIndex) -> u8 {
    match i {
        InterruptIndex::Timer => 32,
        InterruptIndex::Keyboard => 33,
    }
}

impl InterruptIndex {
    pub fn as_u8(self) -> (v: u8)
        ensures
            v == interrupt_vector(self),
    {
        match self {
            InterruptIndex::Timer => PIC_1_OFFSET,
            InterruptIndex::Keyboard => PIC_1_OFFSET + 1,
        }
    }

    pub fn as_usize(self) -> (v: usize)
        ensures
            v == interrupt_vector(self),
    {
        self.as_u8() as usize
    }
}

/// The handlers that a vector can be bound to.
#[derive(Debug, Clone, Copy, PartialEq, Eq, Structural)]
pub enum HandlerKind {
    Breakpoint,
    DoubleFault,
    PageFault,
    Timer,
    Keyboard,
}

/// One bound slot of the dispatch table: the handler and, for faults whose
/// delivery must survive a corrupted stack, the dedicated alternate-stack
/// index.
#[derive(Debug, Clone, Copy, PartialEq, Eq)]
pub struct VectorEntry {
    pub handler: HandlerKind,
    pub stack_index: Option<u16>,
}

/// The 256-slot table binding vector numbers to handlers.
pub struct InterruptDispatchTable {
    pub entries: Vec<Option<VectorEntry>>,
}

impl InterruptDispatchTable {
    pub open spec fn wf(&self) -> bool {
        self.entries@.len() == 256
    }

    pub open spec fn entry(&self, v: int) -> Option<VectorEntry> {
        self.entries@[v]
    }

    /// A table with every slot unbound.
    pub fn new() -> (t: InterruptDispatchTable)
        ensures
            t.wf(),
            forall|v: int| 0 <= v < 256 ==> #[trigger] t.entry(v) is None,
    {
        let mut entries: Vec<Option<VectorEntry>> = Vec::new();
        while entries.len() < 256
            invariant
                entries@.len() <= 256,
                forall|v: int| 0 <= v < entries@.len() ==> #[trigger] entries@[v] is None,
            decreases 256 - entries@.len(),
        {
            entries.push(None);
        }
        InterruptDispatchTable { entries }
    }

    /// Binds one vector to a handler, optionally on an alternate stack.
    fn bind(&mut self, vector: usize, handler: HandlerKind, stack_index: Option<u16>)
        requires
            old(self).wf(),
            vector < 256,
        ensures
            final(self).wf(),
            final(self).entries@ == old(self).entries@.update(
                vector as int,
                Some(VectorEntry { handler, stack_index }),
            ),
    {
        self.entries[vector] = Some(VectorEntry { handler, stack_index });
    }

    /// The slot bound to a vector.
    pub fn get(&self, vector: u8) -> (e: Option<VectorEntry>)
        requires
            self.wf(),
        ensures
            e == self.entry(vector as int),
    {
        self.entries[vector as usize]
    }
}

/// The bindings the table holds once it is initialized: breakpoint, double
/// fault on its dedicated stack, page fault, and the two hardware vectors;
/// nothing else.
pub open spec fn idt_wired(t: InterruptDispatchTable) -> bool {
    &&& t.entry(3) == Some(VectorEntry { handler: HandlerKind::Breakpoint, stack_index: None })
    &&& t.entry(8) == Some(
        VectorEntry { handler: HandlerKind::DoubleFault, stack_index: Some(DOUBLE_FAULT_IST_INDEX) },
    )
    &&& t.entry(14) == Some(VectorEntry { handler: HandlerKind::PageFault, stack_index: None })
    &&& t.entry(32) == Some(VectorEntry { handler: HandlerKind::Timer, stack_index: None })
    &&& t.entry(33) == Some(VectorEntry { handler: HandlerKind::Keyboard, stack_index: None })
    &&& forall|v: int|
        0 <= v < 256 && v != 3 && v != 8 && v != 14 && v != 32 && v != 33 ==> #[trigger] t.entry(
            v,
        ) is None
}

/// Populates the 256-slot table, once, before interrupts are enabled: the
/// breakpoint, double-fault (on its dedicated alternate stack), page-fault,
/// timer and keyboard vectors each get their own handler.
pub fn init_idt() -> (t: InterruptDispatchTable)
    ensures
        t.wf(),
        idt_wired(t),
{
    let mut t = InterruptDispatchTable::new();
    let ghost t0 = t;
    t.bind(3, HandlerKind::Breakpoint, None);
    t.bind(8, HandlerKind::DoubleFault, Some(DOUBLE_FAULT_IST_INDEX));
    t.bind(InterruptIndex::Timer.as_usize(), HandlerKind::Timer, None);
    t.bind(InterruptIndex::Keyboard.as_usize(), HandlerKind::Keyboard, None);
    t.bind(14, HandlerKind::PageFault, None);
    proof {
        assert forall|v: int|
            0 <= v < 256 && v != 3 && v != 8 && v != 14 && v != 32 && v
                != 33 implies #[trigger] t.entry(v) is None by {
            assert(t0.entry(v) is None);
            assert(t.entries@[v] == t0.entries@[v]);
        }
    }
    t
}

/// No cross-wiring: any two of the configured vectors resolve to distinct
/// designated handlers.
pub proof fn lemma_no_cross_wiring(t: InterruptDispatchTable, v1: int, v2: int)
    requires
        idt_wired(t),
        v1 == 3 || v1 == 8 || v1 == 14 || v1 == 32 || v1 == 33,
        v2 == 3 || v2 == 8 || v2 == 14 || v2 == 32 || v2 == 33,
        v1 != v2,
    ensures
        t.entry(v1) is Some,
        t.entry(v2) is Some,
        t.entry(v1)->0.handler != t.entry(v2)->0.handler,
{
}

/// Snapshot of the interrupted execution context as delivered to a handler.
#[derive(Debug, Clone, Copy, PartialEq, Eq, Structural)]
pub struct InterruptStackFrame {
    pub instruction_pointer: u64,
    pub code_segment: u64,
    pub cpu_flags: u64,
    pub stack_pointer: u64,
    pub stack_segment: u64,
}

/// What a handler directs the interrupted instruction stream to do.
#[derive(Debug, Clone, Copy, PartialEq, Eq, Structural)]
pub enum HandlerOutcome {
    /// Return to the interrupted context at the saved instruction pointer.
    Resume,
    /// Park the machine; there is no recovery path.
    Halt,
}

/// Which of the two cascaded controllers received an acknowledgement.
#[derive(Debug, Clone, Copy, PartialEq, Eq, Structural)]
pub enum ControllerId {
    Primary,
    Secondary,
}

/// The controller whose vector base is `offset` owns this vector.
pub open spec fn pic_handles(offset: u8, vector: u8) -> bool {
    offset <= vector < offset + 8
}

/// The acknowledgements one serviced interrupt owes: one on the owning
/// controller, preceded on the primary by none and followed, for a line of
/// the secondary, by one on the primary for the cascade.
pub open spec fn eoi_acks(p: ChainedPics, vector: u8) -> Seq<ControllerId> {
    if pic_handles(p.secondary_offset, vector) {
        seq![ControllerId::Secondary, ControllerId::Primary]
    } else if pic_handles(p.primary_offset, vector) {
        seq![ControllerId::Primary]
    } else {
        Seq::empty()
    }
}

/// The cascaded controller pair, remapped at initialization to a fixed
/// vector base. The model records every acknowledgement in order.
pub struct ChainedPics {
    pub primary_offset: u8,
    pub secondary_offset: u8,
    pub initialized: bool,
    pub acks: Vec<ControllerId>,
}

impl ChainedPics {
    /// A controller pair remapped to the given bases; wrong offsets would
    /// collide with the CPU-reserved vectors, so they are excluded here.
    pub fn new(primary_offset: u8, secondary_offset: u8) -> (p: ChainedPics)
        requires
            primary_offset >= 32,
            secondary_offset == primary_offset + 8,
            primary_offset + 16 <= 256,
        ensures
            p.primary_offset == primary_offset,
            p.secondary_offset == secondary_offset,
            !p.initialized,
            p.acks@ == Seq::<ControllerId>::empty(),
    {
        let p = ChainedPics { primary_offset, secondary_offset, initialized: false, acks: Vec::new() };
        p
    }

    /// Programs both controllers, exactly once, before interrupts are
    /// globally enabled.
    pub fn initialize(&mut self)
        requires
            !old(self).initialized,
        ensures
            final(self).initialized,
            final(self).primary_offset == old(self).primary_offset,
            final(self).secondary_offset == old(self).secondary_offset,
            final(self).acks@ == old(self).acks@,
    {
        self.initialized = true;
    }

    /// Whether one of the two controllers owns this vector.
    pub fn handles_interrupt(&self, vector: u8) -> (r: bool)
        ensures
            r == (pic_handles(self.primary_offset, vector) || pic_handles(
                self.secondary_offset,
                vector,
            )),
    {
        (self.primary_offset <= vector && (vector as u16) < self.primary_offset as u16 + 8) || (
        self.secondary_offset <= vector && (vector as u16) < self.secondary_offset as u16 + 8)
    }

    /// Acknowledges the serviced interrupt: exactly once on its owning
    /// controller, and, if that controller is the secondary, exactly once
    /// more on the primary for the cascade line — in that order. A vector
    /// that neither controller owns is not acknowledged at all.
    pub fn notify_end_of_interrupt(&mut self, vector: u8)
        requires
            old(self).initialized,
        ensures
            final(self).initialized,
            final(self).primary_offset == old(self).primary_offset,
            final(self).secondary_offset == old(self).secondary_offset,
            final(self).acks@ == old(self).acks@ + eoi_acks(*old(self), vector),
    {
        if self.secondary_offset <= vector && (vector as u16) < self.secondary_offset as u16 + 8 {
            self.acks.push(ControllerId::Secondary);
            self.acks.push(ControllerId::Primary);
            proof {
                assert(self.acks@ =~= old(self).acks@ + eoi_acks(*old(self), vector));
            }
        } else if self.primary_offset <= vector && (vector as u16) < self.primary_offset as u16
            + 8 {
            self.acks.push(ControllerId::Primary);
            proof {
                assert(self.acks@ =~= old(self).acks@ + eoi_acks(*old(self), vector));
            }
        } else {
            proof {
                assert(self.acks@ =~= old(self).acks@ + eoi_acks(*old(self), vector));
            }
        }
    }
}

/// One labeled 16-digit hexadecimal line of a report.
pub open spec fn hex_field(label: Seq<u8>, v: u64) -> Seq<u8> {
    label + hex_bytes(v, 16) + "\n".spec_bytes()
}

/// The captured execution context, rendered field by field.
pub open spec fn context_report(f: InterruptStackFrame) -> Seq<u8> {
    hex_field("rip: 0x".spec_bytes(), f.instruction_pointer) + hex_field(
        "cs: 0x".spec_bytes(),
        f.code_segment,
    ) + hex_field("rflags: 0x".spec_bytes(), f.cpu_flags) + hex_field(
        "rsp: 0x".spec_bytes(),
        f.stack_pointer,
    ) + hex_field("ss: 0x".spec_bytes(), f.stack_segment)
}

/// Writes one labeled hexadecimal line.
fn write_hex_line(w: &mut Writer, label: &str, v: u64)
    requires
        old(w).wf(),
    ensures
        final(w).wf(),
        final(w)@ == write_bytes_spec(old(w)@, hex_field(label.spec_bytes(), v)),
{
    let ghost m0 = w@;
    w.write_string(label);
    w.write_hex(v);
    w.write_string("\n");
    proof {
        lemma_write_bytes_append(m0, label.spec_bytes(), hex_bytes(v, 16));
        lemma_write_bytes_append(m0, label.spec_bytes() + hex_bytes(v, 16), "\n".spec_bytes());
    }
}

/// Writes the captured context snapshot, one field per line.
fn write_context(w: &mut Writer, f: &InterruptStackFrame)
    requires
        old(w).wf(),
    ensures
        final(w).wf(),
        final(w)@ == write_bytes_spec(old(w)@, context_report(*f)),
{
    let ghost m0 = w@;
    write_hex_line(w, "rip: 0x", f.instruction_pointer);
    write_hex_line(w, "cs: 0x", f.code_segment);
    write_hex_line(w, "rflags: 0x", f.cpu_flags);
    write_hex_line(w, "rsp: 0x", f.stack_pointer);
    write_hex_line(w, "ss: 0x", f.stack_segment);
    proof {
        let l1 = hex_field("rip: 0x".spec_bytes(), f.instruction_pointer);
        let l2 = hex_field("cs: 0x".spec_bytes(), f.code_segment);
        let l3 = hex_field("rflags: 0x".spec_bytes(), f.cpu_flags);
        let l4 = hex_field("rsp: 0x".spec_bytes(), f.stack_pointer);
        let l5 = hex_field("ss: 0x".spec_bytes(), f.stack_segment);
        lemma_write_bytes_append(m0, l1, l2);
        lemma_write_bytes_append(m0, l1 + l2, l3);
        lemma_write_bytes_append(m0, l1 + l2 + l3, l4);
        lemma_write_bytes_append(m0, l1 + l2 + l3 + l4, l5);
    }
}

/// The diagnostic a breakpoint leaves on the screen: the header and the
/// captured context.
pub open spec fn breakpoint_report(f: InterruptStackFrame) -> Seq<u8> {
    "EXCEPTION: BREAKPOINT\n".spec_bytes() + context_report(f)
}

/// Breakpoints are recoverable: the handler logs the captured context and
/// directs the stream to resume at the following instruction, with the saved
/// context left untouched.
pub fn breaking_handler(w: &mut Writer, stack_frame: &InterruptStackFrame) -> (o: HandlerOutcome)
    requires
        old(w).wf(),
    ensures
        o is Resume,
        final(w).wf(),
        final(w)@ == write_bytes_spec(old(w)@, breakpoint_report(*stack_frame)),
{
    let ghost m0 = w@;
    w.write_string("EXCEPTION: BREAKPOINT\n");
    write_context(w, stack_frame);
    proof {
        lemma_write_bytes_append(
            m0,
            "EXCEPTION: BREAKPOINT\n".spec_bytes(),
            context_report(*stack_frame),
        );
    }
    HandlerOutcome::Resume
}

/// The diagnostic a double fault leaves on the screen: the header, the error
/// code and the captured context.
pub open spec fn double_fault_report(f: InterruptStackFrame, error_code: u64) -> Seq<u8> {
    "EXCEPTION: DOUBLE FAULT\n".spec_bytes() + hex_field("error code: 0x".spec_bytes(), error_code)
        + context_report(f)
}

/// Returning from a double fault is architecturally undefined, so the only
/// legal action is report-then-halt: the outcome is never `Resume`.
pub fn double_fault_handler(
    w: &mut Writer,
    stack_frame: &InterruptStackFrame,
    error_code: u64,
) -> (o: HandlerOutcome)
    requires
        old(w).wf(),
    ensures
        o is Halt,
        final(w).wf(),
        final(w)@ == write_bytes_spec(old(w)@, double_fault_report(*stack_frame, error_code)),
{
    let ghost m0 = w@;
    w.write_string("EXCEPTION: DOUBLE FAULT\n");
    write_hex_line(w, "error code: 0x", error_code);
    write_context(w, stack_frame);
    proof {
        let header = "EXCEPTION: DOUBLE FAULT\n".spec_bytes();
        let code_line = hex_field("error code: 0x".spec_bytes(), error_code);
        lemma_write_bytes_append(m0, header, code_line);
        lemma_write_bytes_append(m0, header + code_line, context_report(*stack_frame));
    }
    HandlerOutcome::Halt
}

/// The page-fault error-code bits, decoded: protection violation (else the
/// page was not present), write access (else a read), and user-mode origin.
#[derive(Debug, Clone, Copy, PartialEq, Eq, Structural)]
pub struct PageFaultDiagnostics {
    pub accessed_address: u64,
    pub protection_violation: bool,
    pub caused_by_write: bool,
    pub user_mode: bool,
}

pub open spec fn decode_spec(accessed_address: u64, error_code: u64) -> PageFaultDiagnostics {
    PageFaultDiagnostics {
        accessed_address,
        protection_violation: error_code % 2 == 1,
        caused_by_write: (error_code / 2) % 2 == 1,
        user_mode: (error_code / 4) % 2 == 1,
    }
}

/// The diagnostic a page fault leaves on the screen: the header, the
/// faulting address, the decoded cause and access kind, and the captured
/// context.
pub open spec fn page_fault_report(
    accessed_address: u64,
    error_code: u64,
    f: InterruptStackFrame,
) -> Seq<u8> {
    "EXCEPTION: PAGE FAULT\n".spec_bytes() + hex_field(
        "accessed address: 0x".spec_bytes(),
        accessed_address,
    ) + (if error_code % 2 == 1 {
        "cause: protection violation\n".spec_bytes()
    } else {
        "cause: page not present\n".spec_bytes()
    }) + (if (error_code / 2) % 2 == 1 {
        "access: write\n".spec_bytes()
    } else {
        "access: read\n".spec_bytes()
    }) + context_report(f)
}

/// Page faults have no recovery path: the handler decodes the faulting
/// address and the error-code bitmask, reports the diagnostics, and halts.
pub fn page_fault_handler(
    w: &mut Writer,
    stack_frame: &InterruptStackFrame,
    accessed_address: u64,
    error_code: u64,
) -> (r: (PageFaultDiagnostics, HandlerOutcome))
    requires
        old(w).wf(),
    ensures
        r.1 is Halt,
        r.0 == decode_spec(accessed_address, error_code),
        final(w).wf(),
        final(w)@ == write_bytes_spec(
            old(w)@,
            page_fault_report(accessed_address, error_code, *stack_frame),
        ),
{
    let ghost m0 = w@;
    w.write_string("EXCEPTION: PAGE FAULT\n");
    write_hex_line(w, "accessed address: 0x", accessed_address);
    let protection_violation = error_code % 2 == 1;
    let caused_by_write = (error_code / 2) % 2 == 1;
    let user_mode = (error_code / 4) % 2 == 1;
    if protection_violation {
        w.write_string("cause: protection violation\n");
    } else {
        w.write_string("cause: page not present\n");
    }
    if caused_by_write {
        w.write_string("access: write\n");
    } else {
        w.write_string("access: read\n");
    }
    write_context(w, stack_frame);
    proof {
        let part1 = "EXCEPTION: PAGE FAULT\n".spec_bytes();
        let addr_line = hex_field("accessed address: 0x".spec_bytes(), accessed_address);
        let part2 = if error_code % 2 == 1 {
            "cause: protection violation\n".spec_bytes()
        } else {
            "cause: page not present\n".spec_bytes()
        };
        let part3 = if (error_code / 2) % 2 == 1 {
            "access: write\n".spec_bytes()
        } else {
            "access: read\n".spec_bytes()
        };
        lemma_write_bytes_append(m0, part1, addr_line);
        lemma_write_bytes_append(m0, part1 + addr_line, part2);
        lemma_write_bytes_append(m0, part1 + addr_line + part2, part3);
        lemma_write_bytes_append(
            m0,
            part1 + addr_line + part2 + part3,
            context_report(*stack_frame),
        );
    }
    let diag = PageFaultDiagnostics {
        accessed_address,
        protection_violation,
        caused_by_write,
        user_mode,
    };
    (diag, HandlerOutcome::Halt)
}

/// The heartbeat mark the timer tick leaves on the screen.
pub open spec fn heartbeat_report() -> Seq<u8> {
    ".".spec_bytes()
}

/// The timer tick performs its minimal heartbeat action and acknowledges the
/// owning controller; omitting the acknowledgement would withhold every
/// subsequent timer interrupt.
pub fn timer_interrupt_handler(w: &mut Writer, pics: &mut ChainedPics) -> (o: HandlerOutcome)
    requires
        old(w).wf(),
        old(pics).initialized,
    ensures
        o is Resume,
        final(w).wf(),
        final(w)@ == write_bytes_spec(old(w)@, heartbeat_report()),
        final(pics).initialized,
        final(pics).acks@ == old(pics).acks@ + eoi_acks(*old(pics), 32),
{
    w.write_string(".");
    proof {
        assert(w@ =~~= write_bytes_spec(old(w)@, heartbeat_report()));
    }
    pics.notify_end_of_interrupt(InterruptIndex::Timer.as_u8());
    HandlerOutcome::Resume
}

#[verifier::external_type_specification]
#[verifier::external_body]
pub struct ExKeyEvent(pc_keyboard::KeyEvent);

/// The stateful scancode decoder behind the keyboard handler. It holds the
/// outside decoder type, whose generic bounds the verifier cannot declare,
/// so the whole holder is opaque to it.
#[verifier::external_body]
pub struct KeyboardState {
    inner: pc_keyboard::PS2Keyboard<pc_keyboard::layouts::Us104Key, pc_keyboard::ScancodeSet1>,
}

impl KeyboardState {
    /// Relies on pc_keyboard::PS2Keyboard::new: a fresh decoder for scancode
    /// set 1 with the US 104-key layout, control keys passed through
    /// unchanged.
    #[verifier::external_body]
    fn make() -> (k: KeyboardState) {
        KeyboardState {
            inner: pc_keyboard::PS2Keyboard::new(
                pc_keyboard::ScancodeSet1::new(),
                pc_keyboard::layouts::Us104Key,
                pc_keyboard::HandleControl::Ignore,
            ),
        }
    }

    /// A fresh decoder with no partial scancode sequence pending.
    pub fn new() -> (k: KeyboardState) {
        KeyboardState::make()
    }
}

/// The key event, if any, that the decoder in state `k` yields for one more
/// scancode byte: a function of the accumulated state and the byte alone.
pub uninterp spec fn kb_event_of(k: KeyboardState, b: u8) -> Option<pc_keyboard::KeyEvent>;

/// The decoder state after consuming that byte.
pub uninterp spec fn kb_advance(k: KeyboardState, b: u8) -> KeyboardState;

/// The display bytes, if any, that the decoder in state `k` assigns to a key
/// event: the character for a Unicode key, the debug form for a raw key.
pub uninterp spec fn kb_shown_of(k: KeyboardState, e: pc_keyboard::KeyEvent) -> Option<Seq<u8>>;

/// The decoder state after processing that key event.
pub uninterp spec fn kb_process_advance(k: KeyboardState, e: pc_keyboard::KeyEvent) -> KeyboardState;

/// Relies on pc_keyboard::PS2Keyboard::add_byte: consumes one scancode byte,
/// accumulating multi-byte sequences, and yields at most one key event (a
/// protocol error yields none). Event and new state are functions of the
/// accumulated state and the byte, named `kb_event_of` and `kb_advance`.
#[verifier::external_body]
fn keyboard_add_byte(kb: &mut KeyboardState, scancode: u8) -> (r: Option<pc_keyboard::KeyEvent>)
    ensures
        r == kb_event_of(*old(kb), scancode),
        *final(kb) == kb_advance(*old(kb), scancode),
{
    match kb.inner.add_byte(scancode) {
        Ok(Some(event)) => Some(event),
        Ok(None) => None,
        Err(_) => None,
    }
}

/// Relies on pc_keyboard::PS2Keyboard::process_keyevent: turns a key event
/// into at most one decoded key, returned here as the bytes to display.
/// Both the shown bytes and the new state are functions of the decoder state
/// and the event, named `kb_shown_of` and `kb_process_advance`.
#[verifier::external_body]
fn keyboard_process_keyevent(kb: &mut KeyboardState, event: pc_keyboard::KeyEvent) -> (r: Option<
    Vec<u8>,
>)
    ensures
        r is Some <==> kb_shown_of(*old(kb), event) is Some,
        r matches Some(v) ==> v@ == kb_shown_of(*old(kb), event)->0,
        *final(kb) == kb_process_advance(*old(kb), event),
{
    match kb.inner.process_keyevent(event) {
        Some(pc_keyboard::DecodedKey::Unicode(character)) => Some(
            character.to_string().into_bytes(),
        ),
        Some(pc_keyboard::DecodedKey::RawKey(key)) => Some(format!("{:?}", key).into_bytes()),
        None => None,
    }
}

/// Consumes exactly the one scancode byte read from the data port, feeds it
/// once to the external decoder (advancing its state by this one byte),
/// shows exactly the decoded key's bytes if one came out and nothing
/// otherwise, and sends the controller acknowledgement unconditionally,
/// whatever the decode yielded.
pub fn keyboard_interrupt_handler(
    kb: &mut KeyboardState,
    scancode: u8,
    w: &mut Writer,
    pics: &mut ChainedPics,
) -> (o: HandlerOutcome)
    requires
        old(w).wf(),
        old(pics).initialized,
    ensures
        o is Resume,
        final(w).wf(),
        ({
            let ev = kb_event_of(*old(kb), scancode);
            let k1 = kb_advance(*old(kb), scancode);
            match ev {
                Some(e) => {
                    &&& *final(kb) == kb_process_advance(k1, e)
                    &&& match kb_shown_of(k1, e) {
                        Some(bs) => final(w)@ == write_bytes_spec(old(w)@, bs),
                        None => final(w)@ == old(w)@,
                    }
                },
                None => *final(kb) == k1 && final(w)@ == old(w)@,
            }
        }),
        final(pics).initialized,
        final(pics).acks@ == old(pics).acks@ + eoi_acks(*old(pics), 33),
{
    match keyboard_add_byte(kb, scancode) {
        Some(event) => {
            match keyboard_process_keyevent(kb, event) {
                Some(shown) => {
                    w.write_byte_slice(shown.as_slice());
                },
                None => {},
            }
        },
        None => {},
    }
    pics.notify_end_of_interrupt(InterruptIndex::Keyboard.as_u8());
    HandlerOutcome::Resume
}

} // verus!
