use rust_os::interrupts::{
    breaking_handler, double_fault_handler, init_idt, keyboard_interrupt_handler,
    page_fault_handler, timer_interrupt_handler, ChainedPics, ControllerId, HandlerKind,
    HandlerOutcome, InterruptIndex, InterruptStackFrame, KeyboardState, DOUBLE_FAULT_IST_INDEX,
    PIC_1_OFFSET, PIC_2_OFFSET,
};
use rust_os::vga_buffer::{ColorCode, Colors, Writer};
use rust_os::QemuExitCode;

fn writer() -> Writer {
    Writer::new(ColorCode::new(Colors::Yellow, Colors::Black))
}

fn frame() -> InterruptStackFrame {
    InterruptStackFrame {
        instruction_pointer: 0x201008,
        code_segment: 8,
        cpu_flags: 0x202,
        stack_pointer: 0x57ac001ff00,
        stack_segment: 0,
    }
}

fn bottom_row_text(w: &Writer, len: usize) -> String {
    let mut s = String::new();
    for col in 0..len {
        s.push(w.char_at(24, col).ascii_character as char);
    }
    s
}

fn pics() -> ChainedPics {
    let mut p = ChainedPics::new(PIC_1_OFFSET, PIC_2_OFFSET);
    p.initialize();
    p
}

#[test]
fn table_binds_each_vector_to_its_handler() {
    let t = init_idt();
    let bp = t.get(3).expect("vector 3 bound");
    assert_eq!(bp.handler, HandlerKind::Breakpoint);
    assert_eq!(bp.stack_index, None);
    let df = t.get(8).expect("vector 8 bound");
    assert_eq!(df.handler, HandlerKind::DoubleFault);
    assert_eq!(df.stack_index, Some(DOUBLE_FAULT_IST_INDEX));
    let pf = t.get(14).expect("vector 14 bound");
    assert_eq!(pf.handler, HandlerKind::PageFault);
    let timer = t.get(InterruptIndex::Timer.as_u8()).expect("timer bound");
    assert_eq!(timer.handler, HandlerKind::Timer);
    let kb = t
        .get(InterruptIndex::Keyboard.as_u8())
        .expect("keyboard bound");
    assert_eq!(kb.handler, HandlerKind::Keyboard);
    // No cross-wiring: the five configured vectors have five distinct
    // handlers.
    let handlers = [
        bp.handler,
        df.handler,
        pf.handler,
        timer.handler,
        kb.handler,
    ];
    for i in 0..handlers.len() {
        for j in 0..handlers.len() {
            if i != j {
                assert_ne!(handlers[i], handlers[j]);
            }
        }
    }
}

#[test]
fn unconfigured_vectors_stay_unbound() {
    let t = init_idt();
    for v in [0u8, 1, 2, 4, 7, 9, 13, 15, 31, 34, 100, 255] {
        assert!(t.get(v).is_none(), "vector {} unexpectedly bound", v);
    }
}

#[test]
fn hardware_vector_values() {
    assert_eq!(InterruptIndex::Timer.as_u8(), 32);
    assert_eq!(InterruptIndex::Keyboard.as_u8(), 33);
    assert_eq!(InterruptIndex::Timer.as_usize(), 32);
    assert_eq!(InterruptIndex::Keyboard.as_usize(), 33);
    assert_eq!(PIC_2_OFFSET, PIC_1_OFFSET + 8);
}

fn row_text(w: &Writer, row: usize, len: usize) -> String {
    let mut s = String::new();
    for col in 0..len {
        s.push(w.char_at(row, col).ascii_character as char);
    }
    s
}

#[test]
fn breakpoint_resumes_with_uncorrupted_state() {
    let mut w = writer();
    let ctx = frame();
    let before = ctx;
    let outcome = breaking_handler(&mut w, &ctx);
    assert_eq!(outcome, HandlerOutcome::Resume);
    // The saved context is untouched and execution continues normally.
    assert_eq!(ctx, before);
    let x: u64 = 21 + 21;
    assert_eq!(x, 42);
    assert_eq!(bottom_row_text(&w, 0).len(), 0);
    // The report holds the header and the captured context, one line each
    // (six newlines scrolled them up from the bottom line).
    assert_eq!(row_text(&w, 18, 21), "EXCEPTION: BREAKPOINT");
    assert_eq!(row_text(&w, 19, 23), "rip: 0x0000000000201008");
    assert_eq!(row_text(&w, 22, 23), "rsp: 0x0000057ac001ff00");
}

#[test]
fn double_fault_never_returns_to_caller() {
    let mut w = writer();
    let outcome = double_fault_handler(&mut w, &frame(), 0);
    assert_eq!(outcome, HandlerOutcome::Halt);
    // The report carries the error code and the captured context (seven
    // lines, scrolled up from the bottom line).
    assert_eq!(row_text(&w, 17, 23), "EXCEPTION: DOUBLE FAULT");
    assert_eq!(row_text(&w, 18, 30), "error code: 0x0000000000000000");
    assert_eq!(row_text(&w, 19, 23), "rip: 0x0000000000201008");
}

#[test]
fn page_fault_decodes_error_code_and_halts() {
    let mut w = writer();
    let (diag, outcome) = page_fault_handler(&mut w, &frame(), 0xdeadbeef, 0b011);
    assert_eq!(outcome, HandlerOutcome::Halt);
    assert_eq!(diag.accessed_address, 0xdeadbeef);
    assert!(diag.protection_violation);
    assert!(diag.caused_by_write);
    assert!(!diag.user_mode);
    // The report carries the faulting address, the decoded bits and the
    // captured context (nine lines, scrolled up from the bottom line).
    assert_eq!(row_text(&w, 15, 21), "EXCEPTION: PAGE FAULT");
    assert_eq!(row_text(&w, 16, 36), "accessed address: 0x00000000deadbeef");
    assert_eq!(row_text(&w, 17, 27), "cause: protection violation");
    assert_eq!(row_text(&w, 18, 13), "access: write");
    assert_eq!(row_text(&w, 19, 23), "rip: 0x0000000000201008");

    let (diag2, _) = page_fault_handler(&mut w, &frame(), 0x1000, 0b100);
    assert!(!diag2.protection_violation);
    assert!(!diag2.caused_by_write);
    assert!(diag2.user_mode);
    assert_eq!(row_text(&w, 16, 36), "accessed address: 0x0000000000001000");
    assert_eq!(row_text(&w, 17, 23), "cause: page not present");
    assert_eq!(row_text(&w, 18, 12), "access: read");
}

#[test]
fn secondary_interrupt_acknowledges_both_controllers_in_order() {
    let mut p = pics();
    // Vector 44 originates on the secondary controller.
    p.notify_end_of_interrupt(44);
    assert_eq!(
        p.acks,
        vec![ControllerId::Secondary, ControllerId::Primary]
    );
    // Exactly one pair per occurrence.
    p.notify_end_of_interrupt(44);
    assert_eq!(
        p.acks,
        vec![
            ControllerId::Secondary,
            ControllerId::Primary,
            ControllerId::Secondary,
            ControllerId::Primary,
        ]
    );
}

#[test]
fn primary_interrupt_acknowledges_primary_only() {
    let mut p = pics();
    p.notify_end_of_interrupt(32);
    assert_eq!(p.acks, vec![ControllerId::Primary]);
}

#[test]
fn unowned_vector_gets_no_acknowledgement() {
    let mut p = pics();
    p.notify_end_of_interrupt(200);
    p.notify_end_of_interrupt(3);
    assert!(p.acks.is_empty());
    assert!(!p.handles_interrupt(200));
    assert!(p.handles_interrupt(35));
    assert!(p.handles_interrupt(44));
}

#[test]
fn timer_tick_writes_heartbeat_and_acknowledges() {
    let mut w = writer();
    let mut p = pics();
    let outcome = timer_interrupt_handler(&mut w, &mut p);
    assert_eq!(outcome, HandlerOutcome::Resume);
    assert_eq!(p.acks, vec![ControllerId::Primary]);
    assert_eq!(w.char_at(24, 0).ascii_character, b'.');
    assert_eq!(w.column(), 1);
}

#[test]
fn keyboard_scancode_is_decoded_and_shown() {
    let mut kb = KeyboardState::new();
    let mut w = writer();
    let mut p = pics();
    // Scancode 0x1E: the make code of the 'a' key in scancode set 1.
    let outcome = keyboard_interrupt_handler(&mut kb, 0x1e, &mut w, &mut p);
    assert_eq!(outcome, HandlerOutcome::Resume);
    assert_eq!(w.char_at(24, 0).ascii_character, b'a');
    assert_eq!(p.acks, vec![ControllerId::Primary]);
}

#[test]
fn keyboard_acknowledges_even_without_decoded_key() {
    let mut kb = KeyboardState::new();
    let mut w = writer();
    let mut p = pics();
    // 0xE0 is the first byte of a multi-byte sequence: no key event yet.
    let outcome = keyboard_interrupt_handler(&mut kb, 0xe0, &mut w, &mut p);
    assert_eq!(outcome, HandlerOutcome::Resume);
    assert_eq!(w.column(), 0);
    // The acknowledgement is sent unconditionally.
    assert_eq!(p.acks, vec![ControllerId::Primary]);
}

#[test]
fn exit_codes_match_the_supervisor_protocol() {
    assert_eq!(QemuExitCode::Success.as_u32(), 0x10);
    assert_eq!(QemuExitCode::Failed.as_u32(), 0x11);
    assert_ne!(
        QemuExitCode::Success.as_u32(),
        QemuExitCode::Failed.as_u32()
    );
}
