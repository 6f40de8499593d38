use os::context::TrapFrame;
use os::interrupt::{rust_trap, TrapAction};
use os::timer::{clock_set_next_event, TIMEBASE};

const TIMER_BITS: usize = (1usize << (usize::BITS - 1)) | 5;

fn frame(scause: usize, sepc: usize) -> TrapFrame {
    TrapFrame { x: [7; 32], sstatus: 0x120, sepc, stval: 0x44, scause }
}

#[test]
fn breakpoint_steps_over_ebreak() {
    let mut tf = frame(3, 0x8020_0040);
    let mut ticks = 5;
    let action = rust_trap(&mut tf, &mut ticks);
    assert_eq!(action, TrapAction::Breakpoint { addr: 0x8020_0040 });
    assert_eq!(tf.sepc, 0x8020_0042);
    assert_eq!(tf.x, [7; 32]);
    assert_eq!(tf.scause, 3);
    assert_eq!(ticks, 5);
}

#[test]
fn timer_counts_ticks() {
    let mut tf = frame(TIMER_BITS, 0x100);
    let mut ticks = 98;
    assert_eq!(rust_trap(&mut tf, &mut ticks), TrapAction::Timer { report: false });
    assert_eq!(ticks, 99);
    assert_eq!(rust_trap(&mut tf, &mut ticks), TrapAction::Timer { report: true });
    assert_eq!(ticks, 0);
    assert_eq!(tf.sepc, 0x100);
}

#[test]
fn hundred_ticks_reported_every_hundredth_interrupt() {
    let mut tf = frame(TIMER_BITS, 0);
    let mut ticks = 0;
    let mut reports = Vec::new();
    for k in 1..=250usize {
        if rust_trap(&mut tf, &mut ticks) == (TrapAction::Timer { report: true }) {
            reports.push(k);
        }
        assert!(ticks < 100);
    }
    assert_eq!(reports, vec![100, 200]);
    assert_eq!(ticks, 50);
}

#[test]
fn other_traps_are_undefined() {
    // an illegal instruction exception, a supervisor software interrupt,
    // and the timer's number as an exception
    for bits in [2usize, (1usize << (usize::BITS - 1)) | 1, 5] {
        let mut tf = frame(bits, 0x200);
        let mut ticks = 3;
        assert_eq!(rust_trap(&mut tf, &mut ticks), TrapAction::Undefined { bits });
        assert_eq!(tf.sepc, 0x200);
        assert_eq!(ticks, 3);
    }
}

#[test]
fn next_timer_event_is_one_timebase_later() {
    assert_eq!(TIMEBASE, 100000);
    assert_eq!(clock_set_next_event(5), 100005);
    assert_eq!(clock_set_next_event(0), TIMEBASE);
}
