use rust_can::prof::{Profiler, Scope};

fn enabled_profiler() -> Profiler {
    let mut p = Profiler::new();
    p.enable();
    p
}

#[test]
fn no_op_when_disabled() {
    let mut p = enabled_profiler();
    p.disable();
    {
        let a = Scope::new(&mut p, "a");
        let b = Scope::new(&mut p, "b");
        b.end(&mut p);
        a.end(&mut p);
    }
    let snap = p.snapshot();
    assert!(snap.is_empty(), "snapshot not empty: {snap:?}");
}

#[test]
fn records_top_level_scope() {
    let mut p = enabled_profiler();
    let s = Scope::new(&mut p, "a");
    s.end(&mut p);
    let snap = p.snapshot();
    assert!(snap.contains("a "), "snapshot: {snap:?}");
}

#[test]
fn records_nested_call_stacks() {
    let mut p = enabled_profiler();
    let outer = Scope::new(&mut p, "outer");
    let inner = Scope::new(&mut p, "inner");
    inner.end(&mut p);
    outer.end(&mut p);
    let snap = p.snapshot();
    assert!(snap.contains("outer;inner"), "snapshot: {snap:?}");
}

#[test]
fn aggregates_repeated_calls() {
    let mut p = enabled_profiler();
    for _ in 0..3 {
        let s = Scope::new(&mut p, "loop");
        s.end(&mut p);
    }
    let snap = p.snapshot();
    let line = snap
        .lines()
        .find(|line| line.starts_with("loop "))
        .expect("loop entry must be present");
    let weight: u64 = line
        .split_whitespace()
        .nth(1)
        .and_then(|s| s.parse().ok())
        .expect("weight is u64");
    assert!(weight > 0, "expected non-zero weight, got {weight}");
}

#[test]
fn dump_and_reset_clears_accumulator() {
    let mut p = enabled_profiler();
    {
        let s = Scope::new(&mut p, "phase-a");
        s.end(&mut p);
    }
    let first = p.snapshot();
    assert!(first.contains("phase-a"));
    let mut sink = String::new();
    p.dump_and_reset(&mut sink);
    assert!(!sink.is_empty());
    let second = p.snapshot();
    assert!(second.is_empty());
}

#[test]
fn dump_folded_writes_to_writer() {
    let mut p = enabled_profiler();
    {
        let s = Scope::new(&mut p, "sink-target");
        s.end(&mut p);
    }
    let mut text = String::new();
    p.dump_folded(&mut text);
    assert!(text.contains("sink-target"));
}

#[test]
fn drop_after_reset_still_records() {
    let mut p = enabled_profiler();
    let s = Scope::new(&mut p, "post-reset");
    p.dump_and_reset(&mut String::new());
    s.end(&mut p);
    let snap = p.snapshot();
    assert!(snap.contains("post-reset"));
}

#[test]
fn is_enabled_reflects_state() {
    let mut p = enabled_profiler();
    assert!(p.is_enabled());
    p.disable();
    assert!(!p.is_enabled());
}

#[test]
fn writer_interface_compiles() {
    let _ = std::io::Cursor::new(Vec::<u8>::new());
}

#[test]
fn recorded_times_add_up_per_stack_and_dump_heaviest_first() {
    let mut p = enabled_profiler();
    let a = Scope::new(&mut p, "a");
    p.record_scope(a, 5);
    let a = Scope::new(&mut p, "a");
    p.record_scope(a, 7);
    let outer = Scope::new(&mut p, "outer");
    let inner = Scope::new(&mut p, "inner");
    p.record_scope(inner, 30);
    p.record_scope(outer, 40);
    assert_eq!(p.snapshot(), "outer 40\nouter;inner 30\na 12\n");
}

#[test]
fn scope_out_of_order_is_dropped_and_stack_kept() {
    let mut p = enabled_profiler();
    let outer = Scope::new(&mut p, "outer");
    let inner = Scope::new(&mut p, "inner");
    p.record_scope(outer, 10);
    assert_eq!(p.snapshot(), "");
    p.record_scope(inner, 3);
    assert_eq!(p.snapshot(), "outer;inner 3\n");
}

#[test]
fn ties_on_time_order_by_sample_count() {
    let mut p = enabled_profiler();
    let x = Scope::new(&mut p, "x");
    p.record_scope(x, 10);
    let y = Scope::new(&mut p, "y");
    p.record_scope(y, 4);
    let y = Scope::new(&mut p, "y");
    p.record_scope(y, 6);
    assert_eq!(p.snapshot(), "y 10\nx 10\n");
}

#[test]
fn reset_totals_forgets_totals_and_keeps_the_stack() {
    let mut p = enabled_profiler();
    let outer = Scope::new(&mut p, "outer");
    let inner = Scope::new(&mut p, "inner");
    inner.end(&mut p);
    assert!(!p.snapshot().is_empty());
    p.reset_totals();
    assert_eq!(p.snapshot(), "");
    assert!(p.is_enabled());
    outer.end(&mut p);
    assert!(p.snapshot().starts_with("outer "));
}
