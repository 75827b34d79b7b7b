use rust_can::bench::{bench, Throughput};

#[test]
fn bench_invokes_closure_for_each_iteration() {
    let mut calls = 0_u64;
    let result = bench("count", 3, || {
        calls += 1;
    });

    assert_eq!(calls, 3);
    assert_eq!(result.name, "count");
    assert_eq!(result.iterations, 3);
}

#[test]
fn throughput_keeps_items_and_time() {
    let throughput = Throughput::new(100, 1_000_000_000);
    assert_eq!(throughput.items, 100);
    assert_eq!(throughput.elapsed_ns, 1_000_000_000);
}

#[test]
fn bench_with_no_iterations_never_calls() {
    let mut calls = 0_u64;
    let result = bench("none", 0, || calls += 1);
    assert_eq!(calls, 0);
    assert_eq!(result.iterations, 0);
}
