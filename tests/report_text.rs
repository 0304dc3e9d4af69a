use crude_profiler::{clear, push, report, Profile};

const SEC: u64 = 1_000_000_000;

#[test]
fn single_task_line() {
    let mut p = Profile::new(0);
    let g = push(&mut p, "A", 0);
    g.release(&mut p, 1_500_000_000);
    let rep = report(&mut p, 1_500_000_000);
    assert_eq!(rep, "100.0% A: 1.50 s (1, 1.50 s)\n");
}

#[test]
fn nested_lines_in_microseconds() {
    let mut p = Profile::new(0);
    let a = push(&mut p, "A", 0);
    let b = push(&mut p, "B", 1000);
    b.release(&mut p, 3000);
    a.release(&mut p, 4000);
    let rep = report(&mut p, 4000);
    assert_eq!(rep, "100.0% A: 4.00 us (2, 2.00 us)\n50.0% A:B: 2.00 us (1, 2.00 us)\n");
}

#[test]
fn long_task_in_scientific_seconds() {
    let mut p = Profile::new(0);
    let g = push(&mut p, "X", 0);
    g.release(&mut p, 150 * SEC);
    let rep = report(&mut p, 150 * SEC);
    assert_eq!(rep, "100.0% X: 1.50e2 s (1, 1.50e2 s)\n");
}

#[test]
fn scientific_rounding_carries_to_next_power() {
    let mut p = Profile::new(0);
    let g = push(&mut p, "X", 0);
    g.release(&mut p, 999_600_000_000);
    let rep = report(&mut p, 999_600_000_000);
    assert_eq!(rep, "100.0% X: 1.00e3 s (1, 1.00e3 s)\n");
}

#[test]
fn mean_keeps_fractional_nanoseconds() {
    let mut p = Profile::new(0);
    let g = push(&mut p, "A", 0);
    g.release(&mut p, 1);
    let g = push(&mut p, "A", 1);
    g.release(&mut p, 3);
    let rep = report(&mut p, 3);
    assert_eq!(rep, "100.0% A: 3.00 ns (2, 1.50 ns)\n");
}

#[test]
fn milliseconds() {
    let mut p = Profile::new(0);
    let g = push(&mut p, "A", 0);
    g.release(&mut p, 2_500_000);
    let rep = report(&mut p, 2_500_000);
    assert_eq!(rep, "100.0% A: 2.50 ms (1, 2.50 ms)\n");
}

#[test]
fn idle_time_counts_toward_total_only() {
    let mut p = Profile::new(0);
    let g = push(&mut p, "A", 1);
    g.release(&mut p, 4);
    let rep = report(&mut p, 4);
    assert_eq!(rep, "75.0% A: 3.00 ns (1, 3.00 ns)\n");
}

#[test]
fn zero_total_reports_zero_percent() {
    let mut p = Profile::new(0);
    let g = push(&mut p, "A", 0);
    g.release(&mut p, 0);
    let rep = report(&mut p, 0);
    assert_eq!(rep, " 0.0% A: 0.00 ns (1, 0.00 ns)\n");
}

#[test]
fn backward_clock_drops_interval() {
    let mut p = Profile::new(100);
    let g = push(&mut p, "A", 100);
    g.release(&mut p, 50);
    let rep = report(&mut p, 150);
    assert_eq!(rep, " 0.0% A: 0.00 ns (1, 0.00 ns)\n");
}

#[test]
fn report_after_clear_is_empty() {
    let mut p = Profile::new(0);
    let g = push(&mut p, "A", 0);
    g.release(&mut p, 5);
    clear(&mut p, 10);
    assert_eq!(report(&mut p, 20), "");
    assert_eq!(p.depth(), 0);
    assert_eq!(p.event_count(), 0);
}

#[test]
fn clear_twice_same_as_once() {
    let mut once = Profile::new(0);
    let g = push(&mut once, "A", 0);
    g.release(&mut once, 5);
    clear(&mut once, 10);
    let mut twice = Profile::new(0);
    let g = push(&mut twice, "A", 0);
    g.release(&mut twice, 5);
    clear(&mut twice, 10);
    clear(&mut twice, 10);
    assert_eq!(report(&mut once, 20), report(&mut twice, 20));
    assert_eq!(once.depth(), twice.depth());
    assert_eq!(once.event_count(), twice.event_count());
}

#[test]
fn transition_keeps_outer_prefix() {
    let mut p = Profile::new(0);
    let a = push(&mut p, "A", 0);
    let x = push(&mut p, "X", 10);
    x.replace(&mut p, "Y", 20);
    x.release(&mut p, 30);
    a.release(&mut p, 40);
    let rep = report(&mut p, 40);
    assert!(rep.contains("A:Y:"));
    assert!(rep.contains("A:X:"));
    assert!(!rep.contains("A:X:Y"));
}

#[test]
fn full_breakdown_with_ways() {
    let mut p = Profile::new(0);
    let a = push(&mut p, "first", 0);
    let b = push(&mut p, "hello", 2 * SEC);
    b.replace(&mut p, "world", 5 * SEC);
    b.release(&mut p, 6 * SEC);
    a.release(&mut p, 6 * SEC);
    let a = push(&mut p, "second", 6 * SEC);
    let b = push(&mut p, "greet", 7 * SEC);
    b.replace(&mut p, "world", 11 * SEC);
    b.release(&mut p, 14 * SEC);
    a.release(&mut p, 14 * SEC);
    let rep = report(&mut p, 14 * SEC);
    let expected = "57.1% second: 8.00 s (3, 2.67 s)\n\
                    42.9% first: 6.00 s (3, 2.00 s)\n\
                    28.6% second:greet: 4.00 s (1, 4.00 s)\n\
                    28.6% world 4.00 s (2, 2.00 s)\n      \
                    21.4% second:world: 3.00 s (1, 3.00 s)\n      \
                    \x207.1% first:world: 1.00 s (1, 1.00 s)\n\
                    \n\
                    21.4% first:hello: 3.00 s (1, 3.00 s)\n";
    assert_eq!(rep, expected);
}

#[test]
fn cumulative_time_spans_prefixes() {
    let mut p = Profile::new(0);
    let a = push(&mut p, "first", 0);
    let b = push(&mut p, "hello", 2);
    b.replace(&mut p, "world", 5);
    b.release(&mut p, 6);
    a.release(&mut p, 6);
    let a = push(&mut p, "other", 6);
    let b = push(&mut p, "world", 6);
    b.release(&mut p, 9);
    a.release(&mut p, 9);
    let rep = report(&mut p, 9);
    assert!(rep.contains("first: 6.00 ns"));
    assert!(rep.contains("world 4.00 ns (2, 2.00 ns)"));
}

#[test]
fn line_order_independent_of_call_order() {
    let mut p = Profile::new(0);
    let x = push(&mut p, "x", 0);
    let y = push(&mut p, "y", 0);
    y.release(&mut p, 5);
    x.release(&mut p, 5);
    let z = push(&mut p, "z", 5);
    let y = push(&mut p, "y", 5);
    y.release(&mut p, 7);
    z.release(&mut p, 7);
    let first = report(&mut p, 7);

    let mut q = Profile::new(0);
    let z = push(&mut q, "z", 0);
    let y = push(&mut q, "y", 0);
    y.release(&mut q, 2);
    z.release(&mut q, 2);
    let x = push(&mut q, "x", 2);
    let y = push(&mut q, "y", 2);
    y.release(&mut q, 7);
    x.release(&mut q, 7);
    let second = report(&mut q, 7);

    assert_eq!(first, second);
    let at_x = first.find("x:y:").unwrap();
    let at_z = first.find("z:y:").unwrap();
    assert!(at_x < at_z);
}

#[test]
fn guard_levels_follow_nesting() {
    let mut p = Profile::new(0);
    let a = push(&mut p, "A", 0);
    let b = push(&mut p, "B", 1);
    assert_eq!(a.level(), 1);
    assert_eq!(b.level(), 2);
    assert_eq!(p.depth(), 2);
    b.replace(&mut p, "C", 2);
    assert_eq!(p.depth(), 2);
    assert_eq!(p.event_count(), 3);
    b.release(&mut p, 3);
    a.release(&mut p, 4);
    assert_eq!(p.depth(), 0);
}
