use reactive_core::runtime::{ReactiveError, Runtime};

/// Runs computation `c` with `body`, recording it in `log`.
fn run(rt: &mut Runtime, c: usize, log: &mut Vec<usize>, body: &dyn Fn(&mut Runtime, usize)) {
    log.push(c);
    rt.begin_run(c).unwrap();
    body(rt, c);
    assert_eq!(rt.end_run(), Ok(c));
}

/// Runs every pending computation until nothing is scheduled.
fn flush(rt: &mut Runtime, log: &mut Vec<usize>, body: &dyn Fn(&mut Runtime, usize)) {
    let mut guard = 0;
    while let Some(c) = rt.next_pending() {
        run(rt, c, log, body);
        guard += 1;
        assert!(guard < 10_000);
    }
}

fn count(log: &[usize], c: usize) -> usize {
    log.iter().filter(|&&x| x == c).count()
}

#[test]
fn changed_write_reruns_each_direct_dependent_once() {
    let mut rt = Runtime::new();
    let a = rt.create(1);
    let b = rt.create(2);
    let c1 = rt.create_computation();
    let c2 = rt.create_computation();
    let c3 = rt.create_computation();
    let body = move |rt: &mut Runtime, c: usize| {
        if c == c1 {
            rt.read(a).unwrap();
        } else if c == c2 {
            rt.read(a).unwrap();
            rt.read(a).unwrap();
            rt.read(b).unwrap();
        } else if c == c3 {
            rt.read(b).unwrap();
        }
    };
    let mut log = Vec::new();
    for c in [c1, c2, c3] {
        run(&mut rt, c, &mut log, &body);
    }
    log.clear();
    rt.write(a, 5).unwrap();
    assert!(rt.is_pending(c1) && rt.is_pending(c2) && !rt.is_pending(c3));
    flush(&mut rt, &mut log, &body);
    assert_eq!(log, vec![c1, c2]);
    log.clear();
    rt.write(a, 6).unwrap();
    rt.write(b, 7).unwrap();
    flush(&mut rt, &mut log, &body);
    assert_eq!(count(&log, c1), 1);
    assert_eq!(count(&log, c2), 1);
    assert_eq!(count(&log, c3), 1);
}

#[test]
fn equal_write_triggers_nothing() {
    let mut rt = Runtime::new();
    let a = rt.create(3);
    let c = rt.create_computation();
    let body = move |rt: &mut Runtime, _c: usize| {
        rt.read(a).unwrap();
    };
    let mut log = Vec::new();
    run(&mut rt, c, &mut log, &body);
    log.clear();
    assert_eq!(rt.write(a, 3), Ok(()));
    assert!(!rt.is_pending(c));
    flush(&mut rt, &mut log, &body);
    assert!(log.is_empty());
    assert_eq!(rt.peek(a), Some(3));
}

#[test]
fn batch_of_two_writes_runs_dependent_once_with_both_values() {
    let mut rt = Runtime::new();
    let a = rt.create(1);
    let b = rt.create(10);
    let sum = rt.create_memo(0);
    let body = move |rt: &mut Runtime, c: usize| {
        if c == sum.computation {
            let x = rt.read(a).unwrap();
            let y = rt.read(b).unwrap();
            rt.write(sum.output, x + y).unwrap();
        }
    };
    let mut log = Vec::new();
    run(&mut rt, sum.computation, &mut log, &body);
    assert_eq!(rt.peek(sum.output), Some(11));
    log.clear();
    rt.batch_begin();
    rt.write(a, 2).unwrap();
    rt.write(b, 20).unwrap();
    assert_eq!(rt.next_pending(), None);
    assert_eq!(rt.batch_end(), Ok(()));
    flush(&mut rt, &mut log, &body);
    assert_eq!(log, vec![sum.computation]);
    assert_eq!(rt.peek(sum.output), Some(22));
}

#[test]
fn disposed_computation_is_never_invoked() {
    let mut rt = Runtime::new();
    let a = rt.create(0);
    let keep = rt.create_computation();
    let gone = rt.create_computation();
    let body = move |rt: &mut Runtime, _c: usize| {
        rt.read(a).unwrap();
    };
    let mut log = Vec::new();
    run(&mut rt, keep, &mut log, &body);
    run(&mut rt, gone, &mut log, &body);
    assert_eq!(rt.dispose_computation(gone), Ok(()));
    assert!(rt.dependencies_of(gone).is_empty());
    log.clear();
    rt.write(a, 1).unwrap();
    rt.write(a, 2).unwrap();
    flush(&mut rt, &mut log, &body);
    assert_eq!(log, vec![keep]);
    assert_eq!(rt.begin_run(gone), Err(ReactiveError::UseAfterDispose));
    assert_eq!(rt.dispose_computation(gone), Err(ReactiveError::UseAfterDispose));
}

#[test]
fn disposal_mid_batch_removes_computation_from_the_pass() {
    let mut rt = Runtime::new();
    let a = rt.create(0);
    let c = rt.create_computation();
    let body = move |rt: &mut Runtime, _c: usize| {
        rt.read(a).unwrap();
    };
    let mut log = Vec::new();
    run(&mut rt, c, &mut log, &body);
    log.clear();
    rt.batch_begin();
    rt.write(a, 1).unwrap();
    assert!(rt.is_pending(c));
    rt.dispose_computation(c).unwrap();
    rt.batch_end().unwrap();
    flush(&mut rt, &mut log, &body);
    assert!(log.is_empty());
}

#[test]
fn nested_reads_go_to_innermost_computation() {
    let mut rt = Runtime::new();
    let s1 = rt.create(1);
    let s2 = rt.create(2);
    let x = rt.create_computation();
    let y = rt.create_computation();
    let mut log = Vec::new();
    // x reads s1 and, while running, runs y, which reads s2.
    log.push(x);
    rt.begin_run(x).unwrap();
    rt.read(s1).unwrap();
    log.push(y);
    rt.begin_run(y).unwrap();
    rt.read(s2).unwrap();
    assert_eq!(rt.end_run(), Ok(y));
    assert_eq!(rt.end_run(), Ok(x));
    assert_eq!(rt.dependencies_of(x), vec![s1]);
    assert_eq!(rt.dependencies_of(y), vec![s2]);
    let body = move |rt: &mut Runtime, c: usize| {
        if c == x {
            rt.read(s1).unwrap();
            rt.begin_run(y).unwrap();
            rt.read(s2).unwrap();
            rt.end_run().unwrap();
        } else if c == y {
            rt.read(s2).unwrap();
        }
    };
    log.clear();
    rt.write(s2, 20).unwrap();
    assert!(!rt.is_pending(x));
    flush(&mut rt, &mut log, &body);
    assert_eq!(log, vec![y]);
    log.clear();
    rt.write(s1, 10).unwrap();
    assert!(rt.is_pending(x) && !rt.is_pending(y));
    flush(&mut rt, &mut log, &body);
    assert_eq!(log, vec![x]);
    assert_eq!(rt.dependencies_of(y), vec![s2]);
}

#[test]
fn counter_parity_label_scenario() {
    let mut rt = Runtime::new();
    let count = rt.create(0);
    let is_odd = rt.create_memo(0);
    let label = rt.create_memo(0);
    let flag = rt.create(0);
    let sibling = rt.create_memo(0);
    let body = move |rt: &mut Runtime, c: usize| {
        if c == is_odd.computation {
            let n = rt.read(count).unwrap();
            rt.write(is_odd.output, (n % 2 == 1) as i64).unwrap();
        } else if c == label.computation {
            let odd = rt.read(is_odd.output).unwrap();
            rt.write(label.output, odd).unwrap();
        } else if c == sibling.computation {
            let odd = rt.read(is_odd.output).unwrap();
            let f = rt.read(flag).unwrap();
            rt.write(sibling.output, odd * 10 + f).unwrap();
        }
    };
    let text = |rt: &Runtime| if rt.peek(label.output) == Some(1) { "odd" } else { "even" };
    let mut log = Vec::new();
    for c in [is_odd.computation, label.computation, sibling.computation] {
        run(&mut rt, c, &mut log, &body);
    }
    assert_eq!(text(&rt), "even");
    log.clear();
    rt.write(count, 1).unwrap();
    flush(&mut rt, &mut log, &body);
    assert_eq!(text(&rt), "odd");
    assert_eq!(count_of(&log, label.computation), 1);
    log.clear();
    rt.write(count, 1).unwrap();
    flush(&mut rt, &mut log, &body);
    assert!(log.is_empty());
    rt.batch_begin();
    rt.write(count, 2).unwrap();
    rt.write(flag, 1).unwrap();
    rt.batch_end().unwrap();
    flush(&mut rt, &mut log, &body);
    assert_eq!(count_of(&log, is_odd.computation), 1);
    assert_eq!(count_of(&log, label.computation), 1);
    assert_eq!(count_of(&log, sibling.computation), 1);
    assert_eq!(text(&rt), "even");
    assert_eq!(rt.peek(sibling.output), Some(1));
}

fn count_of(log: &[usize], c: usize) -> usize {
    count(log, c)
}

#[test]
fn diamond_sees_no_stale_upstream_value() {
    let mut rt = Runtime::new();
    let a = rt.create(1);
    let b = rt.create_memo(0);
    let c = rt.create_memo(0);
    let d = rt.create_memo(0);
    let seen = std::cell::RefCell::new(Vec::new());
    let body = |rt: &mut Runtime, id: usize| {
        if id == b.computation {
            let v = rt.read(a).unwrap();
            rt.write(b.output, v * 2).unwrap();
        } else if id == c.computation {
            let v = rt.read(b.output).unwrap();
            rt.write(c.output, v + 1).unwrap();
        } else if id == d.computation {
            let x = rt.read(a).unwrap();
            let y = rt.read(c.output).unwrap();
            seen.borrow_mut().push((x, y));
            rt.write(d.output, x + y).unwrap();
        }
    };
    let mut log = Vec::new();
    for id in [b.computation, c.computation, d.computation] {
        run(&mut rt, id, &mut log, &body);
    }
    seen.borrow_mut().clear();
    log.clear();
    rt.write(a, 5).unwrap();
    flush(&mut rt, &mut log, &body);
    assert_eq!(*seen.borrow(), vec![(5, 11)]);
    assert_eq!(rt.peek(d.output), Some(16));
    assert_eq!(log, vec![b.computation, c.computation, d.computation]);
}

#[test]
fn conditional_dependencies_are_replaced_on_rerun() {
    let mut rt = Runtime::new();
    let cond = rt.create(1);
    let left = rt.create(10);
    let right = rt.create(20);
    let c = rt.create_computation();
    let body = move |rt: &mut Runtime, _c: usize| {
        if rt.read(cond).unwrap() == 1 {
            rt.read(left).unwrap();
        } else {
            rt.read(right).unwrap();
        }
    };
    let mut log = Vec::new();
    run(&mut rt, c, &mut log, &body);
    assert_eq!(rt.dependencies_of(c), vec![cond, left]);
    rt.write(cond, 0).unwrap();
    flush(&mut rt, &mut log, &body);
    assert_eq!(rt.dependencies_of(c), vec![cond, right]);
    log.clear();
    rt.write(left, 11).unwrap();
    flush(&mut rt, &mut log, &body);
    assert!(log.is_empty());
}

#[test]
fn self_retrigger_is_deferred_to_next_pass() {
    let mut rt = Runtime::new();
    let n = rt.create(0);
    let c = rt.create_computation();
    // Counts up to 3 by writing the signal it reads.
    let body = move |rt: &mut Runtime, _c: usize| {
        let v = rt.read(n).unwrap();
        if v < 3 {
            rt.write(n, v + 1).unwrap();
        }
    };
    let mut log = Vec::new();
    run(&mut rt, c, &mut log, &body);
    assert_eq!(rt.deferral_count(), 1);
    assert!(rt.is_pending(c));
    flush(&mut rt, &mut log, &body);
    assert_eq!(rt.peek(n), Some(3));
    assert_eq!(log.len(), 4);
    assert_eq!(rt.deferral_count(), 3);
}

#[test]
fn disposed_signal_is_refused_and_loses_edges() {
    let mut rt = Runtime::new();
    let a = rt.create(4);
    let b = rt.create(5);
    let c = rt.create_computation();
    let body = move |rt: &mut Runtime, _c: usize| {
        rt.read(a).unwrap();
        rt.read(b).unwrap();
    };
    let mut log = Vec::new();
    run(&mut rt, c, &mut log, &body);
    assert_eq!(rt.dispose_signal(a), Ok(()));
    assert_eq!(rt.dependencies_of(c), vec![b]);
    assert_eq!(rt.read(a), Err(ReactiveError::UseAfterDispose));
    assert_eq!(rt.write(a, 1), Err(ReactiveError::UseAfterDispose));
    assert_eq!(rt.update(a, |x| x + 1), Err(ReactiveError::UseAfterDispose));
    assert_eq!(rt.dispose_signal(a), Err(ReactiveError::UseAfterDispose));
    assert_eq!(rt.peek(a), None);
    assert_eq!(rt.read(99), Err(ReactiveError::UseAfterDispose));
}

#[test]
fn misuse_of_runs_and_batches_is_refused() {
    let mut rt = Runtime::new();
    let c = rt.create_computation();
    assert_eq!(rt.end_run(), Err(ReactiveError::NotRunning));
    assert_eq!(rt.batch_end(), Err(ReactiveError::NotBatching));
    rt.begin_run(c).unwrap();
    assert_eq!(rt.begin_run(c), Err(ReactiveError::Running));
    assert_eq!(rt.dispose_computation(c), Err(ReactiveError::Running));
    assert_eq!(rt.end_run(), Ok(c));
    assert_eq!(rt.begin_run(7), Err(ReactiveError::UseAfterDispose));
}

#[test]
fn update_applies_function_and_schedules() {
    let mut rt = Runtime::new();
    let a = rt.create(20);
    let c = rt.create_computation();
    let body = move |rt: &mut Runtime, _c: usize| {
        rt.read(a).unwrap();
    };
    let mut log = Vec::new();
    run(&mut rt, c, &mut log, &body);
    log.clear();
    assert_eq!(rt.update(a, |x| x * 2 + 1), Ok(()));
    assert_eq!(rt.peek(a), Some(41));
    assert!(rt.is_pending(c));
    flush(&mut rt, &mut log, &body);
    assert_eq!(log, vec![c]);
    rt.update(a, |x| x).unwrap();
    assert!(!rt.is_pending(c));
}

#[test]
fn nested_batches_flush_after_the_outermost() {
    let mut rt = Runtime::new();
    let a = rt.create(0);
    let c = rt.create_computation();
    let body = move |rt: &mut Runtime, _c: usize| {
        rt.read(a).unwrap();
    };
    let mut log = Vec::new();
    run(&mut rt, c, &mut log, &body);
    log.clear();
    rt.batch_begin();
    rt.batch_begin();
    assert_eq!(rt.batch_depth(), 2);
    rt.write(a, 1).unwrap();
    rt.batch_end().unwrap();
    assert_eq!(rt.next_pending(), None);
    rt.write(a, 2).unwrap();
    rt.batch_end().unwrap();
    flush(&mut rt, &mut log, &body);
    assert_eq!(log, vec![c]);
}

/// A small deterministic generator for the random-graph test.
struct Lcg(u64);

impl Lcg {
    fn next(&mut self, bound: usize) -> usize {
        self.0 = self.0.wrapping_mul(6364136223846793005).wrapping_add(1442695040888963407);
        ((self.0 >> 33) as usize) % bound
    }
}

#[test]
fn random_graphs_record_exactly_the_last_reads() {
    for seed in 0..20u64 {
        let mut g = Lcg(seed);
        let n_signals = 1 + g.next(6);
        let n_comps = 1 + g.next(6);
        let mut rt = Runtime::new();
        let signals: Vec<usize> = (0..n_signals).map(|i| rt.create(i as i64)).collect();
        let comps: Vec<usize> = (0..n_comps).map(|_| rt.create_computation()).collect();
        // Each computation reads, per run, the signals chosen by a pattern
        // that depends on the current value of its first read.
        let patterns: Vec<Vec<Vec<usize>>> = (0..n_comps)
            .map(|_| {
                (0..2)
                    .map(|_| (0..1 + g.next(4)).map(|_| g.next(n_signals)).collect())
                    .collect()
            })
            .collect();
        let last_reads = std::cell::RefCell::new(vec![Vec::<usize>::new(); n_comps]);
        let body = |rt: &mut Runtime, c: usize| {
            let pat = &patterns[c];
            let first = pat[0][0];
            let mut read = vec![first];
            let v = rt.read(signals[first]).unwrap();
            for &s in &pat[(v.rem_euclid(2)) as usize] {
                rt.read(signals[s]).unwrap();
                read.push(s);
            }
            last_reads.borrow_mut()[c] = read;
        };
        let mut log = Vec::new();
        for &c in &comps {
            run(&mut rt, c, &mut log, &body);
        }
        for _ in 0..30 {
            if g.next(3) == 0 {
                rt.batch_begin();
                for _ in 0..1 + g.next(3) {
                    let s = g.next(n_signals);
                    rt.write(signals[s], g.next(4) as i64).unwrap();
                }
                rt.batch_end().unwrap();
            } else {
                let s = g.next(n_signals);
                rt.write(signals[s], g.next(4) as i64).unwrap();
            }
            flush(&mut rt, &mut log, &body);
            for &c in &comps {
                let mut got = rt.dependencies_of(c);
                got.sort();
                let mut want = last_reads.borrow()[c].clone();
                want.sort();
                want.dedup();
                assert_eq!(got, want);
            }
        }
    }
}

#[test]
fn reader_created_before_its_memo_waits_for_it() {
    let mut rt = Runtime::new();
    let s = rt.create(1);
    let x = rt.create_computation();
    let m = rt.create_memo(0);
    let seen = std::cell::RefCell::new(Vec::new());
    let body = |rt: &mut Runtime, id: usize| {
        if id == m.computation {
            let v = rt.read(s).unwrap();
            rt.write(m.output, v * 100).unwrap();
        } else if id == x {
            let a = rt.read(s).unwrap();
            let b = rt.read(m.output).unwrap();
            seen.borrow_mut().push((a, b));
        }
    };
    let mut log = Vec::new();
    run(&mut rt, m.computation, &mut log, &body);
    run(&mut rt, x, &mut log, &body);
    seen.borrow_mut().clear();
    log.clear();
    rt.write(s, 2).unwrap();
    flush(&mut rt, &mut log, &body);
    assert_eq!(log, vec![m.computation, x]);
    assert_eq!(*seen.borrow(), vec![(2, 200)]);
}
