use wordscan::dispatch::Dispatcher;
use wordscan::dispatch::Slide;
use wordscan::pattern::Pattern;
use wordscan::stats::Stats;
use wordscan::window::Prefetch;
use wordscan::window::Window;
use wordscan::worker::Effect;
use wordscan::worker::Worker;

const WORDS: &[u8] = b"alpha\nbeta\ngamma\nbeta\n";

fn resident(length: usize) -> Window {
    Window { length, cache_size: 1 << 20, cache_point: length }
}

fn cut(data: &[u8], chunk_size: usize) -> Vec<(usize, Vec<u8>)> {
    let mut d = Dispatcher::new(resident(data.len()), chunk_size, false);
    let mut chunks = Vec::new();
    while d.more() {
        let out = d.next_chunk(data);
        chunks.push((out.chunk.offset, out.chunk.bytes));
        d.settle(None);
    }
    chunks
}

fn written(effects: Vec<Effect>, into: &mut Vec<u8>) {
    for e in effects {
        if let Effect::Flush(bytes) = e {
            into.extend_from_slice(&bytes);
        }
    }
}

fn run(text: &str, exact: bool, regex: bool, position: bool, data: &[u8], chunk_size: usize) -> Vec<u8> {
    let mut worker = Worker::new(Pattern::build(text, exact, regex).unwrap(), position);
    let mut out = Vec::new();
    for (offset, bytes) in cut(data, chunk_size) {
        written(worker.process(offset, &bytes), &mut out);
    }
    let (rest, _) = worker.finish();
    out.extend_from_slice(&rest);
    out
}

fn sorted_lines(out: &[u8]) -> Vec<Vec<u8>> {
    let mut lines: Vec<Vec<u8>> =
        out.split(|b| *b == b'\n').filter(|l| !l.is_empty()).map(|l| l.to_vec()).collect();
    lines.sort();
    lines
}

fn times(out: &[u8], line: &[u8]) -> usize {
    sorted_lines(out).iter().filter(|l| l.as_slice() == line).count()
}

fn expected(text: &[u8], position: bool, data: &[u8]) -> Vec<Vec<u8>> {
    let mut lines = Vec::new();
    let mut start = 0;
    for i in 0..=data.len() {
        if i == data.len() || data[i] == b'\n' {
            let line = &data[start..i];
            if !line.is_empty() && line.windows(text.len()).any(|w| w == text) {
                let mut rec = Vec::new();
                if position {
                    rec.extend_from_slice(format!("{}:", start).as_bytes());
                }
                rec.extend_from_slice(line);
                lines.push(rec);
            }
            start = i + 1;
        }
    }
    lines.sort();
    lines
}

#[test]
fn substring_search_finds_beta_twice() {
    let out = run("beta", false, false, false, WORDS, 393_728);
    assert_eq!(times(&out, b"beta"), 2);
    assert_eq!(out, b"beta\nbeta\n");
}

#[test]
fn exact_search_finds_beta_twice() {
    let out = run("beta", true, false, false, WORDS, 393_728);
    assert_eq!(times(&out, b"beta"), 2);
    assert_eq!(out, b"beta\nbeta\n");
}

#[test]
fn positions_are_the_offsets_of_the_lines() {
    let out = run("beta", true, false, true, WORDS, 393_728);
    assert_eq!(times(&out, b"6:beta"), 1);
    assert_eq!(times(&out, b"17:beta"), 1);
    assert_eq!(out, b"6:beta\n17:beta\n");
}

#[test]
fn exact_search_ignores_a_prefix_of_a_line() {
    let out = run("alph", true, false, false, WORDS, 393_728);
    assert!(out.is_empty());
}

#[test]
fn substring_search_finds_a_prefix_of_a_line() {
    let out = run("alph", false, false, false, WORDS, 393_728);
    assert_eq!(out, b"alpha\n");
}

#[test]
fn regex_search_finds_gamma() {
    let out = run("^g.*a$", false, true, false, WORDS, 393_728);
    assert_eq!(out, b"gamma\n");
}

#[test]
fn positions_stay_exact_across_chunks() {
    for chunk_size in 2..30 {
        let out = run("beta", true, false, true, WORDS, chunk_size);
        assert_eq!(sorted_lines(&out), vec![b"17:beta".to_vec(), b"6:beta".to_vec()]);
    }
}

#[test]
fn positions_stay_exact_after_empty_lines() {
    let data = b"\n\nbeta\n\n\n\nalphabet\n\nbeta";
    for chunk_size in 2..30 {
        let out = run("bet", false, false, true, data, chunk_size);
        assert_eq!(
            sorted_lines(&out),
            vec![b"10:alphabet".to_vec(), b"20:beta".to_vec(), b"2:beta".to_vec()]
        );
    }
}

#[test]
fn every_matching_line_is_written_whatever_the_chunk_size() {
    let data = b"one\ntwo\n\nthree two\nfour\ntwotwo\n\n\nfive\nlast two";
    for position in [false, true] {
        let want = expected(b"two", position, data);
        assert_eq!(want.len(), 4);
        for chunk_size in 2..60 {
            let out = run("two", false, false, position, data, chunk_size);
            assert_eq!(sorted_lines(&out), want);
        }
    }
}

#[test]
fn every_written_line_stands_in_the_file_at_its_offset() {
    let data = b"one\ntwo\n\nthree two\nfour\ntwotwo\n\n\nfive\nlast two";
    for chunk_size in 2..20 {
        let out = run("o", false, false, true, data, chunk_size);
        for rec in sorted_lines(&out) {
            let colon = rec.iter().position(|b| *b == b':').unwrap();
            let mut offset = 0usize;
            for d in &rec[..colon] {
                assert!(d.is_ascii_digit());
                offset = offset * 10 + (*d - b'0') as usize;
            }
            let line = &rec[colon + 1..];
            assert_eq!(&data[offset..offset + line.len()], line);
            assert!(offset == 0 || data[offset - 1] == b'\n');
            assert!(offset + line.len() == data.len() || data[offset + line.len()] == b'\n');
        }
    }
}

#[test]
fn two_runs_write_the_same_lines() {
    let data = b"one\ntwo\n\nthree two\nfour\ntwotwo\n\n\nfive\nlast two\n";
    let a = run("two", false, false, true, data, 7);
    let b = run("two", false, false, true, data, 7);
    assert_eq!(a, b);
    let c = run("two", false, false, true, data, 13);
    assert_eq!(sorted_lines(&a), sorted_lines(&c));
}

#[test]
fn the_order_of_the_chunks_does_not_change_what_is_written() {
    let data = b"one\ntwo\n\nthree two\nfour\ntwotwo\n\n\nfive\nlast two\n";
    let forward = run("two", false, false, true, data, 5);
    let mut chunks = cut(data, 5);
    chunks.reverse();
    let mut even = Worker::new(Pattern::build("two", false, false).unwrap(), true);
    let mut odd = Worker::new(Pattern::build("two", false, false).unwrap(), true);
    let mut out = Vec::new();
    for (i, (offset, bytes)) in chunks.iter().enumerate() {
        let worker = if i % 2 == 0 { &mut even } else { &mut odd };
        written(worker.process(*offset, bytes), &mut out);
    }
    out.extend_from_slice(&odd.finish().0);
    out.extend_from_slice(&even.finish().0);
    assert_eq!(sorted_lines(&out), sorted_lines(&forward));
    assert_eq!(sorted_lines(&out).len(), 4);
}

#[test]
fn a_single_match_is_written_once_in_first_mode() {
    let data = b"alpha\nbeta\ngamma\n";
    let mut d = Dispatcher::new(resident(data.len()), 6, true);
    let mut worker = Worker::new(Pattern::build("gamma", true, false).unwrap(), false);
    let mut out = Vec::new();
    while d.more() {
        let o = d.next_chunk(data);
        let mut report = None;
        for e in worker.process(o.chunk.offset, &o.chunk.bytes) {
            match e {
                Effect::Flush(bytes) => out.extend_from_slice(&bytes),
                Effect::Report(stats) => report = Some(stats),
            }
        }
        d.settle(report);
    }
    out.extend_from_slice(&worker.finish().0);
    assert_eq!(out, b"gamma\n");
}

#[test]
fn first_mode_stops_dispatching_once_a_match_is_reported() {
    let data = b"alpha\nbeta\ngamma\nbeta\n";
    let mut d = Dispatcher::new(resident(data.len()), 2, true);
    let first = d.next_chunk(data);
    assert_eq!(first.chunk.bytes, b"alpha\n");
    assert_eq!(d.settle(None), None);
    assert!(d.more());
    let second = d.next_chunk(data);
    assert_eq!(second.chunk.bytes, b"\nbeta\n");
    assert_eq!(d.settle(Some(Stats { cracked: 1, hashed: 2, waits: 0, kbs: 0 })), None);
    assert!(d.stopped);
    assert!(!d.more());
    assert_eq!(d.pos, 10);
    assert_eq!(d.count, 2);
    assert_eq!(d.stats, Stats { cracked: 1, hashed: 2, waits: 0, kbs: 0 });
}

#[test]
fn first_mode_lets_a_chunk_in_flight_finish() {
    let mut d = Dispatcher::new(resident(WORDS.len()), 393_728, true);
    let mut worker = Worker::new(Pattern::build("beta", true, false).unwrap(), false);
    let o = d.next_chunk(WORDS);
    let effects = worker.process(o.chunk.offset, &o.chunk.bytes);
    assert_eq!(effects.len(), 2);
    d.settle(None);
    assert!(!d.more());
    assert_eq!(worker.finish().0, b"beta\nbeta\n");
}

#[test]
fn first_mode_goes_on_while_nothing_is_found() {
    let data = b"alpha\nbeta\ngamma\nbeta\n";
    let mut d = Dispatcher::new(resident(data.len()), 2, true);
    d.next_chunk(data);
    d.settle(None);
    d.next_chunk(data);
    d.settle(Some(Stats { cracked: 0, hashed: 2, waits: 5, kbs: 0 }));
    assert!(!d.stopped);
    assert!(d.more());
    assert_eq!(d.count, 3);
    assert_eq!(d.stats, Stats { cracked: 0, hashed: 2, waits: 5, kbs: 0 });
}

#[test]
fn a_report_does_not_stop_a_run_that_is_not_in_first_mode() {
    let data = b"alpha\nbeta\ngamma\nbeta\n";
    let mut d = Dispatcher::new(resident(data.len()), 2, false);
    d.next_chunk(data);
    d.settle(Some(Stats { cracked: 1, hashed: 1, waits: 0, kbs: 0 }));
    assert!(!d.stopped);
    assert!(d.more());
    d.next_chunk(data);
    d.settle(Some(Stats { cracked: 1, hashed: 1, waits: 2, kbs: 0 }));
    assert_eq!(d.stats, Stats { cracked: 2, hashed: 2, waits: 2, kbs: 0 });
    assert!(d.more());
}

#[test]
fn chunks_end_on_a_newline() {
    assert_eq!(
        cut(WORDS, 8),
        vec![(0, b"alpha\nbeta\n".to_vec()), (10, b"\ngamma\nbeta\n".to_vec())]
    );
}

#[test]
fn small_chunks_hold_one_line_each() {
    assert_eq!(
        cut(WORDS, 2),
        vec![
            (0, b"alpha\n".to_vec()),
            (5, b"\nbeta\n".to_vec()),
            (10, b"\ngamma\n".to_vec()),
            (16, b"\nbeta\n".to_vec()),
        ]
    );
}

#[test]
fn a_chunk_that_ends_on_a_newline_is_not_made_longer() {
    assert_eq!(
        cut(WORDS, 6),
        vec![
            (0, b"alpha\n".to_vec()),
            (5, b"\nbeta\n".to_vec()),
            (10, b"\ngamma\n".to_vec()),
            (16, b"\nbeta\n".to_vec()),
        ]
    );
}

#[test]
fn one_chunk_holds_a_small_file() {
    assert_eq!(cut(WORDS, 393_728), vec![(0, WORDS.to_vec())]);
    assert_eq!(cut(WORDS, 22), vec![(0, WORDS.to_vec())]);
    assert_eq!(cut(WORDS, usize::MAX), vec![(0, WORDS.to_vec())]);
}

#[test]
fn the_last_chunk_may_end_without_a_newline() {
    assert_eq!(cut(b"ab\ncd", 2), vec![(0, b"ab\n".to_vec()), (2, b"\ncd".to_vec())]);
}

#[test]
fn every_chunk_ends_on_a_newline_or_at_the_end() {
    let data = b"one\ntwo\n\nthree two\nfour\ntwotwo\n\n\nfive\nlast two";
    for chunk_size in 2..60 {
        let chunks = cut(data, chunk_size);
        let mut next = 0;
        for (offset, bytes) in &chunks {
            assert_eq!(*offset, next);
            assert_eq!(&data[*offset..*offset + bytes.len()], bytes.as_slice());
            assert!(offset + bytes.len() == data.len() || *bytes.last().unwrap() == b'\n');
            assert!(bytes.len() >= chunk_size || offset + bytes.len() == data.len());
            next = offset + bytes.len() - 1;
        }
        assert_eq!(next, data.len() - 1);
    }
}

#[test]
fn nothing_is_dispatched_from_an_empty_file() {
    assert!(cut(b"", 8).is_empty());
}

#[test]
fn nothing_is_dispatched_from_a_file_of_one_byte() {
    assert!(cut(b"a", 8).is_empty());
    assert!(cut(b"\n", 8).is_empty());
}

#[test]
fn reports_are_looked_at_every_fiftieth_chunk() {
    let data = b"a\n".repeat(200);
    let mut d = Dispatcher::new(resident(data.len()), 2, false);
    let mut n = 0;
    let mut due = Vec::new();
    while d.more() {
        n += 1;
        if d.next_chunk(&data).checkin {
            due.push(n);
        }
        d.settle(None);
    }
    assert_eq!(n, 200);
    assert_eq!(due, vec![50, 100, 150, 200]);
}

#[test]
fn kilobytes_are_counted_per_chunk() {
    let mut data = vec![b'a'; 2999];
    data.push(b'\n');
    data.extend_from_slice(&vec![b'b'; 1023]);
    data.push(b'\n');
    data.extend_from_slice(b"c\n");
    let mut d = Dispatcher::new(resident(data.len()), 2048, false);
    let first = d.next_chunk(&data);
    assert_eq!(first.chunk.bytes.len(), 3000);
    assert_eq!(d.stats.kbs, 2);
    assert_eq!(d.pos, 2999);
    d.settle(None);
    let second = d.next_chunk(&data);
    assert_eq!(second.chunk.offset, 2999);
    assert_eq!(second.chunk.bytes.len(), 1027);
    assert_eq!(d.stats.kbs, 3);
    d.settle(None);
    assert!(!d.more());
}

#[test]
fn the_window_slides_when_the_cursor_is_near_a_multiple_of_its_half() {
    let data = b"abc\n".repeat(25);
    let window = Window { length: 100, cache_size: 16, cache_point: 16 };
    let mut d = Dispatcher::new(window, 4, false);
    assert_eq!(d.next_chunk(&data).chunk.bytes, b"abc\n");
    assert_eq!(d.pos, 3);
    assert_eq!(
        d.settle(None),
        Some(Slide { evict_upto: 3, prefetch: Prefetch { offset: 16, length: 8 } })
    );
    assert_eq!(d.window.cache_point, 24);
    assert_eq!(d.next_chunk(&data).chunk.bytes, b"\nabc\n");
    assert_eq!(d.pos, 7);
    assert_eq!(d.settle(None), None);
    assert_eq!(d.window.cache_point, 24);
    assert_eq!(d.next_chunk(&data).chunk.bytes, b"\nabc\n");
    assert_eq!(d.pos, 11);
    assert_eq!(
        d.settle(None),
        Some(Slide { evict_upto: 11, prefetch: Prefetch { offset: 24, length: 8 } })
    );
    assert_eq!(d.window.cache_point, 32);
}

#[test]
fn the_window_does_not_slide_once_the_whole_file_is_read_ahead() {
    let data = b"abc\n".repeat(25);
    let mut d = Dispatcher::new(Window { length: 100, cache_size: 16, cache_point: 96 }, 4, false);
    d.next_chunk(&data);
    assert_eq!(
        d.settle(None),
        Some(Slide { evict_upto: 3, prefetch: Prefetch { offset: 96, length: 8 } })
    );
    assert_eq!(d.window.cache_point, 100);
    let mut last = 100;
    while d.more() {
        d.next_chunk(&data);
        assert_eq!(d.settle(None), None);
        assert!(d.window.cache_point >= last && d.window.cache_point <= 100);
        last = d.window.cache_point;
    }
}

#[test]
fn a_stopped_dispatcher_does_not_slide() {
    let data = b"abc\n".repeat(25);
    let mut d = Dispatcher::new(Window { length: 100, cache_size: 16, cache_point: 16 }, 4, true);
    d.next_chunk(&data);
    assert_eq!(d.settle(Some(Stats { cracked: 1, hashed: 1, waits: 0, kbs: 0 })), None);
    assert_eq!(d.window.cache_point, 16);
    assert_eq!(d.count, 1);
}

#[test]
fn a_worker_reports_after_each_match() {
    let mut w = Worker::new(Pattern::build("beta", true, false).unwrap(), false);
    let effects = w.process(0, b"x\nbeta\ny\nz\nbeta\nq\n");
    assert_eq!(effects.len(), 2);
    assert!(matches!(
        effects[0],
        Effect::Report(Stats { cracked: 1, hashed: 2, waits: 0, kbs: 0 })
    ));
    assert!(matches!(
        effects[1],
        Effect::Report(Stats { cracked: 1, hashed: 3, waits: 0, kbs: 0 })
    ));
    assert_eq!(w.out, b"beta\nbeta\n");
    assert_eq!(w.stats, Stats { cracked: 0, hashed: 1, waits: 0, kbs: 0 });
}

#[test]
fn a_worker_counts_lines_across_chunks() {
    let mut w = Worker::new(Pattern::build("beta", true, false).unwrap(), false);
    assert!(w.process(0, b"x\ny\n").is_empty());
    assert!(w.process(3, b"\nz\n\n\nq").is_empty());
    assert_eq!(w.stats, Stats { cracked: 0, hashed: 4, waits: 0, kbs: 0 });
    let (rest, stats) = w.finish();
    assert!(rest.is_empty());
    assert_eq!(stats, Stats { cracked: 0, hashed: 4, waits: 0, kbs: 0 });
}

#[test]
fn a_worker_flushes_when_the_buffer_is_full() {
    let chunk = b"aaaaaaa\n".repeat(1025);
    let mut w = Worker::new(Pattern::build("aaaaaaa", true, false).unwrap(), false);
    let effects = w.process(0, &chunk);
    assert_eq!(effects.len(), 1026);
    for (i, e) in effects.iter().enumerate() {
        match e {
            Effect::Flush(bytes) => {
                assert_eq!(i, 1023);
                assert_eq!(bytes.len(), 8192);
                assert_eq!(bytes.as_slice(), &chunk[..8192]);
            }
            Effect::Report(stats) => {
                assert_ne!(i, 1023);
                assert_eq!(*stats, Stats { cracked: 1, hashed: 1, waits: 0, kbs: 0 });
            }
        }
    }
    assert_eq!(w.out, b"aaaaaaa\n");
}

#[test]
fn a_flush_holds_whole_records() {
    let chunk = b"hello\n".repeat(3000);
    let mut w = Worker::new(Pattern::build("ell", false, false).unwrap(), false);
    let effects = w.process(0, &chunk);
    let sizes: Vec<usize> = effects
        .iter()
        .filter_map(|e| match e {
            Effect::Flush(bytes) => Some(bytes.len()),
            Effect::Report(_) => None,
        })
        .collect();
    assert_eq!(sizes, vec![8196, 8196]);
    assert_eq!(w.out.len(), 18000 - 2 * 8196);
}

#[test]
fn a_worker_writes_the_offset_of_a_line_in_the_file() {
    let mut w = Worker::new(Pattern::build("beta", true, false).unwrap(), true);
    w.process(10, b"\ngamma\nbeta\n");
    assert_eq!(w.out, b"17:beta\n");
}

#[test]
fn scan_line_takes_one_line() {
    let mut w = Worker::new(Pattern::build("et", false, false).unwrap(), true);
    assert!(w.scan_line(0, b"alpha").is_empty());
    assert_eq!(w.stats.hashed, 1);
    let asked = w.scan_line(6, b"beta");
    assert_eq!(asked.len(), 1);
    assert!(matches!(asked[0], Effect::Report(Stats { cracked: 1, hashed: 2, waits: 0, kbs: 0 })));
    assert_eq!(w.out, b"6:beta\n");
    assert_eq!(w.stats, Stats { cracked: 0, hashed: 0, waits: 0, kbs: 0 });
}

#[test]
fn finish_hands_over_buffer_and_counters() {
    let mut w = Worker::new(Pattern::build("a", false, false).unwrap(), false);
    w.process(0, b"alpha\nxyz\n");
    w.idle();
    let (rest, stats) = w.finish();
    assert_eq!(rest, b"alpha\n");
    assert_eq!(stats, Stats { cracked: 0, hashed: 1, waits: 1, kbs: 0 });
}

#[test]
fn idle_counts_and_backs_off() {
    let mut w = Worker::new(Pattern::build("a", false, false).unwrap(), false);
    assert_eq!(w.idle(), 1);
    assert_eq!(w.idle(), 2);
    assert_eq!(w.idle(), 3);
    assert_eq!(w.stats, Stats { cracked: 0, hashed: 0, waits: 3, kbs: 0 });
}

#[test]
fn a_new_worker_is_empty() {
    let w = Worker::new(Pattern::build("a", false, false).unwrap(), true);
    assert!(w.out.is_empty());
    assert!(w.position);
    assert_eq!(w.stats, Stats { cracked: 0, hashed: 0, waits: 0, kbs: 0 });
}
