use ertrace::text::{push_decimal, push_decimal_padded};
use ertrace::{is_valid_capacity, ArenaPool, Ertrace, ErtraceLocation, TracePool};

const ORIGIN: ErtraceLocation = ErtraceLocation {
    tag: "origin",
    file: "src/a.rs",
    line: 10,
    column: 5,
    module: "app::a",
};
const WRAPPED_X: ErtraceLocation = ErtraceLocation {
    tag: "wrapped-as-X",
    file: "src/b.rs",
    line: 22,
    column: 17,
    module: "app::b",
};
const WRAPPED_Y: ErtraceLocation = ErtraceLocation {
    tag: "wrapped-as-Y",
    file: "src/c.rs",
    line: 301,
    column: 9,
    module: "app::c",
};

fn tags(e: &Ertrace, pool: &TracePool) -> Vec<&'static str> {
    e.locations(pool).iter().map(|l| l.tag).collect()
}

#[test]
fn location_renders_as_one_line() {
    assert_eq!(ORIGIN.to_string(), "origin at src/a.rs:10:5 in app::a\n");
}

#[test]
fn three_events_render_numbered_oldest_first() {
    let mut pool = TracePool::new();
    let mut e = Ertrace::new(&mut pool, &ORIGIN);
    e.push_back(&mut pool, &WRAPPED_X);
    let e = Ertrace::from_cause(e, &mut pool, &WRAPPED_Y);
    let expected = "error return trace:\n\
                    \x20   0: origin at src/a.rs:10:5 in app::a\n\
                    \x20   1: wrapped-as-X at src/b.rs:22:17 in app::b\n\
                    \x20   2: wrapped-as-Y at src/c.rs:301:9 in app::c\n\
                    \n";
    assert_eq!(e.to_string(&pool), expected);
}

#[test]
fn indices_past_nine_keep_their_width() {
    let mut pool = TracePool::new();
    let mut e = Ertrace::new(&mut pool, &ORIGIN);
    for _ in 0..11 {
        e.push_back(&mut pool, &WRAPPED_X);
    }
    let text = e.to_string(&pool);
    let lines: Vec<&str> = text.lines().collect();
    assert_eq!(lines.len(), 14);
    assert_eq!(lines[0], "error return trace:");
    assert_eq!(lines[1], "    0: origin at src/a.rs:10:5 in app::a");
    assert_eq!(lines[12], "   11: wrapped-as-X at src/b.rs:22:17 in app::b");
    assert_eq!(lines[13], "");
}

#[test]
fn decimal_numbers() {
    let mut s = String::new();
    push_decimal(&mut s, 0);
    assert_eq!(s, "0");
    let mut s = String::from("x");
    push_decimal(&mut s, 4294967295);
    assert_eq!(s, "x4294967295");
    let mut s = String::new();
    push_decimal_padded(&mut s, 42, 5);
    assert_eq!(s, "   42");
    let mut s = String::new();
    push_decimal_padded(&mut s, 123456, 5);
    assert_eq!(s, "123456");
}

#[test]
fn iterate_yields_appended_order_and_count() {
    let mut pool = TracePool::new();
    let mut e = Ertrace::new(&mut pool, &ORIGIN);
    e.push_back(&mut pool, &WRAPPED_X);
    e.push_back(&mut pool, &WRAPPED_Y);
    e.push_back(&mut pool, &ORIGIN);
    assert_eq!(e.len(), 4);
    assert_eq!(tags(&e, &pool), vec!["origin", "wrapped-as-X", "wrapped-as-Y", "origin"]);
    for _ in 0..2 {
        let mut it = e.iter();
        let mut seen = Vec::new();
        while let Some(l) = it.next(&pool) {
            seen.push(l.tag);
        }
        assert_eq!(seen, vec!["origin", "wrapped-as-X", "wrapped-as-Y", "origin"]);
        assert!(it.next(&pool).is_none());
    }
}

#[test]
fn single_event_chain() {
    let mut pool = TracePool::new();
    let e = Ertrace::new(&mut pool, &WRAPPED_Y);
    assert_eq!(e.len(), 1);
    assert_eq!(tags(&e, &pool), vec!["wrapped-as-Y"]);
    assert_eq!(pool.node_count(), 1);
    assert_eq!(pool.free_count(), 0);
}

#[test]
fn destroy_returns_every_node() {
    let mut pool = TracePool::new();
    let mut e = Ertrace::new(&mut pool, &ORIGIN);
    e.push_back(&mut pool, &WRAPPED_X);
    e.push_back(&mut pool, &WRAPPED_Y);
    let other = Ertrace::new(&mut pool, &WRAPPED_X);
    assert_eq!(pool.node_count(), 4);
    e.destroy(&mut pool);
    assert_eq!(pool.free_count(), 3);
    assert_eq!(pool.node_count(), 4);
    other.destroy(&mut pool);
    assert_eq!(pool.free_count(), 4);
}

#[test]
fn five_node_chain_is_reused_without_allocating() {
    let mut pool = TracePool::new();
    let mut e = Ertrace::new(&mut pool, &ORIGIN);
    for _ in 0..4 {
        e.push_back(&mut pool, &WRAPPED_X);
    }
    assert_eq!(e.len(), 5);
    assert_eq!(pool.node_count(), 5);
    e.destroy(&mut pool);
    assert_eq!(pool.free_count(), 5);
    let mut f = Ertrace::new(&mut pool, &WRAPPED_Y);
    for _ in 0..4 {
        f.push_back(&mut pool, &ORIGIN);
    }
    assert_eq!(pool.node_count(), 5);
    assert_eq!(pool.free_count(), 0);
    assert_eq!(tags(&f, &pool), vec!["wrapped-as-Y", "origin", "origin", "origin", "origin"]);
    f.push_back(&mut pool, &ORIGIN);
    assert_eq!(pool.node_count(), 6);
}

#[test]
fn acquire_takes_free_nodes_first() {
    let mut pool = TracePool::new();
    let a = pool.acquire(&ORIGIN);
    let b = pool.acquire(&WRAPPED_X);
    assert_eq!((a, b), (0, 1));
    let mut e = Ertrace::new(&mut pool, &ORIGIN);
    e.push_back(&mut pool, &WRAPPED_X);
    e.destroy(&mut pool);
    let c = pool.acquire(&WRAPPED_Y);
    let d = pool.acquire(&WRAPPED_Y);
    let n = pool.acquire(&WRAPPED_Y);
    assert_eq!((c, d, n), (2, 3, 4));
    assert_eq!(pool.location(c).tag, "wrapped-as-Y");
}

#[test]
fn interleaved_chains_never_share_nodes() {
    let mut pool = TracePool::new();
    let locs = [&ORIGIN, &WRAPPED_X, &WRAPPED_Y];
    let mut live: Vec<(Ertrace, Vec<&'static str>)> = Vec::new();
    for round in 0..60usize {
        let loc = locs[round % 3];
        if round % 7 == 3 && !live.is_empty() {
            let (e, _) = live.remove(round % live.len());
            e.destroy(&mut pool);
        } else if round % 2 == 0 || live.is_empty() {
            live.push((Ertrace::new(&mut pool, loc), vec![loc.tag]));
        } else {
            let k = round % live.len();
            let (e, want) = &mut live[k];
            e.push_back(&mut pool, loc);
            want.push(loc.tag);
        }
        for (e, want) in &live {
            assert_eq!(&tags(e, &pool), want);
        }
    }
    let total: usize = live.iter().map(|(e, _)| e.len()).sum();
    assert_eq!(total + pool.free_count(), pool.node_count());
}

#[test]
fn arena_capacity_must_be_a_power_of_two() {
    assert!(is_valid_capacity(1));
    assert!(is_valid_capacity(1024));
    assert!(is_valid_capacity(1 << 63));
    assert!(!is_valid_capacity(0));
    assert!(!is_valid_capacity(12));
    assert!(!is_valid_capacity(1023));
}

#[test]
fn arena_wraps_after_1024_acquires() {
    let mut arena = ArenaPool::init(1024);
    let first = arena.acquire(&ORIGIN);
    assert_eq!(first, 0);
    for i in 1..1024u64 {
        assert_eq!(arena.acquire(&WRAPPED_X), i);
    }
    let wrapped = arena.acquire(&WRAPPED_Y);
    assert_eq!(wrapped, first);
    assert_eq!(arena.location(first).tag, "wrapped-as-Y");
    assert_eq!(arena.location(1).tag, "wrapped-as-X");
}

#[test]
fn arena_slot_repeats_every_capacity_calls() {
    let mut arena = ArenaPool::init(8);
    let mut slots = Vec::new();
    for _ in 0..17 {
        slots.push(arena.acquire(&ORIGIN));
    }
    assert_eq!(slots[..8].to_vec(), (0..8).collect::<Vec<u64>>());
    assert_eq!(slots[8], slots[0]);
    assert_eq!(slots[16], slots[0]);
    assert_eq!(slots[9], 1);
}

#[test]
fn arena_of_one_slot_reuses_it() {
    let mut arena = ArenaPool::init(1);
    assert_eq!(arena.acquire(&ORIGIN), 0);
    assert_eq!(arena.acquire(&WRAPPED_X), 0);
    assert_eq!(arena.location(0).tag, "wrapped-as-X");
}
