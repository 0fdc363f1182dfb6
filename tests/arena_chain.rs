use ertrace::{ArenaPool, ArenaTrace, ErtraceLocation};

const ORIGIN: ErtraceLocation = ErtraceLocation {
    tag: "origin",
    file: "src/a.rs",
    line: 10,
    column: 5,
    module: "app::a",
};
const WRAPPED_X: ErtraceLocation = ErtraceLocation {
    tag: "wrapped-as-X",
    file: "src/b.rs",
    line: 22,
    column: 17,
    module: "app::b",
};
const WRAPPED_Y: ErtraceLocation = ErtraceLocation {
    tag: "wrapped-as-Y",
    file: "src/c.rs",
    line: 301,
    column: 9,
    module: "app::c",
};

fn tags(e: &ArenaTrace, arena: &ArenaPool) -> Vec<&'static str> {
    e.locations(arena).iter().map(|l| l.tag).collect()
}

#[test]
fn arena_chain_renders_oldest_first() {
    let mut arena = ArenaPool::init(16);
    let mut e = ArenaTrace::new(&mut arena, &ORIGIN);
    e.push_back(&mut arena, &WRAPPED_X);
    e.push_back(&mut arena, &WRAPPED_Y);
    assert_eq!(e.len(), 3);
    let expected = "error return trace:\n\
                    \x20   0: origin at src/a.rs:10:5 in app::a\n\
                    \x20   1: wrapped-as-X at src/b.rs:22:17 in app::b\n\
                    \x20   2: wrapped-as-Y at src/c.rs:301:9 in app::c\n\
                    \n";
    assert_eq!(e.to_string(&arena), expected);
}

#[test]
fn arena_chains_side_by_side_stay_apart() {
    let mut arena = ArenaPool::init(8);
    let mut a = ArenaTrace::new(&mut arena, &ORIGIN);
    let mut b = ArenaTrace::new(&mut arena, &WRAPPED_Y);
    a.push_back(&mut arena, &WRAPPED_X);
    b.push_back(&mut arena, &ORIGIN);
    assert_eq!(tags(&a, &arena), vec!["origin", "wrapped-as-X"]);
    assert_eq!(tags(&b, &arena), vec!["wrapped-as-Y", "origin"]);
}

#[test]
fn arena_chain_is_overwritten_once_the_ring_wraps() {
    let mut arena = ArenaPool::init(2);
    let e = ArenaTrace::new(&mut arena, &ORIGIN);
    assert_eq!(tags(&e, &arena), vec!["origin"]);
    assert_eq!(arena.acquire(&WRAPPED_X), 1);
    assert_eq!(arena.acquire(&WRAPPED_Y), 0);
    assert_eq!(tags(&e, &arena), vec!["wrapped-as-Y"]);
}
