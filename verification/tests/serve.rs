use foxes::server::{serve_counted, serve_shared, serve_unbounded, Session, Supply};
use foxes::supply::{SharedCounter, SupplyCounter};

const FOX: [u8; 4] = [0xF0, 0x9F, 0xA6, 0x8A];

fn stream_byte(i: usize) -> u8 {
    FOX[i % 4]
}

#[test]
fn partial_read_defers_the_charge() {
    // Two symbols of supply; a 3-byte read delivers 3 bytes of the first
    // symbol but charges nothing: the symbol is only charged once its
    // last byte has been handed out.
    let mut counter = SupplyCounter::new(2);
    let r = serve_counted(&FOX, 0, 3, &mut counter);
    assert_eq!(r, vec![0xF0, 0x9F, 0xA6]);
    assert_eq!(counter.load(), 2);

    // The next read finishes the straddled symbol (charging it) and has
    // room for the second whole symbol (charging that too), but the
    // supply is then out: 5 bytes, not 10.
    let r = serve_counted(&FOX, 3, 10, &mut counter);
    assert_eq!(r, vec![0x8A, 0xF0, 0x9F, 0xA6, 0x8A]);
    assert_eq!(counter.load(), 0);

    // Everything is delivered: the next read signals end of stream.
    let r = serve_counted(&FOX, 8, 10, &mut counter);
    assert_eq!(r.len(), 0);
}

#[test]
fn conservation_across_odd_chunks() {
    // Five symbols = 20 bytes, served through ragged capacities: the
    // running total never exceeds 20 and ends exactly at 20.
    let mut counter = SupplyCounter::new(5);
    let mut offset: u64 = 0;
    let mut all: Vec<u8> = Vec::new();
    for cap in [3usize, 7, 1, 6, 9, 100, 50] {
        let r = serve_counted(&FOX, offset, cap, &mut counter);
        assert!(r.len() <= cap);
        offset += r.len() as u64;
        all.extend_from_slice(&r);
        assert!(all.len() <= 20);
    }
    assert_eq!(all.len(), 20);
    assert_eq!(counter.load(), 0);
    for (i, b) in all.iter().enumerate() {
        assert_eq!(*b, stream_byte(i));
    }
}

#[test]
fn zero_after_exhaustion() {
    let mut counter = SupplyCounter::new(3);
    let r = serve_counted(&FOX, 0, 12, &mut counter);
    assert_eq!(r.len(), 12);
    assert_eq!(counter.load(), 0);
    for cap in [1usize, 4, 1000] {
        let r = serve_counted(&FOX, 12, cap, &mut counter);
        assert_eq!(r.len(), 0);
    }
}

#[test]
fn byte_by_byte_equals_single_read() {
    // One byte at a time...
    let mut c1 = SupplyCounter::new(3);
    let mut trickled: Vec<u8> = Vec::new();
    let mut offset: u64 = 0;
    loop {
        let r = serve_counted(&FOX, offset, 1, &mut c1);
        if r.is_empty() {
            break;
        }
        offset += r.len() as u64;
        trickled.extend_from_slice(&r);
    }
    // ...is byte-for-byte one single full-supply read.
    let mut c2 = SupplyCounter::new(3);
    let gulped = serve_counted(&FOX, 0, 12, &mut c2);
    assert_eq!(trickled, gulped);
    assert_eq!(trickled.len(), 12);
}

#[test]
fn three_byte_chunks_stay_byte_exact() {
    let mut counter = SupplyCounter::new(2);
    let mut offset: u64 = 0;
    let mut lens: Vec<usize> = Vec::new();
    let mut all: Vec<u8> = Vec::new();
    for _ in 0..4 {
        let r = serve_counted(&FOX, offset, 3, &mut counter);
        offset += r.len() as u64;
        lens.push(r.len());
        all.extend_from_slice(&r);
    }
    assert_eq!(lens, vec![3, 3, 2, 0]);
    assert_eq!(all, vec![0xF0, 0x9F, 0xA6, 0x8A, 0xF0, 0x9F, 0xA6, 0x8A]);
}

#[test]
fn unbounded_never_reads_short() {
    // With no counter every request is fully served, from any offset.
    let r = serve_unbounded(&FOX, 2, 7);
    assert_eq!(r, vec![0xA6, 0x8A, 0xF0, 0x9F, 0xA6, 0x8A, 0xF0]);
    let r = serve_unbounded(&FOX, 0, 9);
    assert_eq!(r.len(), 9);
    for (i, b) in r.iter().enumerate() {
        assert_eq!(*b, stream_byte(i));
    }
    // Only a zero capacity reads zero bytes.
    let r = serve_unbounded(&FOX, 5, 0);
    assert_eq!(r.len(), 0);
}

#[test]
fn zero_capacity_changes_nothing() {
    let mut counter = SupplyCounter::new(4);
    let r = serve_counted(&FOX, 0, 0, &mut counter);
    assert_eq!(r.len(), 0);
    assert_eq!(counter.load(), 4);
}

#[test]
fn one_symbol_supply_over_two_reads() {
    let mut counter = SupplyCounter::new(1);
    let r = serve_counted(&FOX, 0, 2, &mut counter);
    assert_eq!(r, vec![0xF0, 0x9F]);
    assert_eq!(counter.load(), 1);
    let r = serve_counted(&FOX, 2, 2, &mut counter);
    assert_eq!(r, vec![0xA6, 0x8A]);
    assert_eq!(counter.load(), 0);
    let r = serve_counted(&FOX, 4, 2, &mut counter);
    assert_eq!(r.len(), 0);
}

#[test]
fn shared_reservations_never_exceed_supply() {
    let counter = SharedCounter::new(5);
    assert_eq!(counter.take(3), 3);
    assert_eq!(counter.take(3), 2);
    assert_eq!(counter.take(3), 0);
    assert_eq!(counter.available_hint(), 0);
}

#[test]
fn shared_serve_stops_at_the_supply() {
    let counter = SharedCounter::new(2);
    let r = serve_shared(&FOX, 0, 100, &counter);
    assert_eq!(r, vec![0xF0, 0x9F, 0xA6, 0x8A, 0xF0, 0x9F, 0xA6, 0x8A]);
    let r = serve_shared(&FOX, 8, 100, &counter);
    assert_eq!(r.len(), 0);
}

#[test]
fn shared_serve_leaves_a_backed_tail() {
    let counter = SharedCounter::new(5);
    let r = serve_shared(&FOX, 0, 6, &counter);
    assert_eq!(r, vec![0xF0, 0x9F, 0xA6, 0x8A, 0xF0, 0x9F]);
    // One whole symbol was charged; the straddled one is charged by the
    // read that finishes it.
    assert_eq!(counter.available_hint(), 4);
    let r = serve_shared(&FOX, 6, 2, &counter);
    assert_eq!(r, vec![0xA6, 0x8A]);
    assert_eq!(counter.available_hint(), 3);
}

#[test]
fn sequential_shared_matches_private() {
    // Without interleaving, the shared path delivers exactly what the
    // private path does.
    let shared = SharedCounter::new(3);
    let mut private = SupplyCounter::new(3);
    let mut off_a: u64 = 0;
    let mut off_b: u64 = 0;
    for cap in [5usize, 2, 9, 4, 8] {
        let a = serve_shared(&FOX, off_a, cap, &shared);
        let b = serve_counted(&FOX, off_b, cap, &mut private);
        assert_eq!(a, b);
        off_a += a.len() as u64;
        off_b += b.len() as u64;
    }
}

#[test]
fn interleaved_shared_readers_never_over_deliver() {
    // Two sessions draining one shared supply of three symbols, turn and
    // turn about: together they are handed exactly the twelve bytes the
    // supply backs, never more.
    let shared = SharedCounter::new(3);
    let mut one = Session::open_shared(&shared);
    let mut two = Session::open_shared(&shared);
    let mut off_one: u64 = 0;
    let mut off_two: u64 = 0;
    let mut total: usize = 0;
    for _ in 0..10 {
        let r = one.serve(&FOX, off_one, 4);
        off_one += r.len() as u64;
        total += r.len();
        let r = two.serve(&FOX, off_two, 4);
        off_two += r.len() as u64;
        total += r.len();
        assert!(total <= 12);
    }
    assert_eq!(total, 12);
}

#[test]
fn session_lifecycle() {
    let mut s = Session::open_counted(1);
    let r = s.serve(&FOX, 0, 10);
    assert_eq!(r, vec![0xF0, 0x9F, 0xA6, 0x8A]);
    let r = s.serve(&FOX, 4, 10);
    assert_eq!(r.len(), 0);
    s.close();

    let mut s = Session::open_unbounded();
    let r = s.serve(&FOX, 0, 5);
    assert_eq!(r.len(), 5);
    s.close();

    let shared = SharedCounter::new(2);
    let mut one = Session::open_shared(&shared);
    let mut two = Session::open_shared(&shared);
    let a = one.serve(&FOX, 0, 4);
    let b = two.serve(&FOX, 0, 100);
    // The two sessions drain the same supply: together exactly the two
    // symbols, never more.
    assert_eq!(a.len() + b.len(), 8);
    one.close();
    two.close();
}

#[test]
fn supply_enum_is_exposed() {
    let s = Session { supply: Supply::Counted(SupplyCounter::new(1)) };
    match &s.supply {
        Supply::Counted(c) => assert_eq!(c.load(), 1),
        _ => panic!("wrong variant"),
    }
}

#[test]
fn wider_symbol_widths_work_too() {
    // The algorithm is not tied to width four.
    let sym: [u8; 3] = [1, 2, 3];
    let mut counter = SupplyCounter::new(2);
    let r = serve_counted(&sym, 0, 4, &mut counter);
    assert_eq!(r, vec![1, 2, 3, 1]);
    assert_eq!(counter.load(), 1);
    let r = serve_counted(&sym, 4, 4, &mut counter);
    assert_eq!(r, vec![2, 3]);
    assert_eq!(counter.load(), 0);
}
