//! The backoff ladder.

use musubi::phoenix::backoff::{Backoff, JITTER_DENOMINATOR};

const LADDER_MS: [u64; 10] = [10, 50, 100, 150, 200, 250, 500, 1000, 2000, 5000];

#[test]
fn walks_the_ladder_then_holds_at_five_seconds() {
    let mut backoff = Backoff::default();

    for base in LADDER_MS {
        let delay = backoff.next_delay();

        assert!(
            (base..=base + base / JITTER_DENOMINATOR).contains(&delay),
            "{delay}ms outside the jittered band for a {base}ms rung"
        );
    }

    for _ in 0..3 {
        let delay = backoff.next_delay();

        assert!(
            (5000..=6250).contains(&delay),
            "{delay}ms is not steady state"
        );
    }
}

#[test]
fn jitter_varies_between_calls_at_one_rung() {
    let mut backoff = Backoff::default();
    for _ in 0..LADDER_MS.len() {
        backoff.next_delay();
    }

    let first = backoff.next_delay();
    let varied = (0..15).any(|_| backoff.next_delay() != first);

    assert!(
        varied,
        "16 consecutive delays at the 5000ms rung were all {first:?}"
    );
}

#[test]
fn reset_rewinds_to_the_first_rung() {
    let mut backoff = Backoff::default();
    for _ in 0..LADDER_MS.len() {
        backoff.next_delay();
    }

    backoff.reset();

    assert!(backoff.next_delay() <= 12);
}

#[test]
fn the_jitter_is_drawn_from_the_seed() {
    let mut backoff = Backoff::new();

    // A quarter of 10 is 2, so the jitter of the first rung is one of three.
    assert_eq!(backoff.delay_from(5), 12);
    assert_eq!(backoff.delay_from(13), 50);
    assert_eq!(backoff.delay_from(12), 112);
}
