use sortsteps::playback::{shuffled_range, Controller, PlaybackEvent, INTERMISSION_MS, STEP_MS};
use sortsteps::sort::{algorithm, ALGORITHM_COUNT};

fn is_permutation(v: &[usize], n: usize) -> bool {
    let mut seen = vec![false; n];
    v.len() == n && v.iter().all(|&x| x < n && !std::mem::replace(&mut seen[x], true))
}

#[test]
fn controller_cycles_through_the_catalog() {
    let n = 12;
    let mut c = Controller::new(n);
    let mut resets = Vec::new();
    let mut data = Vec::new();
    let mut events = 0usize;
    while resets.len() < 2 * ALGORITHM_COUNT + 1 {
        match c.next() {
            PlaybackEvent::Reset { data: d, algorithm } => {
                assert!(is_permutation(&d, n));
                resets.push(algorithm);
                data = d;
            }
            PlaybackEvent::Swap(w) => {
                assert_ne!(w.0, w.1);
                data.swap(w.0, w.1);
            }
            PlaybackEvent::Wait(ms) => {
                assert!(ms == INTERMISSION_MS || ms == STEP_MS);
                if ms == INTERMISSION_MS && !resets.is_empty() && c.wants_data() {
                    // One algorithm has just been drained.
                    assert_eq!(data, (0..n).collect::<Vec<_>>());
                }
            }
        }
        events += 1;
        assert!(events < 1_000_000);
    }
    for (k, name) in resets.iter().enumerate() {
        assert_eq!(*name, algorithm(k % ALGORITHM_COUNT).name);
    }
}

#[test]
fn controller_event_order_for_one_algorithm() {
    let mut c = Controller::new(3);
    assert!(matches!(c.next_with(vec![]), PlaybackEvent::Wait(INTERMISSION_MS)));
    assert!(c.wants_data());
    match c.next_with(vec![3, 1, 2]) {
        PlaybackEvent::Reset { data, algorithm } => {
            assert_eq!(data, vec![3, 1, 2]);
            assert_eq!(algorithm, "Bubble Sort");
        }
        _ => panic!("expected a reset"),
    }
    assert!(matches!(c.next_with(vec![]), PlaybackEvent::Wait(INTERMISSION_MS)));
    assert!(matches!(c.next_with(vec![]), PlaybackEvent::Swap(w) if w.0 == 0 && w.1 == 1));
    assert!(matches!(c.next_with(vec![]), PlaybackEvent::Wait(STEP_MS)));
    assert!(matches!(c.next_with(vec![]), PlaybackEvent::Swap(w) if w.0 == 1 && w.1 == 2));
    assert!(matches!(c.next_with(vec![]), PlaybackEvent::Wait(STEP_MS)));
    assert!(!c.wants_data());
    assert!(matches!(c.next_with(vec![]), PlaybackEvent::Wait(INTERMISSION_MS)));
    assert!(c.wants_data());
    match c.next_with(vec![0, 2, 1]) {
        PlaybackEvent::Reset { algorithm, .. } => assert_eq!(algorithm, "Comb Sort"),
        _ => panic!("expected a reset"),
    }
}

#[test]
fn shuffled_range_is_a_reordered_permutation() {
    let mut moved = false;
    for _ in 0..20 {
        let v = shuffled_range(50);
        assert!(is_permutation(&v, 50));
        if v != (0..50).collect::<Vec<_>>() {
            moved = true;
        }
    }
    assert!(moved);
    assert!(shuffled_range(0).is_empty());
}

#[test]
fn same_shuffle_gives_same_events() {
    let shuffle = vec![4, 0, 3, 1, 2];
    let mut a = Controller::new(5);
    let mut b = Controller::new(5);
    for _ in 0..200 {
        let da = if a.wants_data() { shuffle.clone() } else { vec![] };
        let db = if b.wants_data() { shuffle.clone() } else { vec![] };
        match (a.next_with(da), b.next_with(db)) {
            (PlaybackEvent::Wait(x), PlaybackEvent::Wait(y)) => assert_eq!(x, y),
            (PlaybackEvent::Swap(x), PlaybackEvent::Swap(y)) => assert_eq!(x, y),
            (
                PlaybackEvent::Reset { data: x, algorithm: m },
                PlaybackEvent::Reset { data: y, algorithm: n },
            ) => {
                assert_eq!(x, y);
                assert_eq!(m, n);
            }
            _ => panic!("controllers diverged"),
        }
    }
}
