use sortsteps::sort::{algorithm, Algorithm, SortData, Sorter, Swap, ALGORITHM_COUNT};
use sortsteps::sort::{bubblesort, combsort, icantbelieveitcansort, quicksort, shellsort};

const ALL: [Algorithm; 5] = [
    Algorithm::Bubble,
    Algorithm::Comb,
    Algorithm::Shell,
    Algorithm::ICantBelieve,
    Algorithm::Quick,
];

fn drain(sorter: &mut Sorter) -> Vec<Swap> {
    let mut swaps = Vec::new();
    while let Some(w) = sorter.step() {
        swaps.push(w);
        assert!(swaps.len() < 1_000_000, "algorithm does not finish");
    }
    swaps
}

fn run(a: Algorithm, input: &[usize]) -> (Vec<Swap>, Vec<usize>) {
    let mut sorter = a.start(SortData::new(input.to_vec()));
    let swaps = drain(&mut sorter);
    assert!(sorter.finished());
    (swaps, sorter.data_ref().to_vec())
}

fn replayed(input: &[usize], swaps: &[Swap]) -> Vec<usize> {
    let mut v = input.to_vec();
    for w in swaps {
        v.swap(w.0, w.1);
    }
    v
}

fn permutations(n: usize) -> Vec<Vec<usize>> {
    if n == 0 {
        return vec![vec![]];
    }
    let mut out = Vec::new();
    for p in permutations(n - 1) {
        for pos in 0..n {
            let mut q = p.clone();
            q.insert(pos, n - 1);
            out.push(q);
        }
    }
    out
}

fn check_all_laws(a: Algorithm, input: &[usize]) {
    let (swaps, out) = run(a, input);
    let mut expected = input.to_vec();
    expected.sort();
    assert_eq!(out, expected, "{:?} on {:?}", a, input);
    assert!(SortData::new(out.clone()).is_sorted());
    for w in &swaps {
        assert!(w.is_significant());
        assert_ne!(w.0, w.1);
    }
    assert_eq!(replayed(input, &swaps), out);
}

/// A small deterministic generator for sampled inputs.
fn lcg(seed: &mut u64) -> u64 {
    *seed = seed.wrapping_mul(6364136223846793005).wrapping_add(1442695040888963407);
    *seed >> 33
}

fn sampled_permutation(n: usize, seed: &mut u64) -> Vec<usize> {
    let mut v: Vec<usize> = (0..n).collect();
    for i in (1..n).rev() {
        let j = (lcg(seed) % (i as u64 + 1)) as usize;
        v.swap(i, j);
    }
    v
}

#[test]
fn every_small_permutation_ends_sorted_with_significant_replayable_swaps() {
    for n in 0..=6 {
        for p in permutations(n) {
            for a in ALL {
                check_all_laws(a, &p);
            }
        }
    }
}

#[test]
fn sampled_larger_permutations_end_sorted() {
    let mut seed = 7u64;
    for n in [10usize, 31, 64, 100, 130] {
        for _ in 0..4 {
            let p = sampled_permutation(n, &mut seed);
            for a in ALL {
                check_all_laws(a, &p);
            }
        }
    }
}

#[test]
fn inputs_with_repeated_values_end_sorted() {
    let inputs: Vec<Vec<usize>> = vec![
        vec![2, 2, 2],
        vec![1, 0, 1, 0, 1, 0],
        vec![5, 3, 5, 3, 1, 1, 9, 0, 9],
    ];
    for input in &inputs {
        for a in ALL {
            check_all_laws(a, input);
        }
    }
}

#[test]
fn bubble_sort_three_one_two() {
    let mut sorter = bubblesort::sort(SortData::new(vec![3, 1, 2]));
    assert_eq!(sorter.step(), Some(Swap(0, 1)));
    assert_eq!(sorter.data_ref().to_vec(), vec![1, 3, 2]);
    assert_eq!(sorter.step(), Some(Swap(1, 2)));
    assert_eq!(sorter.data_ref().to_vec(), vec![1, 2, 3]);
    assert_eq!(sorter.step(), None);
    assert!(sorter.data_ref().is_sorted());
}

#[test]
fn sorted_input_gives_no_swap() {
    let starts: [fn(SortData) -> Sorter; 4] =
        [bubblesort::sort, combsort::sort, shellsort::sort, quicksort::sort];
    for start in starts {
        let mut sorter = start(SortData::new(vec![1, 2, 3]));
        assert_eq!(sorter.step(), None);
        assert!(sorter.data_ref().is_sorted());
    }
}

#[test]
fn double_scan_reorders_a_sorted_input_before_restoring_it() {
    // Its first comparison finds 1 < 2 and swaps them.
    let mut sorter = icantbelieveitcansort::sort(SortData::new(vec![1, 2, 3]));
    assert_eq!(sorter.step(), Some(Swap(0, 1)));
    assert_eq!(sorter.data_ref().to_vec(), vec![2, 1, 3]);
    drain(&mut sorter);
    assert_eq!(sorter.data_ref().to_vec(), vec![1, 2, 3]);
}

#[test]
fn finished_sorter_stays_finished() {
    let mut sorter = combsort::sort(SortData::new(vec![2, 0, 1]));
    drain(&mut sorter);
    assert_eq!(sorter.step(), None);
    assert_eq!(sorter.step(), None);
    assert_eq!(sorter.data_ref().to_vec(), vec![0, 1, 2]);
}

#[test]
fn shell_sort_on_sorted_input_has_no_swap() {
    for n in 0..=130 {
        let v: Vec<usize> = (0..n).collect();
        let (swaps, out) = run(Algorithm::Shell, &v);
        assert!(swaps.is_empty());
        assert_eq!(out, v);
    }
    let mut cursor = shellsort::Shellsort::new(4);
    let mut data = SortData::new(vec![0, 1, 2, 3]);
    assert_eq!(cursor.step(&mut data), None);
}

fn reference_quicksort(v: &mut Vec<usize>, low: usize, high: usize, count: &mut usize) {
    if low < high {
        let pivot = v[high];
        let mut i = low;
        for j in low..high {
            if v[j] < pivot {
                if i != j {
                    *count += 1;
                }
                v.swap(i, j);
                i += 1;
            }
        }
        if i != high {
            *count += 1;
        }
        v.swap(i, high);
        if i > 0 {
            reference_quicksort(v, low, i - 1, count);
        }
        reference_quicksort(v, i + 1, high, count);
    }
}

#[test]
fn quick_sort_replay_matches_recursive_run() {
    let mut seed = 11u64;
    let mut inputs = permutations(5);
    for n in [8usize, 20, 57, 100] {
        inputs.push(sampled_permutation(n, &mut seed));
    }
    for input in inputs {
        let (swaps, out) = run(Algorithm::Quick, &input);
        let mut reference = input.clone();
        let mut count = 0usize;
        if !reference.is_empty() {
            let high = reference.len() - 1;
            reference_quicksort(&mut reference, 0, high, &mut count);
        }
        assert_eq!(out, reference);
        assert_eq!(swaps.len(), count);
    }
}

#[test]
fn quick_sort_first_partition_swaps() {
    // Pivot 2: 1 moves to the front, then the pivot into place.
    let (swaps, out) = run(Algorithm::Quick, &[3, 1, 2]);
    assert_eq!(swaps, vec![Swap(0, 1), Swap(1, 2)]);
    assert_eq!(out, vec![1, 2, 3]);
}

#[test]
fn comb_sort_gap_sequence() {
    // len 4: gap 3 compares (0, 3); then gap 2; then gap 1 until clean.
    let (swaps, out) = run(Algorithm::Comb, &[3, 2, 1, 0]);
    assert_eq!(swaps, vec![Swap(0, 3), Swap(1, 2)]);
    assert_eq!(out, vec![0, 1, 2, 3]);
}

#[test]
fn shell_sort_shifts_one_swap_per_step() {
    let (swaps, out) = run(Algorithm::Shell, &[2, 1, 0]);
    assert_eq!(swaps, vec![Swap(1, 0), Swap(2, 1), Swap(1, 0)]);
    assert_eq!(out, vec![0, 1, 2]);
}

#[test]
fn empty_and_single_inputs_finish_at_once() {
    for a in ALL {
        assert!(run(a, &[]).0.is_empty());
        assert!(run(a, &[4]).0.is_empty());
    }
}

#[test]
fn swap_exchanges_and_describes() {
    let mut d = SortData::new(vec![5, 6, 7]);
    assert_eq!(d.swap(0, 2), Swap(0, 2));
    assert_eq!(d.to_vec(), vec![7, 6, 5]);
    assert!(!d.is_sorted());
    assert_eq!(d.swap(1, 1), Swap(1, 1));
    assert!(!Swap(1, 1).is_significant());
    assert!(Swap(1, 2).is_significant());
    assert_eq!(d.len(), 3);
    assert_eq!(d.at(0), 7);
    assert!(SortData::new(vec![]).is_sorted());
    assert!(SortData::new(vec![1, 1, 2]).is_sorted());
}

#[test]
fn catalog_order_and_names() {
    let names: Vec<&str> = (0..ALGORITHM_COUNT).map(|i| algorithm(i).name).collect();
    assert_eq!(
        names,
        vec!["Bubble Sort", "Comb Sort", "Shell Sort", "I Can't Believe It Can Sort", "Quick Sort"]
    );
    for i in 0..ALGORITHM_COUNT {
        assert_eq!(algorithm(i).algorithm, ALL[i]);
        let mut sorter = algorithm(i).start(SortData::new(vec![1, 0]));
        drain(&mut sorter);
        assert_eq!(sorter.data_ref().to_vec(), vec![0, 1]);
    }
}

#[test]
fn bubble_cursor_default_starts_first_pass() {
    let mut cursor = bubblesort::Bubblesort::default();
    assert_eq!((cursor.pass, cursor.j), (0, 1));
    let mut data = SortData::new(vec![2, 1]);
    assert_eq!(cursor.step(&mut data), Some(Swap(0, 1)));
    assert_eq!(cursor.step(&mut data), None);
    assert_eq!(data.into_vec(), vec![1, 2]);
}

#[test]
fn bubble_sort_resumes_after_each_swap() {
    let (swaps, out) = run(Algorithm::Bubble, &[2, 3, 1, 0]);
    assert_eq!(
        swaps,
        vec![Swap(1, 2), Swap(2, 3), Swap(0, 1), Swap(1, 2), Swap(0, 1)]
    );
    assert_eq!(out, vec![0, 1, 2, 3]);
}

#[test]
fn double_scan_on_sorted_three() {
    let mut sorter = icantbelieveitcansort::sort(SortData::new(vec![1, 2, 3]));
    assert_eq!(sorter.step(), Some(Swap(0, 1)));
    assert_eq!(sorter.step(), Some(Swap(0, 2)));
    assert_eq!(sorter.step(), Some(Swap(1, 0)));
    assert_eq!(sorter.step(), Some(Swap(2, 1)));
    assert_eq!(sorter.step(), None);
    assert_eq!(sorter.data_ref().to_vec(), vec![1, 2, 3]);
}

#[test]
fn quick_sort_on_sorted_input_records_only_self_swaps() {
    let cursor = quicksort::Quicksort::new(&SortData::new(vec![1, 2, 3]));
    assert!(cursor.swaps.iter().all(|w| !w.is_significant()));
    // Three self-swaps for the first partition, two for the part below the pivot.
    assert_eq!(cursor.swaps.len(), 5);
}
