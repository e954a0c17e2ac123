use storage_bench::churn::{fill_runs, CutsIter, Run};
use storage_bench::entropy::Entropy;

#[test]
fn cuts_sum_to_budget_within_bounds() {
    let mut rng = Entropy::seeded(7);
    for total in [0usize, 1, 2, 3, 10, 999, 12345] {
        let mut cuts = CutsIter::new(total);
        let mut remaining = total;
        let mut sum = 0usize;
        while let Some(c) = cuts.next(&mut rng) {
            let max = std::cmp::min(std::cmp::max(2, remaining / 2), remaining);
            assert!(c >= 1 && c <= max);
            remaining -= c;
            sum += c;
        }
        assert_eq!(sum, total);
        assert_eq!(cuts.next(&mut rng), None);
    }
}

#[test]
fn fill_runs_totals_per_kind() {
    let mut rng = Entropy::seeded(1);
    let runs = fill_runs(300, 700, &mut rng);
    let set: usize = runs.iter().filter(|r| r.populate).map(|r| r.len).sum();
    let unset: usize = runs.iter().filter(|r| !r.populate).map(|r| r.len).sum();
    assert_eq!(set, 300);
    assert_eq!(unset, 700);
    assert!(runs.iter().all(|r| r.len >= 1));
}

#[test]
fn fill_runs_full_has_no_skip_runs() {
    let mut rng = Entropy::seeded(2);
    let runs = fill_runs(1000, 0, &mut rng);
    assert!(runs.iter().all(|r| r.populate));
    let runs = fill_runs(0, 0, &mut rng);
    assert!(runs.is_empty());
}

#[test]
fn fill_runs_are_interleaved() {
    let mut rng = Entropy::seeded(3);
    let runs: Vec<Run> = fill_runs(100_000, 100_000, &mut rng);
    let first_skip = runs.iter().position(|r| !r.populate).unwrap();
    let last_populate = runs.iter().rposition(|r| r.populate).unwrap();
    assert!(first_skip < last_populate);
}

#[test]
fn in_range_stays_inside_and_varies() {
    let mut rng = Entropy::seeded(4);
    let draws: Vec<usize> = (0..200).map(|_| rng.in_range(10, 20)).collect();
    assert!(draws.iter().all(|&d| (10..=20).contains(&d)));
    assert!(draws.iter().any(|&d| d != draws[0]));
    assert_eq!(rng.in_range(5, 5), 5);
}
