use xrd_core::merge::{group_hkls_by_runs, merge_runs};

/// One closeness flag per adjacent pair: reflection `i + 1` merges when it
/// lies strictly within `tolerance` of the current run's first member.
fn closeness_flags(two_thetas: &[f64], tolerance: f64) -> Vec<bool> {
    let mut flags: Vec<bool> = Vec::new();
    if two_thetas.is_empty() {
        return flags;
    }
    let mut current = two_thetas[0];
    for i in 1..two_thetas.len() {
        if (two_thetas[i] - current).abs() < tolerance {
            flags.push(true);
        } else {
            flags.push(false);
            current = two_thetas[i];
        }
    }
    flags
}

#[test]
fn runs_single_chain() {
    let runs = merge_runs(&vec![true, true]);
    assert_eq!(runs, vec![(0, 3)]);
}

#[test]
fn runs_break_in_middle() {
    let runs = merge_runs(&vec![true, false]);
    assert_eq!(runs, vec![(0, 2), (2, 1)]);
}

#[test]
fn runs_single_reflection() {
    let runs = merge_runs(&Vec::new());
    assert_eq!(runs, vec![(0, 1)]);
}

#[test]
fn runs_all_separate() {
    let runs = merge_runs(&vec![false, false]);
    assert_eq!(runs, vec![(0, 1), (1, 1), (2, 1)]);
}

#[test]
fn merge_example() {
    // angles 10.0 and 10.05 merge under tolerance 0.1; 20.0 stands alone
    let two_thetas = [10.0, 10.05, 20.0];
    let intensities = [5.0, 3.0, 2.0];
    let d_hkls = [1.5, 1.4, 0.9];
    let hkls = vec![vec![1, 1, 1], vec![1, -1, 1], vec![2, 0, 0]];
    let flags = closeness_flags(&two_thetas, 0.1);
    assert_eq!(flags, vec![true, false]);
    let runs = merge_runs(&flags);
    assert_eq!(runs, vec![(0, 2), (2, 1)]);
    let groups = group_hkls_by_runs(&hkls, &runs);
    assert_eq!(groups, vec![vec![vec![1, 1, 1], vec![1, -1, 1]], vec![vec![2, 0, 0]]]);
    let merged_thetas: Vec<f64> = runs.iter().map(|&(s, _)| two_thetas[s]).collect();
    let merged_d: Vec<f64> = runs.iter().map(|&(s, _)| d_hkls[s]).collect();
    let merged_intensities: Vec<f64> = runs
        .iter()
        .map(|&(s, l)| intensities[s..s + l].iter().sum())
        .collect();
    assert_eq!(merged_thetas, vec![10.0, 20.0]);
    assert_eq!(merged_intensities, vec![8.0, 2.0]);
    assert_eq!(merged_d, vec![1.5, 0.9]);
}

#[test]
fn merge_boundary() {
    // exactly tolerance apart: no merge (strict less-than)
    let flags = closeness_flags(&[10.0, 10.25], 0.25);
    assert_eq!(flags, vec![false]);
    assert_eq!(merge_runs(&flags).len(), 2);
    // just under tolerance apart: merge
    let eps = 1.0 / 1048576.0;
    let flags = closeness_flags(&[10.0, 10.0 + (0.25 - eps)], 0.25);
    assert_eq!(flags, vec![true]);
    assert_eq!(merge_runs(&flags).len(), 1);
}

#[test]
fn merge_position_is_first_seen() {
    // 10.0 anchors the run: 10.08 is within 0.1 of 10.0, and 10.15 is
    // compared against 10.0 (not 10.08), so it starts a new peak
    let flags = closeness_flags(&[10.0, 10.08, 10.15], 0.1);
    assert_eq!(flags, vec![true, false]);
}

#[test]
fn merge_conserves_intensity() {
    let two_thetas = [5.0, 5.01, 5.02, 9.0, 9.3, 12.0];
    let intensities = [0.5, 1.25, 2.0, 4.75, 8.5, 16.0];
    let flags = closeness_flags(&two_thetas, 0.5);
    let runs = merge_runs(&flags);
    let merged: Vec<f64> = runs
        .iter()
        .map(|&(s, l)| intensities[s..s + l].iter().sum())
        .collect();
    let total_in: f64 = intensities.iter().sum();
    let total_out: f64 = merged.iter().sum();
    assert_eq!(total_out, total_in);
}

#[test]
fn group_hkls_empty() {
    let groups = group_hkls_by_runs(&Vec::new(), &Vec::new());
    assert!(groups.is_empty());
}
