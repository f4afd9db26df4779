use simdedup::error::DedupError;
use simdedup::matcher::{Mode, SimilarImages, ONE_KEY};
use simdedup::{batches, chunk_count};

fn key(x: f32) -> i32 {
    let b = x.to_bits() as i32;
    if b < 0 {
        b ^ i32::MAX
    } else {
        b
    }
}

fn run(threshold: i32, chunk: usize, mode: Mode, sims: &Vec<Vec<i32>>, n_comp: usize) -> SimilarImages {
    let mut m = SimilarImages::new(threshold, chunk, mode, sims.len(), n_comp).unwrap();
    let mut blocks = 0usize;
    while let Some(b) = m.next_block() {
        let block: Vec<Vec<i32>> = (b.target_start..b.target_end)
            .map(|i| sims[i][b.comp_start..b.comp_end].to_vec())
            .collect();
        m.absorb(&block);
        blocks += 1;
        assert!(blocks <= 1_000_000);
    }
    m
}

fn matrix(n: usize, m: usize, f: impl Fn(usize, usize) -> f32) -> Vec<Vec<i32>> {
    (0..n).map(|i| (0..m).map(|j| key(f(i, j))).collect()).collect()
}

fn pseudo_sims(n: usize, m: usize) -> Vec<Vec<i32>> {
    matrix(n, m, |i, j| {
        if i == j {
            1.0
        } else {
            let v = ((i * 37 + j * 11 + (i * j) % 7) % 100) as f32 / 100.0;
            v
        }
    })
}

#[test]
fn one_key_is_the_key_of_one() {
    assert_eq!(ONE_KEY, key(1.0));
    assert!(key(0.97) > key(0.95));
    assert!(key(-0.5) < key(0.1));
}

#[test]
fn later_duplicate_is_dropped() {
    let mut sims = matrix(3, 3, |_, _| 0.10);
    for i in 0..3 {
        sims[i][i] = key(1.0);
    }
    sims[0][1] = key(0.97);
    sims[1][0] = key(0.97);
    let m = run(key(0.95), 10000, Mode::SelfCompare, &sims, 3);
    assert_eq!(m.duplicates(), vec![1]);
    assert_eq!(m.keep_list(), vec![0, 2]);
}

#[test]
fn empty_target_keeps_nothing() {
    let m = SimilarImages::new(key(0.95), 10000, Mode::SelfCompare, 0, 0).unwrap();
    assert!(m.next_block().is_none());
    assert_eq!(m.keep_list(), Vec::<usize>::new());
    assert_eq!(m.duplicates(), Vec::<usize>::new());
    assert!(batches(0, 16).is_empty());
}

#[test]
fn disjoint_comparison_keeps_all_targets() {
    let sims = matrix(4, 3, |_, _| 0.10);
    let m = run(key(0.95), 2, Mode::CrossCompare, &sims, 3);
    assert_eq!(m.duplicates(), Vec::<usize>::new());
    assert_eq!(m.keep_list(), vec![0, 1, 2, 3]);
}

#[test]
fn cross_compare_counts_equal_rows() {
    let sims = matrix(2, 3, |i, j| if i == j { 1.0 } else { 0.0 });
    let m = run(key(0.5), 1, Mode::CrossCompare, &sims, 3);
    assert_eq!(m.duplicates(), vec![0, 1]);
    assert_eq!(m.keep_list(), Vec::<usize>::new());
}

#[test]
fn self_compare_never_matches_itself() {
    let n = 5;
    let sims = matrix(n, n, |_, _| 0.99);
    for chunk in [1usize, 2, 3, 10000] {
        let m = run(key(0.95), chunk, Mode::SelfCompare, &sims, n);
        assert_eq!(m.duplicates(), vec![1, 2, 3, 4]);
        assert_eq!(m.keep_list(), vec![0]);
    }
    let only_diagonal = matrix(n, n, |i, j| if i == j { 1.0 } else { 0.0 });
    let m = run(key(0.95), 2, Mode::SelfCompare, &only_diagonal, n);
    assert_eq!(m.duplicates(), Vec::<usize>::new());
}

#[test]
fn chunk_size_does_not_change_result() {
    let sims = pseudo_sims(23, 23);
    let reference = run(key(0.9), 10000, Mode::SelfCompare, &sims, 23).duplicates();
    assert!(!reference.is_empty());
    for chunk in [1usize, 2, 5, 7, 22, 23, 24] {
        assert_eq!(run(key(0.9), chunk, Mode::SelfCompare, &sims, 23).duplicates(), reference);
    }
    let cross = pseudo_sims(9, 14);
    let reference = run(key(0.8), 10000, Mode::CrossCompare, &cross, 14).duplicates();
    for chunk in [1usize, 3, 4, 13] {
        assert_eq!(run(key(0.8), chunk, Mode::CrossCompare, &cross, 14).duplicates(), reference);
    }
}

#[test]
fn higher_threshold_gives_subset() {
    let sims = pseudo_sims(17, 17);
    let low = run(key(0.5), 4, Mode::SelfCompare, &sims, 17).duplicates();
    let high = run(key(0.9), 3, Mode::SelfCompare, &sims, 17).duplicates();
    assert!(high.len() < low.len());
    for j in &high {
        assert!(low.contains(j));
    }
}

#[test]
fn threshold_is_strict() {
    let sims = matrix(2, 2, |_, _| 0.95);
    let m = run(key(0.95), 1, Mode::SelfCompare, &sims, 2);
    assert_eq!(m.duplicates(), Vec::<usize>::new());
    let m = run(ONE_KEY, 1, Mode::SelfCompare, &matrix(2, 2, |_, _| 1.0), 2);
    assert_eq!(m.duplicates(), Vec::<usize>::new());
}

#[test]
fn blocks_follow_upper_triangle() {
    let mut m = SimilarImages::new(key(0.5), 2, Mode::SelfCompare, 5, 5).unwrap();
    let mut seen = Vec::new();
    while let Some(b) = m.next_block() {
        seen.push((b.target_start, b.target_end, b.comp_start, b.comp_end));
        let block = vec![vec![0; b.comp_end - b.comp_start]; b.target_end - b.target_start];
        m.absorb(&block);
    }
    assert_eq!(
        seen,
        vec![(0, 2, 0, 2), (0, 2, 2, 4), (0, 2, 4, 5), (2, 4, 2, 4), (2, 4, 4, 5), (4, 5, 4, 5)]
    );
}

#[test]
fn configuration_errors() {
    assert_eq!(
        SimilarImages::new(0, 10, Mode::SelfCompare, 1, 1).err(),
        Some(DedupError::InvalidThreshold)
    );
    assert_eq!(
        SimilarImages::new(key(-0.5), 10, Mode::SelfCompare, 1, 1).err(),
        Some(DedupError::InvalidThreshold)
    );
    assert_eq!(
        SimilarImages::new(key(1.5), 10, Mode::SelfCompare, 1, 1).err(),
        Some(DedupError::InvalidThreshold)
    );
    assert_eq!(
        SimilarImages::new(key(0.9), 0, Mode::SelfCompare, 1, 1).err(),
        Some(DedupError::InvalidChunkSize)
    );
    assert_eq!(
        SimilarImages::new(key(0.9), 10, Mode::SelfCompare, 2, 3).err(),
        Some(DedupError::SizeMismatch)
    );
    assert!(SimilarImages::new(key(0.9), 10, Mode::CrossCompare, 2, 3).is_ok());
}

#[test]
fn chunk_count_rounds_up() {
    assert_eq!(chunk_count(10, 3), 4);
    assert_eq!(chunk_count(9, 3), 3);
    assert_eq!(chunk_count(0, 5), 0);
    assert_eq!(chunk_count(1, 10000), 1);
}

#[test]
fn batches_cover_rows() {
    assert_eq!(batches(5, 2), vec![(0, 2), (2, 4), (4, 5)]);
    assert_eq!(batches(4, 2), vec![(0, 2), (2, 4)]);
    assert_eq!(batches(3, 16), vec![(0, 3)]);
}

#[test]
fn comp_runs_all_blocks() {
    let mut sims = matrix(3, 3, |_, _| 0.10);
    for i in 0..3 {
        sims[i][i] = key(1.0);
    }
    sims[0][1] = key(0.97);
    sims[1][0] = key(0.97);
    let mut m = SimilarImages::new(key(0.95), 2, Mode::SelfCompare, 3, 3).unwrap();
    assert_eq!(m.comp(&sims), vec![1]);
    assert!(m.next_block().is_none());
    assert_eq!(m.keep_list(), vec![0, 2]);
}

#[test]
fn comp_agrees_with_block_protocol() {
    let sims = pseudo_sims(19, 11);
    for chunk in [1usize, 4, 10000] {
        let mut m = SimilarImages::new(key(0.7), chunk, Mode::CrossCompare, 19, 11).unwrap();
        let found = m.comp(&sims);
        assert_eq!(found, run(key(0.7), chunk, Mode::CrossCompare, &sims, 11).duplicates());
        let expected: Vec<usize> = (0..11)
            .filter(|&j| (0..19).any(|i| sims[i][j] > key(0.7)))
            .collect();
        assert_eq!(found, expected);
    }
}

#[test]
fn cross_compare_keeps_unmatched_targets() {
    let mut sims = matrix(2, 3, |_, _| 0.10);
    sims[0][2] = key(0.99);
    let m = run(key(0.95), 2, Mode::CrossCompare, &sims, 3);
    assert_eq!(m.duplicates(), vec![2]);
    assert_eq!(m.keep_list(), vec![1]);
    let m = run(key(0.95), 10000, Mode::CrossCompare, &sims, 3);
    assert_eq!(m.keep_list(), vec![1]);
}

#[test]
fn cross_compare_keep_list_uses_target_rows() {
    let mut sims = matrix(4, 2, |_, _| 0.0);
    sims[3][0] = key(0.99);
    sims[2][1] = key(0.99);
    let m = run(key(0.5), 3, Mode::CrossCompare, &sims, 2);
    assert_eq!(m.duplicates(), vec![0, 1]);
    assert_eq!(m.keep_list(), vec![0, 1]);
}
