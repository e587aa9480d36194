use sceua::{
    compress_complexes, partition_complex, replace_complex, sample_rank, sample_simplex_indices,
    DuanRng, UniformDraw,
};

#[derive(Clone, Debug, PartialEq)]
struct Point {
    x: Vec<f64>,
    value: f64,
}

fn point(x: &[f64], value: f64) -> Point {
    Point {
        x: x.to_vec(),
        value,
    }
}

#[test]
fn simplex_indices_follow_duan_linear_probability() {
    let mut rng = DuanRng::new(1969);
    let indices = sample_simplex_indices(5, 3, &mut rng);
    assert_eq!(indices, vec![0, 2, 3]);
}

#[test]
fn comp_drops_lowest_ranked_complex() {
    let population: Vec<_> = (0..9).map(|i| point(&[i as f64], i as f64)).collect();
    let compressed = compress_complexes(&population, 3, 2, 3);
    let values: Vec<_> = compressed
        .iter()
        .map(|point| point.value as usize)
        .collect();
    assert_eq!(values, vec![0, 1, 3, 4, 6, 7]);
}

#[test]
fn generator_draws_for_seed_1969() {
    let mut rng = DuanRng::new(1969);
    let draws: Vec<UniformDraw> = (0..3).map(|_| rng.next_draw()).collect();
    assert_eq!(
        draws,
        vec![
            UniformDraw { coarse: 13431, fine: 36460 },
            UniformDraw { coarse: 216246, fine: 19365 },
            UniformDraw { coarse: 207339, fine: 81512 },
        ]
    );
}

#[test]
fn generator_draws_for_seed_0() {
    let mut rng = DuanRng::new(0);
    assert_eq!(rng.next_draw(), UniformDraw { coarse: 71091, fine: 41190 });
    assert_eq!(rng.next_draw(), UniformDraw { coarse: 147500, fine: 77185 });
}

#[test]
fn generator_is_reproducible() {
    let mut first = DuanRng::new(42);
    let mut second = DuanRng::new(42);
    for _ in 0..500 {
        assert_eq!(first.next_draw(), second.next_draw());
    }
}

#[test]
fn ranks_follow_the_draws() {
    let mut rng = DuanRng::new(1969);
    let ranks: Vec<usize> = (0..5).map(|_| sample_rank(5, &mut rng)).collect();
    assert_eq!(ranks, vec![0, 3, 2, 3, 1]);
}

#[test]
fn single_point_complex_always_gives_rank_zero() {
    let mut rng = DuanRng::new(7);
    for _ in 0..100 {
        assert_eq!(sample_rank(1, &mut rng), 0);
    }
}

#[test]
fn ranks_favour_the_best_points() {
    let mut rng = DuanRng::new(1969);
    let mut counts = [0usize; 4];
    for _ in 0..20_000 {
        counts[sample_rank(4, &mut rng)] += 1;
    }
    // Expected shares 4:3:2:1 out of 10.
    assert!(counts[0] > counts[1] && counts[1] > counts[2] && counts[2] > counts[3]);
    assert!((7_500..8_500).contains(&counts[0]));
    assert!((1_500..2_500).contains(&counts[3]));
}

#[test]
fn whole_complex_is_taken_without_drawing() {
    let mut rng = DuanRng::new(1969);
    let indices = sample_simplex_indices(4, 4, &mut rng);
    assert_eq!(indices, vec![0, 1, 2, 3]);
    let mut fresh = DuanRng::new(1969);
    assert_eq!(rng.next_draw(), fresh.next_draw());
}

#[test]
fn empty_simplex_makes_no_draw() {
    let mut rng = DuanRng::new(1969);
    assert_eq!(sample_simplex_indices(5, 0, &mut rng), Vec::<usize>::new());
    let mut fresh = DuanRng::new(1969);
    assert_eq!(rng.next_draw(), fresh.next_draw());
}

#[test]
fn simplex_indices_are_sorted_and_distinct() {
    let mut rng = DuanRng::new(3);
    for _ in 0..200 {
        let indices = sample_simplex_indices(9, 5, &mut rng);
        assert_eq!(indices.len(), 5);
        assert!(indices.windows(2).all(|w| w[0] < w[1]));
        assert!(indices.iter().all(|&i| i < 9));
    }
}

#[test]
fn simplex_sampling_stops_at_the_completing_draw() {
    // Ranks of the first draws from seed 1969 among 5 are 0, 3, 2, 3, 1:
    // three distinct ranks are complete after the third draw.
    let mut rng = DuanRng::new(1969);
    let _ = sample_simplex_indices(5, 3, &mut rng);
    assert_eq!(sample_rank(5, &mut rng), 3);
    assert_eq!(sample_rank(5, &mut rng), 1);
}

#[test]
fn partition_deals_the_population_like_cards() {
    let population: Vec<u32> = (0..12).collect();
    assert_eq!(partition_complex(&population, 0, 3, 4), vec![0, 3, 6, 9]);
    assert_eq!(partition_complex(&population, 2, 3, 4), vec![2, 5, 8, 11]);
}

#[test]
fn replace_writes_back_only_its_complex() {
    let mut population: Vec<u32> = (0..12).collect();
    replace_complex(&mut population, &[100, 101, 102, 103], 1, 3, 4);
    assert_eq!(population, vec![0, 100, 2, 3, 101, 5, 6, 102, 8, 9, 103, 11]);
}

#[test]
fn partition_then_replace_restores_the_population() {
    let original: Vec<u32> = (0..15).map(|i| i * 7 % 15).collect();
    let mut population = original.clone();
    for complex_index in 0..5 {
        let complex = partition_complex(&population, complex_index, 5, 3);
        replace_complex(&mut population, &complex, complex_index, 5, 3);
    }
    assert_eq!(population, original);
}

#[test]
fn replace_with_no_complexes_writes_one_slot() {
    let mut population: Vec<u32> = vec![1, 2, 3];
    replace_complex(&mut population, &[7, 8], 1, 0, 2);
    assert_eq!(population, vec![1, 8, 3]);
}

#[test]
fn compress_to_one_complex_keeps_the_best_column() {
    let population: Vec<u32> = (0..8).collect();
    assert_eq!(compress_complexes(&population, 2, 1, 4), vec![0, 2, 4, 6]);
}
