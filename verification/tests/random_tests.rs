use sudoku::random::{generate_random_indices, generate_unique_array, SimpleRng};

#[test]
fn test_random_array() {
    let mut rng = SimpleRng::new(1);
    let random_array = generate_unique_array(&mut rng);
    assert_eq!(
        random_array,
        [3, 5, 8, 9, 4, 6, 7, 2, 1],
        "random generator is not deterministic"
    );
}

#[test]
fn xorshift_first_values() {
    let mut rng = SimpleRng::new(1);
    assert_eq!(rng.next(), 270369);
    assert_eq!(rng.next(), 67634689);
    assert_eq!(rng.state, 67634689);
}

#[test]
fn gen_from_range_stays_in_range() {
    let mut rng = SimpleRng::new(7);
    let mut expected = SimpleRng::new(7);
    for _ in 0..200 {
        let x = rng.gen_from_range(10, 17);
        assert!((10..17).contains(&x));
        assert_eq!(x, 10 + expected.next() % 7);
    }
}

#[test]
fn unique_array_holds_each_digit_once() {
    for seed in 1..50u32 {
        let mut rng = SimpleRng::new(seed);
        let mut array = generate_unique_array(&mut rng);
        array.sort_unstable();
        assert_eq!(array, [1, 2, 3, 4, 5, 6, 7, 8, 9]);
    }
}

#[test]
fn shuffle_of_seeds_of_known_boards() {
    let mut rng = SimpleRng::new(2200);
    assert_eq!(generate_unique_array(&mut rng), [9, 2, 7, 1, 3, 6, 8, 4, 5]);
    let mut rng = SimpleRng::new(666);
    assert_eq!(generate_unique_array(&mut rng), [7, 5, 3, 8, 2, 1, 6, 9, 4]);
}

#[test]
fn random_indices_are_distinct_cells() {
    let mut rng = SimpleRng::new(1);
    let _ = generate_unique_array(&mut rng);
    let indices = generate_random_indices(&mut rng, 23);
    assert_eq!(
        indices,
        vec![
            27, 34, 64, 10, 39, 80, 69, 29, 74, 2, 6, 40, 65, 11, 1, 36, 32, 79, 22, 16, 68, 66,
            19
        ]
    );
    let mut rng = SimpleRng::new(99);
    let mut all = generate_random_indices(&mut rng, 81);
    all.sort_unstable();
    let expected: Vec<usize> = (0..81).collect();
    assert_eq!(all, expected);
    let mut rng = SimpleRng::new(99);
    assert!(generate_random_indices(&mut rng, 0).is_empty());
}
