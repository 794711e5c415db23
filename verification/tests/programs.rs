use rvos::programs::{fibonacci, prime_numbers, prime_table, zigzag, FIBONACCI_COUNT, PRIME_LIMIT};

#[test]
fn fibonacci_program_numbers() {
    let f = fibonacci(FIBONACCI_COUNT);
    assert_eq!(f.len(), 20);
    assert_eq!(&f[..8], &[1, 1, 2, 3, 5, 8, 13, 21]);
    assert_eq!(f[19], 6765);
    assert_eq!(fibonacci(2), vec![1, 1]);
}

#[test]
fn prime_program_numbers() {
    let p = prime_numbers(PRIME_LIMIT);
    assert_eq!(
        p,
        vec![2, 3, 5, 7, 11, 13, 17, 19, 23, 29, 31, 37, 41, 43, 47, 53, 59, 61, 67, 71, 73, 79, 83, 89, 97]
    );
    assert_eq!(prime_numbers(1), Vec::<usize>::new());
    assert_eq!(prime_numbers(2), vec![2]);
}

#[test]
fn prime_table_entries() {
    let t = prime_table(10);
    assert_eq!(t, vec![0, 0, 2, 3, 0, 5, 0, 7, 0, 0, 0]);
}

#[test]
fn zigzag_program_order() {
    let grid = vec![vec![1, 2, 3, 4, 5], vec![7, 8, 9, 10, 11], vec![12, 13, 14, 15, 16]];
    assert_eq!(zigzag(&grid), vec![1, 2, 7, 12, 8, 3, 4, 9, 13, 14, 10, 5, 11, 15, 16]);
    assert_eq!(zigzag(&vec![vec![4]]), vec![4]);
    assert_eq!(zigzag(&vec![vec![1], vec![2], vec![3]]), vec![1, 2, 3]);
    assert_eq!(zigzag(&vec![vec![1, 2, 3]]), vec![1, 2, 3]);
}

#[test]
fn zigzag_visits_each_cell_once() {
    let grid: Vec<Vec<i32>> = (0..4).map(|y| (0..6).map(|x| y * 6 + x).collect()).collect();
    let mut walk = zigzag(&grid);
    assert_eq!(walk.len(), 24);
    walk.sort();
    assert_eq!(walk, (0..24).collect::<Vec<i32>>());
}
