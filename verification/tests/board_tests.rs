use queens_board::QueensBoard;
use rand::rngs::SmallRng;
use rand::SeedableRng;

#[test]
fn generated_board_elements_in_range() {
    for n in [1u8, 4, 8, 16, 255] {
        let b = QueensBoard::generate(n);
        let g = b.genes();
        assert_eq!(g.len(), n as usize);
        for &v in g.iter() {
            assert!((v as usize) < n as usize);
        }
    }
}

#[test]
fn generate_zero_gives_empty_board() {
    let b = QueensBoard::generate(0);
    assert_eq!(b.genes().len(), 0);
    assert_eq!(b.len(), 0);
    assert_eq!(b.fitness(), 0);
    assert!(b.is_solution(0));
}

#[test]
fn four_queens_solution_scores_maximum() {
    let b = QueensBoard::from_genes(vec![1, 3, 0, 2]);
    assert_eq!(b.fitness(), 4);
    assert!(b.is_solution(4));
}

#[test]
fn four_queens_same_column_scores_zero() {
    let b = QueensBoard::from_genes(vec![0, 0, 0, 0]);
    assert_eq!(b.fitness(), 0);
    assert!(!b.is_solution(0));
}

#[test]
fn single_queen_scores_one() {
    let b = QueensBoard::from_genes(vec![0]);
    assert_eq!(b.fitness(), 1);
    assert!(b.is_solution(1));
}

#[test]
fn eight_queens_solution_scores_maximum() {
    let b = QueensBoard::from_genes(vec![0, 4, 7, 5, 2, 6, 1, 3]);
    assert_eq!(b.fitness(), 8);
    assert!(b.is_solution(8));
}

#[test]
fn diagonal_and_anti_diagonal_collisions_are_counted() {
    // both queens on the main diagonal
    let b = QueensBoard::from_genes(vec![0, 1]);
    assert_eq!(b.fitness(), 0);
    // both queens on the anti-diagonal
    let b2 = QueensBoard::from_genes(vec![1, 0]);
    assert_eq!(b2.fitness(), 0);
    // rows 1 and 2 share an anti-diagonal, row 0 is clear
    let b3 = QueensBoard::from_genes(vec![0, 2, 1]);
    assert_eq!(b3.fitness(), 1);
    assert!(!b3.is_solution(1));
}

#[test]
fn linear_and_pairwise_scoring_agree() {
    for a in 0..4u8 {
        for b in 0..4u8 {
            for c in 0..4u8 {
                for d in 0..4u8 {
                    let bd = QueensBoard::from_genes(vec![a, b, c, d]);
                    assert_eq!(bd.fitness(), bd.fitness_pairwise());
                }
            }
        }
    }
    for _ in 0..50 {
        let bd = QueensBoard::generate(16);
        assert_eq!(bd.fitness(), bd.fitness_pairwise());
    }
}

#[test]
fn fitness_always_within_range() {
    for _ in 0..20 {
        let b = QueensBoard::generate(10);
        assert!(b.fitness() <= 10);
    }
}

#[test]
fn is_solution_exactly_at_full_fitness() {
    let b = QueensBoard::from_genes(vec![1, 3, 0, 2]);
    assert!(b.is_solution(4));
    assert!(!b.is_solution(3));
    assert!(!b.is_solution(0));
    assert!(!b.is_solution(5));
}

#[test]
fn mutate_changes_only_the_given_index() {
    let mut rng = SmallRng::seed_from_u64(7);
    let mut b = QueensBoard::from_genes(vec![0, 1, 2, 3, 4, 5, 6, 7]);
    let before = b.genes().clone();
    b.mutate(&mut rng, 3);
    let after = b.genes();
    assert_eq!(after.len(), 8);
    assert!((after[3] as usize) < 8);
    for i in 0..8 {
        if i != 3 {
            assert_eq!(after[i], before[i]);
        }
    }
}

#[test]
fn mutate_on_single_cell_board_draws_zero() {
    let mut rng = SmallRng::seed_from_u64(9);
    let mut b = QueensBoard::from_genes(vec![0]);
    b.mutate(&mut rng, 0);
    assert_eq!(b.genes()[0], 0);
}

#[test]
fn rebuild_reproduces_the_supplied_sequence() {
    let mut b = QueensBoard::generate(4);
    b.rebuild(vec![2, 0, 3, 1]);
    assert_eq!(b.genes().as_slice(), &[2, 0, 3, 1]);
    assert_eq!(b.clone().into_genes(), vec![2, 0, 3, 1]);
}

#[test]
fn boards_compare_and_hash_structurally() {
    let a = QueensBoard::from_genes(vec![1, 3, 0, 2]);
    let b = QueensBoard::from_genes(vec![1, 3, 0, 2]);
    let c = QueensBoard::from_genes(vec![1, 3, 0, 3]);
    assert_eq!(a, b);
    assert_ne!(a, c);
    let mut set = std::collections::HashSet::new();
    set.insert(a.clone());
    assert!(set.contains(&b));
    assert!(!set.contains(&c));
}

#[test]
fn render_produces_n_lines_each_with_one_queen() {
    let b = QueensBoard::from_genes(vec![1, 3, 0, 2]);
    let text = b.render();
    assert_eq!(text.matches('\n').count(), 4);
    let lines: Vec<&str> = text.lines().collect();
    assert_eq!(lines.len(), 4);
    for (row, line) in lines.iter().enumerate() {
        assert_eq!(line.matches('|').count(), 5);
        assert_eq!(line.matches('Q').count(), 1);
        let q_cell = (line.find('Q').unwrap() - 1) / 2;
        assert_eq!(q_cell, b.genes()[row] as usize);
    }
}

#[test]
fn render_single_queen() {
    let b = QueensBoard::from_genes(vec![0]);
    assert_eq!(b.render(), "|Q|\n");
}

#[test]
fn render_matches_expected_grid() {
    let b = QueensBoard::from_genes(vec![1, 0]);
    assert_eq!(b.render(), "| |Q|\n|Q| |\n");
}
