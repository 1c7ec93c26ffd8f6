use rand::rngs::StdRng;
use rand::SeedableRng;
use wfc::board::{Board, Tile};
use wfc::rules::{AdjacencyMap, BoardCharacter, ABOVE, BELOW, LEFT, RIGHT};
use wfc::solver::solve;

fn tile(name: &str, glyph: char, right: Vec<usize>, left: Vec<usize>, above: Vec<usize>, below: Vec<usize>) -> BoardCharacter {
    BoardCharacter { name: name.to_string(), character: glyph, right, left, above, below }
}

fn ids(board: &Board) -> Vec<Option<usize>> {
    board
        .cells
        .iter()
        .map(|c| match c {
            Tile::Collapsed(t) => Some(*t),
            Tile::Uncollapsed(_) => None,
        })
        .collect()
}

fn sorted_domain(board: &Board, i: usize) -> Vec<usize> {
    match &board.cells[i] {
        Tile::Uncollapsed(d) => {
            let mut d = d.clone();
            d.sort();
            d
        }
        Tile::Collapsed(_) => panic!("cell {} is collapsed", i),
    }
}

/// Checks every adjacent pair the way the solver reads the rules.
fn satisfies_rules(board: &Board, rules: &AdjacencyMap) -> bool {
    let t = ids(board);
    for p in 0..board.cells.len() {
        let v = t[p].unwrap();
        for d in 0..4 {
            if let Some(q) = board.neighbor(p, d) {
                let w = t[q].unwrap();
                if !rules.tiles[w].valid_neighbors(d).contains(&v) {
                    return false;
                }
            }
        }
    }
    true
}

fn two_colour_rules() -> AdjacencyMap {
    // a stripe pattern: a tile allows only the other tile left and right of it,
    // and only itself above and below.
    AdjacencyMap {
        tiles: vec![
            tile("black", '#', vec![1], vec![1], vec![0], vec![0]),
            tile("white", ' ', vec![0], vec![0], vec![1], vec![1]),
        ],
    }
}

#[test]
fn single_tile_fills_grid() {
    let rules = AdjacencyMap { tiles: vec![tile("a", 'a', vec![0], vec![0], vec![0], vec![0])] };
    let (board, ok) = solve(&rules, 3, 3, 7);
    assert!(ok);
    assert_eq!(ids(&board), vec![Some(0); 9]);
}

#[test]
fn unsatisfiable_pair_fails() {
    let rules = AdjacencyMap {
        tiles: vec![
            tile("a", 'a', vec![], vec![], vec![], vec![]),
            tile("b", 'b', vec![], vec![], vec![], vec![]),
        ],
    };
    let (board, ok) = solve(&rules, 1, 2, 1);
    assert!(!ok);
    for i in 0..2 {
        assert_eq!(sorted_domain(&board, i), vec![0, 1]);
    }
    let (_, ok) = solve(&rules, 2, 1, 1);
    assert!(!ok);
}

#[test]
fn single_cell_grid_succeeds() {
    let rules = AdjacencyMap {
        tiles: vec![
            tile("a", 'a', vec![], vec![], vec![], vec![]),
            tile("b", 'b', vec![], vec![], vec![], vec![]),
        ],
    };
    for seed in 0..10u64 {
        let (board, ok) = solve(&rules, 1, 1, seed);
        assert!(ok);
        assert!(ids(&board)[0].is_some());
    }
}

#[test]
fn two_cell_directed() {
    let rules = AdjacencyMap {
        tiles: vec![
            tile("A", 'A', vec![1], vec![], vec![], vec![]),
            tile("B", 'B', vec![], vec![0], vec![], vec![]),
        ],
    };
    for seed in 0..16u64 {
        let (board, ok) = solve(&rules, 1, 2, seed);
        assert!(ok);
        assert_eq!(ids(&board), vec![Some(0), Some(1)]);
    }
}

#[test]
fn same_seed_same_grid() {
    let rules = AdjacencyMap {
        tiles: vec![
            tile("a", 'a', vec![0, 1, 2], vec![0, 1, 2], vec![0, 1, 2], vec![0, 1, 2]),
            tile("b", 'b', vec![0, 1, 2], vec![0, 1, 2], vec![0, 1, 2], vec![0, 1, 2]),
            tile("c", 'c', vec![0, 1, 2], vec![0, 1, 2], vec![0, 1, 2], vec![0, 1, 2]),
        ],
    };
    let (b1, ok1) = solve(&rules, 6, 5, 42);
    let (b2, ok2) = solve(&rules, 6, 5, 42);
    assert!(ok1 && ok2);
    assert_eq!(ids(&b1), ids(&b2));
    assert_eq!(b1.render(&rules), b2.render(&rules));
}

#[test]
fn seeds_vary_the_choice() {
    let rules = AdjacencyMap {
        tiles: vec![
            tile("a", 'a', vec![], vec![], vec![], vec![]),
            tile("b", 'b', vec![], vec![], vec![], vec![]),
        ],
    };
    let mut seen = [false, false];
    for seed in 0..64u64 {
        let (board, ok) = solve(&rules, 1, 1, seed);
        assert!(ok);
        seen[ids(&board)[0].unwrap()] = true;
    }
    assert!(seen[0] && seen[1]);
}

#[test]
fn solved_grid_satisfies_rules() {
    let rules = two_colour_rules();
    for seed in 0..8u64 {
        let (board, ok) = solve(&rules, 4, 6, seed);
        assert!(ok);
        assert!(satisfies_rules(&board, &rules));
        let t = ids(&board);
        // columns alternate; each column is uniform
        for r in 0..4 {
            for c in 0..5 {
                assert_ne!(t[r * 6 + c], t[r * 6 + c + 1]);
            }
        }
        for r in 0..3 {
            for c in 0..6 {
                assert_eq!(t[r * 6 + c], t[(r + 1) * 6 + c]);
            }
        }
    }
}

#[test]
fn empty_grid_is_solved() {
    let rules = two_colour_rules();
    let (board, ok) = solve(&rules, 0, 5, 3);
    assert!(ok);
    assert!(board.cells.is_empty());
}

#[test]
fn create_fills_full_domains() {
    let rules = two_colour_rules();
    let board = Board::create(&rules, 2, 3);
    assert_eq!(board.cells.len(), 6);
    for i in 0..6 {
        assert_eq!(sorted_domain(&board, i), vec![0, 1]);
    }
    assert!(!board.is_collapsed());
}

#[test]
fn tile_constructors() {
    let rules = two_colour_rules();
    match Tile::default_domain(&rules) {
        Tile::Uncollapsed(d) => assert_eq!(d, vec![0, 1]),
        Tile::Collapsed(_) => panic!("expected a domain"),
    }
    match Tile::domain_from(5) {
        Tile::Uncollapsed(d) => assert_eq!(d, vec![5]),
        Tile::Collapsed(_) => panic!("expected a domain"),
    }
}

#[test]
fn neighbour_offsets() {
    let rules = two_colour_rules();
    let board = Board::create(&rules, 3, 3);
    // centre cell 4 = (1, 1)
    assert_eq!(board.neighbor(4, RIGHT), Some(3));
    assert_eq!(board.neighbor(4, LEFT), Some(5));
    assert_eq!(board.neighbor(4, ABOVE), Some(7));
    assert_eq!(board.neighbor(4, BELOW), Some(1));
    // corner cell 0 = (0, 0)
    assert_eq!(board.neighbor(0, RIGHT), None);
    assert_eq!(board.neighbor(0, LEFT), Some(1));
    assert_eq!(board.neighbor(0, ABOVE), Some(3));
    assert_eq!(board.neighbor(0, BELOW), None);
    // no wraparound at the end of a row
    assert_eq!(board.neighbor(2, LEFT), None);
    assert_eq!(board.neighbor(3, RIGHT), None);
    assert_eq!(board.neighbor(4, 7), None);
}

#[test]
fn lowest_entropy_first_of_smallest() {
    let rules = two_colour_rules();
    let mut board = Board::create(&rules, 2, 2);
    assert_eq!(board.get_lowest_entropy(), Some(0));
    board.cells[0] = Tile::Collapsed(0);
    board.cells[2] = Tile::Uncollapsed(vec![1]);
    board.cells[3] = Tile::Uncollapsed(vec![0]);
    assert_eq!(board.get_lowest_entropy(), Some(2));
    board.cells[1] = Tile::Uncollapsed(vec![]);
    assert_eq!(board.get_lowest_entropy(), Some(1));
    for i in 0..4 {
        board.cells[i] = Tile::Collapsed(1);
    }
    assert_eq!(board.get_lowest_entropy(), None);
    assert!(board.is_collapsed());
}

#[test]
fn valid_placement_reads_neighbour_rules() {
    let rules = two_colour_rules();
    let mut board = Board::create(&rules, 1, 3);
    board.cells[0] = Tile::Collapsed(0);
    // cell 1 lies right of cell 0: black allows only white there
    assert!(board.is_valid_placement(&rules, 1, 1));
    assert!(!board.is_valid_placement(&rules, 0, 1));
    // uncollapsed and absent neighbours impose nothing
    assert!(board.is_valid_placement(&rules, 0, 2));
    assert!(board.is_valid_placement(&rules, 1, 0));
}

#[test]
fn propagate_removes_and_logs() {
    let rules = two_colour_rules();
    let mut board = Board::create(&rules, 2, 2);
    board.cells[0] = Tile::Collapsed(0);
    let log = board.propagate_collapse(&rules, 0);
    // cell 1 = (0, 1): 0 lies right of it; only white allows black on its right
    assert_eq!(sorted_domain(&board, 1), vec![1]);
    // cell 2 = (1, 0): 0 lies above it; only black allows black above it
    assert_eq!(sorted_domain(&board, 2), vec![0]);
    // cell 3 is not adjacent
    assert_eq!(sorted_domain(&board, 3), vec![0, 1]);
    assert_eq!(log, vec![(1, 0), (2, 1)]);
}

#[test]
fn propagate_restore_round_trip() {
    let rules = two_colour_rules();
    let mut board = Board::create(&rules, 3, 3);
    board.cells[4] = Tile::Collapsed(1);
    board.cells[1] = Tile::Uncollapsed(vec![1, 0]);
    let before: Vec<Vec<usize>> = (0..9).filter(|i| *i != 4).map(|i| sorted_domain(&board, i)).collect();
    let log = board.propagate_collapse(&rules, 4);
    assert!(!log.is_empty());
    board.restore_domains(log);
    let after: Vec<Vec<usize>> = (0..9).filter(|i| *i != 4).map(|i| sorted_domain(&board, i)).collect();
    assert_eq!(before, after);
    assert_eq!(ids(&board)[4], Some(1));
}

#[test]
fn restore_adds_back_and_replaces_collapsed() {
    let rules = two_colour_rules();
    let mut board = Board::create(&rules, 1, 3);
    board.cells[0] = Tile::Uncollapsed(vec![1]);
    board.cells[1] = Tile::Collapsed(1);
    board.restore_domains(vec![(0, 0), (0, 1), (1, 0), (9, 0)]);
    assert_eq!(sorted_domain(&board, 0), vec![0, 1]);
    // the collapsed cell is replaced by a domain holding the logged tile alone
    assert_eq!(sorted_domain(&board, 1), vec![0]);
    assert_eq!(sorted_domain(&board, 2), vec![0, 1]);
}

#[test]
fn failed_collapse_restores_state() {
    let rules = AdjacencyMap {
        tiles: vec![
            tile("a", 'a', vec![], vec![], vec![], vec![]),
            tile("b", 'b', vec![], vec![], vec![], vec![]),
        ],
    };
    let (board, ok) = solve(&rules, 2, 2, 11);
    assert!(!ok);
    for i in 0..4 {
        assert_eq!(sorted_domain(&board, i), vec![0, 1]);
    }
}

#[test]
fn render_shows_glyphs() {
    let rules = two_colour_rules();
    let mut board = Board::create(&rules, 2, 3);
    board.cells[0] = Tile::Collapsed(0);
    board.cells[4] = Tile::Collapsed(1);
    assert_eq!(board.render(&rules), vec![vec!['#', '.', '.'], vec!['.', ' ', '.']]);
}

#[test]
fn rule_lookup() {
    let rules = two_colour_rules();
    assert_eq!(rules.len(), 2);
    assert!(rules.allows(0, RIGHT, 1));
    assert!(!rules.allows(0, RIGHT, 0));
    assert!(rules.allows(1, BELOW, 1));
    assert_eq!(rules.character(0), '#');
    assert_eq!(rules.tiles[1].valid_neighbors(ABOVE), &vec![1]);
}

#[test]
fn collapse_with_own_generator() {
    let rules = two_colour_rules();
    let mut board = Board::create(&rules, 3, 4);
    let mut rng = StdRng::seed_from_u64(5);
    assert!(board.collapse(&rules, &mut rng));
    assert!(board.is_collapsed());
    assert!(satisfies_rules(&board, &rules));
}

fn three_tile_rules() -> AdjacencyMap {
    // tile 1 refuses everything; tiles 0 and 2 allow everything.
    AdjacencyMap {
        tiles: vec![
            tile("a", 'a', vec![0, 1, 2], vec![0, 1, 2], vec![0, 1, 2], vec![0, 1, 2]),
            tile("b", 'b', vec![], vec![], vec![], vec![]),
            tile("c", 'c', vec![0, 1, 2], vec![0, 1, 2], vec![0, 1, 2], vec![0, 1, 2]),
        ],
    }
}

#[test]
fn propagate_keeps_order() {
    let rules = three_tile_rules();
    let mut board = Board::create(&rules, 1, 2);
    board.cells[0] = Tile::Collapsed(0);
    board.cells[1] = Tile::Uncollapsed(vec![2, 1, 0]);
    let log = board.propagate_collapse(&rules, 0);
    match &board.cells[1] {
        Tile::Uncollapsed(d) => assert_eq!(d, &vec![2, 0]),
        Tile::Collapsed(_) => panic!("expected a domain"),
    }
    assert_eq!(log, vec![(1, 1)]);
}

#[test]
fn restore_appends_in_log_order() {
    let rules = three_tile_rules();
    let mut board = Board::create(&rules, 1, 2);
    board.cells[0] = Tile::Uncollapsed(vec![1]);
    board.cells[1] = Tile::Collapsed(0);
    board.restore_domains(vec![(0, 2), (1, 2), (0, 0), (1, 1), (0, 2)]);
    match &board.cells[0] {
        Tile::Uncollapsed(d) => assert_eq!(d, &vec![1, 2, 0]),
        Tile::Collapsed(_) => panic!("expected a domain"),
    }
    match &board.cells[1] {
        Tile::Uncollapsed(d) => assert_eq!(d, &vec![2, 1]),
        Tile::Collapsed(_) => panic!("expected a domain"),
    }
}

#[test]
fn collapsed_grid_is_left_alone() {
    let rules = two_colour_rules();
    let mut board = Board::create(&rules, 1, 2);
    board.cells[0] = Tile::Collapsed(0);
    board.cells[1] = Tile::Collapsed(1);
    let mut rng = StdRng::seed_from_u64(0);
    assert!(board.collapse(&rules, &mut rng));
    assert_eq!(ids(&board), vec![Some(0), Some(1)]);
}

#[test]
fn empty_domain_deadlocks() {
    let rules = three_tile_rules();
    let mut board = Board::create(&rules, 1, 3);
    board.cells[2] = Tile::Uncollapsed(vec![]);
    let mut rng = StdRng::seed_from_u64(0);
    assert!(!board.collapse(&rules, &mut rng));
    assert_eq!(sorted_domain(&board, 0), vec![0, 1, 2]);
    assert_eq!(sorted_domain(&board, 2), Vec::<usize>::new());
}
