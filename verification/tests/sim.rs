use lattice_snake::board::{Adjacency, Board};
use lattice_snake::eval::MAX_DEPTH;
use lattice_snake::game::{Direction, Game};

fn normal_targets(b: &Board, i: usize) -> Vec<usize> {
    match &b.nodes[i].connections {
        Adjacency::Normal(v) => v.clone(),
        Adjacency::Portal(_) => panic!("expected a normal cell"),
    }
}

fn targets(b: &Board, i: usize) -> Vec<usize> {
    match &b.nodes[i].connections {
        Adjacency::Normal(v) => v.clone(),
        Adjacency::Portal(t) => vec![*t],
    }
}

fn manual_game(board: Board, food_count: usize) -> Game {
    Game { board, direction: Direction::X, speed: 1, food_count, autonomous: false }
}

#[test]
fn adjacency_2d_center() {
    let b = Board::new_2d_no_portals(3);
    // the centre cell (1,1) of a 3x3 board touches exactly its four sides
    assert_eq!(normal_targets(&b, 4), vec![1, 3, 5, 7]);
    // a corner touches two
    assert_eq!(normal_targets(&b, 0), vec![1, 3]);
}

#[test]
fn adjacency_4d_origin() {
    let b = Board::new_4d_no_portals(2);
    assert_eq!(b.nodes.len(), 16);
    // the origin of a 2^4 lattice has one neighbour per axis
    assert_eq!(normal_targets(&b, 0), vec![1, 2, 4, 8]);
}

#[test]
fn adjacency_symmetric_sample() {
    let b = Board::new_2d_no_portals(4);
    for i in 0..b.nodes.len() {
        for j in 0..b.nodes.len() {
            let ij = normal_targets(&b, i).contains(&j);
            let ji = normal_targets(&b, j).contains(&i);
            assert_eq!(ij, ji);
        }
    }
}

#[test]
fn index_roundtrip_2d() {
    let b = Board::new_2d_no_portals(5);
    for i in 0..b.nodes.len() {
        let n = &b.nodes[i];
        assert_eq!(b.get_index(n.x, n.y, n.z, n.w), i);
    }
}

#[test]
fn index_roundtrip_4d() {
    let b = Board::new_4d_no_portals(3);
    assert_eq!(b.nodes.len(), 81);
    for i in 0..b.nodes.len() {
        let n = &b.nodes[i];
        assert_eq!(b.get_index(n.x, n.y, n.z, n.w), i);
    }
}

#[test]
fn coordinates_follow_index_formula() {
    let b = Board::new_4d_no_portals(3);
    let s = 3usize;
    let mut i = 0usize;
    for w in 0..s {
        for z in 0..s {
            for y in 0..s {
                for x in 0..s {
                    let n = &b.nodes[i];
                    assert_eq!((n.x, n.y, n.z, n.w), (x, y, z, w));
                    i += 1;
                }
            }
        }
    }
}

#[test]
fn invalid_dimensions_rejected() {
    let e = Board::new(6, 3).err().expect("three dimensions must be refused");
    assert_eq!(e.dimensions, 3);
    let e2 = Game::new(6, 5, 0, 3, false).err().expect("five dimensions must be refused");
    assert_eq!(e2.dimensions, 5);
    assert!(Board::new(6, 2).is_ok());
    assert!(Board::new(3, 4).is_ok());
}

#[test]
fn portal_overrides_adjacency() {
    let fresh = Board::new_2d_no_portals(6);
    let mut b = Board::new_2d_no_portals(6);
    b.inject_portal(5, 17);
    // the portalized cell keeps exactly one connection: its target
    assert_eq!(targets(&b, 5), vec![17]);
    assert!(matches!(b.nodes[5].connections, Adjacency::Portal(17)));
    // every other cell retains its unmodified adjacency
    for i in 0..b.nodes.len() {
        if i != 5 {
            assert_eq!(targets(&b, i), targets(&fresh, i));
        }
    }
}

#[test]
fn eval_no_food_is_ceiling() {
    let b = Board::new_2d_no_portals(6);
    assert_eq!(b.eval_move(12), MAX_DEPTH);
}

#[test]
fn eval_flagged_start_is_ceiling() {
    let mut b = Board::new_2d_no_portals(6);
    b.set_food(7, true);
    // a food-flagged start is not searched from, even with food adjacent
    assert_eq!(b.eval_move(7), MAX_DEPTH);
    // nor is a snake-occupied start
    b.set_food(2, true);
    assert_eq!(b.eval_move(1), MAX_DEPTH);
}

#[test]
fn eval_adjacent_food_is_depth_zero() {
    let mut b = Board::new_2d_no_portals(6);
    b.set_food(13, true);
    // 13 = (1,2) is a direct neighbour of 12 = (0,2)
    assert_eq!(b.eval_move(12), 0);
}

#[test]
fn eval_counts_lattice_distance() {
    let mut b = Board::new_2d_no_portals(6);
    b.set_food(35, true);
    // (0,2) to (5,5) is 8 steps, so food appears at frontier depth 7
    assert_eq!(b.eval_move(12), 7);
}

#[test]
fn eval_portal_counts_one_hop() {
    let mut b = Board::new_2d_no_portals(6);
    b.inject_portal(6, 35);
    b.set_food(35, true);
    // the only short path from (0,2) runs through the portal on (0,1):
    // one hop to the portal cell's exit, not a free teleport
    assert_eq!(b.eval_move(12), 1);
    // one cell further from the portal costs exactly one more level
    assert_eq!(b.eval_move(13), 2);
}

#[test]
fn manual_step_moves_head() {
    let mut g = manual_game(Board::new_2d_no_portals(6), 0);
    let died = g.tick_manual();
    assert!(!died);
    assert_eq!(g.board.snake, vec![1, 2]);
    assert!(g.board.nodes[2].is_snake);
    assert!(!g.board.nodes[0].is_snake);
}

#[test]
fn manual_boundary_death_resets() {
    let mut g = manual_game(Board::new_2d_no_portals(6), 3);
    for _ in 0..4 {
        assert!(!g.tick_manual());
    }
    // the head now sits on (5,0); one more +x step leaves the board
    assert_eq!(g.board.snake, vec![4, 5]);
    let died = g.tick_manual();
    assert!(died);
    assert_eq!(g.board.snake, vec![0, 1]);
    assert_eq!(g.board.count_food(), 3);
    assert_eq!(g.speed, 1);
    assert!(matches!(g.direction, Direction::X));
}

#[test]
fn manual_food_move_grows_by_one() {
    let mut g = manual_game(Board::new_2d_no_portals(6), 1);
    g.board.set_food(2, true);
    assert_eq!(g.board.count_food(), 1);
    let died = g.tick_manual();
    assert!(!died);
    assert_eq!(g.board.snake, vec![0, 1, 2]);
    assert!(!g.board.nodes[2].is_food);
    // the eaten piece was replenished elsewhere, one for one
    assert_eq!(g.board.count_food(), 1);
}

#[test]
fn manual_nonfood_move_keeps_length() {
    let mut g = manual_game(Board::new_2d_no_portals(6), 0);
    for _ in 0..3 {
        assert!(!g.tick_manual());
        assert_eq!(g.board.snake.len(), 2);
    }
}

#[test]
fn manual_portal_traversal_ignores_boundary() {
    let mut g = manual_game(Board::new_2d_no_portals(6), 0);
    g.board.inject_portal(1, 20);
    // moving +x off a portaled head traverses the portal instead
    let died = g.tick_manual();
    assert!(!died);
    assert_eq!(g.board.snake, vec![1, 20]);
}

#[test]
fn manual_vertical_moves() {
    let mut g = manual_game(Board::new_2d_no_portals(6), 0);
    g.direction = Direction::Y;
    g.speed = 1;
    assert!(!g.tick_manual());
    // head (1,0) stepped to (1,1) = index 7
    assert_eq!(g.board.snake, vec![1, 7]);
    g.speed = -1;
    assert!(!g.tick_manual());
    assert_eq!(g.board.snake, vec![7, 1]);
}

#[test]
fn manual_z_move_in_2d_is_illegal() {
    let mut g = manual_game(Board::new_2d_no_portals(6), 2);
    g.direction = Direction::Z;
    // a 2d world has a single layer: stepping along z leaves it
    let died = g.tick_manual();
    assert!(died);
    assert_eq!(g.board.snake, vec![0, 1]);
    assert_eq!(g.board.count_food(), 2);
}

#[test]
fn game_new_scatters_configured_food() {
    let g = Game::new(6, 2, 4, 7, true).ok().expect("a 2d world must build");
    assert_eq!(g.board.count_food(), 7);
    assert_eq!(g.board.snake, vec![0, 1]);
    assert_eq!(g.board.nodes.len(), 36);
    for n in &g.board.nodes {
        assert!(!(n.is_food && n.is_snake));
    }
}

#[test]
fn reset_scatters_food_on_free_cells() {
    let mut g = Game::new(4, 2, 0, 5, false).ok().expect("a 2d world must build");
    g.direction = Direction::Y;
    g.speed = -1;
    g.reset();
    assert_eq!(g.board.count_food(), 5);
    assert_eq!(g.board.snake, vec![0, 1]);
    assert_eq!(g.speed, 1);
    assert!(matches!(g.direction, Direction::X));
    for (i, n) in g.board.nodes.iter().enumerate() {
        assert!(!(n.is_food && n.is_snake));
        assert_eq!(n.is_snake, i == 0 || i == 1);
    }
}

#[test]
fn auto_takes_adjacent_food_greedily() {
    let mut g = Game { board: Board::new_2d_no_portals(6), direction: Direction::X, speed: 1, food_count: 1, autonomous: true };
    g.board.set_food(2, true);
    let died = g.tick_auto();
    assert!(!died);
    assert_eq!(g.board.snake, vec![0, 1, 2]);
    assert!(!g.board.nodes[2].is_food);
    assert_eq!(g.board.count_food(), 1);
}

#[test]
fn auto_ranks_moves_by_food_distance() {
    let mut g = Game { board: Board::new_2d_no_portals(6), direction: Direction::X, speed: 1, food_count: 1, autonomous: true };
    g.board.set_food(5, true);
    // of the head's free neighbours, (2,0) lies 3 cells from the food and
    // (1,1) lies 5: the evaluator must pick (2,0) whatever the shuffle
    let died = g.tick_auto();
    assert!(!died);
    assert_eq!(g.board.snake, vec![1, 2]);
    assert_eq!(g.board.count_food(), 1);
}

#[test]
fn auto_walled_in_dies_and_resets() {
    let mut g = Game { board: Board::new_2d_no_portals(2), direction: Direction::X, speed: 1, food_count: 2, autonomous: true };
    g.board.set_food(3, true);
    // eat (1,1): grows to three cells, the one free cell gets the new food
    assert!(!g.tick_auto());
    assert_eq!(g.board.snake, vec![0, 1, 3]);
    assert_eq!(g.board.count_food(), 1);
    assert!(g.board.nodes[2].is_food);
    // eat (0,1): the board is now entirely snake, nothing left to scatter
    assert!(!g.tick_auto());
    assert_eq!(g.board.snake, vec![0, 1, 3, 2]);
    assert_eq!(g.board.count_food(), 0);
    // every neighbour of the head is snake: death, then a fresh episode
    let died = g.tick_auto();
    assert!(died);
    assert_eq!(g.board.snake, vec![0, 1]);
    assert_eq!(g.board.count_food(), 2);
}

#[test]
fn eval_never_exceeds_ceiling_on_portal_maze() {
    let mut b = Board::new_2d_no_portals(6);
    // a portal loop: cycles must not hang or overrun the ceiling
    b.inject_portal(6, 7);
    b.inject_portal(7, 6);
    for i in 2..b.nodes.len() {
        let r = b.eval_move(i);
        assert!((0..=MAX_DEPTH).contains(&r));
    }
}

#[test]
fn manual_portal_beats_boundary_death() {
    let mut g = manual_game(Board::new_2d_no_portals(6), 0);
    g.board.inject_portal(5, 8);
    // walk the head to the +x boundary cell (5,0)
    for _ in 0..4 {
        assert!(!g.tick_manual());
    }
    assert_eq!(g.board.snake, vec![4, 5]);
    // another +x step leaves the board, but the portal takes precedence
    let died = g.tick_manual();
    assert!(!died);
    assert_eq!(g.board.snake, vec![5, 8]);
}

#[test]
fn manual_w_move_in_4d() {
    let mut g = manual_game(Board::new_4d_no_portals(3), 0);
    g.direction = Direction::W;
    assert!(!g.tick_manual());
    // head (1,0,0,0) stepped to (1,0,0,1) = 1 + 27
    assert_eq!(g.board.snake, vec![1, 28]);
}

#[test]
fn adjacency_symmetric_4d_sample() {
    let b = Board::new_4d_no_portals(2);
    for i in 0..b.nodes.len() {
        for j in 0..b.nodes.len() {
            assert_eq!(
                normal_targets(&b, i).contains(&j),
                normal_targets(&b, j).contains(&i)
            );
        }
    }
}
