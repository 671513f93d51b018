//! The snake controller: per-tick moves, growth, death and episode reset.

use vstd::prelude::*;
use crate::board::{
    Board, ConfigError, Node, food_total, index_spec, lemma_food_total_zero,
    lemma_snake_total_pair,
};
use crate::random::{random_below, shuffle_indices};
use crate::eval::eval_spec;

verus! {

/// One of the four lattice axes a manual move can step along.
#[derive(Clone, Copy, PartialEq, Eq, Structural, Debug)]
pub enum Direction {
    X,
    Y,
    Z,
    W,
}

/// The whole game: the world plus the controller's tick state.
pub struct Game {
    pub board: Board,
    pub direction: Direction,
    pub speed: i32,
    pub food_count: usize,
    pub autonomous: bool,
}

impl Game {
    pub open spec fn wf(self) -> bool {
        &&& self.board.wf()
        &&& (self.speed == 1 || self.speed == -1)
        &&& self.food_count + 2 <= self.board.nodes.len()
    }

    /// Index of the snake's head: the last element of the sequence.
    pub open spec fn head(self) -> int {
        self.board.snake@.last() as int
    }

    /// The head sits on a portal cell.
    pub open spec fn head_portaled(self) -> bool {
        self.board.nodes[self.head()].connections.is_portal()
    }

    /// The coordinate of a cell along the current direction's axis.
    pub open spec fn axis_coord(self, node: Node) -> int {
        match self.direction {
            Direction::X => node.x as int,
            Direction::Y => node.y as int,
            Direction::Z => node.z as int,
            Direction::W => node.w as int,
        }
    }

    /// The per-axis extent along the current direction: `size` for x and y,
    /// the upper extent for z and w (a single layer in two dimensions).
    pub open spec fn axis_limit(self) -> int {
        match self.direction {
            Direction::X => self.board.size as int,
            Direction::Y => self.board.size as int,
            Direction::Z => self.board.upper_extent(),
            Direction::W => self.board.upper_extent(),
        }
    }

    /// A manual move is legal when the head is portaled (portal traversal
    /// ignores boundaries) or the stepped coordinate stays on the board.
    pub open spec fn manual_legal(self) -> bool {
        self.head_portaled() || {
            let c = self.axis_coord(self.board.nodes[self.head()]) + self.speed;
            0 <= c < self.axis_limit()
        }
    }

    /// The cell a legal manual move enters: the portal exit, or the
    /// neighbouring cell along the direction's axis.
    pub open spec fn manual_target(self) -> int {
        if self.head_portaled() {
            self.board.nodes[self.head()].connections.targets()[0] as int
        } else {
            let h = self.board.nodes[self.head()];
            let s = self.board.size as int;
            match self.direction {
                Direction::X => index_spec(h.x + self.speed, h.y as int, h.z as int, h.w as int, s),
                Direction::Y => index_spec(h.x as int, h.y + self.speed, h.z as int, h.w as int, s),
                Direction::Z => index_spec(h.x as int, h.y as int, h.z + self.speed, h.w as int, s),
                Direction::W => index_spec(h.x as int, h.y as int, h.z as int, h.w + self.speed, s),
            }
        }
    }

    /// Whether a cell index currently holds food, as a predicate for ranking.
    pub open spec fn food_pred(self) -> spec_fn(usize) -> bool {
        |t: usize| self.board.nodes[t as int].is_food
    }

    /// The connection targets of the snake's head, in order.
    pub open spec fn head_targets(self) -> Seq<usize> {
        self.board.nodes[self.head()].connections.targets()
    }

    /// The head's food-holding neighbours, in connection order.
    pub open spec fn food_neighbors(self) -> Seq<usize> {
        self.head_targets().filter(self.food_pred())
    }

    /// The autonomous controller is stuck: no neighbour of the head holds
    /// food, and every neighbour is snake-occupied.
    pub open spec fn auto_stuck(self) -> bool {
        &&& forall|k: int|
            0 <= k < self.head_targets().len() ==> !self.board.nodes[(
            #[trigger] self.head_targets()[k]) as int].is_food
        &&& forall|k: int|
            0 <= k < self.head_targets().len() ==> self.board.nodes[(
            #[trigger] self.head_targets()[k]) as int].is_snake
    }

    /// An accepted ranked move: `c` is a snake-free neighbour of the head,
    /// the snake translated onto it, and no snake-free neighbour ranks
    /// strictly better under the move evaluator.
    pub open spec fn ranked_move_ok(self, post: Game, c: usize) -> bool {
        &&& self.head_targets().contains(c)
        &&& c < self.board.nodes.len()
        &&& !self.board.nodes[c as int].is_snake
        &&& !self.board.nodes[c as int].is_food
        &&& post.board.snake@ == self.board.snake@.subrange(
            1,
            self.board.snake@.len() as int,
        ).push(c)
        &&& forall|k: int|
            0 <= k < self.head_targets().len() && !self.board.nodes[(
            #[trigger] self.head_targets()[k]) as int].is_snake ==> eval_spec(self.board, c as int)
                <= eval_spec(self.board, self.head_targets()[k] as int)
    }

    /// What every episode restart leaves behind: the snake back on its two
    /// starting cells, the configured amount of food on snake-free cells, and
    /// the controls at their initial values.
    pub open spec fn reset_outcome(self) -> bool {
        &&& self.board.snake@ == seq![0usize, 1usize]
        &&& self.direction is X
        &&& self.speed == 1
        &&& food_total(self.board.nodes@) == self.food_count
        &&& forall|i: int|
            0 <= i < self.board.nodes.len() ==> !((#[trigger] self.board.nodes[i]).is_food
                && self.board.nodes[i].is_snake)
        &&& forall|i: int|
            0 <= i < self.board.nodes.len() ==> ((#[trigger] self.board.nodes[i]).is_snake <==> (i
                == 0 || i == 1))
    }

    /// The shape of the world is untouched: same sizes, and cell for cell the
    /// same coordinates and the same connections.
    pub open spec fn same_world_shape(self, other: Game) -> bool {
        &&& other.board.size == self.board.size
        &&& other.board.dimensions == self.board.dimensions
        &&& other.board.nodes.len() == self.board.nodes.len()
        &&& other.food_count == self.food_count
        &&& other.autonomous == self.autonomous
        &&& forall|i: int|
            0 <= i < self.board.nodes.len() ==> {
                &&& (#[trigger] other.board.nodes[i]).x == self.board.nodes[i].x
                &&& other.board.nodes[i].y == self.board.nodes[i].y
                &&& other.board.nodes[i].z == self.board.nodes[i].z
                &&& other.board.nodes[i].w == self.board.nodes[i].w
                &&& other.board.nodes[i].connections.targets()
                    == self.board.nodes[i].connections.targets()
                &&& (other.board.nodes[i].connections.is_portal()
                    <==> self.board.nodes[i].connections.is_portal())
            }
    }

    /// Build the configured world: lattice, portals, food, snake and controls.
    /// An unsupported dimensionality is rejected with a configuration error.
    pub fn new(
        size: usize,
        dimensions: usize,
        portal_count: usize,
        food_count: usize,
        autonomous: bool,
    ) -> (r: Result<Game, ConfigError>)
        requires
            2 <= size,
            dimensions == 2 ==> size * size <= usize::MAX,
            dimensions == 4 ==> size * size * size * size <= usize::MAX,
            food_count + 2 <= volume_of(size as int, dimensions as int),
        ensures
            r is Ok <==> (dimensions == 2 || dimensions == 4),
            r matches Err(e) ==> e.dimensions == dimensions,
            r matches Ok(g) ==> {
                &&& g.wf()
                &&& g.board.size == size
                &&& g.board.dimensions == dimensions
                &&& g.food_count == food_count
                &&& g.autonomous == autonomous
                &&& g.board.lattice_except_portals()
                &&& g.reset_outcome()
            },
    {
        let board = match Board::new(size, dimensions) {
            Ok(b) => b,
            Err(e) => {
                return Err(e);
            },
        };
        let mut game = Game {
            board,
            direction: Direction::X,
            speed: 1,
            food_count,
            autonomous,
        };
        proof {
            assert(game.board.lattice_except_portals());
        }
        game.board.add_portals(portal_count);
        proof {
            lemma_food_total_zero(game.board.nodes@);
            lemma_snake_total_pair(game.board.nodes@);
        }
        game.board.place_food(food_count);
        proof {
            assert forall|i: int| 0 <= i < game.board.nodes.len() implies !((
            #[trigger] game.board.nodes[i]).is_food && game.board.nodes[i].is_snake) by {}
        }
        Ok(game)
    }

    /// Restart the episode: clear every flag, put the snake back on its two
    /// starting cells, re-scatter the configured food on snake-free cells, and
    /// reset direction and speed. The world's topology persists.
    pub fn reset(&mut self)
        requires
            old(self).wf(),
        ensures
            final(self).wf(),
            old(self).same_world_shape(*final(self)),
            old(self).board.lattice_except_portals() ==> final(self).board.lattice_except_portals(),
            final(self).reset_outcome(),
    {
        let n = self.board.nodes.len();
        // wipe both flags from every cell
        let mut i: usize = 0;
        while i < n
            invariant
                i <= n,
                n == self.board.nodes.len(),
                old(self).speed == 1 || old(self).speed == -1,
                self.speed == old(self).speed,
                self.direction == old(self).direction,
                self.food_count == old(self).food_count,
                self.autonomous == old(self).autonomous,
                self.board.size == old(self).board.size,
                self.board.dimensions == old(self).board.dimensions,
                self.board.snake == old(self).board.snake,
                self.food_count + 2 <= n,
                self.board.wf_topology(),
                old(self).board.lattice_except_portals() ==> self.board.lattice_except_portals(),
                forall|ii: int|
                    0 <= ii < n ==> {
                        &&& (#[trigger] self.board.nodes[ii]).x == old(self).board.nodes[ii].x
                        &&& self.board.nodes[ii].y == old(self).board.nodes[ii].y
                        &&& self.board.nodes[ii].z == old(self).board.nodes[ii].z
                        &&& self.board.nodes[ii].w == old(self).board.nodes[ii].w
                        &&& self.board.nodes[ii].connections.targets()
                            == old(self).board.nodes[ii].connections.targets()
                        &&& (self.board.nodes[ii].connections.is_portal()
                            <==> old(self).board.nodes[ii].connections.is_portal())
                    },
                forall|ii: int|
                    0 <= ii < i ==> !(#[trigger] self.board.nodes[ii]).is_food && !self.board.nodes[ii].is_snake,
            decreases n - i,
        {
            self.board.set_flags(i, false, false);
            i += 1;
        }
        // the snake returns to its two starting cells
        let mut two: Vec<usize> = Vec::new();
        two.push(0);
        two.push(1);
        self.board.snake = two;
        self.board.set_flags(0, false, true);
        self.board.set_flags(1, false, true);
        proof {
            assert(self.board.snake@ == seq![0usize, 1usize]);
            lemma_food_total_zero(self.board.nodes@);
            assert forall|ii: int|
                0 <= ii < n implies ((#[trigger] self.board.nodes[ii]).is_snake <==> (ii == 0 || ii
                == 1)) by {}
            lemma_snake_total_pair(self.board.nodes@);
            assert forall|k: int| 0 <= k < self.board.snake@.len() implies (
            #[trigger] self.board.snake@[k]) < self.board.nodes.len() by {
                assert(self.board.snake@[k] == 0usize || self.board.snake@[k] == 1usize);
            }
        }
        self.board.place_food(self.food_count);
        self.direction = Direction::X;
        self.speed = 1;
        proof {
            assert forall|ii: int| 0 <= ii < self.board.nodes.len() implies ((
            #[trigger] self.board.nodes[ii]).is_snake <==> self.board.snake@.contains(ii as usize))
                by {
                if ii == 0 || ii == 1 {
                    assert(self.board.snake@[ii] == ii as usize);
                } else {
                    assert forall|k: int|
                        0 <= k < self.board.snake@.len() implies self.board.snake@[k] != ii as usize
                        by {}
                }
            }
            assert forall|ii: int| 0 <= ii < self.board.nodes.len() implies !((
            #[trigger] self.board.nodes[ii]).is_food && self.board.nodes[ii].is_snake) by {}
        }
    }
}

/// Number of cells of a lattice of the given extent and dimensionality.
pub open spec fn volume_of(size: int, dimensions: int) -> int {
    crate::board::volume(size, dimensions)
}

/// Flag changes alone, with the snake sequence untouched, keep the snake
/// flags matching the sequence as long as no snake flag changed.
proof fn lemma_flags_match_transfer(a: Board, b: Board)
    requires
        a.flags_match(),
        b.snake@ == a.snake@,
        b.nodes.len() == a.nodes.len(),
        forall|i: int|
            0 <= i < a.nodes.len() ==> (#[trigger] b.nodes[i]).is_snake == a.nodes[i].is_snake,
    ensures
        b.flags_match(),
{
    assert forall|i: int|
        0 <= i < b.nodes.len() implies ((#[trigger] b.nodes[i]).is_snake <==> b.snake@.contains(
        i as usize)) by {
        assert(a.nodes[i].is_snake <==> a.snake@.contains(i as usize));
    }
}

/// Appending one cell to the snake and flagging exactly that cell keeps the
/// snake flags matching the sequence.
proof fn lemma_flags_match_push(a: Board, b: Board, t: usize)
    requires
        a.flags_match(),
        t < a.nodes.len(),
        b.nodes.len() == a.nodes.len(),
        b.snake@ == a.snake@.push(t),
        forall|i: int|
            0 <= i < a.nodes.len() && i != t ==> (#[trigger] b.nodes[i]).is_snake
                == a.nodes[i].is_snake,
        b.nodes[t as int].is_snake,
    ensures
        b.flags_match(),
{
    assert forall|i: int|
        0 <= i < b.nodes.len() implies ((#[trigger] b.nodes[i]).is_snake <==> b.snake@.contains(
        i as usize)) by {
        if i == t {
            assert(b.snake@[b.snake@.len() - 1] == t);
        } else {
            assert(a.nodes[i].is_snake <==> a.snake@.contains(i as usize));
            if b.snake@.contains(i as usize) {
                let k = choose|k: int| 0 <= k < b.snake@.len() && b.snake@[k] == i as usize;
                assert(k < a.snake@.len());
                assert(a.snake@[k] == i as usize);
            }
            if a.snake@.contains(i as usize) {
                let k = choose|k: int| 0 <= k < a.snake@.len() && a.snake@[k] == i as usize;
                assert(b.snake@[k] == i as usize);
            }
        }
    }
}

/// Dropping the tail cell, and clearing its flag exactly when it no longer
/// appears in the remaining sequence, keeps the snake flags matching.
proof fn lemma_flags_match_pop(a: Board, b: Board, tail: usize)
    requires
        a.flags_match(),
        a.snake@.len() > 0,
        a.snake@[0] == tail,
        b.nodes.len() == a.nodes.len(),
        tail < a.nodes.len(),
        b.snake@ == a.snake@.subrange(1, a.snake@.len() as int),
        forall|i: int|
            0 <= i < a.nodes.len() && i != tail ==> (#[trigger] b.nodes[i]).is_snake
                == a.nodes[i].is_snake,
        b.nodes[tail as int].is_snake == b.snake@.contains(tail),
    ensures
        b.flags_match(),
{
    assert forall|i: int|
        0 <= i < b.nodes.len() implies ((#[trigger] b.nodes[i]).is_snake <==> b.snake@.contains(
        i as usize)) by {
        if i != tail {
            assert(a.nodes[i].is_snake <==> a.snake@.contains(i as usize));
            if b.snake@.contains(i as usize) {
                let k = choose|k: int| 0 <= k < b.snake@.len() && b.snake@[k] == i as usize;
                assert(a.snake@[k + 1] == i as usize);
            }
            if a.snake@.contains(i as usize) {
                let k = choose|k: int| 0 <= k < a.snake@.len() && a.snake@[k] == i as usize;
                assert(k != 0);
                assert(b.snake@[k - 1] == i as usize);
            }
        }
    }
}

impl Game {
    /// One manual tick: traverse a portal unconditionally, or step one cell
    /// along the current direction. A move off the board is death and resets
    /// the episode; reaching food grows the snake by one and a replacement
    /// piece of food is scattered.
    #[verifier::rlimit(100)]
    pub fn tick_manual(&mut self) -> (died: bool)
        requires
            old(self).wf(),
        ensures
            final(self).wf(),
            old(self).same_world_shape(*final(self)),
            old(self).board.lattice_except_portals() ==> final(self).board.lattice_except_portals(),
            died == !old(self).manual_legal(),
            died ==> final(self).reset_outcome(),
            !died ==> ({
                let t = old(self).manual_target();
                &&& final(self).direction == old(self).direction
                &&& final(self).speed == old(self).speed
                &&& 0 <= t < old(self).board.nodes.len()
                &&& if old(self).board.nodes[t].is_food {
                    &&& final(self).board.snake@ == old(self).board.snake@.push(t as usize)
                    &&& final(self).board.snake@.len() == old(self).board.snake@.len() + 1
                    &&& !final(self).board.nodes[t].is_food
                    &&& food_total(old(self).board.nodes@) - 1 <= food_total(
                        final(self).board.nodes@,
                    ) <= food_total(old(self).board.nodes@)
                    &&& forall|i: int|
                        0 <= i < old(self).board.nodes.len() && i != t && (#[trigger] old(self).board.nodes[i]).is_food ==> final(self).board.nodes[i].is_food
                    &&& forall|i: int|
                        0 <= i < old(self).board.nodes.len() && (#[trigger] final(self).board.nodes[i]).is_food && !old(self).board.nodes[i].is_food ==> !final(self).board.nodes[i].is_snake
                    &&& ((exists|i: int|
                        0 <= i < old(self).board.nodes.len() && !(#[trigger] final(self).board.nodes[i]).is_food && !final(self).board.nodes[i].is_snake)
                        ==> food_total(final(self).board.nodes@) == food_total(
                            old(self).board.nodes@,
                        ))
                } else {
                    &&& final(self).board.snake@ == old(self).board.snake@.subrange(
                        1,
                        old(self).board.snake@.len() as int,
                    ).push(t as usize)
                    &&& final(self).board.snake@.len() == old(self).board.snake@.len()
                    &&& forall|i: int|
                        0 <= i < old(self).board.nodes.len() ==> (#[trigger] final(self).board.nodes[i]).is_food == old(self).board.nodes[i].is_food
                }
            }),
    {
        let n = self.board.nodes.len();
        let hi = self.board.snake[self.board.snake.len() - 1];
        proof {
            assert(hi as int == old(self).head());
            assert(hi < n);
        }
        let portaled = self.board.nodes[hi].is_portal_cell();
        let mut legal: bool = true;
        let mut target: usize = 0;
        if portaled {
            target = self.board.nodes[hi].conn_at(0);
            proof {
                assert(target == self.board.nodes@[hi as int].connections.targets()[0]);
                assert(target < n);
            }
        } else {
            let hx = self.board.nodes[hi].x;
            let hy = self.board.nodes[hi].y;
            let hz = self.board.nodes[hi].z;
            let hw = self.board.nodes[hi].w;
            let c: usize = match self.direction {
                Direction::X => hx,
                Direction::Y => hy,
                Direction::Z => hz,
                Direction::W => hw,
            };
            let limit: usize = match self.direction {
                Direction::X => self.board.size,
                Direction::Y => self.board.size,
                Direction::Z => if self.board.dimensions == 2 { 1 } else { self.board.size },
                Direction::W => if self.board.dimensions == 2 { 1 } else { self.board.size },
            };
            proof {
                assert(c as int == old(self).axis_coord(old(self).board.nodes[old(self).head()]));
                assert(limit as int == old(self).axis_limit());
                assert(c < limit);
            }
            if self.speed == 1 {
                legal = c + 1 < limit;
            } else {
                legal = c >= 1;
            }
            proof {
                assert(legal == old(self).manual_legal());
            }
            if legal {
                let sx = match self.direction {
                    Direction::X => if self.speed == 1 { hx + 1 } else { hx - 1 },
                    _ => hx,
                };
                let sy = match self.direction {
                    Direction::Y => if self.speed == 1 { hy + 1 } else { hy - 1 },
                    _ => hy,
                };
                let sz = match self.direction {
                    Direction::Z => if self.speed == 1 { hz + 1 } else { hz - 1 },
                    _ => hz,
                };
                let sw = match self.direction {
                    Direction::W => if self.speed == 1 { hw + 1 } else { hw - 1 },
                    _ => hw,
                };
                target = self.board.get_index(sx, sy, sz, sw);
                proof {
                    assert(target as int == old(self).manual_target());
                }
            }
        }
        if !legal {
            self.reset();
            return true;
        }
        proof {
            assert(old(self).manual_legal());
            assert(target as int == old(self).manual_target());
            assert(target < n);
        }

        // the head advances
        let ghost g0 = *self;
        let was_food = self.board.nodes[target].is_food;
        self.board.snake.push(target);
        self.board.set_flags(target, was_food, true);
        proof {
            assert(self.board.snake@ == g0.board.snake@.push(target));
            lemma_flags_match_push(g0.board, self.board, target);
            assert forall|k: int| 0 <= k < self.board.snake@.len() implies (
            #[trigger] self.board.snake@[k]) < self.board.nodes.len() by {
                if k < g0.board.snake@.len() {
                    assert(g0.board.snake@[k] < g0.board.nodes.len());
                }
            }
        }

        if was_food {
            // consume the food under the new head and scatter a replacement
            let ghost g1 = *self;
            self.board.set_flags(target, false, true);
            proof {
                lemma_flags_match_transfer(g1.board, self.board);
                assert(self.board.nodes@ =~= g1.board.nodes@.update(
                    target as int,
                    self.board.nodes@[target as int],
                ));
                crate::board::lemma_totals_update(
                    g1.board.nodes@,
                    target as int,
                    self.board.nodes@[target as int],
                );
                assert(g1.board.nodes@ =~= g0.board.nodes@.update(
                    target as int,
                    g1.board.nodes@[target as int],
                ));
                crate::board::lemma_totals_update(
                    g0.board.nodes@,
                    target as int,
                    g1.board.nodes@[target as int],
                );
            }
            let ghost g2 = *self;
            let start = random_below(n);
            let placed = self.board.place_one_food(start);
            proof {
                lemma_flags_match_transfer(g2.board, self.board);
                if !placed {
                    assert forall|i: int| 0 <= i < self.board.nodes.len() implies ((
                    #[trigger] self.board.nodes[i]).is_food || self.board.nodes[i].is_snake) by {
                        assert(!g2.board.is_free(i));
                    }
                }
            }
            false
        } else {
            // translate without growing: the tail cell leaves the snake
            let ghost g1 = *self;
            let tail = self.board.snake.remove(0);
            let ghost g2 = *self;
            proof {
                assert(tail == g0.board.snake@[0]);
                assert(tail < n) by {
                    assert(g0.board.snake@[0] < g0.board.nodes.len());
                }
                assert(self.board.snake@ == g1.board.snake@.subrange(
                    1,
                    g1.board.snake@.len() as int,
                ));
            }
            let still = self.board.snake_contains(tail);
            if !still {
                let tf = self.board.nodes[tail].is_food;
                self.board.set_flags(tail, tf, false);
            }
            proof {
                assert(self.board.snake@ == g2.board.snake@);
                lemma_flags_match_pop(g1.board, self.board, tail);
                assert forall|k: int| 0 <= k < self.board.snake@.len() implies (
                #[trigger] self.board.snake@[k]) < self.board.nodes.len() by {
                    assert(g1.board.snake@[k + 1] < g1.board.nodes.len());
                }
                assert(self.board.snake@ == g0.board.snake@.subrange(
                    1,
                    g0.board.snake@.len() as int,
                ).push(target)) by {
                    assert(self.board.snake@ =~= g0.board.snake@.subrange(
                        1,
                        g0.board.snake@.len() as int,
                    ).push(target));
                }
                assert(self.board.snake@.len() == g0.board.snake@.len());
            }
            false
        }
    }
}

/// Appending one element extends a filtered sequence exactly when the
/// predicate accepts it.
proof fn lemma_filter_push(s: Seq<usize>, p: spec_fn(usize) -> bool, x: usize)
    ensures
        s.push(x).filter(p) == if p(x) {
            s.filter(p).push(x)
        } else {
            s.filter(p)
        },
{
    reveal(Seq::filter);
    assert(s.push(x).drop_last() =~= s);
    assert(s.push(x).last() == x);
}

impl Game {
    /// One autonomous tick. Food-holding neighbours of the head are all taken
    /// greedily; otherwise the snake-free neighbour with the least evaluator
    /// rank is taken, random shuffling breaking ties. With every neighbour
    /// occupied the snake dies and the episode resets.
    #[verifier::rlimit(100)]
    pub fn tick_auto(&mut self) -> (died: bool)
        requires
            old(self).wf(),
        ensures
            final(self).wf(),
            old(self).same_world_shape(*final(self)),
            old(self).board.lattice_except_portals() ==> final(self).board.lattice_except_portals(),
            died == old(self).auto_stuck(),
            died ==> final(self).reset_outcome(),
            !died ==> final(self).direction == old(self).direction && final(self).speed == old(self).speed,
            !died && old(self).food_neighbors().len() > 0 ==> ({
                let fs = old(self).food_neighbors();
                &&& final(self).board.snake@ == old(self).board.snake@ + fs
                &&& final(self).board.snake@.len() == old(self).board.snake@.len() + fs.len()
                &&& !final(self).board.nodes[fs.last() as int].is_food
                &&& food_total(old(self).board.nodes@) - 1 <= food_total(
                    final(self).board.nodes@,
                ) <= food_total(old(self).board.nodes@)
                &&& forall|i: int|
                    0 <= i < old(self).board.nodes.len() && i != fs.last() && (#[trigger] old(self).board.nodes[i]).is_food ==> final(self).board.nodes[i].is_food
                &&& ((exists|i: int|
                    0 <= i < old(self).board.nodes.len() && !(#[trigger] final(self).board.nodes[i]).is_food && !final(self).board.nodes[i].is_snake)
                    ==> food_total(final(self).board.nodes@) == food_total(
                        old(self).board.nodes@,
                    ))
            }),
            !died && old(self).food_neighbors().len() == 0 ==> (exists|c: usize|
                #[trigger] old(self).ranked_move_ok(*final(self), c))
                && final(self).board.snake@.len() == old(self).board.snake@.len()
                && (forall|i: int|
                    0 <= i < old(self).board.nodes.len() ==> (#[trigger] final(self).board.nodes[i]).is_food == old(self).board.nodes[i].is_food),
    {
        broadcast use vstd::seq_lib::group_to_multiset_ensures;

        let n = self.board.nodes.len();
        let hi = self.board.snake[self.board.snake.len() - 1];
        proof {
            assert(hi as int == old(self).head());
            assert(hi < n);
        }
        let hl = self.board.nodes[hi].conn_len();
        let ghost ts = old(self).head_targets();
        let ghost p = old(self).food_pred();
        let ghost g0 = *old(self);

        // greedy food pass: every food-holding neighbour is appended in order
        let mut k: usize = 0;
        let mut found_food = false;
        while k < hl
            invariant
                k <= hl,
                n == self.board.nodes.len(),
                hi < n,
                hl == ts.len(),
                g0 == *old(self),
                g0.wf(),
                ts == g0.head_targets(),
                p == g0.food_pred(),
                self.board.wf(),
                self.board.nodes@[hi as int].connections.targets() == ts,
                g0.same_world_shape(*self),
                self.direction == g0.direction,
                self.speed == g0.speed,
                self.board.snake@ == g0.board.snake@ + ts.take(k as int).filter(p),
                found_food <==> ts.take(k as int).filter(p).len() > 0,
                !found_food ==> *self == g0,
                forall|i: int|
                    0 <= i < n ==> (#[trigger] self.board.nodes[i]).is_food == g0.board.nodes[i].is_food,
                forall|kk: int| 0 <= kk < ts.len() ==> (#[trigger] ts[kk]) < n,
            decreases hl - k,
        {
            let t = self.board.nodes[hi].conn_at(k);
            proof {
                assert(t == ts[k as int]);
                assert(ts.take(k + 1) =~= ts.take(k as int).push(ts[k as int]));
                lemma_filter_push(ts.take(k as int), p, ts[k as int]);
            }
            if self.board.nodes[t].is_food {
                let ghost gprev = *self;
                self.board.snake.push(t);
                self.board.set_flags(t, true, true);
                found_food = true;
                proof {
                    assert(p(ts[k as int]));
                    lemma_flags_match_push(gprev.board, self.board, t);
                    assert forall|kk: int| 0 <= kk < self.board.snake@.len() implies (
                    #[trigger] self.board.snake@[kk]) < self.board.nodes.len() by {
                        if kk < gprev.board.snake@.len() {
                            assert(gprev.board.snake@[kk] < gprev.board.nodes.len());
                        }
                    }
                    assert(self.board.snake@ =~= g0.board.snake@ + ts.take(k + 1).filter(p));
                }
            } else {
                proof {
                    assert(!p(ts[k as int]));
                }
            }
            k += 1;
        }
        proof {
            assert(ts.take(hl as int) =~= ts);
            assert(g0.food_neighbors() == ts.filter(p));
        }

        if found_food {
            proof {
                assert(!g0.auto_stuck()) by {
                    if g0.auto_stuck() {
                        assert forall|kk: int| 0 <= kk < ts.len() implies !p(#[trigger] ts[kk]) by {
                            assert(!g0.board.nodes[ts[kk] as int].is_food);
                        }
                        lemma_filter_all_false(ts, p);
                    }
                }
            }
            // consume the food under the new head and scatter a replacement
            let h2 = self.board.snake[self.board.snake.len() - 1];
            proof {
                let fs = ts.filter(p);
                assert(fs.len() > 0);
                assert(h2 == fs.last());
                assert(h2 < n);
            }
            let ghost g1 = *self;
            self.board.set_flags(h2, false, true);
            proof {
                assert(g1.board.nodes@[h2 as int].is_snake) by {
                    assert(g1.board.snake@.contains(h2));
                }
                lemma_flags_match_transfer(g1.board, self.board);
                assert(self.board.nodes@ =~= g1.board.nodes@.update(
                    h2 as int,
                    self.board.nodes@[h2 as int],
                ));
                crate::board::lemma_totals_update(
                    g1.board.nodes@,
                    h2 as int,
                    self.board.nodes@[h2 as int],
                );
                assert(food_total(g1.board.nodes@) == food_total(g0.board.nodes@)) by {
                    assert(g1.board.nodes@ =~= g1.board.nodes@);
                    lemma_food_total_same_flags(g0.board.nodes@, g1.board.nodes@);
                }
            }
            let start = random_below(n);
            let ghost g2 = *self;
            let placed = self.board.place_one_food(start);
            proof {
                lemma_flags_match_transfer(g2.board, self.board);
                if !placed {
                    assert forall|i: int| 0 <= i < self.board.nodes.len() implies ((
                    #[trigger] self.board.nodes[i]).is_food || self.board.nodes[i].is_snake) by {
                        assert(!g2.board.is_free(i));
                    }
                }
            }
            return false;
        }

        // ranked pass: shuffle the neighbours, then take the snake-free one
        // of least evaluator rank, the first such winning ties
        proof {
            assert forall|kk: int|
                0 <= kk < ts.len() implies !p(#[trigger] ts[kk]) by {
                if p(ts[kk]) {
                    ts.lemma_filter_contains(p, kk);
                }
            }
        }
        let mut cand: Vec<usize> = Vec::new();
        let mut k2: usize = 0;
        while k2 < hl
            invariant
                k2 <= hl,
                n == self.board.nodes.len(),
                hi < n,
                hl == ts.len(),
                self.board.nodes@[hi as int].connections.targets() == ts,
                cand@ == ts.take(k2 as int),
            decreases hl - k2,
        {
            let t = self.board.nodes[hi].conn_at(k2);
            cand.push(t);
            proof {
                assert(cand@ =~= ts.take(k2 + 1));
            }
            k2 += 1;
        }
        proof {
            assert(ts.take(hl as int) =~= ts);
            assert(cand@ == ts);
        }
        shuffle_indices(&mut cand);
        proof {
            assert forall|e: int| 0 <= e < cand@.len() implies (#[trigger] cand@[e]) < n by {
                assert(cand@.contains(cand@[e]));
                assert(cand@.to_multiset().count(cand@[e]) > 0);
                assert(ts.to_multiset().count(cand@[e]) > 0);
                assert(ts.contains(cand@[e]));
                let kk = choose|kk: int| 0 <= kk < ts.len() && ts[kk] == cand@[e];
                assert(ts[kk] < n);
            }
        }
        let mut have = false;
        let mut best: usize = 0;
        let mut best_score: i32 = 0;
        let mut k3: usize = 0;
        while k3 < cand.len()
            invariant
                k3 <= cand@.len(),
                n == self.board.nodes.len(),
                *self == g0,
                g0.wf(),
                forall|e: int| 0 <= e < cand@.len() ==> (#[trigger] cand@[e]) < n,
                have <==> (exists|kk: int|
                    0 <= kk < k3 && !self.board.nodes@[(#[trigger] cand@[kk]) as int].is_snake),
                have ==> best < n && !self.board.nodes@[best as int].is_snake
                    && cand@.contains(best) && best_score as int == eval_spec(self.board, best as int),
                have ==> forall|kk: int|
                    0 <= kk < k3 && !self.board.nodes@[(#[trigger] cand@[kk]) as int].is_snake
                        ==> best_score as int <= eval_spec(self.board, cand@[kk] as int),
            decreases cand@.len() - k3,
        {
            let c = cand[k3];
            if !self.board.nodes[c].is_snake {
                let sc = self.board.eval_move(c);
                if !have || sc < best_score {
                    have = true;
                    best = c;
                    best_score = sc;
                }
            }
            k3 += 1;
        }

        if !have {
            proof {
                assert(g0.auto_stuck()) by {
                    assert forall|kk: int|
                        0 <= kk < ts.len() implies g0.board.nodes[(#[trigger] ts[kk]) as int].is_snake
                        by {
                        assert(ts.contains(ts[kk]));
                        assert(ts.to_multiset().count(ts[kk]) > 0);
                        assert(cand@.to_multiset().count(ts[kk]) > 0);
                        assert(cand@.contains(ts[kk]));
                        let e = choose|e: int| 0 <= e < cand@.len() && cand@[e] == ts[kk];
                        assert(self.board.nodes@[cand@[e] as int].is_snake);
                    }
                }
            }
            self.reset();
            return true;
        }
        proof {
            assert(!g0.auto_stuck()) by {
                let kk = choose|kk: int|
                    0 <= kk < cand@.len() && !self.board.nodes@[(#[trigger] cand@[kk]) as int].is_snake;
                assert(cand@.contains(cand@[kk]));
                assert(cand@.to_multiset().count(cand@[kk]) > 0);
                assert(ts.to_multiset().count(cand@[kk]) > 0);
                assert(ts.contains(cand@[kk]));
                let e = choose|e: int| 0 <= e < ts.len() && ts[e] == cand@[kk];
            }
            assert(cand@.to_multiset().count(best) > 0);
            assert(ts.to_multiset().count(best) > 0);
            assert(ts.contains(best));
            assert(!p(best)) by {
                let e = choose|e: int| 0 <= e < ts.len() && ts[e] == best;
                assert(!p(ts[e]));
            }
            assert(!g0.board.nodes[best as int].is_food);
        }

        // translate onto the chosen neighbour, exactly as a manual move
        let ghost gm = *self;
        self.board.snake.push(best);
        self.board.set_flags(best, false, true);
        proof {
            assert(self.board.snake@ == gm.board.snake@.push(best));
            lemma_flags_match_push(gm.board, self.board, best);
            assert forall|kk: int| 0 <= kk < self.board.snake@.len() implies (
            #[trigger] self.board.snake@[kk]) < self.board.nodes.len() by {
                if kk < gm.board.snake@.len() {
                    assert(gm.board.snake@[kk] < gm.board.nodes.len());
                }
            }
        }
        let ghost g1 = *self;
        let tail = self.board.snake.remove(0);
        let ghost g2 = *self;
        proof {
            assert(tail == gm.board.snake@[0]);
            assert(tail < n) by {
                assert(gm.board.snake@[0] < gm.board.nodes.len());
            }
            assert(self.board.snake@ == g1.board.snake@.subrange(
                1,
                g1.board.snake@.len() as int,
            ));
        }
        let still = self.board.snake_contains(tail);
        if !still {
            let tf = self.board.nodes[tail].is_food;
            self.board.set_flags(tail, tf, false);
        }
        proof {
            assert(self.board.snake@ == g2.board.snake@);
            lemma_flags_match_pop(g1.board, self.board, tail);
            assert forall|kk: int| 0 <= kk < self.board.snake@.len() implies (
            #[trigger] self.board.snake@[kk]) < self.board.nodes.len() by {
                assert(g1.board.snake@[kk + 1] < g1.board.nodes.len());
            }
            assert(self.board.snake@ == gm.board.snake@.subrange(
                1,
                gm.board.snake@.len() as int,
            ).push(best)) by {
                assert(self.board.snake@ =~= gm.board.snake@.subrange(
                    1,
                    gm.board.snake@.len() as int,
                ).push(best));
            }
            assert(g0.ranked_move_ok(*self, best)) by {
                assert forall|kx: int|
                    0 <= kx < ts.len() && !g0.board.nodes[(#[trigger] ts[kx]) as int].is_snake
                    implies eval_spec(g0.board, best as int) <= eval_spec(g0.board, ts[kx] as int)
                    by {
                    assert(ts.contains(ts[kx]));
                    assert(ts.to_multiset().count(ts[kx]) > 0);
                    assert(cand@.to_multiset().count(ts[kx]) > 0);
                    assert(cand@.contains(ts[kx]));
                    let e = choose|e: int| 0 <= e < cand@.len() && cand@[e] == ts[kx];
                    assert(!gm.board.nodes@[cand@[e] as int].is_snake);
                    assert(best_score as int <= eval_spec(gm.board, cand@[e] as int));
                }
            }
        }
        false
    }
}

/// A predicate false of every element filters to the empty sequence.
proof fn lemma_filter_all_false(s: Seq<usize>, p: spec_fn(usize) -> bool)
    requires
        forall|k: int| 0 <= k < s.len() ==> !p(#[trigger] s[k]),
    ensures
        s.filter(p).len() == 0,
    decreases s.len(),
{
    reveal(Seq::filter);
    if s.len() > 0 {
        assert(!p(s.last()));
        assert forall|k: int| 0 <= k < s.drop_last().len() implies !p(#[trigger] s.drop_last()[k])
            by {
            assert(s.drop_last()[k] == s[k]);
        }
        lemma_filter_all_false(s.drop_last(), p);
    }
}

/// Two node sequences with the same food flag, cell for cell, have the same
/// food total.
proof fn lemma_food_total_same_flags(a: Seq<Node>, b: Seq<Node>)
    requires
        a.len() == b.len(),
        forall|i: int| 0 <= i < a.len() ==> (#[trigger] b[i]).is_food == a[i].is_food,
    ensures
        food_total(b) == food_total(a),
    decreases a.len(),
{
    if a.len() > 0 {
        assert(b.last().is_food == a.last().is_food);
        assert forall|i: int|
            0 <= i < a.drop_last().len() implies (#[trigger] b.drop_last()[i]).is_food
            == a.drop_last()[i].is_food by {
            assert(b[i].is_food == a[i].is_food);
        }
        lemma_food_total_same_flags(a.drop_last(), b.drop_last());
    }
}

} // verus!
