//! The lattice world: nodes, adjacency, index/coordinate mapping.

use vstd::prelude::*;
use vstd::arithmetic::div_mod::{
    lemma_fundamental_div_mod, lemma_fundamental_div_mod_converse, lemma_div_denominator,
    lemma_mod_division_less_than_divisor, lemma_div_pos_is_pos, lemma_multiply_divide_lt,
};

verus! {

/// How a cell connects onward: either the full set of lattice neighbours at
/// Manhattan distance one, or a single teleport target once a portal has been
/// placed on the cell.
pub enum Adjacency {
    Normal(Vec<usize>),
    Portal(usize),
}

impl Adjacency {
    /// The connection targets in order: the neighbour list, or the one portal exit.
    pub open spec fn targets(self) -> Seq<usize> {
        match self {
            Adjacency::Normal(v) => v@,
            Adjacency::Portal(t) => seq![t],
        }
    }

    pub open spec fn is_portal(self) -> bool {
        self is Portal
    }
}

impl Clone for Adjacency {
    /// A copy with the same targets and the same portal status.
    fn clone(&self) -> (r: Self)
        ensures
            r.targets() == self.targets(),
            r.is_portal() == self.is_portal(),
    {
        match self {
            Adjacency::Normal(v) => {
                let mut c: Vec<usize> = Vec::new();
                let mut k: usize = 0;
                while k < v.len()
                    invariant
                        k <= v.len(),
                        c@ == v@.take(k as int),
                    decreases v.len() - k,
                {
                    c.push(v[k]);
                    proof {
                        assert(c@ =~= v@.take(k + 1));
                    }
                    k += 1;
                }
                proof {
                    assert(v@.take(v@.len() as int) =~= v@);
                }
                Adjacency::Normal(c)
            },
            Adjacency::Portal(t) => Adjacency::Portal(*t),
        }
    }
}

/// One lattice cell.
pub struct Node {
    pub x: usize,
    pub y: usize,
    pub z: usize,
    pub w: usize,
    pub is_food: bool,
    pub is_snake: bool,
    pub connections: Adjacency,
}

impl Node {
    /// A fresh cell at the given coordinates with no flags set.
    pub fn new_blank(x: usize, y: usize, z: usize, w: usize, connections: Vec<usize>) -> (r: Node)
        ensures
            r == (Node {
                x,
                y,
                z,
                w,
                is_food: false,
                is_snake: false,
                connections: Adjacency::Normal(connections),
            }),
    {
        Node { x, y, z, w, is_food: false, is_snake: false, connections: Adjacency::Normal(connections) }
    }

    /// Number of connection targets.
    pub fn conn_len(&self) -> (r: usize)
        ensures
            r == self.connections.targets().len(),
    {
        match &self.connections {
            Adjacency::Normal(v) => v.len(),
            Adjacency::Portal(_) => 1,
        }
    }

    /// The `k`-th connection target.
    pub fn conn_at(&self, k: usize) -> (r: usize)
        requires
            k < self.connections.targets().len(),
        ensures
            r == self.connections.targets()[k as int],
    {
        match &self.connections {
            Adjacency::Normal(v) => v[k],
            Adjacency::Portal(t) => *t,
        }
    }

    /// Whether this cell's adjacency has been overridden into a portal.
    pub fn is_portal_cell(&self) -> (r: bool)
        ensures
            r == self.connections.is_portal(),
    {
        match &self.connections {
            Adjacency::Normal(_) => false,
            Adjacency::Portal(_) => true,
        }
    }
}

/// The linear index of the coordinate tuple `(x, y, z, w)` in a lattice of the
/// given per-axis extent.
pub open spec fn index_spec(x: int, y: int, z: int, w: int, size: int) -> int {
    x + y * size + z * size * size + w * size * size * size
}

pub open spec fn coord_x_spec(i: int, size: int) -> int {
    i % size
}

pub open spec fn coord_y_spec(i: int, size: int) -> int {
    (i / size) % size
}

pub open spec fn coord_z_spec(i: int, size: int) -> int {
    (i / (size * size)) % size
}

pub open spec fn coord_w_spec(i: int, size: int) -> int {
    i / (size * size * size)
}

/// Number of cells of a lattice: `size^dimensions`.
pub open spec fn volume(size: int, dimensions: int) -> int {
    if dimensions == 2 {
        size * size
    } else {
        size * size * size * size
    }
}

/// The nested quotients agree with division by the corresponding power.
proof fn lemma_nested_div(i: int, s: int)
    requires
        0 <= i,
        1 <= s,
    ensures
        i / s / s == i / (s * s),
        i / s / s / s == i / (s * s * s),
{
    lemma_div_denominator(i, s, s);
    assert(i / (s * s) / s == i / (s * s * s)) by {
        lemma_div_denominator(i, s * s, s);
        assert((s * s) * s == s * s * s) by (nonlinear_arith);
    }
    assert(i / s / s / s == i / (s * s) / s);
}

/// Index/coordinate mapping, one direction of the bijection: decoding a valid
/// index yields in-range coordinates that encode back to the same index.
pub proof fn lemma_index_of_coord_of(i: int, size: int)
    requires
        1 <= size,
        0 <= i < size * size * size * size,
    ensures
        0 <= coord_x_spec(i, size) < size,
        0 <= coord_y_spec(i, size) < size,
        0 <= coord_z_spec(i, size) < size,
        0 <= coord_w_spec(i, size) < size,
        index_spec(
            coord_x_spec(i, size),
            coord_y_spec(i, size),
            coord_z_spec(i, size),
            coord_w_spec(i, size),
            size,
        ) == i,
{
    let x = i % size;
    let q1 = i / size;
    let y = q1 % size;
    let q2 = q1 / size;
    let z = q2 % size;
    let q3 = q2 / size;

    lemma_nested_div(i, size);
    assert(coord_z_spec(i, size) == z);
    assert(coord_w_spec(i, size) == q3);

    lemma_mod_division_less_than_divisor(i, size);
    lemma_fundamental_div_mod(i, size);
    assert(0 <= q1) by {
        lemma_div_pos_is_pos(i, size);
    }
    lemma_mod_division_less_than_divisor(q1, size);
    lemma_fundamental_div_mod(q1, size);
    assert(0 <= q2) by {
        lemma_div_pos_is_pos(q1, size);
    }
    lemma_mod_division_less_than_divisor(q2, size);
    lemma_fundamental_div_mod(q2, size);
    assert(0 <= q3) by {
        lemma_div_pos_is_pos(q2, size);
    }

    // q1 < size^3, q2 < size^2, q3 < size
    assert(i < size * (size * size * size)) by (nonlinear_arith)
        requires
            i < size * size * size * size,
    ;
    lemma_multiply_divide_lt(i, size, size * size * size);
    assert(q1 < size * size * size);
    assert(q1 < size * (size * size)) by (nonlinear_arith)
        requires
            q1 < size * size * size,
    ;
    lemma_multiply_divide_lt(q1, size, size * size);
    assert(q2 < size * size);
    lemma_multiply_divide_lt(q2, size, size);
    assert(q3 < size);

    // recompose
    assert(i == size * q1 + x);
    assert(q1 == size * q2 + y);
    assert(q2 == size * q3 + z);
    assert(x + y * size + z * size * size + q3 * size * size * size
        == size * (size * (size * q3 + z) + y) + x) by (nonlinear_arith);
}

/// Index/coordinate mapping, the other direction of the bijection: encoding
/// in-range coordinates yields a valid index that decodes to the same tuple.
pub proof fn lemma_coord_of_index_of(x: int, y: int, z: int, w: int, size: int)
    requires
        1 <= size,
        0 <= x < size,
        0 <= y < size,
        0 <= z < size,
        0 <= w < size,
    ensures
        0 <= index_spec(x, y, z, w, size) < size * size * size * size,
        coord_x_spec(index_spec(x, y, z, w, size), size) == x,
        coord_y_spec(index_spec(x, y, z, w, size), size) == y,
        coord_z_spec(index_spec(x, y, z, w, size), size) == z,
        coord_w_spec(index_spec(x, y, z, w, size), size) == w,
{
    let i = index_spec(x, y, z, w, size);
    let q1 = y + z * size + w * size * size;
    let q2 = z + w * size;

    assert(i == q1 * size + x) by (nonlinear_arith)
        requires
            i == x + y * size + z * size * size + w * size * size * size,
            q1 == y + z * size + w * size * size,
    ;
    assert(0 <= q1) by (nonlinear_arith)
        requires
            0 <= y && 0 <= z && 0 <= w && 1 <= size,
            q1 == y + z * size + w * size * size,
    ;
    lemma_fundamental_div_mod_converse(i, size, q1, x);
    assert(i / size == q1);
    assert(i % size == x);

    assert(q1 == q2 * size + y) by (nonlinear_arith)
        requires
            q1 == y + z * size + w * size * size,
            q2 == z + w * size,
    ;
    assert(0 <= q2) by (nonlinear_arith)
        requires
            0 <= z && 0 <= w && 1 <= size,
            q2 == z + w * size,
    ;
    lemma_fundamental_div_mod_converse(q1, size, q2, y);
    assert(q1 / size == q2);
    assert(q1 % size == y);

    lemma_fundamental_div_mod_converse(q2, size, w, z);
    assert(q2 / size == w);
    assert(q2 % size == z);

    assert(0 <= i);
    lemma_nested_div(i, size);
    assert(coord_y_spec(i, size) == y);
    assert(coord_z_spec(i, size) == z);
    assert(coord_w_spec(i, size) == w);

    // upper bound: i <= size^4 - 1
    assert(i < size * size * size * size) by (nonlinear_arith)
        requires
            i == x + y * size + z * size * size + w * size * size * size,
            x < size && y < size && z < size && w < size,
            0 <= x && 0 <= y && 0 <= z && 0 <= w,
            1 <= size,
    ;
}

/// Distance between two integers.
pub open spec fn abs_diff_spec(a: int, b: int) -> int {
    if a >= b {
        a - b
    } else {
        b - a
    }
}

/// Manhattan distance between the coordinates of two cells.
pub open spec fn manhattan(a: Node, b: Node) -> int {
    abs_diff_spec(a.x as int, b.x as int) + abs_diff_spec(a.y as int, b.y as int)
        + abs_diff_spec(a.z as int, b.z as int) + abs_diff_spec(a.w as int, b.w as int)
}

pub open spec fn strictly_increasing(s: Seq<usize>) -> bool {
    forall|k1: int, k2: int| 0 <= k1 < k2 < s.len() ==> s[k1] < s[k2]
}

/// The Manhattan distance of two cells, computed on unsigned coordinates.
pub fn manhattan_dist(a: &Node, b: &Node) -> (r: usize)
    requires
        manhattan(*a, *b) <= usize::MAX,
    ensures
        r as int == manhattan(*a, *b),
{
    let dx = if a.x >= b.x { a.x - b.x } else { b.x - a.x };
    let dy = if a.y >= b.y { a.y - b.y } else { b.y - a.y };
    let dz = if a.z >= b.z { a.z - b.z } else { b.z - a.z };
    let dw = if a.w >= b.w { a.w - b.w } else { b.w - a.w };
    dx + dy + dz + dw
}

/// The world: the node set, the shared per-axis extent, and the snake as an
/// ordered sequence of node indices, tail first and head last.
pub struct Board {
    pub nodes: Vec<Node>,
    pub size: usize,
    pub dimensions: usize,
    pub snake: Vec<usize>,
}

/// A rejected world configuration: the dimensionality that was asked for.
pub struct ConfigError {
    pub dimensions: usize,
}

impl Board {
    /// Extent along the z and w axes: `size` in 4 dimensions, a single layer in 2.
    pub open spec fn upper_extent(self) -> int {
        if self.dimensions == 2 {
            1
        } else {
            self.size as int
        }
    }

    /// Shape of the world: node count, coordinates and connection targets all
    /// agree with the lattice formula.
    pub open spec fn wf_topology(self) -> bool {
        &&& 2 <= self.size
        &&& (self.dimensions == 2 || self.dimensions == 4)
        &&& self.nodes.len() == volume(self.size as int, self.dimensions as int)
        &&& forall|i: int|
            0 <= i < self.nodes.len() ==> {
                &&& (#[trigger] self.nodes[i]).x == coord_x_spec(i, self.size as int)
                &&& self.nodes[i].y == coord_y_spec(i, self.size as int)
                &&& self.nodes[i].z == coord_z_spec(i, self.size as int)
                &&& self.nodes[i].w == coord_w_spec(i, self.size as int)
                &&& self.nodes[i].x < self.size
                &&& self.nodes[i].y < self.size
                &&& self.nodes[i].z < self.upper_extent()
                &&& self.nodes[i].w < self.upper_extent()
            }
        &&& forall|i: int, k: int|
            0 <= i < self.nodes.len() && 0 <= k < self.nodes[i].connections.targets().len()
                ==> (#[trigger] self.nodes[i].connections.targets()[k]) < self.nodes.len()
    }

    pub open spec fn snake_ok(self) -> bool {
        &&& 2 <= self.snake.len()
        &&& forall|k: int| 0 <= k < self.snake.len() ==> (#[trigger] self.snake[k]) < self.nodes.len()
    }

    /// A cell is flagged as snake exactly when the snake sequence holds it.
    pub open spec fn flags_match(self) -> bool {
        forall|i: int|
            0 <= i < self.nodes.len() ==> ((#[trigger] self.nodes[i]).is_snake <==> self.snake@.contains(
                i as usize,
            ))
    }

    pub open spec fn wf(self) -> bool {
        self.wf_topology() && self.snake_ok() && self.flags_match()
    }

    /// Cell `i` carries the untouched lattice adjacency: the targets are,
    /// in ascending order, exactly the cells at Manhattan distance one.
    pub open spec fn adjacency_exact_at(self, i: int) -> bool {
        &&& strictly_increasing(self.nodes[i].connections.targets())
        &&& forall|j: int|
            0 <= j < self.nodes.len() ==> ((#[trigger] self.nodes[i].connections.targets().contains(
                j as usize,
            )) <==> manhattan(self.nodes[i], self.nodes[j]) == 1)
    }

    /// A fresh lattice: no portals, every adjacency list exact.
    pub open spec fn lattice_adjacency(self) -> bool {
        forall|i: int|
            0 <= i < self.nodes.len() ==> !(#[trigger] self.nodes[i]).connections.is_portal()
                && self.adjacency_exact_at(i)
    }

    /// Every cell not overridden into a portal still carries the lattice adjacency.
    pub open spec fn lattice_except_portals(self) -> bool {
        forall|i: int|
            0 <= i < self.nodes.len() && !(#[trigger] self.nodes[i]).connections.is_portal()
                ==> self.adjacency_exact_at(i)
    }

    /// What every fresh lattice satisfies: well-formed, exact adjacency, the
    /// snake on its two starting cells, and no food anywhere.
    pub open spec fn fresh_lattice(self, size: usize, dimensions: usize) -> bool {
        &&& self.wf()
        &&& self.lattice_adjacency()
        &&& self.size == size
        &&& self.dimensions == dimensions
        &&& self.snake@ == seq![0usize, 1usize]
        &&& forall|i: int| 0 <= i < self.nodes.len() ==> !(#[trigger] self.nodes[i]).is_food
        &&& forall|i: int|
            0 <= i < self.nodes.len() ==> ((#[trigger] self.nodes[i]).is_snake <==> (i == 0 || i
                == 1))
    }

    /// Build the node set and base adjacency for a lattice of the given
    /// per-axis extent and dimensionality: every coordinate tuple in
    /// `[0,size)^dimensions` (remaining axes zero), wired to exactly the
    /// cells at Manhattan distance one.
    fn build_lattice(size: usize, dimensions: usize) -> (r: Board)
        requires
            2 <= size,
            dimensions == 2 || dimensions == 4,
            volume(size as int, dimensions as int) <= usize::MAX,
        ensures
            r.fresh_lattice(size, dimensions),
    {
        let s = size;
        let n: usize = if dimensions == 2 {
            s * s
        } else {
            proof {
                assert(s * s <= s * s * s * s && (s * s) * (s * s) == s * s * s * s)
                    by (nonlinear_arith)
                    requires 2 <= s,
                ;
            }
            let s2 = s * s;
            s2 * s2
        };
        assert(n == volume(s as int, dimensions as int));
        proof {
            if dimensions == 4 {
                assert(s * s <= s * s * s * s) by (nonlinear_arith)
                    requires 2 <= s,
                ;
            }
            assert(s * s <= usize::MAX);
        }

        // every cell, in index order, with its decoded coordinates
        let mut base: Vec<Node> = Vec::new();
        let mut i: usize = 0;
        while i < n
            invariant
                i <= n,
                2 <= s,
                dimensions == 2 || dimensions == 4,
                n == volume(s as int, dimensions as int),
                n <= usize::MAX,
                s * s <= usize::MAX,
                base.len() == i,
                forall|ii: int|
                    0 <= ii < i ==> {
                        &&& (#[trigger] base[ii]).x == coord_x_spec(ii, s as int)
                        &&& base[ii].y == coord_y_spec(ii, s as int)
                        &&& base[ii].z == coord_z_spec(ii, s as int)
                        &&& base[ii].w == coord_w_spec(ii, s as int)
                        &&& base[ii].x < s
                        &&& base[ii].y < s
                        &&& base[ii].z < (if dimensions == 2 { 1int } else { s as int })
                        &&& base[ii].w < (if dimensions == 2 { 1int } else { s as int })
                        &&& !base[ii].is_food
                        &&& !base[ii].is_snake
                    },
            decreases n - i,
        {
            let x = i % s;
            let q1 = i / s;
            let y = q1 % s;
            let q2 = q1 / s;
            let z = q2 % s;
            let w = q2 / s;
            proof {
                let si = s as int;
                let ii = i as int;
                assert(ii < si * si * si * si) by (nonlinear_arith)
                    requires 2 <= si, ii < si * si || ii < si * si * si * si,
                ;
                lemma_index_of_coord_of(ii, si);
                lemma_nested_div(ii, si);
                if dimensions == 2 {
                    // a single layer: the upper two coordinates stay zero
                    assert(si * si <= si * si * si) by (nonlinear_arith)
                        requires 2 <= si,
                    ;
                    vstd::arithmetic::div_mod::lemma_basic_div(ii, si * si);
                    vstd::arithmetic::div_mod::lemma_basic_div(ii, si * si * si);
                    vstd::arithmetic::div_mod::lemma_small_mod(0nat, si as nat);
                    assert(coord_z_spec(ii, si) == 0);
                    assert(coord_w_spec(ii, si) == 0);
                }
            }
            base.push(Node::new_blank(x, y, z, w, Vec::new()));
            i += 1;
        }

        // all-pairs adjacency pass over the full node set
        let mut nodes: Vec<Node> = Vec::new();
        let mut i: usize = 0;
        while i < n
            invariant
                i <= n,
                2 <= s,
                s * s <= usize::MAX,
                dimensions == 2 || dimensions == 4,
                n == volume(s as int, dimensions as int),
                base.len() == n,
                forall|ii: int|
                    0 <= ii < n ==> {
                        &&& (#[trigger] base[ii]).x == coord_x_spec(ii, s as int)
                        &&& base[ii].y == coord_y_spec(ii, s as int)
                        &&& base[ii].z == coord_z_spec(ii, s as int)
                        &&& base[ii].w == coord_w_spec(ii, s as int)
                        &&& base[ii].x < s
                        &&& base[ii].y < s
                        &&& base[ii].z < (if dimensions == 2 { 1int } else { s as int })
                        &&& base[ii].w < (if dimensions == 2 { 1int } else { s as int })
                        &&& !base[ii].is_food
                        &&& !base[ii].is_snake
                    },
                nodes.len() == i,
                forall|ii: int|
                    0 <= ii < i ==> {
                        &&& (#[trigger] nodes[ii]).x == base[ii].x
                        &&& nodes[ii].y == base[ii].y
                        &&& nodes[ii].z == base[ii].z
                        &&& nodes[ii].w == base[ii].w
                        &&& !nodes[ii].is_food
                        &&& (nodes[ii].is_snake <==> (ii == 0 || ii == 1))
                        &&& !nodes[ii].connections.is_portal()
                        &&& strictly_increasing(nodes[ii].connections.targets())
                    },
                forall|ii: int, k: int|
                    0 <= ii < i && 0 <= k < nodes[ii].connections.targets().len()
                        ==> (#[trigger] nodes[ii].connections.targets()[k]) < n,
                forall|ii: int, jj: int|
                    0 <= ii < i && 0 <= jj < n
                        ==> ((#[trigger] nodes[ii].connections.targets().contains(jj as usize))
                            <==> manhattan(base[ii], base[jj]) == 1),
            decreases n - i,
        {
            let mut conns: Vec<usize> = Vec::new();
            let mut j: usize = 0;
            while j < n
                invariant
                    j <= n,
                    i < n,
                    2 <= s,
                    s * s <= usize::MAX,
                    base.len() == n,
                    forall|ii: int|
                        0 <= ii < n ==> {
                            &&& (#[trigger] base[ii]).x < s
                            &&& base[ii].y < s
                            &&& base[ii].z < s
                            &&& base[ii].w < s
                        },
                    forall|k: int| 0 <= k < conns@.len() ==> (#[trigger] conns@[k]) < j,
                    strictly_increasing(conns@),
                    forall|jj: usize|
                        jj < j ==> ((#[trigger] conns@.contains(jj)) <==> manhattan(
                            base[i as int], base[jj as int]) == 1),
                decreases n - j,
            {
                proof {
                    let si = s as int;
                    assert(manhattan(base[i as int], base[j as int]) <= 4 * si);
                    if s >= 4 {
                        assert(4 * si <= si * si) by (nonlinear_arith)
                            requires 4 <= si,
                        ;
                    }
                    assert(4 * si <= usize::MAX);
                }
                let d = manhattan_dist(&base[i], &base[j]);
                let ghost oc = conns@;
                if d == 1 {
                    conns.push(j);
                }
                proof {
                    assert forall|jj: usize|
                        jj < j + 1 implies ((#[trigger] conns@.contains(jj)) <==> manhattan(
                        base[i as int], base[jj as int]) == 1) by {
                        if jj == j {
                            if d == 1 {
                                assert(conns@[conns@.len() - 1] == j);
                                assert(conns@.contains(j));
                            } else if conns@.contains(j) {
                                let k = choose|k: int|
                                    0 <= k < conns@.len() && conns@[k] == j;
                                assert(oc[k] == j && oc[k] < j);
                            }
                        } else {
                            if conns@.contains(jj) {
                                let k = choose|k: int|
                                    0 <= k < conns@.len() && conns@[k] == jj;
                                assert(k < oc.len() && oc[k] == jj);
                                assert(oc.contains(jj));
                            }
                            if oc.contains(jj) {
                                let k = choose|k: int| 0 <= k < oc.len() && oc[k] == jj;
                                assert(conns@[k] == jj);
                                assert(conns@.contains(jj));
                            }
                        }
                    }
                    assert(strictly_increasing(conns@)) by {
                        assert forall|k1: int, k2: int|
                            0 <= k1 < k2 < conns@.len() implies conns@[k1] < conns@[k2] by {
                            if k2 == oc.len() && d == 1 {
                                assert(conns@[k1] == oc[k1] && oc[k1] < j);
                            }
                        }
                    }
                }
                j += 1;
            }
            let mut node = Node::new_blank(base[i].x, base[i].y, base[i].z, base[i].w, conns);
            if i <= 1 {
                node.is_snake = true;
            }
            nodes.push(node);
            i += 1;
        }

        let mut snake: Vec<usize> = Vec::new();
        snake.push(0);
        snake.push(1);
        let r = Board { nodes, size, dimensions, snake };
        proof {
            assert(r.snake@ == seq![0usize, 1usize]);
            assert(2 <= n as int) by (nonlinear_arith)
                requires 2 <= s, n as int == s as int * s as int
                    || n as int == s as int * s as int * s as int * s as int,
            ;
            assert forall|k: int| 0 <= k < r.snake@.len() implies (#[trigger] r.snake@[k])
                < r.nodes.len() by {
                assert(r.snake@[k] == 0usize || r.snake@[k] == 1usize);
            }
            assert forall|i: int| 0 <= i < r.nodes.len() implies (#[trigger] r.nodes[i]).is_snake
                <==> r.snake@.contains(i as usize) by {
                if i == 0 || i == 1 {
                    assert(r.snake@[i] == i as usize);
                    assert(r.snake@.contains(i as usize));
                } else {
                    assert forall|k: int| 0 <= k < r.snake@.len() implies r.snake@[k] != i as usize
                        by {}
                }
            }
            assert forall|i: int| 0 <= i < r.nodes.len() implies !(#[trigger] r.nodes[i]).connections.is_portal()
                && r.adjacency_exact_at(i) by {
                assert forall|j: int| 0 <= j < r.nodes.len() implies ((#[trigger] r.nodes[i].connections.targets().contains(
                    j as usize,
                )) <==> manhattan(r.nodes[i], r.nodes[j]) == 1) by {
                    assert(manhattan(r.nodes[i], r.nodes[j]) == manhattan(base[i], base[j]));
                }
            }
        }
        r
    }

    /// A fresh two-dimensional lattice, snake on its two starting cells.
    pub fn new_2d_no_portals(size: usize) -> (r: Board)
        requires
            2 <= size,
            size * size <= usize::MAX,
        ensures
            r.fresh_lattice(size, 2),
    {
        Self::build_lattice(size, 2)
    }

    /// A fresh four-dimensional lattice, snake on its two starting cells.
    pub fn new_4d_no_portals(size: usize) -> (r: Board)
        requires
            2 <= size,
            size * size * size * size <= usize::MAX,
        ensures
            r.fresh_lattice(size, 4),
    {
        Self::build_lattice(size, 4)
    }

    /// Build the world for a configured dimensionality; an unsupported one is
    /// rejected with a configuration error naming it.
    pub fn new(size: usize, dimensions: usize) -> (r: Result<Board, ConfigError>)
        requires
            2 <= size,
            dimensions == 2 ==> size * size <= usize::MAX,
            dimensions == 4 ==> size * size * size * size <= usize::MAX,
        ensures
            r is Ok <==> (dimensions == 2 || dimensions == 4),
            r matches Ok(b) ==> b.fresh_lattice(size, dimensions),
            r matches Err(e) ==> e.dimensions == dimensions,
    {
        if dimensions == 2 || dimensions == 4 {
            Ok(Self::build_lattice(size, dimensions))
        } else {
            Err(ConfigError { dimensions })
        }
    }
}

/// Unit-distance adjacency of the fresh lattice is symmetric: `j` is a
/// neighbour of `i` exactly when `i` is a neighbour of `j`.
pub proof fn lemma_adjacency_symmetric(b: Board, i: int, j: int)
    requires
        b.lattice_adjacency(),
        0 <= i < b.nodes.len(),
        0 <= j < b.nodes.len(),
    ensures
        b.nodes[i].connections.targets().contains(j as usize) <==> b.nodes[j].connections.targets().contains(i as usize),
{
    assert(manhattan(b.nodes[i], b.nodes[j]) == manhattan(b.nodes[j], b.nodes[i]));
}

/// A portal cell has exactly one connection target.
pub proof fn lemma_portal_single_target(a: Adjacency)
    requires
        a.is_portal(),
    ensures
        a.targets().len() == 1,
{
}

/// Number of cells currently flagged as food.
pub open spec fn food_total(nodes: Seq<Node>) -> nat
    decreases nodes.len(),
{
    if nodes.len() == 0 {
        0
    } else {
        food_total(nodes.drop_last()) + if nodes.last().is_food {
            1nat
        } else {
            0nat
        }
    }
}

/// Number of cells currently flagged as snake-occupied.
pub open spec fn snake_flag_total(nodes: Seq<Node>) -> nat
    decreases nodes.len(),
{
    if nodes.len() == 0 {
        0
    } else {
        snake_flag_total(nodes.drop_last()) + if nodes.last().is_snake {
            1nat
        } else {
            0nat
        }
    }
}

/// Replacing one cell shifts each total by that cell's change of flag.
pub proof fn lemma_totals_update(nodes: Seq<Node>, i: int, nd: Node)
    requires
        0 <= i < nodes.len(),
    ensures
        food_total(nodes.update(i, nd)) + (if nodes[i].is_food { 1nat } else { 0nat })
            == food_total(nodes) + (if nd.is_food { 1nat } else { 0nat }),
        snake_flag_total(nodes.update(i, nd)) + (if nodes[i].is_snake { 1nat } else { 0nat })
            == snake_flag_total(nodes) + (if nd.is_snake { 1nat } else { 0nat }),
    decreases nodes.len(),
{
    let up = nodes.update(i, nd);
    if i == nodes.len() - 1 {
        assert(up.drop_last() =~= nodes.drop_last());
        assert(up.last() == nd);
    } else {
        assert(up.drop_last() =~= nodes.drop_last().update(i, nd));
        assert(up.last() == nodes.last());
        lemma_totals_update(nodes.drop_last(), i, nd);
    }
}

/// No food flag set anywhere means a food total of zero.
pub proof fn lemma_food_total_zero(nodes: Seq<Node>)
    requires
        forall|i: int| 0 <= i < nodes.len() ==> !(#[trigger] nodes[i]).is_food,
    ensures
        food_total(nodes) == 0,
    decreases nodes.len(),
{
    if nodes.len() > 0 {
        assert(!nodes.last().is_food);
        lemma_food_total_zero(nodes.drop_last());
    }
}

/// Exactly the two starting cells flagged as snake means a snake total of two.
pub proof fn lemma_snake_total_pair(nodes: Seq<Node>)
    requires
        2 <= nodes.len(),
        forall|i: int|
            0 <= i < nodes.len() ==> ((#[trigger] nodes[i]).is_snake <==> (i == 0 || i == 1)),
    ensures
        snake_flag_total(nodes) == 2,
    decreases nodes.len(),
{
    assert(nodes[0].is_snake);
    assert(nodes[1].is_snake);
    if nodes.len() == 2 {
        let d1 = nodes.drop_last();
        assert(d1.last() == nodes[0]);
        assert(snake_flag_total(d1.drop_last()) == 0);
        assert(snake_flag_total(d1) == 1);
        assert(nodes.last() == nodes[1]);
    } else {
        let sub = nodes.drop_last();
        assert forall|i: int|
            0 <= i < sub.len() implies ((#[trigger] sub[i]).is_snake <==> (i == 0 || i == 1)) by {
            assert(sub[i] == nodes[i]);
        }
        lemma_snake_total_pair(sub);
        assert(!nodes.last().is_snake);
    }
}

/// If every cell is food or snake-occupied, the two totals cover the board.
pub proof fn lemma_no_free_cell(nodes: Seq<Node>)
    requires
        forall|i: int|
            0 <= i < nodes.len() ==> ((#[trigger] nodes[i]).is_food || nodes[i].is_snake),
    ensures
        food_total(nodes) + snake_flag_total(nodes) >= nodes.len(),
    decreases nodes.len(),
{
    if nodes.len() > 0 {
        assert(nodes.last().is_food || nodes.last().is_snake);
        lemma_no_free_cell(nodes.drop_last());
    }
}

/// Two boards of identical shape (sizes, coordinates and connections, cell by
/// cell) satisfy the same topological well-formedness and adjacency claims.
pub proof fn lemma_same_shape(a: Board, b: Board)
    requires
        b.size == a.size,
        b.dimensions == a.dimensions,
        b.nodes.len() == a.nodes.len(),
        forall|i: int|
            0 <= i < a.nodes.len() ==> {
                &&& (#[trigger] b.nodes[i]).x == a.nodes[i].x
                &&& b.nodes[i].y == a.nodes[i].y
                &&& b.nodes[i].z == a.nodes[i].z
                &&& b.nodes[i].w == a.nodes[i].w
                &&& b.nodes[i].connections.targets() == a.nodes[i].connections.targets()
                &&& (b.nodes[i].connections.is_portal() <==> a.nodes[i].connections.is_portal())
            },
    ensures
        a.wf_topology() ==> b.wf_topology(),
        a.lattice_except_portals() ==> b.lattice_except_portals(),
{
    assert forall|i: int, j: int| 0 <= i < a.nodes.len() && 0 <= j < a.nodes.len() implies
        manhattan(b.nodes[i], b.nodes[j]) == manhattan(a.nodes[i], a.nodes[j]) by {}
    if a.wf_topology() {
        assert forall|i: int, k: int|
            0 <= i < b.nodes.len() && 0 <= k < b.nodes[i].connections.targets().len() implies (
        #[trigger] b.nodes[i].connections.targets()[k]) < b.nodes.len() by {
            assert(a.nodes[i].connections.targets()[k] < a.nodes.len());
        }
    }
    if a.lattice_except_portals() {
        assert forall|i: int|
            0 <= i < b.nodes.len() && !(#[trigger] b.nodes[i]).connections.is_portal() implies
            b.adjacency_exact_at(i) by {
            assert(a.adjacency_exact_at(i));
            assert forall|j: int| 0 <= j < b.nodes.len() implies ((#[trigger] b.nodes[i].connections.targets().contains(
                j as usize,
            )) <==> manhattan(b.nodes[i], b.nodes[j]) == 1) by {
                assert(a.nodes[i].connections.targets().contains(j as usize) <==> manhattan(
                    a.nodes[i], a.nodes[j]) == 1);
            }
        }
    }
}

impl Board {
    /// Replace the flags stored on one cell, leaving shape and snake alone.
    pub(crate) fn set_flags(&mut self, idx: usize, food: bool, snake: bool)
        requires
            idx < old(self).nodes.len(),
        ensures
            final(self).size == old(self).size,
            final(self).dimensions == old(self).dimensions,
            final(self).snake == old(self).snake,
            final(self).nodes.len() == old(self).nodes.len(),
            forall|i: int|
                0 <= i < old(self).nodes.len() && i != idx ==> final(self).nodes[i] == old(self).nodes[i],
            (final(self).nodes[idx as int].x == old(self).nodes[idx as int].x
                && final(self).nodes[idx as int].y == old(self).nodes[idx as int].y
                && final(self).nodes[idx as int].z == old(self).nodes[idx as int].z
                && final(self).nodes[idx as int].w == old(self).nodes[idx as int].w),
            final(self).nodes[idx as int].connections.targets() == old(self).nodes[idx as int].connections.targets(),
            (final(self).nodes[idx as int].connections.is_portal() <==> old(self).nodes[idx as int].connections.is_portal()),
            final(self).nodes[idx as int].is_food == food,
            final(self).nodes[idx as int].is_snake == snake,
            old(self).wf_topology() ==> final(self).wf_topology(),
            old(self).lattice_except_portals() ==> final(self).lattice_except_portals(),
    {
        let nd = {
            let cell = &self.nodes[idx];
            Node {
                x: cell.x,
                y: cell.y,
                z: cell.z,
                w: cell.w,
                is_food: food,
                is_snake: snake,
                connections: cell.connections.clone(),
            }
        };
        self.nodes.set(idx, nd);
        proof {
            lemma_same_shape(*old(self), *self);
        }
    }

    /// Set or clear the food flag on one cell.
    pub fn set_food(&mut self, idx: usize, val: bool)
        requires
            idx < old(self).nodes.len(),
        ensures
            final(self).size == old(self).size,
            final(self).dimensions == old(self).dimensions,
            final(self).snake == old(self).snake,
            final(self).nodes.len() == old(self).nodes.len(),
            forall|i: int|
                0 <= i < old(self).nodes.len() && i != idx ==> final(self).nodes[i] == old(self).nodes[i],
            final(self).nodes[idx as int].is_food == val,
            final(self).nodes[idx as int].is_snake == old(self).nodes[idx as int].is_snake,
            (final(self).nodes[idx as int].x == old(self).nodes[idx as int].x
                && final(self).nodes[idx as int].y == old(self).nodes[idx as int].y
                && final(self).nodes[idx as int].z == old(self).nodes[idx as int].z
                && final(self).nodes[idx as int].w == old(self).nodes[idx as int].w),
            final(self).nodes[idx as int].connections.targets() == old(self).nodes[idx as int].connections.targets(),
            (final(self).nodes[idx as int].connections.is_portal() <==> old(self).nodes[idx as int].connections.is_portal()),
            old(self).wf_topology() ==> final(self).wf_topology(),
            old(self).lattice_except_portals() ==> final(self).lattice_except_portals(),
            old(self).wf() ==> final(self).wf(),
            food_total(final(self).nodes@) + (if old(self).nodes[idx as int].is_food { 1nat } else { 0nat })
                == food_total(old(self).nodes@) + (if val { 1nat } else { 0nat }),
            snake_flag_total(final(self).nodes@) == snake_flag_total(old(self).nodes@),
    {
        let snake = self.nodes[idx].is_snake;
        self.set_flags(idx, val, snake);
        proof {
            assert(self.nodes@ =~= old(self).nodes@.update(
                idx as int,
                self.nodes@[idx as int],
            ));
            lemma_totals_update(old(self).nodes@, idx as int, self.nodes@[idx as int]);
            if old(self).wf() {
                assert forall|i: int| 0 <= i < self.nodes.len() implies ((
                #[trigger] self.nodes[i]).is_snake <==> self.snake@.contains(i as usize)) by {
                    assert(old(self).nodes[i].is_snake <==> old(self).snake@.contains(i as usize));
                }
            }
        }
    }

    /// Count the cells currently flagged as food.
    pub fn count_food(&self) -> (r: usize)
        ensures
            r == food_total(self.nodes@),
    {
        let mut c: usize = 0;
        let mut k: usize = 0;
        while k < self.nodes.len()
            invariant
                k <= self.nodes.len(),
                c <= k,
                c == food_total(self.nodes@.take(k as int)),
            decreases self.nodes.len() - k,
        {
            proof {
                assert(self.nodes@.take(k + 1).drop_last() =~= self.nodes@.take(k as int));
                assert(self.nodes@.take(k + 1).last() == self.nodes@[k as int]);
            }
            if self.nodes[k].is_food {
                c += 1;
            }
            k += 1;
        }
        proof {
            assert(self.nodes@.take(self.nodes@.len() as int) =~= self.nodes@);
        }
        c
    }

    /// Whether the snake sequence currently holds the given cell index.
    pub fn snake_contains(&self, idx: usize) -> (r: bool)
        ensures
            r == self.snake@.contains(idx),
    {
        let mut k: usize = 0;
        while k < self.snake.len()
            invariant
                k <= self.snake.len(),
                forall|kk: int| 0 <= kk < k ==> (#[trigger] self.snake@[kk]) != idx,
            decreases self.snake.len() - k,
        {
            if self.snake[k] == idx {
                return true;
            }
            k += 1;
        }
        proof {
            assert forall|kk: int| 0 <= kk < self.snake@.len() implies (#[trigger] self.snake@[kk])
                != idx by {}
        }
        false
    }

    /// Override one cell's adjacency with a single teleport target, discarding
    /// its normal neighbour list.
    pub fn inject_portal(&mut self, node_index: usize, target: usize)
        requires
            node_index < old(self).nodes.len(),
            target < old(self).nodes.len(),
        ensures
            final(self).size == old(self).size,
            final(self).dimensions == old(self).dimensions,
            final(self).snake == old(self).snake,
            final(self).nodes.len() == old(self).nodes.len(),
            forall|i: int|
                0 <= i < old(self).nodes.len() && i != node_index ==> final(self).nodes[i] == old(self).nodes[i],
            (final(self).nodes[node_index as int].x == old(self).nodes[node_index as int].x
                && final(self).nodes[node_index as int].y == old(self).nodes[node_index as int].y
                && final(self).nodes[node_index as int].z == old(self).nodes[node_index as int].z
                && final(self).nodes[node_index as int].w == old(self).nodes[node_index as int].w),
            final(self).nodes[node_index as int].is_food == old(self).nodes[node_index as int].is_food,
            final(self).nodes[node_index as int].is_snake == old(self).nodes[node_index as int].is_snake,
            final(self).nodes[node_index as int].connections == Adjacency::Portal(target),
            old(self).wf_topology() ==> final(self).wf_topology(),
            old(self).wf() ==> final(self).wf(),
            old(self).lattice_except_portals() ==> final(self).lattice_except_portals(),
    {
        let nd = {
            let cell = &self.nodes[node_index];
            Node {
                x: cell.x,
                y: cell.y,
                z: cell.z,
                w: cell.w,
                is_food: cell.is_food,
                is_snake: cell.is_snake,
                connections: Adjacency::Portal(target),
            }
        };
        self.nodes.set(node_index, nd);
        proof {
            if old(self).wf_topology() {
                assert forall|i: int, k: int|
                    0 <= i < self.nodes.len() && 0 <= k
                        < self.nodes[i].connections.targets().len() implies (
                #[trigger] self.nodes[i].connections.targets()[k]) < self.nodes.len() by {
                    if i != node_index {
                        assert(old(self).nodes[i].connections.targets()[k] < old(self).nodes.len());
                    }
                }
            }
            if old(self).lattice_except_portals() {
                assert forall|i: int|
                    0 <= i < self.nodes.len() && !(#[trigger] self.nodes[i]).connections.is_portal()
                    implies self.adjacency_exact_at(i) by {
                    assert(i != node_index);
                    assert(old(self).adjacency_exact_at(i));
                    assert forall|j: int| 0 <= j < self.nodes.len() implies ((
                    #[trigger] self.nodes[i].connections.targets().contains(j as usize)) <==>
                        manhattan(self.nodes[i], self.nodes[j]) == 1) by {
                        assert(manhattan(self.nodes[i], self.nodes[j]) == manhattan(
                            old(self).nodes[i], old(self).nodes[j]));
                        assert(old(self).nodes[i].connections.targets().contains(j as usize) <==>
                            manhattan(old(self).nodes[i], old(self).nodes[j]) == 1);
                    }
                }
            }
            if old(self).wf() {
                assert forall|i: int| 0 <= i < self.nodes.len() implies ((
                #[trigger] self.nodes[i]).is_snake <==> self.snake@.contains(i as usize)) by {
                    assert(old(self).nodes[i].is_snake <==> old(self).snake@.contains(i as usize));
                }
            }
        }
    }

    /// The linear index of an in-range coordinate tuple.
    pub fn get_index(&self, x: usize, y: usize, z: usize, w: usize) -> (r: usize)
        requires
            self.wf_topology(),
            x < self.size,
            y < self.size,
            z < self.upper_extent(),
            w < self.upper_extent(),
        ensures
            r as int == index_spec(x as int, y as int, z as int, w as int, self.size as int),
            r < self.nodes.len(),
    {
        let s = self.size;
        proof {
            let si = s as int;
            let xi = x as int;
            let yi = y as int;
            let zi = z as int;
            let wi = w as int;
            lemma_coord_of_index_of(xi, yi, zi, wi, si);
            if self.dimensions == 2 {
                assert(zi == 0 && wi == 0);
                assert(xi + yi * si <= si * si - 1) by (nonlinear_arith)
                    requires 0 <= xi < si, 0 <= yi < si, 1 <= si,
                ;
                assert(index_spec(xi, yi, zi, wi, si) == xi + yi * si);
                assert(wi * si + zi == 0 && (wi * si + zi) * si + yi == yi) by (nonlinear_arith)
                    requires wi == 0, zi == 0,
                ;
            } else {
                assert(si * si <= si * si * si * si && si * si * si <= si * si * si * si)
                    by (nonlinear_arith)
                    requires 2 <= si,
                ;
            }
            assert(0 <= wi * si + zi <= si * si - 1) by (nonlinear_arith)
                requires 0 <= wi <= si - 1, 0 <= zi <= si - 1, 1 <= si,
            ;
            assert(0 <= (wi * si + zi) * si + yi <= si * si * si - 1) by (nonlinear_arith)
                requires 0 <= wi * si + zi <= si * si - 1, 0 <= yi <= si - 1, 1 <= si,
            ;
            assert(0 <= ((wi * si + zi) * si + yi) * si + xi <= si * si * si * si - 1)
                by (nonlinear_arith)
                requires
                    0 <= (wi * si + zi) * si + yi <= si * si * si - 1,
                    0 <= xi <= si - 1,
                    1 <= si,
            ;
            assert(((wi * si + zi) * si + yi) * si + xi == index_spec(xi, yi, zi, wi, si))
                by (nonlinear_arith)
                requires
                    index_spec(xi, yi, zi, wi, si) == xi + yi * si + zi * si * si + wi * si * si
                        * si,
            ;
            assert(si * si * si * si - 1 < usize::MAX || self.dimensions == 2);
        }
        let a = w * s + z;
        let b = a * s + y;
        let c = b * s + x;
        c
    }

    /// Pick `count` random cells and portal each of them to a random target.
    /// Duplicates are permitted: the last overwrite wins.
    pub fn add_portals(&mut self, count: usize)
        requires
            old(self).wf(),
        ensures
            final(self).wf(),
            final(self).size == old(self).size,
            final(self).dimensions == old(self).dimensions,
            final(self).snake == old(self).snake,
            final(self).nodes.len() == old(self).nodes.len(),
            forall|i: int|
                0 <= i < old(self).nodes.len() ==> {
                    &&& (#[trigger] final(self).nodes[i]).x == old(self).nodes[i].x
                    &&& final(self).nodes[i].y == old(self).nodes[i].y
                    &&& final(self).nodes[i].z == old(self).nodes[i].z
                    &&& final(self).nodes[i].w == old(self).nodes[i].w
                    &&& final(self).nodes[i].is_food == old(self).nodes[i].is_food
                    &&& final(self).nodes[i].is_snake == old(self).nodes[i].is_snake
                    &&& (final(self).nodes[i].connections == old(self).nodes[i].connections
                        || final(self).nodes[i].connections.is_portal())
                },
            old(self).lattice_except_portals() ==> final(self).lattice_except_portals(),
            0 < count ==> exists|i: int|
                0 <= i < final(self).nodes.len() && (#[trigger] final(self).nodes[i]).connections.is_portal(),
    {
        let n = self.nodes.len();
        proof {
            let si = old(self).size as int;
            if self.dimensions == 2 {
                assert(si * si >= 2) by (nonlinear_arith)
                    requires 2 <= si,
                ;
            } else {
                assert(si * si * si * si >= 2) by (nonlinear_arith)
                    requires 2 <= si,
                ;
            }
        }
        let mut c: usize = 0;
        while c < count
            invariant
                0 < c ==> exists|i: int|
                    0 <= i < self.nodes.len() && (#[trigger] self.nodes[i]).connections.is_portal(),
                self.wf(),
                self.size == old(self).size,
                self.dimensions == old(self).dimensions,
                self.snake == old(self).snake,
                self.nodes.len() == old(self).nodes.len(),
                n == self.nodes.len(),
                0 < n,
                forall|i: int|
                    0 <= i < old(self).nodes.len() ==> {
                        &&& (#[trigger] self.nodes[i]).x == old(self).nodes[i].x
                        &&& self.nodes[i].y == old(self).nodes[i].y
                        &&& self.nodes[i].z == old(self).nodes[i].z
                        &&& self.nodes[i].w == old(self).nodes[i].w
                        &&& self.nodes[i].is_food == old(self).nodes[i].is_food
                        &&& self.nodes[i].is_snake == old(self).nodes[i].is_snake
                        &&& (self.nodes[i].connections == old(self).nodes[i].connections
                            || self.nodes[i].connections.is_portal())
                    },
                old(self).lattice_except_portals() ==> self.lattice_except_portals(),
            decreases count - c,
        {
            let a = crate::random::random_below(n);
            let t = crate::random::random_below(n);
            self.inject_portal(a, t);
            proof {
                assert(a < self.nodes.len());
                assert(self.nodes[a as int].connections.is_portal());
            }
            c += 1;
        }
    }
}

/// The cell reached after `k` steps of a wrapping scan that starts at `start`.
pub open spec fn wrap_at(start: int, k: int, n: int) -> int {
    if start + k < n {
        start + k
    } else {
        start + k - n
    }
}

impl Board {
    /// A cell is free when it holds no food and no part of the snake.
    pub open spec fn is_free(self, i: int) -> bool {
        !self.nodes[i].is_food && !self.nodes[i].is_snake
    }

    /// Flag as food the first free cell of a wrapping scan from `start`;
    /// report whether any cell was free at all.
    pub fn place_one_food(&mut self, start: usize) -> (placed: bool)
        requires
            start < old(self).nodes.len(),
        ensures
            final(self).size == old(self).size,
            final(self).dimensions == old(self).dimensions,
            final(self).snake == old(self).snake,
            final(self).nodes.len() == old(self).nodes.len(),
            forall|i: int|
                0 <= i < old(self).nodes.len() ==> {
                    &&& (#[trigger] final(self).nodes[i]).x == old(self).nodes[i].x
                    &&& final(self).nodes[i].y == old(self).nodes[i].y
                    &&& final(self).nodes[i].z == old(self).nodes[i].z
                    &&& final(self).nodes[i].w == old(self).nodes[i].w
                    &&& final(self).nodes[i].connections.targets() == old(self).nodes[i].connections.targets()
                    &&& (final(self).nodes[i].connections.is_portal() <==> old(self).nodes[i].connections.is_portal())
                    &&& final(self).nodes[i].is_snake == old(self).nodes[i].is_snake
                },
            old(self).wf_topology() ==> final(self).wf_topology(),
            old(self).lattice_except_portals() ==> final(self).lattice_except_portals(),
            old(self).wf() ==> final(self).wf(),
            placed <==> (exists|i: int| 0 <= i < old(self).nodes.len() && old(self).is_free(i)),
            placed ==> (exists|i: int|
                0 <= i < old(self).nodes.len() && old(self).is_free(i) && final(self).nodes[i].is_food && (forall|ii: int|
                    0 <= ii < old(self).nodes.len() && ii != i ==> (#[trigger] final(self).nodes[ii]).is_food == old(self).nodes[ii].is_food)),
            placed ==> food_total(final(self).nodes@) == food_total(old(self).nodes@) + 1,
            !placed ==> *final(self) == *old(self),
            snake_flag_total(final(self).nodes@) == snake_flag_total(old(self).nodes@),
    {
        let n = self.nodes.len();
        let mut k: usize = 0;
        while k < n
            invariant
                k <= n,
                n == self.nodes.len(),
                start < n,
                *self == *old(self),
                forall|kk: int| 0 <= kk < k ==> !old(self).is_free(wrap_at(start as int, kk, n as int)),
            decreases n - k,
        {
            let idx = if k < n - start {
                start + k
            } else {
                k - (n - start)
            };
            assert(idx as int == wrap_at(start as int, k as int, n as int));
            if !self.nodes[idx].is_food && !self.nodes[idx].is_snake {
                proof {
                    assert(old(self).is_free(idx as int));
                }
                let ghost prev = *self;
                let snake = self.nodes[idx].is_snake;
                self.set_flags(idx, true, snake);
                proof {
                    assert(self.nodes@ =~= prev.nodes@.update(idx as int, self.nodes@[idx as int]));
                    lemma_totals_update(prev.nodes@, idx as int, self.nodes@[idx as int]);
                    if prev.wf() {
                        assert forall|i: int| 0 <= i < self.nodes.len() implies ((
                        #[trigger] self.nodes[i]).is_snake <==> self.snake@.contains(i as usize))
                            by {
                            assert(prev.nodes[i].is_snake <==> prev.snake@.contains(i as usize));
                        }
                    }
                }
                return true;
            }
            k += 1;
        }
        proof {
            assert forall|i: int| 0 <= i < n implies !old(self).is_free(i) by {
                let kk: int = if i >= start { i - start } else { i + n - start };
                assert(wrap_at(start as int, kk, n as int) == i);
                assert(!old(self).is_free(wrap_at(start as int, kk, n as int)));
            }
        }
        false
    }

    /// Scatter `count` pieces of food on free cells, one at a time, each scan
    /// starting at a freshly drawn random cell.
    pub fn place_food(&mut self, count: usize)
        requires
            old(self).wf_topology(),
            food_total(old(self).nodes@) + count + snake_flag_total(old(self).nodes@) <= old(self).nodes.len(),
        ensures
            final(self).size == old(self).size,
            final(self).dimensions == old(self).dimensions,
            final(self).snake == old(self).snake,
            final(self).nodes.len() == old(self).nodes.len(),
            forall|i: int|
                0 <= i < old(self).nodes.len() ==> {
                    &&& (#[trigger] final(self).nodes[i]).x == old(self).nodes[i].x
                    &&& final(self).nodes[i].y == old(self).nodes[i].y
                    &&& final(self).nodes[i].z == old(self).nodes[i].z
                    &&& final(self).nodes[i].w == old(self).nodes[i].w
                    &&& final(self).nodes[i].connections.targets() == old(self).nodes[i].connections.targets()
                    &&& (final(self).nodes[i].connections.is_portal() <==> old(self).nodes[i].connections.is_portal())
                    &&& final(self).nodes[i].is_snake == old(self).nodes[i].is_snake
                },
            final(self).wf_topology(),
            old(self).lattice_except_portals() ==> final(self).lattice_except_portals(),
            old(self).wf() ==> final(self).wf(),
            food_total(final(self).nodes@) == food_total(old(self).nodes@) + count,
            forall|i: int|
                0 <= i < old(self).nodes.len() && (#[trigger] final(self).nodes[i]).is_food
                    && !old(self).nodes[i].is_food ==> !old(self).nodes[i].is_snake,
    {
        let n = self.nodes.len();
        proof {
            let si = old(self).size as int;
            if self.dimensions == 2 {
                assert(si * si >= 2) by (nonlinear_arith)
                    requires 2 <= si,
                ;
            } else {
                assert(si * si * si * si >= 2) by (nonlinear_arith)
                    requires 2 <= si,
                ;
            }
        }
        let mut c: usize = 0;
        while c < count
            invariant
                c <= count,
                n == self.nodes.len(),
                0 < n,
                self.size == old(self).size,
                self.dimensions == old(self).dimensions,
                self.snake == old(self).snake,
                self.nodes.len() == old(self).nodes.len(),
                forall|i: int|
                    0 <= i < old(self).nodes.len() ==> {
                        &&& (#[trigger] self.nodes[i]).x == old(self).nodes[i].x
                        &&& self.nodes[i].y == old(self).nodes[i].y
                        &&& self.nodes[i].z == old(self).nodes[i].z
                        &&& self.nodes[i].w == old(self).nodes[i].w
                        &&& self.nodes[i].connections.targets() == old(self).nodes[i].connections.targets()
                        &&& (self.nodes[i].connections.is_portal() <==> old(self).nodes[i].connections.is_portal())
                        &&& self.nodes[i].is_snake == old(self).nodes[i].is_snake
                    },
                self.wf_topology(),
                old(self).lattice_except_portals() ==> self.lattice_except_portals(),
                old(self).wf() ==> self.wf(),
                food_total(self.nodes@) == food_total(old(self).nodes@) + c,
                snake_flag_total(self.nodes@) == snake_flag_total(old(self).nodes@),
                food_total(old(self).nodes@) + count + snake_flag_total(old(self).nodes@) <= n,
                forall|i: int|
                    0 <= i < old(self).nodes.len() && (#[trigger] self.nodes[i]).is_food && !old(self).nodes[i].is_food ==> !old(self).nodes[i].is_snake,
            decreases count - c,
        {
            let start = crate::random::random_below(n);
            let ghost prev = *self;
            let placed = self.place_one_food(start);
            proof {
                if !placed {
                    assert forall|i: int| 0 <= i < prev.nodes.len() implies ((
                    #[trigger] prev.nodes[i]).is_food || prev.nodes[i].is_snake) by {
                        assert(!prev.is_free(i));
                    }
                    lemma_no_free_cell(prev.nodes@);
                    assert(false);
                }
            }
            c += 1;
        }
    }
}

} // verus!
