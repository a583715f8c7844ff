//! The fixed 9x9 topology: rows, columns, boxes, units and peers.
//!
//! Cells are numbered 0..81, left to right and top to bottom. Everything here
//! is closed-form arithmetic on cell indices; nothing is searched for.

use vstd::prelude::*;
use vstd::relations::injective_on;
use vstd::set_lib::{lemma_int_range, lemma_map_size, set_int_range};

verus! {

/// Number of cells of a grid.
pub const CELLS: usize = 81;

/// Number of peers of any cell.
pub const PEERS: usize = 20;

/// Number of units: nine rows, nine columns, nine boxes.
pub const UNITS: usize = 27;

pub open spec fn is_cell(i: int) -> bool {
    0 <= i < 81
}

pub open spec fn row_of(i: int) -> int {
    i / 9
}

pub open spec fn col_of(i: int) -> int {
    i % 9
}

pub open spec fn box_of(i: int) -> int {
    i / 27 * 3 + i % 9 / 3
}

/// Two distinct cells are peers when they share a row, a column or a box.
pub open spec fn are_peers(i: int, j: int) -> bool {
    &&& is_cell(i)
    &&& is_cell(j)
    &&& i != j
    &&& (row_of(i) == row_of(j) || col_of(i) == col_of(j) || box_of(i) == box_of(j))
}

/// The `k`-th number of the naturals with `x` left out.
pub open spec fn skip(k: int, x: int) -> int {
    if k < x {
        k
    } else {
        k + 1
    }
}

/// The `k`-th peer of cell `i`, for `k` in 0..20: first the eight other cells
/// of its row, then the eight other cells of its column, then the four cells
/// of its box that lie in another row and another column.
pub open spec fn peer_at(i: int, k: int) -> int {
    let r = i / 9;
    let c = i % 9;
    if k < 8 {
        r * 9 + skip(k, c)
    } else if k < 16 {
        skip(k - 8, r) * 9 + c
    } else {
        (r / 3 * 3 + skip((k - 16) / 2, r % 3)) * 9 + (c / 3 * 3 + skip((k - 16) % 2, c % 3))
    }
}

/// The position of peer `j` in the enumeration of the peers of `i`.
pub open spec fn peer_rank(i: int, j: int) -> int {
    let r = i / 9;
    let c = i % 9;
    let rj = j / 9;
    let cj = j % 9;
    if rj == r {
        if cj < c {
            cj
        } else {
            cj - 1
        }
    } else if cj == c {
        8 + if rj < r {
            rj
        } else {
            rj - 1
        }
    } else {
        16 + 2 * (if rj % 3 < r % 3 {
            rj % 3
        } else {
            rj % 3 - 1
        }) + (if cj % 3 < c % 3 {
            cj % 3
        } else {
            cj % 3 - 1
        })
    }
}

/// The `k`-th cell of unit `u`. Units 0..9 are the rows, 9..18 the columns,
/// 18..27 the boxes; `k` runs over 0..9.
pub open spec fn unit_cell(u: int, k: int) -> int {
    if u < 9 {
        u * 9 + k
    } else if u < 18 {
        k * 9 + (u - 9)
    } else {
        ((u - 18) / 3 * 3 + k / 3) * 9 + ((u - 18) % 3 * 3 + k % 3)
    }
}

/// Every enumerated peer is a peer.
pub proof fn lemma_peer_at_is_peer(i: int, k: int)
    requires
        is_cell(i),
        0 <= k < 20,
    ensures
        are_peers(i, peer_at(i, k)),
{
    let r = i / 9;
    let c = i % 9;
    let j = peer_at(i, k);
    assert(i == r * 9 + c);
    if k < 8 {
        assert(j / 9 == r && j % 9 == skip(k, c));
    } else if k < 16 {
        assert(j / 9 == skip(k - 8, r) && j % 9 == c);
    } else {
        let rj = r / 3 * 3 + skip((k - 16) / 2, r % 3);
        let cj = c / 3 * 3 + skip((k - 16) % 2, c % 3);
        assert(0 <= rj < 9 && 0 <= cj < 9);
        assert(j == rj * 9 + cj);
        assert(j / 9 == rj && j % 9 == cj);
        assert(rj / 3 == r / 3 && cj / 3 == c / 3);
        assert(i / 27 == r / 3 && j / 27 == rj / 3);
        assert(rj != r);
    }
}

/// Every peer is enumerated, at the position `peer_rank` gives.
pub proof fn lemma_peer_is_enumerated(i: int, j: int)
    requires
        are_peers(i, j),
    ensures
        0 <= peer_rank(i, j) < 20,
        peer_at(i, peer_rank(i, j)) == j,
{
    let r = i / 9;
    let c = i % 9;
    let rj = j / 9;
    let cj = j % 9;
    let k = peer_rank(i, j);
    assert(i == r * 9 + c && j == rj * 9 + cj);
    if rj == r {
        assert(0 <= k < 8);
        assert(skip(k, c) == cj);
    } else if cj == c {
        assert(8 <= k < 16);
        assert(skip(k - 8, r) == rj);
    } else {
        assert(i / 27 == r / 3 && j / 27 == rj / 3);
        assert(r / 3 == rj / 3 && c / 3 == cj / 3);
        let a = if rj % 3 < r % 3 {
            rj % 3
        } else {
            rj % 3 - 1
        };
        let b = if cj % 3 < c % 3 {
            cj % 3
        } else {
            cj % 3 - 1
        };
        assert(rj % 3 != r % 3 && cj % 3 != c % 3);
        assert(0 <= a < 2 && 0 <= b < 2);
        assert(k == 16 + 2 * a + b);
        assert((k - 16) / 2 == a && (k - 16) % 2 == b);
        assert(skip(a, r % 3) == rj % 3 && skip(b, c % 3) == cj % 3);
        assert(r / 3 * 3 + rj % 3 == rj && c / 3 * 3 + cj % 3 == cj);
    }
}

/// The position of the `k`-th peer is `k`.
pub proof fn lemma_peer_rank_inverse(i: int, k: int)
    requires
        is_cell(i),
        0 <= k < 20,
    ensures
        peer_rank(i, peer_at(i, k)) == k,
{
    let r = i / 9;
    let c = i % 9;
    let j = peer_at(i, k);
    if k < 8 {
        assert(j / 9 == r && j % 9 == skip(k, c));
    } else if k < 16 {
        assert(j / 9 == skip(k - 8, r) && j % 9 == c);
    } else {
        let a = (k - 16) / 2;
        let b = (k - 16) % 2;
        let rj = r / 3 * 3 + skip(a, r % 3);
        let cj = c / 3 * 3 + skip(b, c % 3);
        assert(0 <= rj < 9 && 0 <= cj < 9);
        assert(j == rj * 9 + cj);
        assert(j / 9 == rj && j % 9 == cj);
        assert(rj % 3 == skip(a, r % 3));
        assert(cj % 3 == skip(b, c % 3));
    }
}

/// No peer is enumerated twice.
pub proof fn lemma_peer_at_injective(i: int, k1: int, k2: int)
    requires
        is_cell(i),
        0 <= k1 < 20,
        0 <= k2 < 20,
        k1 != k2,
    ensures
        peer_at(i, k1) != peer_at(i, k2),
{
    lemma_peer_rank_inverse(i, k1);
    lemma_peer_rank_inverse(i, k2);
}

/// The peers of cell `i`.
pub open spec fn peer_set(i: int) -> Set<int> {
    Set::new(|j: int| are_peers(i, j))
}

/// Every cell has exactly twenty peers.
pub proof fn law_twenty_peers(i: int)
    requires
        is_cell(i),
    ensures
        peer_set(i).finite(),
        peer_set(i).len() == 20,
{
    let ranks = set_int_range(0, 20);
    let at = |k: int| peer_at(i, k);
    lemma_int_range(0, 20);
    assert(injective_on(at, ranks)) by {
        assert forall|k1: int, k2: int|
            ranks.contains(k1) && ranks.contains(k2) && #[trigger] at(k1) == #[trigger] at(
                k2,
            ) implies k1 == k2 by {
            if k1 != k2 {
                lemma_peer_at_injective(i, k1, k2);
            }
        }
    }
    assert(ranks.map(at) =~= peer_set(i)) by {
        assert forall|j: int| ranks.map(at).contains(j) == peer_set(i).contains(j) by {
            if ranks.map(at).contains(j) {
                let k = choose|k: int| ranks.contains(k) && j == at(k);
                lemma_peer_at_is_peer(i, k);
            }
            if are_peers(i, j) {
                lemma_peer_is_enumerated(i, j);
                let k = peer_rank(i, j);
                assert(ranks.contains(k) && j == at(k));
            }
        }
    }
    lemma_map_size(ranks, peer_set(i), at);
}

/// The peer relation is symmetric.
pub proof fn lemma_peers_symmetric(i: int, j: int)
    ensures
        are_peers(i, j) == are_peers(j, i),
{
}

/// Row, column and box of the `k`-th cell of unit `u`.
pub proof fn lemma_unit_cell_coordinates(u: int, k: int)
    requires
        0 <= u < 27,
        0 <= k < 9,
    ensures
        is_cell(unit_cell(u, k)),
        u < 9 ==> row_of(unit_cell(u, k)) == u && col_of(unit_cell(u, k)) == k,
        9 <= u < 18 ==> row_of(unit_cell(u, k)) == k && col_of(unit_cell(u, k)) == u - 9,
        18 <= u ==> box_of(unit_cell(u, k)) == u - 18 && row_of(unit_cell(u, k)) == (u - 18) / 3
            * 3 + k / 3 && col_of(unit_cell(u, k)) == (u - 18) % 3 * 3 + k % 3,
{
    if u >= 18 {
        let r = (u - 18) / 3 * 3 + k / 3;
        let c = (u - 18) % 3 * 3 + k % 3;
        assert(0 <= r < 9 && 0 <= c < 9);
        assert(unit_cell(u, k) == r * 9 + c);
        assert((r * 9 + c) / 9 == r && (r * 9 + c) % 9 == c);
        assert(r / 3 == (u - 18) / 3);
        assert(c / 3 == (u - 18) % 3);
        assert((r * 9 + c) / 27 == r / 3);
    }
}

/// The cells of a unit are cells, and two different ones are peers.
pub proof fn lemma_unit_cells_are_peers(u: int, k1: int, k2: int)
    requires
        0 <= u < 27,
        0 <= k1 < 9,
        0 <= k2 < 9,
    ensures
        is_cell(unit_cell(u, k1)),
        k1 != k2 ==> are_peers(unit_cell(u, k1), unit_cell(u, k2)),
{
    lemma_unit_cell_coordinates(u, k1);
    lemma_unit_cell_coordinates(u, k2);
    if k1 != k2 {
        let a = unit_cell(u, k1);
        let b = unit_cell(u, k2);
        if u >= 18 {
            assert(k1 / 3 != k2 / 3 || k1 % 3 != k2 % 3);
            assert(row_of(a) != row_of(b) || col_of(a) != col_of(b));
            assert(a == row_of(a) * 9 + col_of(a));
            assert(b == row_of(b) * 9 + col_of(b));
        } else {
            assert(a != b);
        }
    }
}

pub fn row(cell: usize) -> (r: usize)
    requires
        cell < 81,
    ensures
        r == row_of(cell as int),
        r < 9,
{
    cell / 9
}

pub fn col(cell: usize) -> (c: usize)
    requires
        cell < 81,
    ensures
        c == col_of(cell as int),
        c < 9,
{
    cell % 9
}

pub fn box_index(cell: usize) -> (b: usize)
    requires
        cell < 81,
    ensures
        b == box_of(cell as int),
        b < 9,
{
    cell / 27 * 3 + cell % 9 / 3
}

fn skip_over(k: usize, x: usize) -> (r: usize)
    requires
        k < 100,
    ensures
        r == skip(k as int, x as int),
{
    if k < x {
        k
    } else {
        k + 1
    }
}

/// The `k`-th peer of `cell`.
pub fn peer(cell: usize, k: usize) -> (p: usize)
    requires
        cell < 81,
        k < 20,
    ensures
        p == peer_at(cell as int, k as int),
        p < 81,
        are_peers(cell as int, p as int),
{
    let r: usize = cell / 9;
    let c: usize = cell % 9;
    proof {
        lemma_peer_at_is_peer(cell as int, k as int);
    }
    if k < 8 {
        r * 9 + skip_over(k, c)
    } else if k < 16 {
        skip_over(k - 8, r) * 9 + c
    } else {
        (r / 3 * 3 + skip_over((k - 16) / 2, r % 3)) * 9 + (c / 3 * 3 + skip_over(
            (k - 16) % 2,
            c % 3,
        ))
    }
}

/// The twenty peers of `cell`, in the order of `peer_at`.
pub fn peers_of(cell: usize) -> (peers: Vec<usize>)
    requires
        cell < 81,
    ensures
        peers@.len() == 20,
        forall|k: int| 0 <= k < 20 ==> peers@[k] == peer_at(cell as int, k),
        forall|k: int| 0 <= k < 20 ==> are_peers(cell as int, #[trigger] peers@[k] as int),
        forall|j: int| are_peers(cell as int, j) ==> peers@[peer_rank(cell as int, j)] == j,
        forall|k1: int, k2: int| 0 <= k1 < k2 < 20 ==> peers@[k1] != peers@[k2],
{
    let mut peers: Vec<usize> = Vec::new();
    let mut k: usize = 0;
    while k < 20
        invariant
            cell < 81,
            k <= 20,
            peers@.len() == k,
            forall|n: int| 0 <= n < k ==> peers@[n] == peer_at(cell as int, n),
        decreases 20 - k,
    {
        let p = peer(cell, k);
        peers.push(p);
        k = k + 1;
    }
    proof {
        assert forall|n: int| 0 <= n < 20 implies are_peers(
            cell as int,
            #[trigger] peers@[n] as int,
        ) by {
            lemma_peer_at_is_peer(cell as int, n);
        }
        assert forall|j: int| are_peers(cell as int, j) implies peers@[peer_rank(cell as int, j)]
            == j by {
            lemma_peer_is_enumerated(cell as int, j);
        }
        assert forall|k1: int, k2: int| 0 <= k1 < k2 < 20 implies peers@[k1] != peers@[k2] by {
            lemma_peer_at_injective(cell as int, k1, k2);
        }
    }
    peers
}

/// The table of peers: for each of the 81 cells, in order, its twenty peers
/// in the order of `peer_at`.
pub open spec fn peer_table() -> Seq<Seq<usize>> {
    Seq::new(81, |i: int| Seq::new(20, |k: int| peer_at(i, k) as usize))
}

/// The peers of every cell, computed once and then only read.
///
/// One index serves any number of solves, at the same time too: it is
/// never written to after it is built.
#[derive(Debug)]
pub struct PeerIndex {
    table: Vec<Vec<usize>>,
}

impl View for PeerIndex {
    type V = Seq<Seq<usize>>;

    /// The rows of the index, one for each cell.
    closed spec fn view(&self) -> Seq<Seq<usize>> {
        Seq::new(self.table@.len(), |i: int| self.table@[i]@)
    }
}

impl PeerIndex {
    #[verifier::type_invariant]
    spec fn valid(self) -> bool {
        &&& self.table@.len() == 81
        &&& forall|i: int| 0 <= i < 81 ==> (#[trigger] self.table@[i])@.len() == 20
        &&& forall|i: int, k: int|
            0 <= i < 81 && 0 <= k < 20 ==> (#[trigger] self.table@[i]@[k]) == peer_at(i, k)
    }

    /// Builds the index: for each of the 81 cells, its twenty peers.
    pub fn new() -> (index: PeerIndex)
        ensures
            index@ == peer_table(),
    {
        let mut table: Vec<Vec<usize>> = Vec::new();
        let mut cell: usize = 0;
        while cell < 81
            invariant
                cell <= 81,
                table@.len() == cell,
                forall|i: int| 0 <= i < cell ==> (#[trigger] table@[i])@.len() == 20,
                forall|i: int, k: int|
                    0 <= i < cell && 0 <= k < 20 ==> (#[trigger] table@[i]@[k]) == peer_at(i, k),
            decreases 81 - cell,
        {
            table.push(peers_of(cell));
            cell = cell + 1;
        }
        let index = PeerIndex { table };
        proof {
            assert forall|i: int| 0 <= i < 81 implies #[trigger] index@[i] == peer_table()[i] by {
                assert(index@[i] == index.table@[i]@);
                assert forall|k: int| 0 <= k < 20 implies index.table@[i]@[k] == peer_table()[i][k] by {
                    lemma_peer_at_is_peer(i, k);
                }
                assert(index.table@[i]@ =~= peer_table()[i]);
            }
            assert(index@ =~= peer_table());
        }
        index
    }

    /// The twenty peers of `cell`, in the order of `peer_at`.
    pub fn peers_of(&self, cell: usize) -> (peers: &Vec<usize>)
        requires
            cell < 81,
        ensures
            peers@ == self@[cell as int],
            peers@.len() == 20,
            forall|k: int| 0 <= k < 20 ==> peers@[k] == peer_at(cell as int, k),
    {
        proof {
            use_type_invariant(self);
        }
        &self.table[cell]
    }

    /// The `k`-th peer of `cell`.
    pub fn peer(&self, cell: usize, k: usize) -> (p: usize)
        requires
            cell < 81,
            k < 20,
        ensures
            p == self@[cell as int][k as int],
            p == peer_at(cell as int, k as int),
            p < 81,
            are_peers(cell as int, p as int),
    {
        proof {
            use_type_invariant(self);
            lemma_peer_at_is_peer(cell as int, k as int);
        }
        self.table[cell][k]
    }
}

/// The `k`-th cell of unit `u`.
pub fn unit_member(u: usize, k: usize) -> (cell: usize)
    requires
        u < 27,
        k < 9,
    ensures
        cell == unit_cell(u as int, k as int),
        cell < 81,
{
    if u < 9 {
        u * 9 + k
    } else if u < 18 {
        k * 9 + (u - 9)
    } else {
        ((u - 18) / 3 * 3 + k / 3) * 9 + ((u - 18) % 3 * 3 + k % 3)
    }
}

/// Whether two cells are peers.
pub fn is_peer(a: usize, b: usize) -> (r: bool)
    ensures
        r == are_peers(a as int, b as int),
{
    a < 81 && b < 81 && a != b && (a / 9 == b / 9 || a % 9 == b % 9 || a / 27 * 3 + a % 9 / 3 == b
        / 27 * 3 + b % 9 / 3)
}

} // verus!
