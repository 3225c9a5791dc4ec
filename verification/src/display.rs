//! Which nets colour a cell when it is drawn.

use vstd::prelude::*;

use crate::board::{Board, Cell};
use crate::net::{NetId, Nets, Port};
use crate::tile::{all_directions, Direction, Tile};

verus! {

/// The present value of an option, as a sequence of length zero or one.
pub open spec fn opt_seq(o: Option<NetId>) -> Seq<NetId> {
    match o {
        Some(x) => seq![x],
        None => Seq::empty(),
    }
}

/// Drop every element equal to its predecessor.
pub open spec fn dedup_spec(s: Seq<NetId>) -> Seq<NetId>
    decreases s.len(),
{
    if s.len() <= 1 {
        s
    } else {
        let prev = dedup_spec(s.drop_last());
        if s.last() == s[s.len() - 2] {
            prev
        } else {
            prev.push(s.last())
        }
    }
}

pub open spec fn sorted_spec(s: Seq<NetId>) -> bool {
    forall|i: int, j: int| 0 <= i < j < s.len() ==> s[i] <= s[j]
}

pub open spec fn strictly_increasing(s: Seq<NetId>) -> bool {
    forall|i: int, j: int| 0 <= i < j < s.len() ==> s[i] < s[j]
}

/// Removing adjacent repeats from a sorted sequence leaves it strictly
/// increasing with the same elements.
pub proof fn lemma_dedup_sorted(s: Seq<NetId>)
    requires
        sorted_spec(s),
    ensures
        strictly_increasing(dedup_spec(s)),
        forall|x: NetId| dedup_spec(s).contains(x) <==> s.contains(x),
        s.len() > 0 ==> dedup_spec(s).len() > 0 && dedup_spec(s).last() == s.last(),
    decreases s.len(),
{
    if s.len() > 1 {
        let t = s.drop_last();
        assert(sorted_spec(t));
        lemma_dedup_sorted(t);
        let d = dedup_spec(t);
        assert forall|x: NetId| dedup_spec(s).contains(x) <==> s.contains(x) by {
            if s.contains(x) {
                let i = choose|i: int| 0 <= i < s.len() && s[i] == x;
                if i < s.len() - 1 {
                    assert(t[i] == x);
                    assert(t.contains(x));
                    assert(d.contains(x));
                    let k = choose|k: int| 0 <= k < d.len() && d[k] == x;
                    assert(dedup_spec(s)[k] == x);
                } else if s.last() == s[s.len() - 2] {
                    assert(t[s.len() - 2] == x);
                    assert(t.contains(x));
                    let k = choose|k: int| 0 <= k < d.len() && d[k] == x;
                    assert(dedup_spec(s)[k] == x);
                } else {
                    assert(dedup_spec(s)[d.len() as int] == x);
                }
            }
            if dedup_spec(s).contains(x) {
                let k = choose|k: int| 0 <= k < dedup_spec(s).len() && dedup_spec(s)[k] == x;
                if k < d.len() {
                    assert(d[k] == x);
                    assert(d.contains(x));
                    assert(t.contains(x));
                    let i = choose|i: int| 0 <= i < t.len() && t[i] == x;
                    assert(s[i] == x);
                } else {
                    assert(s[s.len() - 1] == x);
                }
            }
        }
        if s.last() != s[s.len() - 2] {
            assert(d.last() == t.last());
            assert forall|i: int, j: int| 0 <= i < j < dedup_spec(s).len() implies dedup_spec(s)[i] < dedup_spec(s)[j] by {
                if j == d.len() {
                    if i < d.len() - 1 {
                        assert(d[i] < d[d.len() - 1]);
                    }
                    assert(s[s.len() - 2] <= s[s.len() - 1]);
                }
            }
        }
    }
}

/// `slice::sort_unstable`: the same elements in non-decreasing order.
#[verifier::external_body]
fn sort_net_ids(v: &mut Vec<NetId>)
    ensures
        final(v)@.to_multiset() == old(v)@.to_multiset(),
        sorted_spec(final(v)@),
{
    v.sort_unstable()
}

/// Remove consecutive repeated elements.
fn dedup_net_ids(v: &mut Vec<NetId>)
    ensures
        final(v)@ == dedup_spec(old(v)@),
{
    let mut out: Vec<NetId> = Vec::new();
    let mut i: usize = 0;
    while i < v.len()
        invariant
            i <= v@.len(),
            v@ == old(v)@,
            out@ == dedup_spec(v@.subrange(0, i as int)),
            i > 0 ==> out@.len() > 0 && out@.last() == v@[i - 1],
        decreases v@.len() - i,
    {
        let ghost s = v@.subrange(0, i + 1);
        proof {
            assert(s.drop_last() =~= v@.subrange(0, i as int));
            if i > 0 {
                assert(s[s.len() - 2] == v@[i - 1]);
            }
        }
        if i == 0 || v[i] != v[i - 1] {
            out.push(v[i]);
        }
        i += 1;
    }
    proof {
        assert(v@.subrange(0, v@.len() as int) =~= v@);
    }
    *v = out;
}

impl Nets {
    /// `r` lists the nets whose value colours `cell`: both axes of a cross
    /// (vertical first), every distinct net feeding an LED in increasing
    /// order, nothing for an empty cell, and otherwise the cell's own net.
    pub open spec fn displays(&self, b: Board, cell: Cell, r: Seq<NetId>) -> bool {
        &&& b.tile_at(cell) == Tile::Cross ==> r == opt_seq(self.net_of_spec(cell, Port::CrossVertical)) + opt_seq(
            self.net_of_spec(cell, Port::CrossHorizontal),
        )
        &&& b.tile_at(cell) == Tile::Led ==> {
            &&& strictly_increasing(r)
            &&& forall|n: NetId| r.contains(n) <==> exists|d: Direction| #[trigger] self.neighbour_net_spec(b, cell, d) == Some(n)
        }
        &&& b.tile_at(cell) == Tile::Empty ==> r.len() == 0
        &&& b.tile_at(cell) != Tile::Cross && b.tile_at(cell) != Tile::Led && b.tile_at(cell) != Tile::Empty ==> r
            == opt_seq(self.net_of_spec(cell, Port::Single))
    }

    /// The nets whose value colours `cell`: its own conductor or driver net,
    /// both axes of a cross, or — for an LED — every distinct net feeding
    /// it, in increasing order.
    pub fn display_nets(&self, board: &Board, cell: Cell) -> (r: Vec<NetId>)
        requires
            board.wf(),
        ensures
            self.displays(*board, cell, r@),
    {
        match board.get(cell) {
            Tile::Cross => {
                let mut r: Vec<NetId> = Vec::new();
                if let Some(n) = self.net_of(cell, Port::CrossVertical) {
                    r.push(n);
                }
                if let Some(n) = self.net_of(cell, Port::CrossHorizontal) {
                    r.push(n);
                }
                assert(r@ =~= opt_seq(self.net_of_spec(cell, Port::CrossVertical)) + opt_seq(self.net_of_spec(cell, Port::CrossHorizontal)));
                r
            },
            Tile::Led => {
                let dirs = Direction::all();
                let mut nets: Vec<NetId> = Vec::new();
                let mut i: usize = 0;
                while i < 4
                    invariant
                        board.wf(),
                        dirs@ == all_directions(),
                        i <= 4,
                        forall|n: NetId|
                            nets@.contains(n) <==> exists|k: int|
                                0 <= k < i && #[trigger] self.neighbour_net_spec(*board, cell, all_directions()[k]) == Some(n),
                    decreases 4 - i,
                {
                    let ghost before = nets@;
                    if let Some(n) = self.neighbour_net(board, cell, dirs[i]) {
                        nets.push(n);
                        proof {
                            assert forall|m: NetId| nets@.contains(m) <==> exists|k: int|
                                0 <= k < i + 1 && #[trigger] self.neighbour_net_spec(*board, cell, all_directions()[k]) == Some(m) by {
                                if nets@.contains(m) {
                                    let q = choose|q: int| 0 <= q < nets@.len() && nets@[q] == m;
                                    if q < before.len() {
                                        assert(before[q] == m);
                                        assert(before.contains(m));
                                    }
                                }
                                if exists|k: int| 0 <= k < i + 1 && #[trigger] self.neighbour_net_spec(*board, cell, all_directions()[k]) == Some(m) {
                                    let k = choose|k: int| 0 <= k < i + 1 && #[trigger] self.neighbour_net_spec(*board, cell, all_directions()[k]) == Some(m);
                                    if k < i {
                                        assert(before.contains(m));
                                        let q = choose|q: int| 0 <= q < before.len() && before[q] == m;
                                        assert(nets@[q] == m);
                                    } else {
                                        assert(nets@[before.len() as int] == m);
                                    }
                                }
                            }
                        }
                    }
                    i += 1;
                }
                let ghost collected = nets@;
                sort_net_ids(&mut nets);
                let ghost sorted = nets@;
                dedup_net_ids(&mut nets);
                proof {
                    broadcast use vstd::seq_lib::group_to_multiset_ensures;
                    lemma_dedup_sorted(sorted);
                    assert forall|n: NetId| nets@.contains(n) <==> exists|d: Direction| #[trigger] self.neighbour_net_spec(*board, cell, d) == Some(n) by {
                        assert(sorted.contains(n) <==> sorted.to_multiset().count(n) > 0);
                        assert(collected.contains(n) <==> collected.to_multiset().count(n) > 0);
                        if exists|d: Direction| #[trigger] self.neighbour_net_spec(*board, cell, d) == Some(n) {
                            let d = choose|d: Direction| #[trigger] self.neighbour_net_spec(*board, cell, d) == Some(n);
                            crate::tile::lemma_direction_laws(d);
                            let k = choose|k: int| 0 <= k < 4 && all_directions()[k] == d;
                            assert(self.neighbour_net_spec(*board, cell, all_directions()[k]) == Some(n));
                        }
                    }
                }
                nets
            },
            Tile::Empty => Vec::new(),
            _ => {
                let mut r: Vec<NetId> = Vec::new();
                if let Some(n) = self.net_of(cell, Port::Single) {
                    r.push(n);
                }
                assert(r@ =~= opt_seq(self.net_of_spec(cell, Port::Single)));
                r
            },
        }
    }
}

} // verus!
