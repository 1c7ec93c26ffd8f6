use vstd::prelude::*;
use rand::SeedableRng;
use rand::seq::SliceRandom;
use rand::rngs::StdRng;
use crate::board::{Board, Tile, cell_wf, open_count, same_cells, same_cell, lemma_undo, lemma_open_count_pattern,
    lemma_open_count_collapse, lemma_same_cells_trans};
use crate::rules::AdjacencyMap;

verus! {

#[verifier::external_type_specification]
#[verifier::external_body]
pub struct ExStdRng(rand::rngs::StdRng);

/// Relies on rand's `SeedableRng::seed_from_u64` for `StdRng`: a generator
/// whose draws are fixed by the seed.
#[verifier::external_body]
fn seeded_rng(seed: u64) -> StdRng {
    StdRng::seed_from_u64(seed)
}

/// Relies on rand's `SliceRandom::shuffle`, which reorders the slice by swaps
/// only: the result is a permutation of the input.
#[verifier::external_body]
fn shuffle_ids(ids: &mut Vec<usize>, rng: &mut StdRng)
    ensures
        final(ids)@.to_multiset() == old(ids)@.to_multiset(),
{
    ids.shuffle(rng)
}

impl Board {
    /// A copy of the domain of the uncollapsed cell `pos`.
    fn domain_at(&self, pos: usize) -> (r: Vec<usize>)
        requires
            pos < self.len_spec(),
            self.cells@[pos as int] is Uncollapsed,
        ensures
            r@ == self.cells@[pos as int]->Uncollapsed_0@,
    {
        match &self.cells[pos] {
            Tile::Uncollapsed(dom) => crate::board::copy_ids(dom),
            Tile::Collapsed(_) => Vec::new(),
        }
    }

    /// Backtracking search: collapses the lowest-entropy cell to each member
    /// of its domain in a random order, propagates, and recurses, undoing the
    /// collapse and the propagation when the recursion fails.
    ///
    /// On success every cell is collapsed and every collapsed cell is a valid
    /// placement among its neighbours; on failure the grid holds again the
    /// state it held on entry.
    pub fn collapse(&mut self, rules: &AdjacencyMap, rng: &mut StdRng) -> (r: bool)
        requires
            old(self).wf(rules.len_spec()),
            old(self).consistent(rules),
            old(self).filtered(rules),
        ensures
            final(self).wf(rules.len_spec()),
            final(self).rows == old(self).rows && final(self).cols == old(self).cols,
            r ==> final(self).is_collapsed_spec() && final(self).consistent(rules)
                && old(self).completes(rules, final(self).tiles()),
            !r ==> same_cells(old(self).cells@, final(self).cells@)
                && !exists|a: Seq<usize>| old(self).completes(rules, a),
            old(self).is_collapsed_spec() ==> r && *final(self) == *old(self),
            old(self).has_empty_domain() ==> !r && *final(self) == *old(self),
            old(self).domains_nonempty() && (old(self).no_adjacency() || rules.permissive()) ==> r,
        decreases open_count(self.cells@),
    {
        let ghost entry = *self;
        proof {
            Board::lemma_same_state_invariants(rules, entry, entry);
            lemma_same_cells_refl(entry.cells@);
        }
        let pos = match self.get_lowest_entropy() {
            Some(p) => p,
            None => {
                proof { Board::lemma_collapsed_completes(rules, entry); }
                return true;
            },
        };
        let mut candidates = self.domain_at(pos);
        if candidates.len() == 0 {
            proof {
                assert forall|a: Seq<usize>| !entry.completes(rules, a) by {
                    if entry.completes(rules, a) {
                        assert(entry.cells@[pos as int]->Uncollapsed_0@.contains(a[pos as int]));
                    }
                }
            }
            return false;
        }
        proof {
            if entry.has_empty_domain() {
                let j = choose|j: int| 0 <= j < entry.len_spec() && #[trigger] entry.cells@[j] is Uncollapsed
                    && entry.cells@[j]->Uncollapsed_0@.len() == 0;
                assert(entry.cells@[j] is Uncollapsed);
            }
        }
        let ghost dom0 = candidates@;
        shuffle_ids(&mut candidates, rng);
        proof {
            broadcast use vstd::seq_lib::group_to_multiset_ensures;
            assert forall|k: int| 0 <= k < candidates@.len() implies dom0.contains(#[trigger] candidates@[k]) by {
                assert(candidates@.to_multiset().count(candidates@[k]) > 0);
            }
            assert(candidates@.len() == candidates@.to_multiset().len());
            assert(dom0.len() == dom0.to_multiset().len());
        }
        let mut i: usize = 0;
        while i < candidates.len()
            invariant
                i <= candidates@.len(),
                self.wf(rules.len_spec()),
                self.rows == entry.rows && self.cols == entry.cols,
                entry == *old(self),
                entry.wf(rules.len_spec()),
                entry.consistent(rules),
                entry.filtered(rules),
                same_cells(entry.cells@, self.cells@),
                pos < entry.len_spec(),
                entry.cells@[pos as int] is Uncollapsed,
                dom0 == entry.cells@[pos as int]->Uncollapsed_0@,
                forall|k: int| 0 <= k < candidates@.len() ==> dom0.contains(#[trigger] candidates@[k]),
                entry.domains_nonempty() && (entry.no_adjacency() || rules.permissive()) ==> i == 0,
                candidates@.len() > 0,
                candidates@.to_multiset() == dom0.to_multiset(),
                !entry.has_empty_domain(),
                !entry.is_collapsed_spec(),
                forall|a: Seq<usize>, k: int| #![trigger entry.completes(rules, a), candidates@[k]]
                    entry.completes(rules, a) && 0 <= k < i ==> candidates@[k] != a[pos as int],
            decreases candidates@.len() - i,
        {
            let v = candidates[i];
            proof {
                Board::lemma_same_state_invariants(rules, entry, *self);
                assert(same_cell(entry.cells@[pos as int], self.cells@[pos as int]));
                assert(dom0.contains(v));
                if entry.domains_nonempty() && (entry.no_adjacency() || rules.permissive()) {
                    let j = choose|j: int| 0 <= j < dom0.len() && dom0[j] == v;
                    assert(v < rules.len_spec());
                    assert forall|d: int| 0 <= d < crate::rules::DIRECTIONS && #[trigger] self.nbr(pos as int, d) is Some
                        && self.cells@[self.nbr(pos as int, d)->0] is Collapsed implies rules.allows_spec(
                        self.cells@[self.nbr(pos as int, d)->0]->Collapsed_0, d, v) by {
                        if !rules.permissive() {
                            assert(self.nbr(pos as int, d) is None);
                        }
                    }
                }
            }
            if self.is_valid_placement(rules, v, pos) {
                let ghost s_i = *self;
                let saved = self.domain_at(pos);
                self.cells.set(pos, Tile::Collapsed(v));
                let ghost b0 = *self;
                proof {
                    lemma_open_count_pattern(entry.cells@, s_i.cells@);
                    lemma_open_count_collapse(s_i.cells@, pos as int, Tile::Collapsed(v));
                    assert forall|k: int| 0 <= k < b0.len_spec() implies cell_wf(#[trigger] b0.cells@[k], rules.len_spec()) by {
                        if k == pos as int {
                            let j = choose|j: int| 0 <= j < dom0.len() && dom0[j] == v;
                            assert(s_i.cells@[pos as int]->Uncollapsed_0@.contains(v));
                        } else {
                            assert(b0.cells@[k] == s_i.cells@[k]);
                        }
                    }
                }
                let log = self.propagate_collapse(rules, pos);
                let ghost b1 = *self;
                proof {
                    Board::lemma_collapse_step(rules, s_i, pos as int, v, b0, b1, log@);
                    assert forall|k: int| 0 <= k < b0.len_spec() implies (#[trigger] b0.cells@[k] is Uncollapsed)
                        == (b1.cells@[k] is Uncollapsed) by {}
                    lemma_open_count_pattern(b0.cells@, b1.cells@);
                    assert(b0.cells@ == s_i.cells@.update(pos as int, Tile::Collapsed(v)));
                    if entry.domains_nonempty() && (entry.no_adjacency() || rules.permissive()) {
                        assert(b0.domains_nonempty());
                        if entry.no_adjacency() {
                            assert forall|q: int, d: int| 0 <= q < b0.len_spec() && 0 <= d < crate::rules::DIRECTIONS
                                implies #[trigger] b0.nbr(q, d) is None by {
                                assert(s_i.nbr(q, d) is None);
                            }
                        }
                        Board::lemma_step_nonempty(rules, b0, pos as int, b1, log@);
                    }
                }
                if self.collapse(rules, rng) {
                    proof {
                        let a = self.tiles();
                        Board::lemma_completes_back(rules, s_i, pos as int, v, b0, b1, log@, a);
                        lemma_same_cells_sym(entry.cells@, s_i.cells@);
                        Board::lemma_completes_same_state(rules, s_i, entry, a);
                    }
                    return true;
                }
                proof {
                    assert forall|a: Seq<usize>| entry.completes(rules, a) implies a[pos as int] != v by {
                        if a[pos as int] == v {
                            Board::lemma_completes_same_state(rules, entry, s_i, a);
                            Board::lemma_completes_forward(rules, s_i, pos as int, v, b0, b1, log@, a);
                        }
                    }
                }
                let ghost b1r = *self;
                self.cells.set(pos, Tile::Uncollapsed(saved));
                let ghost b1x = *self;
                proof {
                    assert forall|q: int| 0 <= q < b1.len_spec() && q != pos as int implies same_cell(
                        #[trigger] b1.cells@[q], b1x.cells@[q]) by {
                        assert(same_cell(b1.cells@[q], b1r.cells@[q]));
                    }
                    assert forall|k: int| 0 <= k < log@.len() implies #[trigger] log@[k].1 < rules.len_spec() by {
                        assert(log@.contains(log@[k]));
                        let (q, x) = log@[k];
                        assert(log@.contains((q, x)));
                        let dq = b0.cells@[q as int]->Uncollapsed_0@;
                        let j = choose|j: int| 0 <= j < dq.len() && dq[j] == x;
                    }
                    assert forall|k: int| 0 <= k < b1x.len_spec() implies cell_wf(#[trigger] b1x.cells@[k], rules.len_spec()) by {
                        if k != pos as int {
                            assert(b1x.cells@[k] == b1r.cells@[k]);
                        }
                    }
                    assert(b1x.wf(rules.len_spec()));
                }
                self.restore_domains(log);
                proof {
                    let b2 = *self;
                    lemma_undo(rules, b0, pos as int, b1, log@, b1x, b2);
                    assert forall|q: int| 0 <= q < s_i.len_spec() implies same_cell(#[trigger] s_i.cells@[q], b2.cells@[q]) by {
                        if q != pos as int {
                            assert(b0.cells@[q] == s_i.cells@[q]);
                            assert(same_cell(b0.cells@[q], b2.cells@[q]));
                        } else {
                            assert(same_cell(b1x.cells@[q], b2.cells@[q]));
                            assert forall|x: usize| s_i.cells@[q]->Uncollapsed_0@.contains(x)
                                <==> #[trigger] b2.cells@[q]->Uncollapsed_0@.contains(x) by {
                                assert(b1x.cells@[q]->Uncollapsed_0@.contains(x) <==> b2.cells@[q]->Uncollapsed_0@.contains(x));
                            }
                        }
                    }
                    lemma_same_cells_trans(entry.cells@, s_i.cells@, b2.cells@);
                }
            } else {
                proof {
                    assert forall|a: Seq<usize>| entry.completes(rules, a) implies a[pos as int] != v by {
                        if a[pos as int] == v {
                            Board::lemma_completes_same_state(rules, entry, *self, a);
                            Board::lemma_completes_valid(rules, *self, a, pos as int);
                        }
                    }
                }
            }
            i = i + 1;
        }
        proof {
            broadcast use vstd::seq_lib::group_to_multiset_ensures;
            assert forall|a: Seq<usize>| !entry.completes(rules, a) by {
                if entry.completes(rules, a) {
                    let x = a[pos as int];
                    assert(dom0.contains(x));
                    assert(candidates@.to_multiset().count(x) > 0);
                    assert(candidates@.contains(x));
                    let k = choose|k: int| 0 <= k < candidates@.len() && candidates@[k] == x;
                    assert(candidates@[k] != a[pos as int]);
                }
            }
        }
        false
    }
}

/// In a solved grid every pair of adjacent cells satisfies the rules:
/// wherever cell `p` lies in direction `d` of cell `q`, the tile of `q`
/// allows the tile of `p` in direction `d`.
pub proof fn lemma_solution_satisfies_rules(rules: &AdjacencyMap, b: Board)
    requires
        b.is_collapsed_spec(),
        b.consistent(rules),
    ensures
        forall|p: int, d: int| 0 <= p < b.len_spec() && 0 <= d < crate::rules::DIRECTIONS
            && #[trigger] b.nbr(p, d) is Some ==> rules.allows_spec(
            b.cells@[b.nbr(p, d)->0]->Collapsed_0,
            d,
            b.cells@[p]->Collapsed_0,
        ),
{
    assert forall|p: int, d: int| 0 <= p < b.len_spec() && 0 <= d < crate::rules::DIRECTIONS
        && #[trigger] b.nbr(p, d) is Some implies rules.allows_spec(
        b.cells@[b.nbr(p, d)->0]->Collapsed_0, d, b.cells@[p]->Collapsed_0) by {
        assert(b.cells@[p] is Collapsed);
        assert(b.cells@[b.nbr(p, d)->0] is Collapsed);
        assert(b.valid_at(rules, b.cells@[p]->Collapsed_0, p));
    }
}

/// Cell state equality is symmetric.
pub proof fn lemma_same_cells_sym(a: Seq<Tile>, b: Seq<Tile>)
    requires
        same_cells(a, b),
    ensures
        same_cells(b, a),
{
    assert forall|i: int| 0 <= i < b.len() implies same_cell(#[trigger] b[i], a[i]) by {
        assert(same_cell(a[i], b[i]));
        if b[i] is Uncollapsed {
            assert forall|x: usize| b[i]->Uncollapsed_0@.contains(x) <==> #[trigger] a[i]->Uncollapsed_0@.contains(x) by {
                assert(a[i]->Uncollapsed_0@.contains(x) <==> b[i]->Uncollapsed_0@.contains(x));
            }
        }
    }
}

/// Every grid holds its own state.
pub proof fn lemma_same_cells_refl(s: Seq<Tile>)
    ensures
        same_cells(s, s),
{
    assert forall|i: int| 0 <= i < s.len() implies same_cell(#[trigger] s[i], s[i]) by {
        if s[i] is Uncollapsed {
            assert(forall|x: usize| #[trigger] s[i]->Uncollapsed_0@.contains(x) <==> s[i]->Uncollapsed_0@.contains(x));
        }
    }
}

/// Builds a `rows` x `cols` grid of uncollapsed cells and runs the search
/// with a generator seeded by `seed`. Returns the grid and whether the search
/// succeeded.
///
/// On success every cell is collapsed and every pair of adjacent cells
/// satisfies the rules. Failure comes only when no assignment of tiles to the
/// positions satisfies every adjacent pair; every cell is then uncollapsed
/// again, with every tile as candidate. Success is certain when the rules are non-empty and
/// either allow everything or the grid has at most one cell.
pub fn solve(rules: &AdjacencyMap, rows: usize, cols: usize, seed: u64) -> (r: (Board, bool))
    requires
        rows * cols <= usize::MAX,
    ensures
        r.0.rows == rows && r.0.cols == cols,
        r.0.wf(rules.len_spec()),
        r.1 ==> r.0.is_collapsed_spec() && r.0.consistent(rules),
        !r.1 ==> forall|i: int| 0 <= i < r.0.len_spec() ==> #[trigger] r.0.cells@[i] is Uncollapsed
            && forall|x: usize| #[trigger] r.0.cells@[i]->Uncollapsed_0@.contains(x) <==> x < rules.len_spec(),
        !r.1 ==> !exists|a: Seq<usize>| a.len() == rows * cols
            && (forall|i: int| 0 <= i < a.len() ==> #[trigger] a[i] < rules.len_spec())
            && r.0.satisfies(rules, a),
        rules.len_spec() > 0 && (rules.permissive() || rows * cols <= 1) ==> r.1,
{
    let mut board = Board::create(rules, rows, cols);
    let ghost b0 = board;
    proof {
        let full = Seq::new(rules.len_spec(), |k: int| k as usize);
        if rules.len_spec() > 0 {
            assert forall|i: int| 0 <= i < b0.len_spec() && #[trigger] b0.cells@[i] is Uncollapsed
                implies b0.cells@[i]->Uncollapsed_0@.len() > 0 by {}
        }
        if rows * cols <= 1 {
            assert forall|p: int, d: int| 0 <= p < b0.len_spec() && 0 <= d < crate::rules::DIRECTIONS
                implies #[trigger] b0.nbr(p, d) is None by {}
        }
    }
    let mut rng = seeded_rng(seed);
    let ok = board.collapse(rules, &mut rng);
    proof {
        if !ok {
            let n = rules.len_spec();
            assert forall|a: Seq<usize>| !(a.len() == rows * cols
                && (forall|i: int| 0 <= i < a.len() ==> #[trigger] a[i] < n)
                && board.satisfies(rules, a)) by {
                if a.len() == rows * cols && (forall|i: int| 0 <= i < a.len() ==> #[trigger] a[i] < n)
                    && board.satisfies(rules, a) {
                    assert forall|i: int| 0 <= i < b0.len_spec() implies match #[trigger] b0.cells@[i] {
                        Tile::Collapsed(t) => a[i] == t,
                        Tile::Uncollapsed(dom) => dom@.contains(a[i]),
                    } by {
                        let dom = b0.cells@[i]->Uncollapsed_0@;
                        assert(dom[a[i] as int] == a[i]);
                    }
                    assert forall|p: int, d: int| 0 <= p < b0.len_spec() && 0 <= d < crate::rules::DIRECTIONS
                        && #[trigger] b0.nbr(p, d) is Some implies rules.allows_spec(a[b0.nbr(p, d)->0], d, a[p]) by {
                        assert(board.nbr(p, d) == b0.nbr(p, d));
                    }
                    assert(b0.completes(rules, a));
                }
            }
            assert forall|i: int| 0 <= i < board.len_spec() implies #[trigger] board.cells@[i] is Uncollapsed
                && forall|x: usize| #[trigger] board.cells@[i]->Uncollapsed_0@.contains(x) <==> x < n by {
                assert(same_cell(b0.cells@[i], board.cells@[i]));
                let full = b0.cells@[i]->Uncollapsed_0@;
                assert forall|x: usize| #[trigger] board.cells@[i]->Uncollapsed_0@.contains(x) <==> x < n by {
                    if x < n {
                        assert(full[x as int] == x);
                    }
                    assert(full.contains(x) <==> board.cells@[i]->Uncollapsed_0@.contains(x));
                }
            }
        }
    }
    (board, ok)
}

} // verus!
