use vstd::prelude::*;
use crate::rules::{AdjacencyMap, RIGHT, LEFT, ABOVE, BELOW, DIRECTIONS};

verus! {

/// A cell: fixed to one tile, or still holding the tiles possible there.
pub enum Tile {
    Collapsed(usize),
    Uncollapsed(Vec<usize>),
}

impl Tile {
    /// An uncollapsed cell whose domain is every tile of `rules`.
    pub fn default_domain(rules: &AdjacencyMap) -> (r: Tile)
        ensures
            r is Uncollapsed,
            r->Uncollapsed_0@ == Seq::new(rules.len_spec(), |i: int| i as usize),
    {
        let n = rules.len();
        let mut domain: Vec<usize> = Vec::new();
        let mut i: usize = 0;
        while i < n
            invariant
                i <= n,
                n == rules.len_spec(),
                domain@ == Seq::new(i as nat, |k: int| k as usize),
            decreases n - i,
        {
            domain.push(i);
            i = i + 1;
            assert(domain@ =~= Seq::new(i as nat, |k: int| k as usize));
        }
        Tile::Uncollapsed(domain)
    }

    /// An uncollapsed cell whose domain is `val` alone.
    pub fn domain_from(val: usize) -> (r: Tile)
        ensures
            r is Uncollapsed,
            r->Uncollapsed_0@ == seq![val],
    {
        let mut domain: Vec<usize> = Vec::new();
        domain.push(val);
        Tile::Uncollapsed(domain)
    }
}


/// The grid: `rows * cols` cells in row-major order, row 0 on top. A position
/// is a cell's index `row * cols + col`.
pub struct Board {
    pub rows: usize,
    pub cols: usize,
    pub cells: Vec<Tile>,
}

/// The number of uncollapsed cells.
pub open spec fn open_count(s: Seq<Tile>) -> nat
    decreases s.len(),
{
    if s.len() == 0 {
        0
    } else {
        open_count(s.drop_last()) + if s.last() is Uncollapsed {
            1nat
        } else {
            0nat
        }
    }
}

/// A cell's ids name tiles of `n`, and its domain repeats none.
pub open spec fn cell_wf(t: Tile, n: nat) -> bool {
    match t {
        Tile::Collapsed(x) => x < n,
        Tile::Uncollapsed(dom) => dom@.no_duplicates() && forall|k: int|
            0 <= k < dom@.len() ==> #[trigger] dom@[k] < n,
    }
}

/// The domain of a cell, None when it is collapsed.
pub open spec fn domain_of(t: Tile) -> Option<Seq<usize>> {
    match t {
        Tile::Collapsed(_) => None,
        Tile::Uncollapsed(dom) => Some(dom@),
    }
}

/// The domain of cell `q` after restoring `log` into a cell whose domain is
/// `init` (None: collapsed): each tile logged for `q` is appended, in log
/// order, unless already there; the first one replaces a collapsed cell by a
/// domain of that tile alone. None while nothing is logged for a collapsed cell.
pub open spec fn restored_domain(init: Option<Seq<usize>>, log: Seq<(usize, usize)>, q: int) -> Option<Seq<usize>>
    decreases log.len(),
{
    if log.len() == 0 {
        init
    } else {
        let r = restored_domain(init, log.drop_last(), q);
        let (p, x) = log.last();
        if p as int != q {
            r
        } else {
            match r {
                None => Some(seq![x]),
                Some(d) => if d.contains(x) { Some(d) } else { Some(d.push(x)) },
            }
        }
    }
}

/// The members of `s` that allow `v` in direction `d`, in their order.
pub open spec fn kept_by(rules: &AdjacencyMap, s: Seq<usize>, d: int, v: usize) -> Seq<usize>
    decreases s.len(),
{
    if s.len() == 0 {
        s
    } else {
        let r = kept_by(rules, s.drop_last(), d, v);
        if rules.allows_spec(s.last(), d, v) { r.push(s.last()) } else { r }
    }
}

/// The members of `s` that do not allow `v` in direction `d`, in their
/// order, each paired with position `q`.
pub open spec fn removed_by(rules: &AdjacencyMap, s: Seq<usize>, d: int, v: usize, q: usize) -> Seq<(usize, usize)>
    decreases s.len(),
{
    if s.len() == 0 {
        Seq::empty()
    } else {
        let r = removed_by(rules, s.drop_last(), d, v, q);
        if rules.allows_spec(s.last(), d, v) { r } else { r.push((q, s.last())) }
    }
}

/// An uncollapsed cell stays uncollapsed under restoration.
pub proof fn lemma_restored_domain_some(init: Option<Seq<usize>>, log: Seq<(usize, usize)>, q: int)
    requires
        init is Some,
    ensures
        restored_domain(init, log, q) is Some,
    decreases log.len(),
{
    if log.len() > 0 {
        lemma_restored_domain_some(init, log.drop_last(), q);
    }
}

/// Two cells hold the same state: the same tile, or domains with the same members.
pub open spec fn same_cell(a: Tile, b: Tile) -> bool {
    match a {
        Tile::Collapsed(x) => b == Tile::Collapsed(x),
        Tile::Uncollapsed(d) => b is Uncollapsed && forall|x: usize|
            d@.contains(x) <==> #[trigger] b->Uncollapsed_0@.contains(x),
    }
}

/// Two grids hold the same state in every cell.
pub open spec fn same_cells(a: Seq<Tile>, b: Seq<Tile>) -> bool {
    a.len() == b.len() && forall|i: int| 0 <= i < a.len() ==> same_cell(#[trigger] a[i], b[i])
}

impl Board {
    pub open spec fn len_spec(&self) -> int {
        self.cells@.len() as int
    }

    /// The position of the cell of which position `i` lies in direction `d`:
    /// `i` is right of `i - 1`, left of `i + 1`, above `i + cols` and below
    /// `i - cols`. None where that cell would leave the grid.
    pub open spec fn nbr(&self, i: int, d: int) -> Option<int> {
        let c = self.cols as int;
        let len = self.len_spec();
        if c == 0 || i < 0 || i >= len {
            None
        } else if d == RIGHT as int {
            if i % c > 0 && i >= 1 { Some(i - 1) } else { None }
        } else if d == LEFT as int {
            if i % c + 1 < c && i + 1 < len { Some(i + 1) } else { None }
        } else if d == ABOVE as int {
            if i + c < len { Some(i + c) } else { None }
        } else if d == BELOW as int {
            if i >= c { Some(i - c) } else { None }
        } else {
            None
        }
    }

    /// Every id in the grid names a tile of `n`, and no domain repeats an id.
    pub open spec fn wf(&self, n: nat) -> bool {
        &&& self.cells@.len() == self.rows * self.cols
        &&& forall|i: int| 0 <= i < self.len_spec() ==> cell_wf(#[trigger] self.cells@[i], n)
    }

    pub open spec fn is_collapsed_spec(&self) -> bool {
        forall|i: int| 0 <= i < self.len_spec() ==> #[trigger] self.cells@[i] is Collapsed
    }

    /// Placing `v` at `p` agrees with every collapsed cell of which `p` lies in
    /// some direction: that cell's tile allows `v` there.
    pub open spec fn valid_at(&self, rules: &AdjacencyMap, v: usize, p: int) -> bool {
        forall|d: int|
            0 <= d < DIRECTIONS && #[trigger] self.nbr(p, d) is Some
                && self.cells@[self.nbr(p, d)->0] is Collapsed ==> rules.allows_spec(
                self.cells@[self.nbr(p, d)->0]->Collapsed_0,
                d,
                v,
            )
    }

    /// Every collapsed cell is a valid placement among the collapsed cells.
    pub open spec fn consistent(&self, rules: &AdjacencyMap) -> bool {
        forall|p: int|
            0 <= p < self.len_spec() && #[trigger] self.cells@[p] is Collapsed ==> self.valid_at(
                rules,
                self.cells@[p]->Collapsed_0,
                p,
            )
    }

    /// Forward checking holds: where a collapsed cell `p` lies in direction
    /// `d` of an uncollapsed cell `q`, every tile of `q`'s domain allows `p`'s
    /// tile in direction `d`.
    pub open spec fn filtered(&self, rules: &AdjacencyMap) -> bool {
        forall|p: int, d: int, c: usize|
            0 <= p < self.len_spec() && 0 <= d < DIRECTIONS && self.cells@[p] is Collapsed
                && #[trigger] self.nbr(p, d) is Some
                && self.cells@[self.nbr(p, d)->0] is Uncollapsed
                && #[trigger] self.cells@[self.nbr(p, d)->0]->Uncollapsed_0@.contains(c)
                ==> rules.allows_spec(c, d, self.cells@[p]->Collapsed_0)
    }

    /// Tile `x` survives at `q` the propagation of tile `v` from `p` over the
    /// directions below `k`: wherever `p` lies in such a direction `d` of `q`,
    /// `x` allows `v` in direction `d`.
    pub open spec fn keeps(&self, rules: &AdjacencyMap, p: int, v: usize, q: int, x: usize, k: int) -> bool {
        forall|d: int| 0 <= d < k && #[trigger] self.nbr(p, d) == Some(q) ==> rules.allows_spec(x, d, v)
    }

    /// The removals that propagating tile `v` from `p` makes over the
    /// directions below `k`, direction by direction.
    pub open spec fn propagation_log(&self, rules: &AdjacencyMap, p: int, v: usize, k: int) -> Seq<(usize, usize)>
        decreases k,
    {
        if k <= 0 {
            Seq::empty()
        } else {
            let prev = self.propagation_log(rules, p, v, k - 1);
            match self.nbr(p, k - 1) {
                Some(q) => if self.cells@[q] is Uncollapsed {
                    prev + removed_by(rules, self.cells@[q]->Uncollapsed_0@, k - 1, v, q as usize)
                } else {
                    prev
                },
                None => prev,
            }
        }
    }

    /// `after` and `log` are what propagating the collapsed cell `p` of
    /// `before` gives: each uncollapsed cell keeps the members of its domain
    /// that allow `p`'s tile, and `log` records exactly the members removed.
    pub open spec fn propagated(rules: &AdjacencyMap, before: Board, p: int, after: Board, log: Seq<(usize, usize)>) -> bool {
        let v = before.cells@[p]->Collapsed_0;
        &&& after.rows == before.rows && after.cols == before.cols
        &&& after.cells@.len() == before.cells@.len()
        &&& 0 <= p < before.len_spec() <= usize::MAX && before.cells@[p] is Collapsed
        &&& forall|q: int| 0 <= q < before.len_spec() && #[trigger] before.cells@[q] is Collapsed
            ==> after.cells@[q] == before.cells@[q]
        &&& forall|q: int| 0 <= q < before.len_spec() && #[trigger] before.cells@[q] is Uncollapsed
            ==> after.cells@[q] is Uncollapsed
        &&& forall|q: int, x: usize| 0 <= q < before.len_spec() && before.cells@[q] is Uncollapsed
            ==> (#[trigger] after.cells@[q]->Uncollapsed_0@.contains(x)
                <==> before.cells@[q]->Uncollapsed_0@.contains(x) && before.keeps(rules, p, v, q, x, DIRECTIONS as int))
        &&& forall|q: usize, x: usize| #[trigger] log.contains((q, x)) <==> (q < before.len_spec()
            && before.cells@[q as int] is Uncollapsed && before.cells@[q as int]->Uncollapsed_0@.contains(x)
            && !before.keeps(rules, p, v, q as int, x, DIRECTIONS as int))
        &&& forall|q: int| #![trigger after.cells@[q]] 0 <= q < before.len_spec()
            && (forall|d: int| 0 <= d < DIRECTIONS ==> #[trigger] before.nbr(p, d) != Some(q))
            ==> after.cells@[q] == before.cells@[q]
        &&& forall|q: int, d: int| #![trigger before.nbr(p, d), after.cells@[q]]
            0 <= d < DIRECTIONS && before.nbr(p, d) == Some(q) && before.cells@[q] is Uncollapsed ==> after.cells@[q]->Uncollapsed_0@
                == kept_by(rules, before.cells@[q]->Uncollapsed_0@, d, v)
        &&& log == before.propagation_log(rules, p, v, DIRECTIONS as int)
    }

    /// `after` is what restoring `log` into `before` gives: each logged tile is
    /// added back to its cell's domain; a collapsed cell with logged tiles
    /// becomes uncollapsed with those tiles alone; other cells stay.
    pub open spec fn restored(before: Board, log: Seq<(usize, usize)>, after: Board) -> bool {
        &&& after.rows == before.rows && after.cols == before.cols
        &&& after.cells@.len() == before.cells@.len()
        &&& forall|q: int| 0 <= q < before.len_spec() && #[trigger] before.cells@[q] is Uncollapsed
            ==> after.cells@[q] is Uncollapsed
        &&& forall|q: int, x: usize| 0 <= q < before.len_spec() && before.cells@[q] is Uncollapsed
            ==> (#[trigger] after.cells@[q]->Uncollapsed_0@.contains(x)
                <==> before.cells@[q]->Uncollapsed_0@.contains(x) || log.contains((q as usize, x)))
        &&& forall|q: int| 0 <= q < before.len_spec() && (forall|x: usize| !#[trigger] log.contains((q as usize, x)))
            ==> #[trigger] after.cells@[q] == before.cells@[q]
        &&& forall|q: int| 0 <= q < before.len_spec() ==> match #[trigger] restored_domain(domain_of(before.cells@[q]), log, q) {
            None => after.cells@[q] == before.cells@[q],
            Some(d) => after.cells@[q] is Uncollapsed && after.cells@[q]->Uncollapsed_0@ == d,
        }
        &&& forall|q: int, x: usize| 0 <= q < before.len_spec() && #[trigger] before.cells@[q] is Collapsed
            && #[trigger] log.contains((q as usize, x)) ==> after.cells@[q] is Uncollapsed
            && forall|y: usize| #[trigger] after.cells@[q]->Uncollapsed_0@.contains(y) <==> log.contains((q as usize, y))
    }

    /// The assignment `a` of one tile per position satisfies every adjacent
    /// pair: wherever `p` lies in direction `d` of `q`, `a[q]` allows `a[p]`
    /// in direction `d`.
    pub open spec fn satisfies(&self, rules: &AdjacencyMap, a: Seq<usize>) -> bool {
        forall|p: int, d: int| 0 <= p < self.len_spec() && 0 <= d < DIRECTIONS
            && #[trigger] self.nbr(p, d) is Some ==> rules.allows_spec(a[self.nbr(p, d)->0], d, a[p])
    }

    /// `a` completes the grid: it keeps each collapsed cell's tile, picks
    /// each uncollapsed cell's tile from its domain, and satisfies the rules.
    pub open spec fn completes(&self, rules: &AdjacencyMap, a: Seq<usize>) -> bool {
        &&& a.len() == self.len_spec()
        &&& forall|i: int| 0 <= i < self.len_spec() ==> match #[trigger] self.cells@[i] {
            Tile::Collapsed(t) => a[i] == t,
            Tile::Uncollapsed(dom) => dom@.contains(a[i]),
        }
        &&& self.satisfies(rules, a)
    }

    /// The tile of each cell, for a fully collapsed grid.
    pub open spec fn tiles(&self) -> Seq<usize> {
        Seq::new(self.cells@.len(), |i: int| self.cells@[i]->Collapsed_0)
    }

    /// Some cell is uncollapsed with no candidate left.
    pub open spec fn has_empty_domain(&self) -> bool {
        exists|i: int| 0 <= i < self.len_spec() && #[trigger] self.cells@[i] is Uncollapsed
            && self.cells@[i]->Uncollapsed_0@.len() == 0
    }

    /// Every uncollapsed cell has at least one candidate left.
    pub open spec fn domains_nonempty(&self) -> bool {
        forall|i: int| 0 <= i < self.len_spec() && #[trigger] self.cells@[i] is Uncollapsed
            ==> self.cells@[i]->Uncollapsed_0@.len() > 0
    }

    /// No cell lies in any direction of another.
    pub open spec fn no_adjacency(&self) -> bool {
        forall|p: int, d: int| 0 <= p < self.len_spec() && 0 <= d < DIRECTIONS ==> #[trigger] self.nbr(p, d) is None
    }

    pub fn neighbor(&self, i: usize, d: usize) -> (r: Option<usize>)
        ensures
            r is Some <==> self.nbr(i as int, d as int) is Some,
            r is Some ==> r->0 as int == self.nbr(i as int, d as int)->0,
    {
        let c = self.cols;
        let len = self.cells.len();
        if c == 0 || i >= len {
            None
        } else if d == RIGHT {
            if i % c > 0 && i >= 1 { Some(i - 1) } else { None }
        } else if d == LEFT {
            if i % c + 1 < c && i + 1 < len { Some(i + 1) } else { None }
        } else if d == ABOVE {
            if c < len - i { Some(i + c) } else { None }
        } else if d == BELOW {
            if i >= c { Some(i - c) } else { None }
        } else {
            None
        }
    }

    /// A grid of `rows * cols` uncollapsed cells, each with every tile of `rules`.
    pub fn create(rules: &AdjacencyMap, rows: usize, cols: usize) -> (r: Board)
        requires
            rows * cols <= usize::MAX,
        ensures
            r.rows == rows,
            r.cols == cols,
            r.wf(rules.len_spec()),
            r.consistent(rules),
            r.filtered(rules),
            forall|i: int| 0 <= i < r.len_spec() ==> #[trigger] r.cells@[i] is Uncollapsed
                && r.cells@[i]->Uncollapsed_0@ == Seq::new(rules.len_spec(), |k: int| k as usize),
    {
        let n = rules.len();
        let total: usize = rows * cols;
        let mut cells: Vec<Tile> = Vec::new();
        let mut i: usize = 0;
        while i < total
            invariant
                i <= total,
                cells@.len() == i,
                forall|j: int| 0 <= j < i ==> #[trigger] cells@[j] is Uncollapsed
                    && cells@[j]->Uncollapsed_0@ == Seq::new(rules.len_spec(), |k: int| k as usize),
            decreases total - i,
        {
            cells.push(Tile::default_domain(rules));
            i = i + 1;
        }
        let r = Board { rows, cols, cells };
        assert forall|j: int| 0 <= j < r.len_spec() implies cell_wf(#[trigger] r.cells@[j], rules.len_spec()) by {
            let dom = r.cells@[j]->Uncollapsed_0@;
            assert(forall|k: int| 0 <= k < dom.len() ==> dom[k] == k);
        }
        r
    }

    /// Whether every cell is collapsed.
    pub fn is_collapsed(&self) -> (r: bool)
        ensures
            r == self.is_collapsed_spec(),
    {
        let mut i: usize = 0;
        while i < self.cells.len()
            invariant
                i <= self.cells@.len(),
                forall|j: int| 0 <= j < i ==> #[trigger] self.cells@[j] is Collapsed,
            decreases self.cells@.len() - i,
        {
            if let Tile::Uncollapsed(_) = &self.cells[i] {
                return false;
            }
            i = i + 1;
        }
        true
    }

    /// The uncollapsed cell with the smallest domain, the first in row-major
    /// order among equals; None when every cell is collapsed.
    pub fn get_lowest_entropy(&self) -> (r: Option<usize>)
        ensures
            r is None <==> self.is_collapsed_spec(),
            r is Some ==> {
                let p = r->0 as int;
                &&& 0 <= p < self.len_spec()
                &&& self.cells@[p] is Uncollapsed
                &&& forall|j: int| 0 <= j < self.len_spec() && #[trigger] self.cells@[j] is Uncollapsed
                    ==> self.cells@[j]->Uncollapsed_0@.len() >= self.cells@[p]->Uncollapsed_0@.len()
                &&& forall|j: int| 0 <= j < p && #[trigger] self.cells@[j] is Uncollapsed
                    ==> self.cells@[j]->Uncollapsed_0@.len() > self.cells@[p]->Uncollapsed_0@.len()
            },
    {
        let mut best: Option<usize> = None;
        let mut best_len: usize = 0;
        let mut i: usize = 0;
        while i < self.cells.len()
            invariant
                i <= self.cells@.len(),
                best is None ==> forall|j: int| 0 <= j < i ==> #[trigger] self.cells@[j] is Collapsed,
                best is Some ==> {
                    let p = best->0 as int;
                    &&& 0 <= p < i
                    &&& self.cells@[p] is Uncollapsed
                    &&& self.cells@[p]->Uncollapsed_0@.len() == best_len
                    &&& forall|j: int| 0 <= j < i && #[trigger] self.cells@[j] is Uncollapsed
                        ==> self.cells@[j]->Uncollapsed_0@.len() >= best_len
                    &&& forall|j: int| 0 <= j < p && #[trigger] self.cells@[j] is Uncollapsed
                        ==> self.cells@[j]->Uncollapsed_0@.len() > best_len
                },
            decreases self.cells@.len() - i,
        {
            if let Tile::Uncollapsed(dom) = &self.cells[i] {
                if best.is_none() || dom.len() < best_len {
                    best = Some(i);
                    best_len = dom.len();
                }
            }
            i = i + 1;
        }
        best
    }

    /// Whether `v` may be placed at `pos`: every collapsed cell of which `pos`
    /// lies in some direction allows `v` in that direction.
    pub fn is_valid_placement(&self, rules: &AdjacencyMap, val: usize, pos: usize) -> (r: bool)
        requires
            self.wf(rules.len_spec()),
            pos < self.len_spec(),
        ensures
            r == self.valid_at(rules, val, pos as int),
    {
        let mut d: usize = 0;
        while d < DIRECTIONS
            invariant
                self.wf(rules.len_spec()),
                pos < self.len_spec(),
                d <= DIRECTIONS,
                forall|e: int|
                    0 <= e < d && #[trigger] self.nbr(pos as int, e) is Some
                        && self.cells@[self.nbr(pos as int, e)->0] is Collapsed ==> rules.allows_spec(
                        self.cells@[self.nbr(pos as int, e)->0]->Collapsed_0,
                        e,
                        val,
                    ),
            decreases DIRECTIONS - d,
        {
            if let Some(q) = self.neighbor(pos, d) {
                if let Tile::Collapsed(w) = &self.cells[q] {
                    assert(self.cells@[q as int] is Collapsed);
                    if !rules.allows(*w, d, val) {
                        return false;
                    }
                }
            }
            d = d + 1;
        }
        true
    }
}

/// The members of `dom` that allow `v` in direction `d`; each other member
/// `x` is appended to `log` as `(q, x)`.
fn split_domain(
    rules: &AdjacencyMap,
    dom: &Vec<usize>,
    d: usize,
    v: usize,
    q: usize,
    log: &mut Vec<(usize, usize)>,
) -> (kept: Vec<usize>)
    requires
        forall|k: int| 0 <= k < dom@.len() ==> #[trigger] dom@[k] < rules.len_spec(),
    ensures
        forall|k: int| 0 <= k < kept@.len() ==> #[trigger] kept@[k] < rules.len_spec(),
        dom@.no_duplicates() ==> kept@.no_duplicates(),
        kept@ == kept_by(rules, dom@, d as int, v),
        final(log)@ == old(log)@ + removed_by(rules, dom@, d as int, v, q),
        old(log)@.no_duplicates() && dom@.no_duplicates() && (forall|x: usize| !#[trigger] old(log)@.contains((q, x)))
            ==> final(log)@.no_duplicates(),
        forall|x: usize| #[trigger] kept@.contains(x) <==> dom@.contains(x) && rules.allows_spec(x, d as int, v),
        forall|e: (usize, usize)| #[trigger] final(log)@.contains(e) <==> old(log)@.contains(e)
            || (e.0 == q && dom@.contains(e.1) && !rules.allows_spec(e.1, d as int, v)),
{
    let ghost log0 = log@;
    let mut kept: Vec<usize> = Vec::new();
    let mut i: usize = 0;
    while i < dom.len()
        invariant
            i <= dom@.len(),
            forall|k: int| 0 <= k < dom@.len() ==> #[trigger] dom@[k] < rules.len_spec(),
            forall|k: int| 0 <= k < kept@.len() ==> #[trigger] kept@[k] < rules.len_spec(),
            dom@.no_duplicates() ==> kept@.no_duplicates(),
            kept@ == kept_by(rules, dom@.take(i as int), d as int, v),
            log@ == log0 + removed_by(rules, dom@.take(i as int), d as int, v, q),
            log0.no_duplicates() && dom@.no_duplicates() && (forall|x: usize| !#[trigger] log0.contains((q, x)))
                ==> log@.no_duplicates(),
            forall|x: usize| #[trigger] kept@.contains(x) <==> dom@.take(i as int).contains(x)
                && rules.allows_spec(x, d as int, v),
            forall|e: (usize, usize)| #[trigger] log@.contains(e) <==> log0.contains(e)
                || (e.0 == q && dom@.take(i as int).contains(e.1) && !rules.allows_spec(e.1, d as int, v)),
        decreases dom@.len() - i,
    {
        let x = dom[i];
        assert(dom@.take(i + 1) == dom@.take(i as int).push(x));
        assert(dom@.take(i + 1).drop_last() == dom@.take(i as int));
        proof { lemma_push_contains(dom@.take(i as int), x); }
        let ghost kept0 = kept@;
        let ghost logi = log@;
        if rules.allows(x, d, v) {
            proof {
                if dom@.no_duplicates() && kept0.contains(x) {
                    let j = choose|j: int| 0 <= j < i && dom@.take(i as int)[j] == x;
                    assert(dom@[j] == dom@[i as int]);
                }
            }
            kept.push(x);
            proof { lemma_push_contains(kept0, x); }
        } else {
            proof {
                if log0.no_duplicates() && dom@.no_duplicates() && (forall|y: usize| !#[trigger] log0.contains((q, y))) {
                    if logi.contains((q, x)) {
                        assert(!log0.contains((q, x)));
                        let j = choose|j: int| 0 <= j < i && dom@.take(i as int)[j] == x;
                        assert(dom@[j] == dom@[i as int]);
                    }
                }
            }
            log.push((q, x));
            proof {
                lemma_push_contains(logi, (q, x));
                assert(log@ =~= log0 + removed_by(rules, dom@.take(i + 1), d as int, v, q));
            }
        }
        i = i + 1;
    }
    assert(dom@.take(dom@.len() as int) == dom@);
    kept
}

impl Board {
    /// Removes from each uncollapsed cell of which `pos` lies in some
    /// direction the tiles that do not allow `pos`'s tile there, and returns
    /// the removed `(position, tile)` pairs in the order removed.
    pub fn propagate_collapse(&mut self, rules: &AdjacencyMap, pos: usize) -> (log: Vec<(usize, usize)>)
        requires
            old(self).wf(rules.len_spec()),
            pos < old(self).len_spec(),
            old(self).cells@[pos as int] is Collapsed,
        ensures
            final(self).wf(rules.len_spec()),
            Board::propagated(rules, *old(self), pos as int, *final(self), log@),
            log@.no_duplicates(),
    {
        let ghost b0 = *self;
        let total = self.cells.len();
        let mut log: Vec<(usize, usize)> = Vec::new();
        let v = match &self.cells[pos] {
            Tile::Collapsed(v) => *v,
            Tile::Uncollapsed(_) => { return log; },
        };
        let mut d: usize = 0;
        while d < DIRECTIONS
            invariant
                d <= DIRECTIONS,
                b0.wf(rules.len_spec()),
                self.wf(rules.len_spec()),
                self.rows == b0.rows && self.cols == b0.cols,
                self.cells@.len() == b0.cells@.len(),
                0 <= pos < b0.len_spec() <= usize::MAX,
                b0.cells@[pos as int] == Tile::Collapsed(v),
                forall|q: int| 0 <= q < b0.len_spec() && #[trigger] b0.cells@[q] is Collapsed
                    ==> self.cells@[q] == b0.cells@[q],
                forall|q: int| 0 <= q < b0.len_spec() && #[trigger] b0.cells@[q] is Uncollapsed
                    ==> self.cells@[q] is Uncollapsed,
                forall|q: int, x: usize| 0 <= q < b0.len_spec() && b0.cells@[q] is Uncollapsed
                    ==> (#[trigger] self.cells@[q]->Uncollapsed_0@.contains(x)
                        <==> b0.cells@[q]->Uncollapsed_0@.contains(x) && b0.keeps(rules, pos as int, v, q, x, d as int)),
                forall|q: usize, x: usize| #[trigger] log@.contains((q, x)) <==> (q < b0.len_spec()
                    && b0.cells@[q as int] is Uncollapsed && b0.cells@[q as int]->Uncollapsed_0@.contains(x)
                    && !b0.keeps(rules, pos as int, v, q as int, x, d as int)),
                forall|q: int| #![trigger self.cells@[q]] 0 <= q < b0.len_spec()
                    && (forall|e: int| 0 <= e < d ==> #[trigger] b0.nbr(pos as int, e) != Some(q))
                    ==> self.cells@[q] == b0.cells@[q],
                forall|q: int, e: int| #![trigger b0.nbr(pos as int, e), self.cells@[q]]
                    0 <= e < d && b0.nbr(pos as int, e) == Some(q) && b0.cells@[q] is Uncollapsed ==> self.cells@[q]->Uncollapsed_0@
                        == kept_by(rules, b0.cells@[q]->Uncollapsed_0@, e, v),
                log@ == b0.propagation_log(rules, pos as int, v, d as int),
                log@.no_duplicates(),
            decreases DIRECTIONS - d,
        {
            let ghost cur = *self;
            let ghost log1 = log@;
            proof {
                lemma_keeps_step(b0, rules, pos as int, v, d as int);
                lemma_nbr_distinct(b0, pos as int);
            }
            if let Some(q) = self.neighbor(pos, d) {
                proof {
                    assert forall|x: usize| !#[trigger] log@.contains((q, x)) by {
                        if log@.contains((q, x)) {
                            assert(!b0.keeps(rules, pos as int, v, q as int, x, d as int));
                            let e = choose|e: int| 0 <= e < d && #[trigger] b0.nbr(pos as int, e) == Some(q as int)
                                && !rules.allows_spec(x, e, v);
                            assert(b0.nbr(pos as int, e) != b0.nbr(pos as int, d as int));
                        }
                    }
                    if self.cells@[q as int] is Uncollapsed {
                        assert(cell_wf(self.cells@[q as int], rules.len_spec()));
                    }
                }
                let kept = match &self.cells[q] {
                    Tile::Uncollapsed(dom) => Some(split_domain(rules, dom, d, v, q, &mut log)),
                    Tile::Collapsed(_) => None,
                };
                if let Some(kept) = kept {
                    self.cells.set(q, Tile::Uncollapsed(kept));
                    assert forall|q2: int, x: usize| 0 <= q2 < b0.len_spec() && b0.cells@[q2] is Uncollapsed
                        implies (#[trigger] self.cells@[q2]->Uncollapsed_0@.contains(x)
                        <==> b0.cells@[q2]->Uncollapsed_0@.contains(x) && b0.keeps(rules, pos as int, v, q2, x, d + 1)) by {
                        if q2 != q {
                            assert(cur.cells@[q2]->Uncollapsed_0@.contains(x) <==> self.cells@[q2]->Uncollapsed_0@.contains(x));
                        }
                    };
                    assert forall|q2: usize, x: usize| #[trigger] log@.contains((q2, x)) <==> (q2 < b0.len_spec()
                        && b0.cells@[q2 as int] is Uncollapsed && b0.cells@[q2 as int]->Uncollapsed_0@.contains(x)
                        && !b0.keeps(rules, pos as int, v, q2 as int, x, d + 1)) by {
                        assert(log@.contains((q2, x)) <==> log1.contains((q2, x)) || (q2 == q
                            && cur.cells@[q as int]->Uncollapsed_0@.contains(x) && !rules.allows_spec(x, d as int, v)));
                    };
                } else {
                    assert(cur.cells@[q as int] is Collapsed);
                    assert(forall|q2: int| 0 <= q2 < b0.len_spec() && #[trigger] b0.cells@[q2] is Uncollapsed ==> q2 != q);
                    assert(log@ == log1);
                }
            } else {
                assert(b0.nbr(pos as int, d as int) is None);
            }
            d = d + 1;
        }
        log
    }

    /// Adds each logged tile back to its cell's domain, unless already there.
    /// A collapsed cell with a logged tile is replaced by an uncollapsed cell
    /// holding that tile alone; positions outside the grid are skipped.
    pub fn restore_domains(&mut self, tiles: Vec<(usize, usize)>)
        ensures
            Board::restored(*old(self), tiles@, *final(self)),
            forall|n: nat| old(self).wf(n) && (forall|k: int| 0 <= k < tiles@.len() ==> #[trigger] tiles@[k].1 < n)
                ==> #[trigger] final(self).wf(n),
    {
        let ghost b0 = *self;
        let mut k: usize = 0;
        while k < tiles.len()
            invariant
                k <= tiles@.len(),
                self.rows == b0.rows && self.cols == b0.cols,
                self.cells@.len() == b0.cells@.len(),
                forall|n: nat| b0.wf(n) && (forall|j: int| 0 <= j < tiles@.len() ==> #[trigger] tiles@[j].1 < n)
                    ==> #[trigger] self.wf(n),
                Board::restored(b0, tiles@.take(k as int), *self),
            decreases tiles@.len() - k,
        {
            let (q, x) = tiles[k];
            let ghost cur = *self;
            assert(tiles@.take(k + 1) == tiles@.take(k as int).push((q, x)));
            proof { lemma_push_contains(tiles@.take(k as int), (q, x)); }
            if q < self.cells.len() {
                let grown = match &self.cells[q] {
                    Tile::Uncollapsed(dom) => {
                        if contains_id(dom, x) {
                            None
                        } else {
                            let mut dom2 = copy_ids(dom);
                            dom2.push(x);
                            proof { lemma_push_contains(dom@, x); }
                            Some(Tile::Uncollapsed(dom2))
                        }
                    },
                    Tile::Collapsed(_) => {
                        proof {
                            lemma_push_contains(Seq::<usize>::empty(), x);
                            assert(seq![x] == Seq::<usize>::empty().push(x));
                        }
                        Some(Tile::domain_from(x))
                    },
                };
                if let Some(cell) = grown {
                    self.cells.set(q, cell);
                    assert(cell is Uncollapsed);
                    assert(forall|y: usize| #[trigger] cell->Uncollapsed_0@.contains(y) <==> (cur.cells@[q as int]
                        is Uncollapsed && cur.cells@[q as int]->Uncollapsed_0@.contains(y)) || y == x);
                    assert forall|n: nat| b0.wf(n) && (forall|j: int| 0 <= j < tiles@.len() ==> #[trigger] tiles@[j].1 < n)
                        implies #[trigger] self.wf(n) by {
                        assert(cur.wf(n));
                        assert(tiles@[k as int].1 < n);
                        let nd = cell->Uncollapsed_0@;
                        assert forall|j: int| 0 <= j < nd.len() implies #[trigger] nd[j] < n by {
                            assert(nd.contains(nd[j]));
                            if nd[j] != x {
                                let od = cur.cells@[q as int]->Uncollapsed_0@;
                                let m = choose|m: int| 0 <= m < od.len() && od[m] == nd[j];
                            }
                        }
                    }
                } else {
                    assert(cur.cells@[q as int]->Uncollapsed_0@.contains(x));
                }
            }
            proof {
                let l0 = tiles@.take(k as int);
                let l1 = tiles@.take(k + 1);
                let len = b0.len_spec();
                assert forall|q2: int, y: usize| 0 <= q2 < len && b0.cells@[q2] is Uncollapsed
                    implies (#[trigger] self.cells@[q2]->Uncollapsed_0@.contains(y)
                    <==> b0.cells@[q2]->Uncollapsed_0@.contains(y) || l1.contains((q2 as usize, y))) by {
                    if q2 != q as int {
                        assert(self.cells@[q2] == cur.cells@[q2]);
                        assert(l1.contains((q2 as usize, y)) <==> l0.contains((q2 as usize, y)));
                    }
                }
                assert forall|q2: int| 0 <= q2 < len implies match #[trigger] restored_domain(domain_of(b0.cells@[q2]), l1, q2) {
                    None => self.cells@[q2] == b0.cells@[q2],
                    Some(d) => self.cells@[q2] is Uncollapsed && self.cells@[q2]->Uncollapsed_0@ == d,
                } by {
                    assert(l1.drop_last() == l0);
                    assert(l1.last() == (q, x));
                    let r0 = restored_domain(domain_of(b0.cells@[q2]), l0, q2);
                    if q2 != q as int {
                        assert(self.cells@[q2] == cur.cells@[q2]);
                    } else {
                        match r0 {
                            None => {
                                assert(cur.cells@[q2] == b0.cells@[q2]);
                                if b0.cells@[q2] is Uncollapsed {
                                    lemma_restored_domain_some(domain_of(b0.cells@[q2]), l0, q2);
                                }
                            },
                            Some(d) => {
                                assert(cur.cells@[q2]->Uncollapsed_0@ == d);
                            },
                        }
                    }
                }
                assert forall|q2: int| 0 <= q2 < len
                    && (forall|y: usize| !#[trigger] l1.contains((q2 as usize, y))) implies #[trigger] self.cells@[q2] == b0.cells@[q2] by {
                    if q2 == q as int {
                        assert(l1.contains((q2 as usize, x)));
                    }
                    assert forall|y: usize| !#[trigger] l0.contains((q2 as usize, y)) by {
                        assert(!l1.contains((q2 as usize, y)));
                    }
                }
                assert forall|q2: int, y: usize| 0 <= q2 < len && #[trigger] b0.cells@[q2] is Collapsed
                    && #[trigger] l1.contains((q2 as usize, y)) implies self.cells@[q2] is Uncollapsed
                    && forall|z: usize| #[trigger] self.cells@[q2]->Uncollapsed_0@.contains(z) <==> l1.contains((q2 as usize, z)) by {
                    if q2 == q as int {
                        if cur.cells@[q2] is Uncollapsed {
                            assert(cur.cells@[q2] != b0.cells@[q2]);
                            assert(!(forall|z: usize| !#[trigger] l0.contains((q2 as usize, z))));
                            let z = choose|z: usize| #[trigger] l0.contains((q2 as usize, z));
                            assert(l0.contains((q2 as usize, z)));
                        }
                        if cur.cells@[q2] is Collapsed {
                            assert forall|z: usize| !#[trigger] l0.contains((q2 as usize, z)) by {
                                if l0.contains((q2 as usize, z)) {
                                    assert(cur.cells@[q2] is Uncollapsed);
                                }
                            }
                        }
                    } else {
                        assert(l0.contains((q2 as usize, y)));
                        assert(self.cells@[q2] == cur.cells@[q2]);
                    }
                }
            }
            k = k + 1;
        }
        assert(tiles@.take(tiles@.len() as int) == tiles@);
    }
}

/// Whether `dom` holds `x`.
fn contains_id(dom: &Vec<usize>, x: usize) -> (r: bool)
    ensures
        r == dom@.contains(x),
{
    let mut i: usize = 0;
    while i < dom.len()
        invariant
            i <= dom@.len(),
            forall|j: int| 0 <= j < i ==> dom@[j] != x,
        decreases dom@.len() - i,
    {
        if dom[i] == x {
            return true;
        }
        i = i + 1;
    }
    false
}

/// A copy of `dom`.
pub(crate) fn copy_ids(dom: &Vec<usize>) -> (r: Vec<usize>)
    ensures
        r@ == dom@,
{
    let mut r: Vec<usize> = Vec::new();
    let mut i: usize = 0;
    while i < dom.len()
        invariant
            i <= dom@.len(),
            r@ == dom@.take(i as int),
        decreases dom@.len() - i,
    {
        r.push(dom[i]);
        i = i + 1;
        assert(r@ =~= dom@.take(i as int));
    }
    assert(dom@.take(dom@.len() as int) =~= dom@);
    r
}

/// A sequence with an element pushed holds what it held and that element.
pub proof fn lemma_push_contains<A>(s: Seq<A>, a: A)
    ensures
        forall|b: A| #[trigger] s.push(a).contains(b) <==> s.contains(b) || b == a,
{
    assert forall|b: A| #[trigger] s.push(a).contains(b) <==> s.contains(b) || b == a by {
        if s.contains(b) {
            let j = choose|j: int| 0 <= j < s.len() && s[j] == b;
            assert(s.push(a)[j] == b);
        }
        if b == a {
            assert(s.push(a)[s.len() as int] == a);
        }
        if s.push(a).contains(b) {
            let j = choose|j: int| 0 <= j < s.len() + 1 && s.push(a)[j] == b;
            if j < s.len() {
                assert(s[j] == b);
            }
        }
    }
}

/// The cells of which a position lies in two different directions differ.
proof fn lemma_nbr_distinct(b: Board, p: int)
    ensures
        forall|d1: int, d2: int| 0 <= d1 < DIRECTIONS && 0 <= d2 < DIRECTIONS && d1 != d2
            && #[trigger] b.nbr(p, d1) is Some && #[trigger] b.nbr(p, d2) is Some ==> b.nbr(p, d1) != b.nbr(p, d2),
{
    if b.cols == 1 {
        assert(p % 1 == 0);
    }
}

/// Widening the propagation by one direction adds that direction's test at
/// the cell of which `p` lies in it.
proof fn lemma_keeps_step(b: Board, rules: &AdjacencyMap, p: int, v: usize, d: int)
    requires
        0 <= d,
    ensures
        forall|q: int, x: usize| #[trigger] b.keeps(rules, p, v, q, x, d + 1) == (b.keeps(rules, p, v, q, x, d)
            && (b.nbr(p, d) == Some(q) ==> rules.allows_spec(x, d, v))),
{
    assert forall|q: int, x: usize| #[trigger] b.keeps(rules, p, v, q, x, d + 1) == (b.keeps(rules, p, v, q, x, d)
        && (b.nbr(p, d) == Some(q) ==> rules.allows_spec(x, d, v))) by {
        if b.keeps(rules, p, v, q, x, d + 1) {
            assert(b.nbr(p, d) == Some(q) ==> rules.allows_spec(x, d, v));
        }
    }
}

/// Undoing a propagation: after propagating `p` of `b0` (giving `b1` and
/// `log`), a grid `b1x` that holds the same state as `b1` except maybe at `p`,
/// restored with `log`, holds the state of `b0` at every other cell, and its
/// own state at `p`.
pub proof fn lemma_undo(
    rules: &AdjacencyMap,
    b0: Board,
    p: int,
    b1: Board,
    log: Seq<(usize, usize)>,
    b1x: Board,
    b2: Board,
)
    requires
        Board::propagated(rules, b0, p, b1, log),
        b1x.rows == b1.rows && b1x.cols == b1.cols,
        b1x.cells@.len() == b1.cells@.len(),
        forall|q: int| 0 <= q < b1.len_spec() && q != p ==> same_cell(#[trigger] b1.cells@[q], b1x.cells@[q]),
        Board::restored(b1x, log, b2),
    ensures
        b2.rows == b0.rows && b2.cols == b0.cols,
        b2.cells@.len() == b0.cells@.len(),
        forall|q: int| 0 <= q < b0.len_spec() && q != p ==> same_cell(#[trigger] b0.cells@[q], b2.cells@[q]),
        same_cell(b1x.cells@[p], b2.cells@[p]),
{
    let v = b0.cells@[p]->Collapsed_0;
    assert forall|q: int| 0 <= q < b0.len_spec() && q != p implies same_cell(#[trigger] b0.cells@[q], b2.cells@[q]) by {
        assert(same_cell(b1.cells@[q], b1x.cells@[q]));
        if b0.cells@[q] is Collapsed {
            assert(b1.cells@[q] == b0.cells@[q]);
            assert forall|x: usize| !#[trigger] log.contains((q as usize, x)) by {}
        } else {
            assert forall|x: usize| #[trigger] b2.cells@[q]->Uncollapsed_0@.contains(x)
                <==> b0.cells@[q]->Uncollapsed_0@.contains(x) by {
                assert(b1.cells@[q]->Uncollapsed_0@.contains(x) <==> b1x.cells@[q]->Uncollapsed_0@.contains(x));
                assert(log.contains((q as usize, x)) <==> b0.cells@[q]->Uncollapsed_0@.contains(x)
                    && !b0.keeps(rules, p, v, q, x, DIRECTIONS as int));
            }
        }
    }
    assert forall|x: usize| !#[trigger] log.contains((p as usize, x)) by {}
    if b1x.cells@[p] is Uncollapsed {
        assert forall|x: usize| #[trigger] b2.cells@[p]->Uncollapsed_0@.contains(x)
            <==> b1x.cells@[p]->Uncollapsed_0@.contains(x) by {}
    }
}

/// Restoring exactly the log of a propagation, with nothing in between,
/// gives back the state of every cell: each touched domain holds again the
/// tiles it held before, and every cell that propagation did not touch is
/// exactly as it was.
pub proof fn lemma_propagate_restore_round_trip(
    rules: &AdjacencyMap,
    b0: Board,
    p: int,
    b1: Board,
    log: Seq<(usize, usize)>,
    b2: Board,
)
    requires
        Board::propagated(rules, b0, p, b1, log),
        Board::restored(b1, log, b2),
    ensures
        same_cells(b0.cells@, b2.cells@),
        forall|q: int| #![trigger b2.cells@[q]] 0 <= q < b0.len_spec()
            && (forall|d: int| 0 <= d < DIRECTIONS ==> #[trigger] b0.nbr(p, d) != Some(q))
            ==> b2.cells@[q] == b0.cells@[q],
{
    let v = b0.cells@[p]->Collapsed_0;
    assert forall|q: int| #![trigger b2.cells@[q]] 0 <= q < b0.len_spec()
        && (forall|d: int| 0 <= d < DIRECTIONS ==> #[trigger] b0.nbr(p, d) != Some(q))
        implies b2.cells@[q] == b0.cells@[q] by {
        assert(b1.cells@[q] == b0.cells@[q]);
        assert forall|x: usize| !#[trigger] log.contains((q as usize, x)) by {
            assert(b0.keeps(rules, p, v, q, x, DIRECTIONS as int));
        }
        assert(b2.cells@[q] == b1.cells@[q]);
    }
    assert forall|q: int| 0 <= q < b1.len_spec() && q != p implies same_cell(#[trigger] b1.cells@[q], b1.cells@[q]) by {
        if b1.cells@[q] is Uncollapsed {
            assert(forall|x: usize| #[trigger] b1.cells@[q]->Uncollapsed_0@.contains(x) <==> b1.cells@[q]->Uncollapsed_0@.contains(x));
        }
    }
    lemma_undo(rules, b0, p, b1, log, b1, b2);
    assert(b1.cells@[p] == b0.cells@[p]);
    assert forall|i: int| 0 <= i < b0.cells@.len() implies same_cell(#[trigger] b0.cells@[i], b2.cells@[i]) by {
        if i != p {
            assert(same_cell(b0.cells@[i], b2.cells@[i]));
        }
    }
}

/// Grids whose cells are collapsed at the same positions have as many
/// uncollapsed cells.
pub proof fn lemma_open_count_pattern(a: Seq<Tile>, b: Seq<Tile>)
    requires
        a.len() == b.len(),
        forall|i: int| 0 <= i < a.len() ==> (#[trigger] a[i] is Uncollapsed) == (b[i] is Uncollapsed),
    ensures
        open_count(a) == open_count(b),
    decreases a.len(),
{
    if a.len() > 0 {
        lemma_open_count_pattern(a.drop_last(), b.drop_last());
    }
}

/// Collapsing one uncollapsed cell leaves one uncollapsed cell fewer.
pub proof fn lemma_open_count_collapse(s: Seq<Tile>, i: int, t: Tile)
    requires
        0 <= i < s.len(),
        s[i] is Uncollapsed,
        t is Collapsed,
    ensures
        open_count(s.update(i, t)) + 1 == open_count(s),
    decreases s.len(),
{
    let u = s.update(i, t);
    if i == s.len() - 1 {
        assert(u.drop_last() == s.drop_last());
    } else {
        assert(u.drop_last() == s.drop_last().update(i, t));
        lemma_open_count_collapse(s.drop_last(), i, t);
    }
}

/// Cell state equality is transitive.
pub proof fn lemma_same_cells_trans(a: Seq<Tile>, b: Seq<Tile>, c: Seq<Tile>)
    requires
        same_cells(a, b),
        same_cells(b, c),
    ensures
        same_cells(a, c),
{
    assert forall|i: int| 0 <= i < a.len() implies same_cell(#[trigger] a[i], c[i]) by {
        assert(same_cell(a[i], b[i]));
        assert(same_cell(b[i], c[i]));
        if a[i] is Uncollapsed {
            assert forall|x: usize| a[i]->Uncollapsed_0@.contains(x) <==> #[trigger] c[i]->Uncollapsed_0@.contains(x) by {
                assert(a[i]->Uncollapsed_0@.contains(x) <==> b[i]->Uncollapsed_0@.contains(x));
            }
        }
    }
}

impl Board {
    /// The invariants of the search depend only on the state of the cells.
    pub proof fn lemma_same_state_invariants(rules: &AdjacencyMap, a: Board, b: Board)
        requires
            a.rows == b.rows && a.cols == b.cols,
            same_cells(a.cells@, b.cells@),
            a.consistent(rules),
            a.filtered(rules),
        ensures
            b.consistent(rules),
            b.filtered(rules),
            forall|i: int| 0 <= i < a.len_spec() ==> (#[trigger] a.cells@[i] is Uncollapsed) == (b.cells@[i] is Uncollapsed),
            a.domains_nonempty() ==> b.domains_nonempty(),
            a.no_adjacency() ==> b.no_adjacency(),
    {
        if a.domains_nonempty() {
            assert forall|i: int| 0 <= i < b.len_spec() && #[trigger] b.cells@[i] is Uncollapsed
                implies b.cells@[i]->Uncollapsed_0@.len() > 0 by {
                assert(same_cell(a.cells@[i], b.cells@[i]));
                let d = a.cells@[i]->Uncollapsed_0@;
                assert(d.contains(d[0]));
                assert(b.cells@[i]->Uncollapsed_0@.contains(d[0]));
            }
        }
        if a.no_adjacency() {
            assert forall|p: int, d: int| 0 <= p < b.len_spec() && 0 <= d < DIRECTIONS implies #[trigger] b.nbr(p, d) is None by {
                assert(a.nbr(p, d) is None);
            }
        }
        assert forall|i: int| 0 <= i < a.len_spec() implies (#[trigger] a.cells@[i] is Uncollapsed) == (b.cells@[i] is Uncollapsed) by {
            assert(same_cell(a.cells@[i], b.cells@[i]));
        }
        assert forall|p: int| 0 <= p < b.len_spec() && #[trigger] b.cells@[p] is Collapsed implies b.valid_at(
            rules, b.cells@[p]->Collapsed_0, p) by {
            assert(same_cell(a.cells@[p], b.cells@[p]));
            assert(a.valid_at(rules, a.cells@[p]->Collapsed_0, p));
            assert forall|d: int| 0 <= d < DIRECTIONS && #[trigger] b.nbr(p, d) is Some
                && b.cells@[b.nbr(p, d)->0] is Collapsed implies rules.allows_spec(
                b.cells@[b.nbr(p, d)->0]->Collapsed_0, d, b.cells@[p]->Collapsed_0) by {
                let q = b.nbr(p, d)->0;
                assert(a.nbr(p, d) == b.nbr(p, d));
                assert(same_cell(a.cells@[q], b.cells@[q]));
            }
        }
        assert forall|p: int, d: int, c: usize|
            0 <= p < b.len_spec() && 0 <= d < DIRECTIONS && b.cells@[p] is Collapsed
                && #[trigger] b.nbr(p, d) is Some
                && b.cells@[b.nbr(p, d)->0] is Uncollapsed
                && #[trigger] b.cells@[b.nbr(p, d)->0]->Uncollapsed_0@.contains(c)
                implies rules.allows_spec(c, d, b.cells@[p]->Collapsed_0) by {
            let q = b.nbr(p, d)->0;
            assert(a.nbr(p, d) == b.nbr(p, d));
            assert(same_cell(a.cells@[p], b.cells@[p]));
            assert(same_cell(a.cells@[q], b.cells@[q]));
            assert(a.cells@[q]->Uncollapsed_0@.contains(c));
        }
    }

    /// Collapsing an uncollapsed cell `p` of `e` to a valid member `v` of its
    /// domain and propagating keeps the grid consistent and forward-checked.
    pub proof fn lemma_collapse_step(
        rules: &AdjacencyMap,
        e: Board,
        p: int,
        v: usize,
        b0: Board,
        b1: Board,
        log: Seq<(usize, usize)>,
    )
        requires
            e.consistent(rules),
            e.filtered(rules),
            0 <= p < e.len_spec(),
            e.cells@[p] is Uncollapsed,
            e.cells@[p]->Uncollapsed_0@.contains(v),
            e.valid_at(rules, v, p),
            b0.rows == e.rows && b0.cols == e.cols,
            b0.cells@ == e.cells@.update(p, Tile::Collapsed(v)),
            Board::propagated(rules, b0, p, b1, log),
        ensures
            b1.consistent(rules),
            b1.filtered(rules),
    {
        assert forall|i: int| 0 <= i < b0.len_spec() && #[trigger] b0.cells@[i] is Collapsed
            implies b1.cells@[i] == b0.cells@[i] by {}
        assert forall|i: int| 0 <= i < b0.len_spec() && #[trigger] b0.cells@[i] is Uncollapsed
            implies b1.cells@[i] is Uncollapsed by {}
        assert forall|p2: int| 0 <= p2 < b1.len_spec() && #[trigger] b1.cells@[p2] is Collapsed implies b1.valid_at(
            rules, b1.cells@[p2]->Collapsed_0, p2) by {
            assert(b0.cells@[p2] is Collapsed);
            assert forall|d: int| 0 <= d < DIRECTIONS && #[trigger] b1.nbr(p2, d) is Some
                && b1.cells@[b1.nbr(p2, d)->0] is Collapsed implies rules.allows_spec(
                b1.cells@[b1.nbr(p2, d)->0]->Collapsed_0, d, b1.cells@[p2]->Collapsed_0) by {
                let q = b1.nbr(p2, d)->0;
                assert(b0.nbr(p2, d) == b1.nbr(p2, d));
                assert(e.nbr(p2, d) == b1.nbr(p2, d));
                assert(b0.cells@[q] is Collapsed);
                assert(b1.cells@[q] == b0.cells@[q]);
                assert(b1.cells@[p2] == b0.cells@[p2]);
                assert(q != p2);
                if p2 == p {
                    assert(e.cells@[q] == b0.cells@[q]);
                    assert(e.nbr(p, d) is Some && e.cells@[e.nbr(p, d)->0] is Collapsed);
                    assert(rules.allows_spec(e.cells@[q]->Collapsed_0, d, v));
                } else if q == p {
                    assert(e.cells@[p2] == b0.cells@[p2]);
                    assert(e.cells@[e.nbr(p2, d)->0]->Uncollapsed_0@.contains(v));
                    assert(rules.allows_spec(v, d, e.cells@[p2]->Collapsed_0));
                } else {
                    assert(e.cells@[p2] == b0.cells@[p2]);
                    assert(e.cells@[q] == b0.cells@[q]);
                    assert(e.valid_at(rules, e.cells@[p2]->Collapsed_0, p2));
                }
            }
        }
        assert forall|p2: int, d: int, c: usize|
            0 <= p2 < b1.len_spec() && 0 <= d < DIRECTIONS && b1.cells@[p2] is Collapsed
                && #[trigger] b1.nbr(p2, d) is Some
                && b1.cells@[b1.nbr(p2, d)->0] is Uncollapsed
                && #[trigger] b1.cells@[b1.nbr(p2, d)->0]->Uncollapsed_0@.contains(c)
                implies rules.allows_spec(c, d, b1.cells@[p2]->Collapsed_0) by {
            let q = b1.nbr(p2, d)->0;
            assert(b0.nbr(p2, d) == b1.nbr(p2, d));
            assert(e.nbr(p2, d) == b1.nbr(p2, d));
            assert(b0.cells@[p2] is Collapsed);
            assert(b0.cells@[q] is Uncollapsed);
            assert(b0.cells@[q]->Uncollapsed_0@.contains(c));
            if p2 == p {
                assert(b0.keeps(rules, p, v, q, c, DIRECTIONS as int));
            } else {
                assert(e.cells@[p2] == b0.cells@[p2]);
                assert(e.cells@[q] == b0.cells@[q]);
            }
        }
    }
}

impl Board {
    /// Under rules that allow everything, or on a grid without adjacent
    /// cells, propagation removes nothing that leaves a domain empty.
    pub proof fn lemma_step_nonempty(
        rules: &AdjacencyMap,
        b0: Board,
        p: int,
        b1: Board,
        log: Seq<(usize, usize)>,
    )
        requires
            Board::propagated(rules, b0, p, b1, log),
            b0.wf(rules.len_spec()),
            b0.domains_nonempty(),
            b0.no_adjacency() || rules.permissive(),
        ensures
            b1.domains_nonempty(),
            b0.no_adjacency() ==> b1.no_adjacency(),
    {
        let v = b0.cells@[p]->Collapsed_0;
        assert forall|i: int| 0 <= i < b1.len_spec() && #[trigger] b1.cells@[i] is Uncollapsed
            implies b1.cells@[i]->Uncollapsed_0@.len() > 0 by {
            assert(b0.cells@[i] is Uncollapsed);
            let d = b0.cells@[i]->Uncollapsed_0@;
            let x = d[0];
            assert(d.contains(x));
            assert(x < rules.len_spec());
            assert forall|e: int| 0 <= e < DIRECTIONS && #[trigger] b0.nbr(p, e) == Some(i) implies rules.allows_spec(x, e, v) by {
                if !rules.permissive() {
                    assert(b0.nbr(p, e) is None);
                }
            }
            assert(b0.keeps(rules, p, v, i, x, DIRECTIONS as int));
            assert(b1.cells@[i]->Uncollapsed_0@.contains(x));
        }
        if b0.no_adjacency() {
            assert forall|q: int, d: int| 0 <= q < b1.len_spec() && 0 <= d < DIRECTIONS implies #[trigger] b1.nbr(q, d) is None by {
                assert(b0.nbr(q, d) is None);
            }
        }
    }
}

/// What a cell shows: its tile's glyph once collapsed, `.` before.
pub open spec fn glyph_of(rules: &AdjacencyMap, t: Tile) -> char {
    match t {
        Tile::Collapsed(x) => rules.tiles@[x as int].character,
        Tile::Uncollapsed(_) => '.',
    }
}

impl Board {
    /// The grid as rows of glyphs, row 0 first.
    pub fn render(&self, rules: &AdjacencyMap) -> (r: Vec<Vec<char>>)
        requires
            self.wf(rules.len_spec()),
        ensures
            r@.len() == self.rows,
            forall|i: int| 0 <= i < self.rows ==> #[trigger] r@[i]@.len() == self.cols,
            forall|i: int, j: int| 0 <= i < self.rows && 0 <= j < self.cols
                ==> #[trigger] r@[i]@[j] == glyph_of(rules, self.cells@[i * self.cols + j]),
    {
        let total = self.cells.len();
        let mut out: Vec<Vec<char>> = Vec::new();
        let mut i: usize = 0;
        let mut k: usize = 0;
        while i < self.rows
            invariant
                self.wf(rules.len_spec()),
                total == self.cells@.len(),
                i <= self.rows,
                k == i * self.cols,
                out@.len() == i,
                forall|a: int| 0 <= a < i ==> #[trigger] out@[a]@.len() == self.cols,
                forall|a: int, j: int| 0 <= a < i && 0 <= j < self.cols
                    ==> #[trigger] out@[a]@[j] == glyph_of(rules, self.cells@[a * self.cols + j]),
            decreases self.rows - i,
        {
            proof {
                assert((i + 1) * self.cols == i * self.cols + self.cols) by (nonlinear_arith);
                assert((i + 1) * self.cols <= self.rows * self.cols) by (nonlinear_arith)
                    requires i + 1 <= self.rows;
            }
            let mut line: Vec<char> = Vec::new();
            let mut j: usize = 0;
            while j < self.cols
                invariant
                    self.wf(rules.len_spec()),
                    total == self.cells@.len(),
                    i < self.rows,
                    k == i * self.cols,
                    k + self.cols <= self.cells@.len(),
                    j <= self.cols,
                    line@.len() == j,
                    forall|b: int| 0 <= b < j ==> #[trigger] line@[b] == glyph_of(rules, self.cells@[i * self.cols + b]),
                decreases self.cols - j,
            {
                let g = match &self.cells[k + j] {
                    Tile::Collapsed(t) => rules.character(*t),
                    Tile::Uncollapsed(_) => '.',
                };
                line.push(g);
                j = j + 1;
            }
            out.push(line);
            i = i + 1;
            k = k + self.cols;
        }
        out
    }
}

impl Board {
    /// Completions depend only on the state of the cells.
    pub proof fn lemma_completes_same_state(rules: &AdjacencyMap, e: Board, s: Board, a: Seq<usize>)
        requires
            e.rows == s.rows && e.cols == s.cols,
            same_cells(e.cells@, s.cells@),
            e.completes(rules, a),
        ensures
            s.completes(rules, a),
    {
        assert forall|i: int| 0 <= i < s.len_spec() implies match #[trigger] s.cells@[i] {
            Tile::Collapsed(t) => a[i] == t,
            Tile::Uncollapsed(dom) => dom@.contains(a[i]),
        } by {
            assert(same_cell(e.cells@[i], s.cells@[i]));
            if e.cells@[i] is Uncollapsed {
                assert(e.cells@[i]->Uncollapsed_0@.contains(a[i]));
            }
        }
        assert forall|p: int, d: int| 0 <= p < s.len_spec() && 0 <= d < DIRECTIONS
            && #[trigger] s.nbr(p, d) is Some implies rules.allows_spec(a[s.nbr(p, d)->0], d, a[p]) by {
            assert(e.nbr(p, d) == s.nbr(p, d));
        }
    }

    /// A completion places at each position a tile valid among the collapsed cells.
    pub proof fn lemma_completes_valid(rules: &AdjacencyMap, s: Board, a: Seq<usize>, p: int)
        requires
            s.completes(rules, a),
            0 <= p < s.len_spec(),
        ensures
            s.valid_at(rules, a[p], p),
    {
        assert forall|d: int| 0 <= d < DIRECTIONS && #[trigger] s.nbr(p, d) is Some
            && s.cells@[s.nbr(p, d)->0] is Collapsed implies rules.allows_spec(
            s.cells@[s.nbr(p, d)->0]->Collapsed_0, d, a[p]) by {
            let q = s.nbr(p, d)->0;
            assert(s.cells@[q] is Collapsed);
        }
    }

    /// A completion of `s` that places `v` at `p` still completes the grid
    /// after `p` is collapsed to `v` and propagated.
    pub proof fn lemma_completes_forward(
        rules: &AdjacencyMap,
        s: Board,
        p: int,
        v: usize,
        b0: Board,
        b1: Board,
        log: Seq<(usize, usize)>,
        a: Seq<usize>,
    )
        requires
            s.completes(rules, a),
            0 <= p < s.len_spec(),
            a[p] == v,
            b0.rows == s.rows && b0.cols == s.cols,
            b0.cells@ == s.cells@.update(p, Tile::Collapsed(v)),
            Board::propagated(rules, b0, p, b1, log),
        ensures
            b1.completes(rules, a),
    {
        assert forall|i: int| 0 <= i < b1.len_spec() implies match #[trigger] b1.cells@[i] {
            Tile::Collapsed(t) => a[i] == t,
            Tile::Uncollapsed(dom) => dom@.contains(a[i]),
        } by {
            if b0.cells@[i] is Collapsed {
                assert(b1.cells@[i] == b0.cells@[i]);
                if i != p {
                    assert(s.cells@[i] == b0.cells@[i]);
                }
            } else {
                assert(s.cells@[i] == b0.cells@[i]);
                assert forall|d: int| 0 <= d < DIRECTIONS && #[trigger] b0.nbr(p, d) == Some(i)
                    implies rules.allows_spec(a[i], d, v) by {
                    assert(s.nbr(p, d) == b0.nbr(p, d));
                }
                assert(b0.keeps(rules, p, v, i, a[i], DIRECTIONS as int));
                assert(b1.cells@[i] is Uncollapsed);
            }
        }
        assert forall|q: int, d: int| 0 <= q < b1.len_spec() && 0 <= d < DIRECTIONS
            && #[trigger] b1.nbr(q, d) is Some implies rules.allows_spec(a[b1.nbr(q, d)->0], d, a[q]) by {
            assert(s.nbr(q, d) == b1.nbr(q, d));
        }
    }

    /// A completion of the grid after collapsing `p` to a member `v` of its
    /// domain and propagating is a completion of the grid before.
    pub proof fn lemma_completes_back(
        rules: &AdjacencyMap,
        s: Board,
        p: int,
        v: usize,
        b0: Board,
        b1: Board,
        log: Seq<(usize, usize)>,
        a: Seq<usize>,
    )
        requires
            b1.completes(rules, a),
            0 <= p < s.len_spec(),
            s.cells@[p] is Uncollapsed,
            s.cells@[p]->Uncollapsed_0@.contains(v),
            b0.rows == s.rows && b0.cols == s.cols,
            b0.cells@ == s.cells@.update(p, Tile::Collapsed(v)),
            Board::propagated(rules, b0, p, b1, log),
        ensures
            s.completes(rules, a),
    {
        assert forall|i: int| 0 <= i < s.len_spec() implies match #[trigger] s.cells@[i] {
            Tile::Collapsed(t) => a[i] == t,
            Tile::Uncollapsed(dom) => dom@.contains(a[i]),
        } by {
            if i == p {
                assert(b1.cells@[p] == b0.cells@[p]);
            } else if s.cells@[i] is Collapsed {
                assert(b1.cells@[i] == b0.cells@[i]);
            } else {
                assert(b0.cells@[i] == s.cells@[i]);
                assert(b1.cells@[i] is Uncollapsed);
                assert(b1.cells@[i]->Uncollapsed_0@.contains(a[i]));
            }
        }
        assert forall|q: int, d: int| 0 <= q < s.len_spec() && 0 <= d < DIRECTIONS
            && #[trigger] s.nbr(q, d) is Some implies rules.allows_spec(a[s.nbr(q, d)->0], d, a[q]) by {
            assert(s.nbr(q, d) == b1.nbr(q, d));
        }
    }

    /// A fully collapsed, consistent grid is completed by its own tiles.
    pub proof fn lemma_collapsed_completes(rules: &AdjacencyMap, b: Board)
        requires
            b.is_collapsed_spec(),
            b.consistent(rules),
        ensures
            b.completes(rules, b.tiles()),
    {
        let a = b.tiles();
        assert forall|i: int| 0 <= i < b.len_spec() implies match #[trigger] b.cells@[i] {
            Tile::Collapsed(t) => a[i] == t,
            Tile::Uncollapsed(dom) => dom@.contains(a[i]),
        } by {
            assert(b.cells@[i] is Collapsed);
        }
        assert forall|p: int, d: int| 0 <= p < b.len_spec() && 0 <= d < DIRECTIONS
            && #[trigger] b.nbr(p, d) is Some implies rules.allows_spec(a[b.nbr(p, d)->0], d, a[p]) by {
            assert(b.cells@[p] is Collapsed);
            assert(b.cells@[b.nbr(p, d)->0] is Collapsed);
            assert(b.valid_at(rules, b.cells@[p]->Collapsed_0, p));
        }
    }
}

/// Filtering a domain twice by the same test keeps what the first pass
/// kept, and the second pass removes nothing.
pub proof fn lemma_kept_by_twice(rules: &AdjacencyMap, s: Seq<usize>, d: int, v: usize, q: usize)
    ensures
        kept_by(rules, kept_by(rules, s, d, v), d, v) == kept_by(rules, s, d, v),
        removed_by(rules, kept_by(rules, s, d, v), d, v, q) == Seq::<(usize, usize)>::empty(),
    decreases s.len(),
{
    if s.len() > 0 {
        let k = kept_by(rules, s.drop_last(), d, v);
        lemma_kept_by_twice(rules, s.drop_last(), d, v, q);
        if rules.allows_spec(s.last(), d, v) {
            assert(k.push(s.last()).drop_last() == k);
            assert(k.push(s.last()).last() == s.last());
        }
    }
}

impl Board {
    /// After a propagation, the same propagation's log over the first `k`
    /// directions is empty.
    proof fn lemma_second_log_empty(
        rules: &AdjacencyMap,
        b0: Board,
        p: int,
        b1: Board,
        log: Seq<(usize, usize)>,
        k: int,
    )
        requires
            Board::propagated(rules, b0, p, b1, log),
            k <= DIRECTIONS,
        ensures
            b1.propagation_log(rules, p, b0.cells@[p]->Collapsed_0, k) == Seq::<(usize, usize)>::empty(),
        decreases k,
    {
        let v = b0.cells@[p]->Collapsed_0;
        if k > 0 {
            Board::lemma_second_log_empty(rules, b0, p, b1, log, k - 1);
            assert(b1.nbr(p, k - 1) == b0.nbr(p, k - 1));
            if let Some(q) = b1.nbr(p, k - 1) {
                if b1.cells@[q] is Uncollapsed {
                    assert(b0.cells@[q] is Uncollapsed);
                    assert(b1.cells@[q]->Uncollapsed_0@ == kept_by(rules, b0.cells@[q]->Uncollapsed_0@, k - 1, v));
                    lemma_kept_by_twice(rules, b0.cells@[q]->Uncollapsed_0@, k - 1, v, q as usize);
                    assert(Seq::<(usize, usize)>::empty() + Seq::<(usize, usize)>::empty()
                        =~= Seq::<(usize, usize)>::empty());
                }
            }
        }
    }

    /// Propagating the same cell a second time removes nothing: its log is
    /// empty and every cell holds exactly the domain it held.
    pub proof fn lemma_propagate_twice(
        rules: &AdjacencyMap,
        b0: Board,
        p: int,
        b1: Board,
        log1: Seq<(usize, usize)>,
        b2: Board,
        log2: Seq<(usize, usize)>,
    )
        requires
            Board::propagated(rules, b0, p, b1, log1),
            Board::propagated(rules, b1, p, b2, log2),
        ensures
            log2.len() == 0,
            b2.rows == b1.rows && b2.cols == b1.cols,
            b2.cells@.len() == b1.cells@.len(),
            forall|q: int| 0 <= q < b1.len_spec() ==> #[trigger] domain_of(b2.cells@[q]) == domain_of(b1.cells@[q])
                && (b1.cells@[q] is Collapsed ==> b2.cells@[q] == b1.cells@[q]),
    {
        let v = b0.cells@[p]->Collapsed_0;
        assert(b1.cells@[p] == b0.cells@[p]);
        Board::lemma_second_log_empty(rules, b0, p, b1, log1, DIRECTIONS as int);
        assert forall|q: int| 0 <= q < b1.len_spec() implies #[trigger] domain_of(b2.cells@[q]) == domain_of(b1.cells@[q])
            && (b1.cells@[q] is Collapsed ==> b2.cells@[q] == b1.cells@[q]) by {
            if b1.cells@[q] is Uncollapsed {
                if exists|d: int| 0 <= d < DIRECTIONS && b1.nbr(p, d) == Some(q) {
                    let d = choose|d: int| 0 <= d < DIRECTIONS && b1.nbr(p, d) == Some(q);
                    assert(b0.nbr(p, d) == b1.nbr(p, d));
                    assert(b0.cells@[q] is Uncollapsed);
                    assert(b1.cells@[q]->Uncollapsed_0@ == kept_by(rules, b0.cells@[q]->Uncollapsed_0@, d, v));
                    lemma_kept_by_twice(rules, b0.cells@[q]->Uncollapsed_0@, d, v, q as usize);
                    assert(b2.cells@[q]->Uncollapsed_0@ == kept_by(rules, b1.cells@[q]->Uncollapsed_0@, d, v));
                } else {
                    assert(forall|d: int| 0 <= d < DIRECTIONS ==> #[trigger] b1.nbr(p, d) != Some(q));
                    assert(b2.cells@[q] == b1.cells@[q]);
                }
            }
        }
    }
}

} // verus!
