use vstd::prelude::*;

verus! {

/// Direction labels, in the order in which the solver visits them.
pub const RIGHT: usize = 0;
pub const LEFT: usize = 1;
pub const ABOVE: usize = 2;
pub const BELOW: usize = 3;
pub const DIRECTIONS: usize = 4;

/// The rule of one tile: its glyph and, for each direction, the tiles that it
/// allows to stand in that direction of it. Tiles are named by their index in
/// the [`AdjacencyMap`].
pub struct BoardCharacter {
    pub name: String,
    pub character: char,
    pub right: Vec<usize>,
    pub left: Vec<usize>,
    pub above: Vec<usize>,
    pub below: Vec<usize>,
}

impl BoardCharacter {
    /// The allowed-neighbour list for direction `d` (`d >= 3` reads as below).
    pub open spec fn allowed_spec(&self, d: int) -> Seq<usize> {
        if d == RIGHT as int {
            self.right@
        } else if d == LEFT as int {
            self.left@
        } else if d == ABOVE as int {
            self.above@
        } else {
            self.below@
        }
    }

    pub fn valid_neighbors(&self, d: usize) -> (r: &Vec<usize>)
        ensures
            r@ == self.allowed_spec(d as int),
    {
        if d == RIGHT {
            &self.right
        } else if d == LEFT {
            &self.left
        } else if d == ABOVE {
            &self.above
        } else {
            &self.below
        }
    }

    /// Whether this tile allows `v` in direction `d` of it.
    pub fn allows(&self, d: usize, v: usize) -> (r: bool)
        ensures
            r == self.allowed_spec(d as int).contains(v),
    {
        let list = self.valid_neighbors(d);
        let mut i: usize = 0;
        while i < list.len()
            invariant
                i <= list@.len(),
                list@ == self.allowed_spec(d as int),
                forall|j: int| 0 <= j < i ==> list@[j] != v,
            decreases list@.len() - i,
        {
            if list[i] == v {
                return true;
            }
            i = i + 1;
        }
        false
    }
}

/// The adjacency rules: one entry per tile identifier, the identifier being
/// the entry's index.
pub struct AdjacencyMap {
    pub tiles: Vec<BoardCharacter>,
}

impl AdjacencyMap {
    pub open spec fn len_spec(&self) -> nat {
        self.tiles@.len()
    }

    /// Tile `w` allows tile `v` to stand in direction `d` of it.
    pub open spec fn allows_spec(&self, w: usize, d: int, v: usize) -> bool {
        self.tiles@[w as int].allowed_spec(d).contains(v)
    }

    /// Every tile allows every tile in every direction.
    pub open spec fn permissive(&self) -> bool {
        forall|w: usize, d: int, v: usize|
            w < self.len_spec() && v < self.len_spec() && 0 <= d < DIRECTIONS
                ==> #[trigger] self.allows_spec(w, d, v)
    }

    pub fn len(&self) -> (r: usize)
        ensures
            r == self.len_spec(),
    {
        self.tiles.len()
    }

    pub fn allows(&self, w: usize, d: usize, v: usize) -> (r: bool)
        requires
            w < self.len_spec(),
        ensures
            r == self.allows_spec(w, d as int, v),
    {
        self.tiles[w].allows(d, v)
    }

    /// The glyph of tile `t`.
    pub fn character(&self, t: usize) -> (r: char)
        requires
            t < self.len_spec(),
        ensures
            r == self.tiles@[t as int].character,
    {
        self.tiles[t].character
    }
}

} // verus!
