//! Deciding whether a selection of tiles is a legal group or run.
//!
//! A joker stands in for any one tile: in a group it takes a missing color,
//! in a run a missing rank. So the rules below constrain the numbered tiles
//! only, and count the jokers only through the size of the selection.

use vstd::prelude::*;
use crate::tile::{Tile, tile_text};

verus! {

/// The fewest tiles of a legal set.
pub const MIN_SET_LEN: usize = 3;

/// The most tiles of a legal set.
pub const MAX_SET_LEN: usize = 13;

/// The number of colors, and so the most tiles of a group.
pub const MAX_GROUP_LEN: usize = 4;

/// Tiles `a` and `b` of `s` agree with a group: when both are numbered they
/// have one rank, and, being two tiles, two colors.
pub open spec fn group_pair(s: Seq<Tile>, a: int, b: int) -> bool {
    !s[a].joker && !s[b].joker ==> {
        &&& s[a].number == s[b].number
        &&& a != b ==> s[a].color != s[b].color
    }
}

/// Tiles `a` and `b` of `s` agree with a run: when both are numbered they
/// have one color, two ranks if they are two tiles, and ranks less than
/// `s.len()` apart.
pub open spec fn run_pair(s: Seq<Tile>, a: int, b: int) -> bool {
    !s[a].joker && !s[b].joker ==> {
        &&& s[a].color == s[b].color
        &&& a != b ==> s[a].number != s[b].number
        &&& s[a].number - s[b].number < s.len()
    }
}

/// `s` is a group: at most four tiles; all numbered tiles share one rank and
/// no color repeats.
pub open spec fn is_group(s: Seq<Tile>) -> bool {
    &&& s.len() <= MAX_GROUP_LEN
    &&& forall|a: int, b: int| 0 <= a < s.len() && 0 <= b < s.len() ==> #[trigger] group_pair(s, a, b)
}

/// `s` is a run: all numbered tiles share one color, no rank repeats, and no
/// two ranks are `s.len()` or more apart. Distinct ranks that fit in a span of
/// `s.len()` are consecutive once sorted, with the jokers filling the gaps.
pub open spec fn is_run(s: Seq<Tile>) -> bool {
    forall|a: int, b: int| 0 <= a < s.len() && 0 <= b < s.len() ==> #[trigger] run_pair(s, a, b)
}

/// `s` is a legal set: from 3 to 13 tiles that form a group or a run.
pub open spec fn valid_set(s: Seq<Tile>) -> bool {
    &&& MIN_SET_LEN <= s.len() <= MAX_SET_LEN
    &&& (is_group(s) || is_run(s))
}

/// Whether the tiles form a group.
fn check_group(s: &Vec<Tile>) -> (r: bool)
    ensures
        r == is_group(s@),
{
    if s.len() > MAX_GROUP_LEN {
        return false;
    }
    let mut a: usize = 0;
    while a < s.len()
        invariant
            0 <= a <= s@.len(),
            forall|x: int, y: int| 0 <= x < a && 0 <= y < s@.len() ==> #[trigger] group_pair(s@, x, y),
        decreases s@.len() - a,
    {
        let mut b: usize = 0;
        while b < s.len()
            invariant
                0 <= a < s@.len(),
                0 <= b <= s@.len(),
                forall|x: int, y: int| 0 <= x < a && 0 <= y < s@.len() ==> #[trigger] group_pair(s@, x, y),
                forall|y: int| 0 <= y < b ==> #[trigger] group_pair(s@, a as int, y),
            decreases s@.len() - b,
        {
            let ta = s[a];
            let tb = s[b];
            if !ta.joker && !tb.joker {
                if ta.number != tb.number || (a != b && ta.color == tb.color) {
                    assert(!group_pair(s@, a as int, b as int));
                    return false;
                }
            }
            b += 1;
        }
        a += 1;
    }
    true
}

/// Whether the tiles form a run.
fn check_run(s: &Vec<Tile>) -> (r: bool)
    ensures
        r == is_run(s@),
{
    let n = s.len();
    let mut a: usize = 0;
    while a < n
        invariant
            n == s@.len(),
            0 <= a <= n,
            forall|x: int, y: int| 0 <= x < a && 0 <= y < n ==> #[trigger] run_pair(s@, x, y),
        decreases n - a,
    {
        let mut b: usize = 0;
        while b < n
            invariant
                n == s@.len(),
                0 <= a < n,
                0 <= b <= n,
                forall|x: int, y: int| 0 <= x < a && 0 <= y < n ==> #[trigger] run_pair(s@, x, y),
                forall|y: int| 0 <= y < b ==> #[trigger] run_pair(s@, a as int, y),
            decreases n - b,
        {
            let ta = s[a];
            let tb = s[b];
            if !ta.joker && !tb.joker {
                if ta.color != tb.color || (a != b && ta.number == tb.number)
                    || (ta.number >= tb.number && (ta.number - tb.number) as usize >= n) {
                    assert(!run_pair(s@, a as int, b as int));
                    return false;
                }
            }
            b += 1;
        }
        a += 1;
    }
    true
}

/// Whether the tiles, in the order given, form a legal set: a group or a run
/// of 3 to 13 tiles.
pub fn tiles_form_set(s: &Vec<Tile>) -> (r: bool)
    ensures
        r == valid_set(s@),
{
    if s.len() < MIN_SET_LEN || s.len() > MAX_SET_LEN {
        return false;
    }
    check_group(s) || check_run(s)
}


/// The text of a sequence of tiles: each tile's text, in order, joined by
/// `", "`.
pub open spec fn describe_spec(s: Seq<Tile>) -> Seq<char>
    decreases s.len(),
{
    if s.len() == 0 {
        Seq::empty()
    } else if s.len() == 1 {
        tile_text(s[0])
    } else {
        describe_spec(s.drop_last()) + ", "@ + tile_text(s.last())
    }
}

/// Renders the tiles for diagnostics, as in `"Red 7, Blue 7, Yellow 7"`.
pub fn describe(s: &Vec<Tile>) -> (r: String)
    ensures
        r@ == describe_spec(s@),
{
    let mut r = String::new();
    let mut i: usize = 0;
    while i < s.len()
        invariant
            0 <= i <= s@.len(),
            r@ == describe_spec(s@.take(i as int)),
        decreases s@.len() - i,
    {
        if i > 0 {
            r.append(", ");
        }
        let t = s[i].text();
        r.append(t.as_str());
        assert(s@.take(i + 1).drop_last() =~= s@.take(i as int));
        i += 1;
    }
    assert(s@.take(s@.len() as int) =~= s@);
    r
}

/// The tiles that the indices `ids` refer to in `registry`, in order.
pub open spec fn resolve(ids: Seq<usize>, registry: Seq<Tile>) -> Seq<Tile> {
    ids.map_values(|i: usize| registry[i as int])
}

/// Every index of `ids` refers to a tile of a registry of `len` tiles.
pub open spec fn refs_in(ids: Seq<usize>, len: nat) -> bool {
    forall|k: int| 0 <= k < ids.len() ==> #[trigger] ids[k] < len
}

/// A candidate play: indices of tiles in a registry that owns them.
pub struct TileSet(pub Vec<usize>);

impl TileSet {
    /// The tiles of the set, looked up in `registry`.
    pub fn tiles(&self, registry: &Vec<Tile>) -> (r: Vec<Tile>)
        requires
            refs_in(self.0@, registry@.len()),
        ensures
            r@ == resolve(self.0@, registry@),
    {
        let mut r: Vec<Tile> = Vec::new();
        let mut i: usize = 0;
        while i < self.0.len()
            invariant
                0 <= i <= self.0@.len(),
                refs_in(self.0@, registry@.len()),
                r@ =~= resolve(self.0@.take(i as int), registry@),
            decreases self.0@.len() - i,
        {
            let id = self.0[i];
            assert(id < registry@.len());
            r.push(registry[id]);
            assert(self.0@.take(i + 1) =~= self.0@.take(i as int).push(id));
            i += 1;
        }
        assert(self.0@.take(self.0@.len() as int) =~= self.0@);
        r
    }

    /// Whether the tiles of the set form a legal group or run. An index
    /// outside the registry is a caller's mistake, excluded by the
    /// precondition.
    pub fn is_valid(&self, registry: &Vec<Tile>) -> (r: bool)
        requires
            refs_in(self.0@, registry@.len()),
        ensures
            r == valid_set(resolve(self.0@, registry@)),
    {
        let tiles = self.tiles(registry);
        tiles_form_set(&tiles)
    }

    /// Renders the tiles of the set for diagnostics, in the set's order.
    pub fn fmt(&self, registry: &Vec<Tile>) -> (r: String)
        requires
            refs_in(self.0@, registry@.len()),
        ensures
            r@ == describe_spec(resolve(self.0@, registry@)),
    {
        let tiles = self.tiles(registry);
        describe(&tiles)
    }
}


/// A selection of fewer than 3 or more than 13 tiles is never a legal set,
/// whatever its colors and ranks.
pub proof fn lemma_size_gate(s: Seq<Tile>)
    requires
        s.len() < MIN_SET_LEN || s.len() > MAX_SET_LEN,
    ensures
        !valid_set(s),
{
}

/// Validity depends on the tiles referred to and nothing else: two checks of
/// selections that refer to the same tiles, in particular two checks of one
/// unchanged selection, give the same answer.
pub proof fn lemma_validity_repeatable(
    ids1: Seq<usize>,
    registry1: Seq<Tile>,
    ids2: Seq<usize>,
    registry2: Seq<Tile>,
)
    requires
        resolve(ids1, registry1) == resolve(ids2, registry2),
    ensures
        valid_set(resolve(ids1, registry1)) == valid_set(resolve(ids2, registry2)),
{
}

} // verus!
