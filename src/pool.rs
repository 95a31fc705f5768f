//! Building the full pool of tiles and dealing hands from it at random.

use vstd::prelude::*;
use vstd::multiset::Multiset;
use crate::tile::{Tile, TileColor, color_code, MIN_RANK, MAX_RANK};

verus! {

broadcast use vstd::seq_lib::group_to_multiset_ensures;

/// The number of tiles in a full pool.
pub const POOL_LEN: usize = 106;

/// The number of numbered tiles in a full pool; the jokers follow them.
pub const NUMBERED_LEN: usize = 104;

/// The size of a starting hand.
pub const HAND_LEN: usize = 14;

/// How many copies of `t` a full pool holds: two of each numbered tile, one
/// black joker and one red joker.
pub open spec fn pool_count(t: Tile) -> nat {
    if !t.joker && MIN_RANK <= t.number <= MAX_RANK {
        2
    } else if t.joker && t.number == 0 && (t.color == TileColor::Black || t.color == TileColor::Red) {
        1
    } else {
        0
    }
}

/// `t` is a numbered tile that comes before color code `c` and rank `n` in
/// the order in which the pool is built.
spec fn built_before(t: Tile, c: int, n: int) -> bool {
    &&& !t.joker
    &&& MIN_RANK <= t.number <= MAX_RANK
    &&& (color_code(t.color) < c || (color_code(t.color) == c && t.number < n))
}

/// The full pool: for each of the four colors two tiles of each rank from 1
/// to 13, then the black joker and the red joker.
pub fn build_pool() -> (r: Vec<Tile>)
    ensures
        r@.len() == POOL_LEN,
        forall|i: int| 0 <= i < NUMBERED_LEN ==> !(#[trigger] r@[i]).joker && r@[i].wf(),
        forall|i: int| NUMBERED_LEN <= i < POOL_LEN ==> (#[trigger] r@[i]).joker && r@[i].wf(),
        forall|t: Tile| #[trigger] r@.to_multiset().count(t) == pool_count(t),
{
    let mut r: Vec<Tile> = Vec::new();
    let mut c: u8 = 1;
    while c <= 4
        invariant
            1 <= c <= 5,
            r@.len() == (c - 1) * 26,
            forall|i: int| 0 <= i < r@.len() ==> !(#[trigger] r@[i]).joker && r@[i].wf(),
            forall|t: Tile| #[trigger] r@.to_multiset().count(t) == if built_before(t, c as int, 0) { 2nat } else { 0nat },
        decreases 5 - c,
    {
        let color = TileColor::from_u8(c);
        let mut n: u8 = MIN_RANK;
        while n <= MAX_RANK
            invariant
                1 <= c <= 4,
                1 <= n <= 14,
                color_code(color) == c,
                r@.len() == (c - 1) * 26 + (n - 1) * 2,
                forall|i: int| 0 <= i < r@.len() ==> !(#[trigger] r@[i]).joker && r@[i].wf(),
                forall|t: Tile| #[trigger] r@.to_multiset().count(t) == if built_before(t, c as int, n as int) { 2nat } else { 0nat },
            decreases 14 - n,
        {
            let t = Tile::new(color, n);
            r.push(t);
            r.push(t);
            assert forall|u: Tile| built_before(u, c as int, n + 1) <==> (built_before(u, c as int, n as int) || u == t) by {
                if u == t {
                    assert(color_code(u.color) == c);
                }
                if built_before(u, c as int, n + 1) && !built_before(u, c as int, n as int) {
                    assert(color_code(u.color) == c && u.number == n);
                    assert(u.color == color);
                }
            }
            n += 1;
        }
        c += 1;
    }
    r.push(Tile::new_joker(TileColor::Black));
    r.push(Tile::new_joker(TileColor::Red));
    r
}


/// The indices of a registry of `len` tiles, in order: a pool of tile
/// instances that can be dealt without ever handing out one tile twice.
pub fn tile_ids(len: usize) -> (r: Vec<usize>)
    ensures
        r@ == Seq::new(len as nat, |i: int| i as usize),
        r@.no_duplicates(),
{
    let mut r: Vec<usize> = Vec::new();
    let mut i: usize = 0;
    while i < len
        invariant
            0 <= i <= len,
            r@ =~= Seq::new(i as nat, |k: int| k as usize),
        decreases len - i,
    {
        r.push(i);
        i += 1;
    }
    r
}

/// The number of distinct values of a `u32` draw.
pub const DRAW_RANGE: u128 = 0x1_0000_0000;

/// The index that a draw `d` selects among `len` items: `d` read as a
/// fraction of `DRAW_RANGE` in [0, 1), scaled by `len` and floored.
pub open spec fn pick_spec(d: u32, len: nat) -> nat {
    ((d as nat) * len) / (DRAW_RANGE as nat)
}

/// The index that the draw `draw` selects among `len` items; always below
/// `len`, however few items remain.
pub fn pick_index(draw: u32, len: usize) -> (r: usize)
    requires
        len > 0,
    ensures
        r == pick_spec(draw, len as nat),
        r < len,
{
    proof {
        let d = draw as int;
        let n = len as int;
        assert(d * n <= 0xffff_ffff * 0xffff_ffff_ffff_ffff) by (nonlinear_arith)
            requires
                0 <= d <= 0xffff_ffff,
                0 <= n <= 0xffff_ffff_ffff_ffff,
        ;
    }
    let p: u128 = (draw as u128) * (len as u128);
    proof {
        let d = draw as int;
        let n = len as int;
        assert(d * n < DRAW_RANGE * n) by (nonlinear_arith)
            requires
                0 <= d < DRAW_RANGE,
                n > 0,
        ;
        assert((d * n) / (DRAW_RANGE as int) < n) by (nonlinear_arith)
            requires
                0 <= d * n < DRAW_RANGE * n,
        ;
    }
    (p / DRAW_RANGE) as usize
}

/// The hand and the remaining pool after dealing from `pool` with the draws
/// `draws`, one tile per draw: each draw picks an index into what remains,
/// and that tile moves to the end of the hand.
pub open spec fn deal_spec<T>(pool: Seq<T>, draws: Seq<u32>) -> (Seq<T>, Seq<T>)
    decreases draws.len(),
{
    if draws.len() == 0 {
        (Seq::empty(), pool)
    } else {
        let prev = deal_spec(pool, draws.drop_last());
        let i = pick_spec(draws.last(), prev.1.len()) as int;
        (prev.0.push(prev.1[i]), prev.1.remove(i))
    }
}

/// Deals one tile per draw of `draws` from `pool` into a new hand.
pub fn deal_with<T>(pool: &mut Vec<T>, draws: &Vec<u32>) -> (hand: Vec<T>)
    requires
        draws@.len() <= old(pool)@.len(),
    ensures
        (hand@, final(pool)@) == deal_spec(old(pool)@, draws@),
{
    let ghost start = pool@;
    let mut hand: Vec<T> = Vec::new();
    let mut i: usize = 0;
    assert(draws@.take(0) =~= Seq::<u32>::empty());
    while i < draws.len()
        invariant
            0 <= i <= draws@.len(),
            draws@.len() <= start.len(),
            pool@.len() == start.len() - i,
            (hand@, pool@) == deal_spec(start, draws@.take(i as int)),
        decreases draws@.len() - i,
    {
        let k = pick_index(draws[i], pool.len());
        let t = pool.remove(k);
        hand.push(t);
        assert(draws@.take(i + 1).drop_last() =~= draws@.take(i as int));
        i += 1;
    }
    assert(draws@.take(draws@.len() as int) =~= draws@);
    hand
}


/// Dealing keeps every tile: the hand holds one tile per draw, the pool
/// shrinks by as many, and together they hold exactly the tiles of the
/// pool before.
pub proof fn lemma_deal_conserves<T>(pool: Seq<T>, draws: Seq<u32>)
    requires
        draws.len() <= pool.len(),
    ensures
        deal_spec(pool, draws).0.len() == draws.len(),
        deal_spec(pool, draws).1.len() == pool.len() - draws.len(),
        deal_spec(pool, draws).0.to_multiset().add(deal_spec(pool, draws).1.to_multiset())
            == pool.to_multiset(),
    decreases draws.len(),
{
    if draws.len() > 0 {
        lemma_deal_conserves(pool, draws.drop_last());
        let prev = deal_spec(pool, draws.drop_last());
        let i = pick_spec(draws.last(), prev.1.len()) as int;
        lemma_pick_in_range(draws.last(), prev.1.len());
        assert(prev.0.push(prev.1[i]).to_multiset() =~= prev.0.to_multiset().insert(prev.1[i]));
        assert(prev.1.remove(i).to_multiset() =~= prev.1.to_multiset().remove(prev.1[i]));
        assert(deal_spec(pool, draws).0.to_multiset().add(deal_spec(pool, draws).1.to_multiset())
            =~= pool.to_multiset());
    } else {
        assert(deal_spec(pool, draws).0.to_multiset() =~= Multiset::empty());
        assert(deal_spec(pool, draws).0.to_multiset().add(deal_spec(pool, draws).1.to_multiset())
            =~= pool.to_multiset());
    }
}

/// A draw picks an index below the number of items it picks among.
proof fn lemma_pick_in_range(d: u32, len: nat)
    requires
        len > 0,
    ensures
        pick_spec(d, len) < len,
{
    let di = d as int;
    let n = len as int;
    assert((di * n) / (DRAW_RANGE as int) < n) by (nonlinear_arith)
        requires
            0 <= di < DRAW_RANGE,
            n > 0,
    ;
}

/// Dealing from a pool of distinct tile instances never hands one instance
/// out twice: the hand has no repeats, the pool keeps none, and no instance
/// is both in the hand and in the pool.
pub proof fn lemma_deal_no_duplicates<T>(pool: Seq<T>, draws: Seq<u32>)
    requires
        draws.len() <= pool.len(),
        pool.no_duplicates(),
    ensures
        deal_spec(pool, draws).0.no_duplicates(),
        deal_spec(pool, draws).1.no_duplicates(),
        forall|x: T| deal_spec(pool, draws).0.contains(x) ==> !deal_spec(pool, draws).1.contains(x),
    decreases draws.len(),
{
    if draws.len() > 0 {
        lemma_deal_no_duplicates(pool, draws.drop_last());
        lemma_deal_conserves(pool, draws.drop_last());
        let prev = deal_spec(pool, draws.drop_last());
        let i = pick_spec(draws.last(), prev.1.len()) as int;
        lemma_pick_in_range(draws.last(), prev.1.len());
        let h = prev.0.push(prev.1[i]);
        let q = prev.1.remove(i);
        assert(h =~= deal_spec(pool, draws).0);
        assert(q =~= deal_spec(pool, draws).1);
        assert forall|a: int, b: int| 0 <= a < h.len() && 0 <= b < h.len() && a != b implies h[a] != h[b] by {
            if a == h.len() - 1 {
                assert(prev.1.contains(h[a]));
                assert(!prev.0.contains(h[a]));
                assert(prev.0[b] == h[b]);
            } else if b == h.len() - 1 {
                assert(prev.1.contains(h[b]));
                assert(!prev.0.contains(h[b]));
                assert(prev.0[a] == h[a]);
            }
        }
        assert forall|a: int, b: int| 0 <= a < q.len() && 0 <= b < q.len() && a != b implies q[a] != q[b] by {
            let a1 = if a < i { a } else { a + 1 };
            let b1 = if b < i { b } else { b + 1 };
            assert(q[a] == prev.1[a1]);
            assert(q[b] == prev.1[b1]);
        }
        assert forall|x: T| h.contains(x) implies !q.contains(x) by {
            if q.contains(x) {
                let b = choose|b: int| 0 <= b < q.len() && q[b] == x;
                let b1 = if b < i { b } else { b + 1 };
                assert(q[b] == prev.1[b1]);
                assert(prev.1.contains(x));
                let a = choose|a: int| 0 <= a < h.len() && h[a] == x;
                if a < h.len() - 1 {
                    assert(prev.0[a] == x);
                    assert(prev.0.contains(x));
                } else {
                    assert(prev.1[i] == x);
                    assert(b1 != i);
                }
            }
        }
    }
}


/// Relies on rand::random: a `u32` from the thread-local generator, uniform
/// over all values; nothing is known of which one comes.
#[verifier::external_body]
fn random_draw() -> (r: u32) {
    rand::random::<u32>()
}

/// Why a deal was refused.
#[derive(PartialEq, Eq, Structural, Clone, Copy, Debug)]
pub enum DealError {
    /// More tiles were asked for than the pool holds.
    NotEnoughTiles,
}

/// Deals `count` tiles from `pool` into a new hand, each picked uniformly at
/// random among those that remain. Asking for more tiles than the pool holds
/// is refused and leaves the pool as it was.
pub fn deal<T>(pool: &mut Vec<T>, count: usize) -> (r: Result<Vec<T>, DealError>)
    ensures
        count > old(pool)@.len() <==> r is Err,
        r is Err ==> r == Err::<Vec<T>, DealError>(DealError::NotEnoughTiles) && final(pool)@ == old(pool)@,
        r is Ok ==> {
            let hand = r->Ok_0@;
            &&& exists|draws: Seq<u32>| draws.len() == count
                && (#[trigger] deal_spec(old(pool)@, draws)) == (hand, final(pool)@)
            &&& hand.len() == count
            &&& final(pool)@.len() == old(pool)@.len() - count
            &&& hand.to_multiset().add(final(pool)@.to_multiset()) == old(pool)@.to_multiset()
            &&& old(pool)@.no_duplicates() ==> {
                &&& hand.no_duplicates()
                &&& final(pool)@.no_duplicates()
                &&& forall|x: T| hand.contains(x) ==> !final(pool)@.contains(x)
            }
        },
{
    if count > pool.len() {
        return Err(DealError::NotEnoughTiles);
    }
    let mut draws: Vec<u32> = Vec::new();
    let mut i: usize = 0;
    while i < count
        invariant
            0 <= i <= count,
            draws@.len() == i,
        decreases count - i,
    {
        draws.push(random_draw());
        i += 1;
    }
    let ghost start = pool@;
    let hand = deal_with(pool, &draws);
    proof {
        lemma_deal_conserves(start, draws@);
        if start.no_duplicates() {
            lemma_deal_no_duplicates(start, draws@);
        }
    }
    Ok(hand)
}

} // verus!
