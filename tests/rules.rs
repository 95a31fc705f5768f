use rummikub::pool::{build_pool, deal, deal_with, pick_index, tile_ids, DealError, HAND_LEN};
use rummikub::tile::{append_decimal, Tile, TileColor};
use rummikub::validate::{describe, tiles_form_set, TileSet};

const COLORS: [TileColor; 4] = [
    TileColor::Black,
    TileColor::Blue,
    TileColor::Red,
    TileColor::Yellow,
];

fn t(color: TileColor, number: u8) -> Tile {
    Tile::new(color, number)
}

fn valid(tiles: Vec<Tile>) -> bool {
    tiles_form_set(&tiles)
}

#[test]
fn pool_has_two_of_each_numbered_tile_and_two_jokers() {
    let pool = build_pool();
    assert_eq!(pool.len(), 106);
    for color in COLORS {
        for number in 1..=13u8 {
            let n = pool.iter().filter(|x| **x == t(color, number)).count();
            assert_eq!(n, 2);
        }
    }
    let numbered = pool.iter().filter(|x| !x.joker).count();
    assert_eq!(numbered, 104);
    let jokers: Vec<&Tile> = pool.iter().filter(|x| x.joker).collect();
    assert_eq!(jokers.len(), 2);
    assert!(jokers.contains(&&Tile::new_joker(TileColor::Black)));
    assert!(jokers.contains(&&Tile::new_joker(TileColor::Red)));
}

#[test]
fn deal_conserves_tiles() {
    let registry = build_pool();
    let mut pool = tile_ids(registry.len());
    let hand = deal(&mut pool, HAND_LEN).unwrap();
    assert_eq!(hand.len(), 14);
    assert_eq!(pool.len(), 92);
    let mut all: Vec<usize> = hand.iter().chain(pool.iter()).cloned().collect();
    all.sort();
    assert_eq!(all, (0..106).collect::<Vec<usize>>());
}

#[test]
fn deal_never_hands_out_one_instance_twice() {
    let mut pool = tile_ids(106);
    let first = deal(&mut pool, 14).unwrap();
    let second = deal(&mut pool, 14).unwrap();
    let mut both: Vec<usize> = first.iter().chain(second.iter()).cloned().collect();
    both.sort();
    both.dedup();
    assert_eq!(both.len(), 28);
    assert_eq!(pool.len(), 78);
}

#[test]
fn deal_of_whole_pool_and_of_nothing() {
    let mut pool = tile_ids(5);
    let none = deal(&mut pool, 0).unwrap();
    assert!(none.is_empty());
    assert_eq!(pool, vec![0, 1, 2, 3, 4]);
    let mut hand = deal(&mut pool, 5).unwrap();
    assert!(pool.is_empty());
    hand.sort();
    assert_eq!(hand, vec![0, 1, 2, 3, 4]);
}

#[test]
fn deal_refuses_more_than_the_pool_holds() {
    let mut pool = vec![7usize, 8, 9];
    assert_eq!(deal(&mut pool, 4), Err(DealError::NotEnoughTiles));
    assert_eq!(pool, vec![7, 8, 9]);
}

#[test]
fn deal_with_follows_the_draws() {
    let mut pool = vec![10u32, 20, 30, 40];
    let hand = deal_with(&mut pool, &vec![0, u32::MAX, 1 << 31]);
    assert_eq!(hand, vec![10, 40, 30]);
    assert_eq!(pool, vec![20]);
}

#[test]
fn pick_index_scales_the_draw() {
    assert_eq!(pick_index(0, 106), 0);
    assert_eq!(pick_index(1 << 31, 10), 5);
    assert_eq!(pick_index(u32::MAX, 106), 105);
    assert_eq!(pick_index(u32::MAX, 1), 0);
}

#[test]
fn group_of_one_rank_and_distinct_colors_is_valid() {
    let v = vec![
        t(TileColor::Red, 7),
        t(TileColor::Blue, 7),
        t(TileColor::Yellow, 7),
    ];
    assert!(valid(v));
    let four = vec![
        t(TileColor::Red, 7),
        t(TileColor::Blue, 7),
        t(TileColor::Yellow, 7),
        t(TileColor::Black, 7),
    ];
    assert!(valid(four));
}

#[test]
fn group_with_repeated_color_is_invalid() {
    let v = vec![
        t(TileColor::Red, 7),
        t(TileColor::Red, 7),
        t(TileColor::Blue, 7),
    ];
    assert!(!valid(v));
}

#[test]
fn run_of_consecutive_ranks_is_valid() {
    let v = vec![
        t(TileColor::Blue, 4),
        t(TileColor::Blue, 5),
        t(TileColor::Blue, 6),
    ];
    assert!(valid(v));
    let unordered = vec![
        t(TileColor::Blue, 6),
        t(TileColor::Blue, 4),
        t(TileColor::Blue, 5),
    ];
    assert!(valid(unordered));
}

#[test]
fn run_with_gap_is_invalid() {
    let v = vec![
        t(TileColor::Blue, 4),
        t(TileColor::Blue, 6),
        t(TileColor::Blue, 7),
    ];
    assert!(!valid(v));
}

#[test]
fn run_with_repeated_rank_is_invalid() {
    let v = vec![
        t(TileColor::Blue, 4),
        t(TileColor::Blue, 5),
        t(TileColor::Blue, 5),
    ];
    assert!(!valid(v));
}

#[test]
fn sets_outside_three_to_thirteen_tiles_are_invalid() {
    assert!(!valid(vec![]));
    assert!(!valid(vec![t(TileColor::Red, 1)]));
    assert!(!valid(vec![t(TileColor::Red, 1), t(TileColor::Red, 2)]));
    let full: Vec<Tile> = (1..=13u8).map(|n| t(TileColor::Red, n)).collect();
    assert!(valid(full.clone()));
    let mut over = full;
    over.push(Tile::new_joker(TileColor::Black));
    assert!(!valid(over));
}

#[test]
fn mixed_colors_and_ranks_are_invalid() {
    let v = vec![
        t(TileColor::Red, 7),
        t(TileColor::Blue, 8),
        t(TileColor::Yellow, 9),
    ];
    assert!(!valid(v));
}

#[test]
fn checking_twice_gives_the_same_answer() {
    let registry = vec![
        t(TileColor::Blue, 4),
        t(TileColor::Blue, 5),
        t(TileColor::Blue, 6),
        t(TileColor::Red, 9),
    ];
    let good = TileSet(vec![0, 1, 2]);
    assert_eq!(good.is_valid(&registry), good.is_valid(&registry));
    assert!(good.is_valid(&registry));
    let bad = TileSet(vec![0, 1, 3]);
    assert_eq!(bad.is_valid(&registry), bad.is_valid(&registry));
    assert!(!bad.is_valid(&registry));
}

#[test]
fn jokers_fill_a_missing_color_or_rank() {
    let joker = Tile::new_joker(TileColor::Red);
    assert!(valid(vec![t(TileColor::Red, 7), joker, t(TileColor::Blue, 7)]));
    assert!(valid(vec![t(TileColor::Blue, 4), joker, t(TileColor::Blue, 6)]));
    assert!(valid(vec![t(TileColor::Blue, 12), t(TileColor::Blue, 13), joker]));
    assert!(!valid(vec![t(TileColor::Blue, 4), joker, t(TileColor::Blue, 7)]));
    let five = vec![
        t(TileColor::Red, 7),
        t(TileColor::Blue, 7),
        t(TileColor::Yellow, 7),
        t(TileColor::Black, 7),
        joker,
    ];
    assert!(!valid(five));
}

#[test]
fn tile_set_over_dealt_registry() {
    let registry = build_pool();
    // index 2 * (13 * c + n - 1) holds color code c + 1, rank n
    let set = TileSet(vec![2 * 3, 2 * 4, 2 * 5]);
    assert!(set.is_valid(&registry));
    assert_eq!(set.fmt(&registry), "Black 4, Black 5, Black 6");
}

#[test]
fn color_codes_and_names() {
    assert_eq!(TileColor::from_u8(1), TileColor::Black);
    assert_eq!(TileColor::from_u8(2), TileColor::Blue);
    assert_eq!(TileColor::from_u8(3), TileColor::Red);
    assert_eq!(TileColor::from_u8(4), TileColor::Yellow);
    assert_eq!(TileColor::Red.name(), "Red");
    assert_eq!(TileColor::Yellow.name(), "Yellow");
}

#[test]
fn tile_and_set_text() {
    assert_eq!(t(TileColor::Blue, 13).text(), "Blue 13");
    assert_eq!(Tile::new_joker(TileColor::Black).text(), "Joker");
    let v = vec![
        t(TileColor::Red, 7),
        t(TileColor::Blue, 7),
        Tile::new_joker(TileColor::Red),
    ];
    assert_eq!(describe(&v), "Red 7, Blue 7, Joker");
    assert_eq!(describe(&vec![]), "");
    let mut s = String::from("n=");
    append_decimal(&mut s, 205);
    assert_eq!(s, "n=205");
}
