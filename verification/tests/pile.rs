use tile_board::game::Game;
use tile_board::pile::DrawPile;

const STANDARD: [u8; 24] = [
    2, 4, 1, 3, 5, 2, 1, 3, 2, 3, 3, 3, 2, 3, 2, 3, 1, 3, 2, 1, 8, 9, 4, 1,
];

fn drain(mut pile: DrawPile) -> Vec<u8> {
    let mut drawn = Vec::new();
    while let Some(kind) = pile.draw() {
        drawn.push(kind);
    }
    drawn
}

#[test]
fn table_is_written_out_kind_after_kind() {
    let mut counts = [0u8; 24];
    counts[0] = 2;
    counts[2] = 1;
    counts[23] = 3;
    let pile = DrawPile::in_order(&counts);
    assert_eq!(pile.len(), 6);
    assert_eq!(drain(pile), vec![23, 23, 23, 2, 0, 0]);
}

#[test]
fn standard_table_written_out_has_71_tiles() {
    let pile = DrawPile::in_order(&STANDARD);
    assert_eq!(pile.len(), 71);
    let mut drawn = drain(pile);
    drawn.reverse();
    let mut expected = Vec::new();
    for (kind, &count) in STANDARD.iter().enumerate() {
        for _ in 0..count {
            expected.push(kind as u8);
        }
    }
    assert_eq!(drawn, expected);
}

#[test]
fn empty_table_gives_an_empty_pile() {
    let mut pile = DrawPile::initialize(&[0u8; 24]);
    assert_eq!(pile.len(), 0);
    assert_eq!(pile.peek_next(), None);
    assert_eq!(pile.draw(), None);
    assert_eq!(pile.len(), 0);
}

#[test]
fn shuffled_pile_holds_the_tiles_of_the_table() {
    let pile = DrawPile::initialize(&STANDARD);
    assert_eq!(pile.len(), 71);
    assert_eq!(pile.tally(), Some(STANDARD));
    let mut drawn = drain(pile);
    drawn.sort();
    let mut in_order = drain(DrawPile::in_order(&STANDARD));
    in_order.sort();
    assert_eq!(drawn, in_order);
}

#[test]
fn shuffle_changes_the_order() {
    let in_order = drain(DrawPile::in_order(&STANDARD));
    let changed = (0..8).any(|_| drain(DrawPile::initialize(&STANDARD)) != in_order);
    assert!(changed);
}

#[test]
fn standard_games_differ_in_their_piles() {
    let orders: Vec<Vec<u8>> = (0..8)
        .map(|_| {
            let mut game = Game::standard();
            let mut order = Vec::new();
            while game.next_tile() != 255 {
                order.push(game.next_tile());
                assert!(game.place_next(1, 0));
            }
            order
        })
        .collect();
    assert!(orders.iter().all(|order| order.len() == 71));
    assert!(orders.iter().any(|order| *order != orders[0]));
}

#[test]
fn peek_and_draw_see_the_same_tile() {
    let mut pile = DrawPile::from_tiles(vec![4, 8, 15]);
    assert_eq!(pile.peek_next(), Some(15));
    assert_eq!(pile.peek_next(), Some(15));
    assert_eq!(pile.draw(), Some(15));
    assert_eq!(pile.len(), 2);
    assert_eq!(pile.peek_next(), Some(8));
    assert_eq!(pile.draw(), Some(8));
    assert_eq!(pile.draw(), Some(4));
    assert_eq!(pile.peek_next(), None);
    assert_eq!(pile.draw(), None);
    assert_eq!(pile.len(), 0);
}

#[test]
fn tally_counts_each_kind() {
    let pile = DrawPile::from_tiles(vec![3, 0, 3, 23, 3]);
    let mut expected = [0u8; 24];
    expected[0] = 1;
    expected[3] = 3;
    expected[23] = 1;
    assert_eq!(pile.tally(), Some(expected));
    assert_eq!(DrawPile::from_tiles(vec![]).tally(), Some([0u8; 24]));
}

#[test]
fn tally_refuses_unknown_kinds_and_long_piles() {
    assert_eq!(DrawPile::from_tiles(vec![3, 24]).tally(), None);
    assert_eq!(DrawPile::from_tiles(vec![254]).tally(), None);
    assert_eq!(DrawPile::from_tiles(vec![1; 256]).tally(), None);
    let mut expected = [0u8; 24];
    expected[1] = 255;
    assert_eq!(DrawPile::from_tiles(vec![1; 255]).tally(), Some(expected));
}
