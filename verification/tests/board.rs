use tile_board::board::{Board, TilePlacement, CLICKABLE, EMPTY, START_TILE};

#[test]
fn placement_holds_tile_and_rotation() {
    let placed = TilePlacement::new(7, 2);
    assert_eq!(placed.tile, 7);
    assert_eq!(placed.rotation, 2);
    assert!(placed.placed());
    let free = TilePlacement::from(EMPTY);
    assert_eq!(free, TilePlacement { tile: 255, rotation: 0 });
    assert!(!free.placed());
    assert!(!TilePlacement::from(CLICKABLE).placed());
    assert!(TilePlacement::from(0).placed());
    assert!(TilePlacement::from(253).placed());
}

#[test]
fn start_board_has_the_start_tile_in_the_middle() {
    let board = Board::start();
    assert_eq!(START_TILE, 3);
    assert_eq!((board.height(), board.width()), (3, 3));
    assert_eq!(board.cell(1, 1), Some(TilePlacement { tile: 3, rotation: 0 }));
    for (row, col) in [(0u8, 1u8), (1, 0), (1, 2), (2, 1)] {
        assert_eq!(board.cell(row, col), Some(TilePlacement { tile: 254, rotation: 0 }));
    }
    for (row, col) in [(0u8, 0u8), (0, 2), (2, 0), (2, 2)] {
        assert_eq!(board.cell(row, col), Some(TilePlacement { tile: 255, rotation: 0 }));
    }
    assert_eq!(board.cell(3, 0), None);
    assert_eq!(board.cell(0, 3), None);
    assert_eq!(board.cell(255, 255), None);
}

#[test]
fn placed_tile_is_found_at_the_shifted_cell() {
    let mut board = Board::start();
    assert!(board.place_tile(10, 0, 1, 1));
    assert_eq!((board.height(), board.width()), (4, 3));
    assert_eq!(board.cell(1, 1), Some(TilePlacement { tile: 10, rotation: 1 }));
    assert_eq!(board.cell(2, 1), Some(TilePlacement { tile: 3, rotation: 0 }));
    assert!(board.place_tile(11, 1, 0, 2));
    assert_eq!((board.height(), board.width()), (4, 4));
    assert_eq!(board.cell(1, 1), Some(TilePlacement { tile: 11, rotation: 2 }));
    assert_eq!(board.cell(1, 2), Some(TilePlacement { tile: 10, rotation: 1 }));
    assert_eq!(board.cell(2, 2), Some(TilePlacement { tile: 3, rotation: 0 }));
    assert_eq!(board.cell(2, 1), Some(TilePlacement { tile: 254, rotation: 0 }));
    assert_eq!(board.cell(3, 1), Some(TilePlacement { tile: 255, rotation: 0 }));
    assert_eq!(
        board.tiles(),
        vec![255, 254, 254, 255, 254, 11, 10, 254, 255, 254, 3, 254, 255, 255, 254, 255]
    );
    assert_eq!(
        board.tiles_rotation(),
        vec![0, 0, 0, 0, 0, 2, 1, 0, 0, 0, 0, 0, 0, 0, 0, 0]
    );
}

#[test]
fn placement_on_a_plain_free_cell_is_taken() {
    let mut board = Board::start();
    assert!(board.place_tile(5, 2, 2, 0));
    assert_eq!((board.height(), board.width()), (4, 4));
    assert_eq!(
        board.tiles(),
        vec![255, 254, 255, 255, 254, 3, 254, 255, 255, 254, 5, 254, 255, 255, 254, 255]
    );
}

#[test]
fn board_refuses_what_cannot_be_placed() {
    let mut board = Board::start();
    let ids = board.tiles();
    assert!(!board.place_tile(24, 0, 1, 0));
    assert!(!board.place_tile(254, 0, 1, 0));
    assert!(!board.place_tile(255, 0, 1, 0));
    assert!(!board.place_tile(0, 1, 1, 0));
    assert!(!board.place_tile(0, 3, 1, 0));
    assert!(!board.place_tile(0, 1, 3, 0));
    assert_eq!(board.tiles(), ids);
    assert_eq!(board.tiles_rotation(), vec![0; 9]);
    assert_eq!((board.height(), board.width()), (3, 3));
    assert!(board.place_tile(23, 0, 1, 0));
}

#[test]
fn board_stops_growing_at_255_rows() {
    let mut board = Board::start();
    for _ in 0..252 {
        assert!(board.place_tile(20, 0, 1, 0));
    }
    assert_eq!((board.height(), board.width()), (255, 3));
    let ids = board.tiles();
    assert!(!board.place_tile(20, 0, 1, 0));
    assert!(!board.place_tile(20, 254, 1, 0));
    assert_eq!(board.tiles(), ids);
    assert_eq!((board.height(), board.width()), (255, 3));
    assert!(board.place_tile(20, 1, 0, 0));
    assert_eq!((board.height(), board.width()), (255, 4));
    assert_eq!(board.cell(1, 1), Some(TilePlacement { tile: 20, rotation: 0 }));
}

#[test]
fn board_stops_growing_at_255_columns() {
    let mut board = Board::start();
    for _ in 0..252 {
        let last = board.width() - 1;
        assert!(board.place_tile(21, 1, last, 0));
    }
    assert_eq!((board.height(), board.width()), (3, 255));
    assert!(!board.place_tile(21, 1, 254, 0));
    assert!(!board.place_tile(21, 1, 0, 0));
    assert!(board.place_tile(21, 2, 7, 0));
    assert_eq!((board.height(), board.width()), (4, 255));
}

#[test]
fn placement_in_a_corner_grows_both_ways() {
    let mut board = Board::start();
    assert!(board.place_tile(9, 0, 0, 1));
    assert_eq!((board.height(), board.width()), (4, 4));
    assert_eq!(
        board.tiles(),
        vec![255, 254, 255, 255, 254, 9, 254, 255, 255, 254, 3, 254, 255, 255, 254, 255]
    );
    assert!(board.place_tile(7, 3, 3, 0));
    assert_eq!((board.height(), board.width()), (5, 5));
    assert_eq!(board.cell(3, 3), Some(TilePlacement { tile: 7, rotation: 0 }));
    assert_eq!(board.cell(1, 1), Some(TilePlacement { tile: 9, rotation: 1 }));
    assert_eq!(board.cell(2, 2), Some(TilePlacement { tile: 3, rotation: 0 }));
    assert_eq!(
        board.tiles(),
        vec![
            255, 254, 255, 255, 255, 254, 9, 254, 255, 255, 255, 254, 3, 254, 255, 255, 255, 254,
            7, 254, 255, 255, 255, 254, 255
        ]
    );
}
