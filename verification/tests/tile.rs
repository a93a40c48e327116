use tile_board::tile::EdgeType::{City, CityPlus, Grass, Intersection, Monastary, Road};
use tile_board::tile::{EdgeType, Tile, TILE_KINDS};

#[test]
fn every_feature_has_its_character() {
    assert_eq!(EdgeType::Grass.char(), 'O');
    assert_eq!(EdgeType::Road.char(), 'R');
    assert_eq!(EdgeType::Intersection.char(), 'X');
    assert_eq!(EdgeType::City.char(), 'C');
    assert_eq!(EdgeType::CityPlus.char(), '#');
    assert_eq!(EdgeType::Monastary.char(), '+');
}

#[test]
fn catalog_holds_the_standard_kinds() {
    assert_eq!(TILE_KINDS, 24);
    let expected = [
        Tile(Grass, Grass, Grass, Road, Monastary),
        Tile(Grass, Grass, Grass, Grass, Monastary),
        Tile(City, City, City, City, CityPlus),
        Tile(Road, City, Road, Grass, Road),
        Tile(Grass, City, Grass, Grass, Grass),
        Tile(City, Grass, City, Grass, CityPlus),
        Tile(City, Grass, City, Grass, City),
        Tile(City, Grass, City, Grass, Grass),
        Tile(Grass, City, City, Grass, Grass),
        Tile(Grass, City, Road, Road, Road),
        Tile(Road, City, Grass, Road, Road),
        Tile(Road, City, Road, Road, Intersection),
        Tile(Grass, City, City, Grass, CityPlus),
        Tile(Grass, City, City, Grass, City),
        Tile(City, City, Road, Road, CityPlus),
        Tile(City, City, Road, Road, City),
        Tile(City, City, City, Grass, CityPlus),
        Tile(City, City, City, Grass, City),
        Tile(City, City, City, Road, CityPlus),
        Tile(City, City, City, Road, City),
        Tile(Grass, Road, Grass, Road, Road),
        Tile(Road, Grass, Grass, Road, Road),
        Tile(Road, Grass, Road, Road, Intersection),
        Tile(Road, Road, Road, Road, Intersection),
    ];
    for (id, tile) in expected.iter().enumerate() {
        assert_eq!(Tile::standard(id as u8), *tile, "kind {id}");
    }
}

#[test]
fn edges_are_read_in_their_order() {
    let tile = Tile(
        EdgeType::Road,
        EdgeType::City,
        EdgeType::Grass,
        EdgeType::Intersection,
        EdgeType::Monastary,
    );
    assert_eq!(tile.left(), EdgeType::Road);
    assert_eq!(tile.up(), EdgeType::City);
    assert_eq!(tile.down(), EdgeType::Grass);
    assert_eq!(tile.right(), EdgeType::Intersection);
    assert_eq!(tile.centre(), EdgeType::Monastary);
}

#[test]
fn corner_is_city_between_two_city_edges_of_a_city_tile() {
    let full = Tile::standard(2);
    assert_eq!(full.up_left(), EdgeType::City);
    assert_eq!(full.up_right(), EdgeType::City);
    assert_eq!(full.down_left(), EdgeType::City);
    assert_eq!(full.down_right(), EdgeType::City);
    // Left, top and bottom are city, right is grass, the centre is city.
    let three = Tile::standard(17);
    assert_eq!(three.up_left(), EdgeType::City);
    assert_eq!(three.down_left(), EdgeType::City);
    assert_eq!(three.up_right(), EdgeType::Grass);
    assert_eq!(three.down_right(), EdgeType::Grass);
    // Left and bottom are city, the centre is city.
    let bend = Tile::standard(6);
    assert_eq!(bend.down_left(), EdgeType::City);
    assert_eq!(bend.up_left(), EdgeType::Grass);
    assert_eq!(bend.up_right(), EdgeType::Grass);
    assert_eq!(bend.down_right(), EdgeType::Grass);
}

#[test]
fn corner_is_grass_where_the_centre_is_no_city() {
    // Left and bottom are city, the centre is grass.
    let apart = Tile::standard(7);
    assert_eq!(apart.down_left(), EdgeType::Grass);
    assert_eq!(apart.up_left(), EdgeType::Grass);
    let made = Tile(
        EdgeType::City,
        EdgeType::City,
        EdgeType::City,
        EdgeType::City,
        EdgeType::Road,
    );
    assert_eq!(made.up_left(), EdgeType::Grass);
    assert_eq!(made.up_right(), EdgeType::Grass);
    assert_eq!(made.down_left(), EdgeType::Grass);
    assert_eq!(made.down_right(), EdgeType::Grass);
    // A pennant on an edge is no plain city edge.
    let pennant = Tile(
        EdgeType::CityPlus,
        EdgeType::City,
        EdgeType::City,
        EdgeType::City,
        EdgeType::City,
    );
    assert_eq!(pennant.up_left(), EdgeType::Grass);
    assert_eq!(pennant.down_left(), EdgeType::Grass);
    assert_eq!(pennant.up_right(), EdgeType::City);
}

#[test]
fn tile_is_drawn_as_three_lines() {
    assert_eq!(Tile::standard(3).to_text(), "OCO\nRRO\nORO");
    assert_eq!(Tile::standard(2).to_text(), "CCC\nC#C\nCCC");
    assert_eq!(Tile::standard(0).to_text(), "OOO\nO+R\nOOO");
    assert_eq!(Tile::standard(23).to_text(), "ORO\nRXR\nORO");
    assert_eq!(Tile::standard(16).to_text(), "CCO\nC#O\nCCO");
    assert_eq!(
        Tile::standard(3).glyphs(),
        vec!['O', 'C', 'O', '\n', 'R', 'R', 'O', '\n', 'O', 'R', 'O']
    );
}
