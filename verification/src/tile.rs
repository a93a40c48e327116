//! The tile catalog: what stands on the edges and at the centre of each of
//! the 24 kinds of tile, and the corner features that follow from them.

use vstd::prelude::*;

verus! {

/// `String::push` of std: the string afterwards is the string before with
/// the character at its end.
pub assume_specification[ String::push ](s: &mut String, ch: char)
    ensures
        final(s)@ == old(s)@.push(ch),
;

/// The feature on one edge, at the centre or in a corner of a tile.
#[derive(Clone, Copy, Hash, PartialEq, Eq, Structural, Debug)]
pub enum EdgeType {
    Grass,
    Road,
    Intersection,
    City,
    CityPlus,
    Monastary,
}

impl EdgeType {
    /// The character that draws this feature.
    pub open spec fn glyph(self) -> char {
        match self {
            EdgeType::Grass => 'O',
            EdgeType::Road => 'R',
            EdgeType::Intersection => 'X',
            EdgeType::City => 'C',
            EdgeType::CityPlus => '#',
            EdgeType::Monastary => '+',
        }
    }

    /// Whether this feature, at the centre of a tile, makes the tile's body
    /// part of a city.
    pub open spec fn is_city_kind(self) -> bool {
        self == EdgeType::City || self == EdgeType::CityPlus
    }

    pub fn char(&self) -> (c: char)
        ensures
            c == self.glyph(),
    {
        match self {
            EdgeType::Grass => 'O',
            EdgeType::Road => 'R',
            EdgeType::Intersection => 'X',
            EdgeType::City => 'C',
            EdgeType::CityPlus => '#',
            EdgeType::Monastary => '+',
        }
    }
}

/// What a corner between two edges shows: city where the centre is of a city
/// kind and both edges are city, grass everywhere else.
pub open spec fn corner_of(centre: EdgeType, first: EdgeType, second: EdgeType) -> EdgeType {
    if centre.is_city_kind() && first == EdgeType::City && second == EdgeType::City {
        EdgeType::City
    } else {
        EdgeType::Grass
    }
}

/// One kind of tile: its left, top, bottom and right edges and its centre,
/// in that order.
#[derive(Clone, Copy, Hash, PartialEq, Eq, Structural, Debug)]
pub struct Tile(pub EdgeType, pub EdgeType, pub EdgeType, pub EdgeType, pub EdgeType);

/// The number of kinds of tile in the standard catalog.
pub const TILE_KINDS: usize = 24;

/// The standard catalog, in the order of the standard deck (A to X).
pub open spec fn standard_catalog() -> Seq<Tile> {
    seq![
        Tile(EdgeType::Grass, EdgeType::Grass, EdgeType::Grass, EdgeType::Road, EdgeType::Monastary),
        Tile(EdgeType::Grass, EdgeType::Grass, EdgeType::Grass, EdgeType::Grass, EdgeType::Monastary),
        Tile(EdgeType::City, EdgeType::City, EdgeType::City, EdgeType::City, EdgeType::CityPlus),
        Tile(EdgeType::Road, EdgeType::City, EdgeType::Road, EdgeType::Grass, EdgeType::Road),
        Tile(EdgeType::Grass, EdgeType::City, EdgeType::Grass, EdgeType::Grass, EdgeType::Grass),
        Tile(EdgeType::City, EdgeType::Grass, EdgeType::City, EdgeType::Grass, EdgeType::CityPlus),
        Tile(EdgeType::City, EdgeType::Grass, EdgeType::City, EdgeType::Grass, EdgeType::City),
        Tile(EdgeType::City, EdgeType::Grass, EdgeType::City, EdgeType::Grass, EdgeType::Grass),
        Tile(EdgeType::Grass, EdgeType::City, EdgeType::City, EdgeType::Grass, EdgeType::Grass),
        Tile(EdgeType::Grass, EdgeType::City, EdgeType::Road, EdgeType::Road, EdgeType::Road),
        Tile(EdgeType::Road, EdgeType::City, EdgeType::Grass, EdgeType::Road, EdgeType::Road),
        Tile(EdgeType::Road, EdgeType::City, EdgeType::Road, EdgeType::Road, EdgeType::Intersection),
        Tile(EdgeType::Grass, EdgeType::City, EdgeType::City, EdgeType::Grass, EdgeType::CityPlus),
        Tile(EdgeType::Grass, EdgeType::City, EdgeType::City, EdgeType::Grass, EdgeType::City),
        Tile(EdgeType::City, EdgeType::City, EdgeType::Road, EdgeType::Road, EdgeType::CityPlus),
        Tile(EdgeType::City, EdgeType::City, EdgeType::Road, EdgeType::Road, EdgeType::City),
        Tile(EdgeType::City, EdgeType::City, EdgeType::City, EdgeType::Grass, EdgeType::CityPlus),
        Tile(EdgeType::City, EdgeType::City, EdgeType::City, EdgeType::Grass, EdgeType::City),
        Tile(EdgeType::City, EdgeType::City, EdgeType::City, EdgeType::Road, EdgeType::CityPlus),
        Tile(EdgeType::City, EdgeType::City, EdgeType::City, EdgeType::Road, EdgeType::City),
        Tile(EdgeType::Grass, EdgeType::Road, EdgeType::Grass, EdgeType::Road, EdgeType::Road),
        Tile(EdgeType::Road, EdgeType::Grass, EdgeType::Grass, EdgeType::Road, EdgeType::Road),
        Tile(EdgeType::Road, EdgeType::Grass, EdgeType::Road, EdgeType::Road, EdgeType::Intersection),
        Tile(EdgeType::Road, EdgeType::Road, EdgeType::Road, EdgeType::Road, EdgeType::Intersection),
    ]
}

impl Tile {
    /// The tile of kind `id` in the standard catalog.
    pub fn standard(id: u8) -> (t: Tile)
        requires
            id < TILE_KINDS,
        ensures
            t == standard_catalog()[id as int],
    {
        match id {
            0 => Tile(EdgeType::Grass, EdgeType::Grass, EdgeType::Grass, EdgeType::Road, EdgeType::Monastary),
            1 => Tile(EdgeType::Grass, EdgeType::Grass, EdgeType::Grass, EdgeType::Grass, EdgeType::Monastary),
            2 => Tile(EdgeType::City, EdgeType::City, EdgeType::City, EdgeType::City, EdgeType::CityPlus),
            3 => Tile(EdgeType::Road, EdgeType::City, EdgeType::Road, EdgeType::Grass, EdgeType::Road),
            4 => Tile(EdgeType::Grass, EdgeType::City, EdgeType::Grass, EdgeType::Grass, EdgeType::Grass),
            5 => Tile(EdgeType::City, EdgeType::Grass, EdgeType::City, EdgeType::Grass, EdgeType::CityPlus),
            6 => Tile(EdgeType::City, EdgeType::Grass, EdgeType::City, EdgeType::Grass, EdgeType::City),
            7 => Tile(EdgeType::City, EdgeType::Grass, EdgeType::City, EdgeType::Grass, EdgeType::Grass),
            8 => Tile(EdgeType::Grass, EdgeType::City, EdgeType::City, EdgeType::Grass, EdgeType::Grass),
            9 => Tile(EdgeType::Grass, EdgeType::City, EdgeType::Road, EdgeType::Road, EdgeType::Road),
            10 => Tile(EdgeType::Road, EdgeType::City, EdgeType::Grass, EdgeType::Road, EdgeType::Road),
            11 => Tile(EdgeType::Road, EdgeType::City, EdgeType::Road, EdgeType::Road, EdgeType::Intersection),
            12 => Tile(EdgeType::Grass, EdgeType::City, EdgeType::City, EdgeType::Grass, EdgeType::CityPlus),
            13 => Tile(EdgeType::Grass, EdgeType::City, EdgeType::City, EdgeType::Grass, EdgeType::City),
            14 => Tile(EdgeType::City, EdgeType::City, EdgeType::Road, EdgeType::Road, EdgeType::CityPlus),
            15 => Tile(EdgeType::City, EdgeType::City, EdgeType::Road, EdgeType::Road, EdgeType::City),
            16 => Tile(EdgeType::City, EdgeType::City, EdgeType::City, EdgeType::Grass, EdgeType::CityPlus),
            17 => Tile(EdgeType::City, EdgeType::City, EdgeType::City, EdgeType::Grass, EdgeType::City),
            18 => Tile(EdgeType::City, EdgeType::City, EdgeType::City, EdgeType::Road, EdgeType::CityPlus),
            19 => Tile(EdgeType::City, EdgeType::City, EdgeType::City, EdgeType::Road, EdgeType::City),
            20 => Tile(EdgeType::Grass, EdgeType::Road, EdgeType::Grass, EdgeType::Road, EdgeType::Road),
            21 => Tile(EdgeType::Road, EdgeType::Grass, EdgeType::Grass, EdgeType::Road, EdgeType::Road),
            22 => Tile(EdgeType::Road, EdgeType::Grass, EdgeType::Road, EdgeType::Road, EdgeType::Intersection),
            _ => Tile(EdgeType::Road, EdgeType::Road, EdgeType::Road, EdgeType::Road, EdgeType::Intersection),
        }
    }

    pub fn left(&self) -> (e: EdgeType)
        ensures
            e == self.0,
    {
        self.0
    }

    pub fn up(&self) -> (e: EdgeType)
        ensures
            e == self.1,
    {
        self.1
    }

    pub fn down(&self) -> (e: EdgeType)
        ensures
            e == self.2,
    {
        self.2
    }

    pub fn right(&self) -> (e: EdgeType)
        ensures
            e == self.3,
    {
        self.3
    }

    pub fn centre(&self) -> (e: EdgeType)
        ensures
            e == self.4,
    {
        self.4
    }

    pub fn up_left(&self) -> (e: EdgeType)
        ensures
            e == corner_of(self.4, self.1, self.0),
    {
        if self.centre() != EdgeType::City && self.centre() != EdgeType::CityPlus {
            return EdgeType::Grass;
        }
        if self.up() == EdgeType::City && self.left() == EdgeType::City {
            return EdgeType::City;
        }
        EdgeType::Grass
    }

    pub fn down_left(&self) -> (e: EdgeType)
        ensures
            e == corner_of(self.4, self.2, self.0),
    {
        if self.centre() != EdgeType::City && self.centre() != EdgeType::CityPlus {
            return EdgeType::Grass;
        }
        if self.down() == EdgeType::City && self.left() == EdgeType::City {
            return EdgeType::City;
        }
        EdgeType::Grass
    }

    pub fn up_right(&self) -> (e: EdgeType)
        ensures
            e == corner_of(self.4, self.1, self.3),
    {
        if self.centre() != EdgeType::City && self.centre() != EdgeType::CityPlus {
            return EdgeType::Grass;
        }
        if self.up() == EdgeType::City && self.right() == EdgeType::City {
            return EdgeType::City;
        }
        EdgeType::Grass
    }

    pub fn down_right(&self) -> (e: EdgeType)
        ensures
            e == corner_of(self.4, self.2, self.3),
    {
        if self.centre() != EdgeType::City && self.centre() != EdgeType::CityPlus {
            return EdgeType::Grass;
        }
        if self.down() == EdgeType::City && self.right() == EdgeType::City {
            return EdgeType::City;
        }
        EdgeType::Grass
    }

    /// The tile drawn as three lines of three characters, the lines parted
    /// by a line feed: corners and edges around the centre.
    pub open spec fn picture(self) -> Seq<char> {
        seq![
            corner_of(self.4, self.1, self.0).glyph(),
            self.1.glyph(),
            corner_of(self.4, self.1, self.3).glyph(),
            '\n',
            self.0.glyph(),
            self.4.glyph(),
            self.3.glyph(),
            '\n',
            corner_of(self.4, self.2, self.0).glyph(),
            self.2.glyph(),
            corner_of(self.4, self.2, self.3).glyph(),
        ]
    }

    /// The tile's picture as text.
    pub fn to_text(&self) -> (text: String)
        ensures
            text@ == self.picture(),
    {
        let g = self.glyphs();
        let mut text = String::new();
        let mut i: usize = 0;
        while i < g.len()
            invariant
                i <= g@.len(),
                text@ == g@.take(i as int),
            decreases g@.len() - i,
        {
            text.push(g[i]);
            i += 1;
            assert(text@ =~= g@.take(i as int));
        }
        assert(g@.take(g@.len() as int) =~= g@);
        text
    }

    /// The characters of the tile's picture, in reading order.
    pub fn glyphs(&self) -> (g: Vec<char>)
        ensures
            g@ == self.picture(),
    {
        let mut g: Vec<char> = Vec::new();
        g.push(self.up_left().char());
        g.push(self.up().char());
        g.push(self.up_right().char());
        g.push('\n');
        g.push(self.left().char());
        g.push(self.centre().char());
        g.push(self.right().char());
        g.push('\n');
        g.push(self.down_left().char());
        g.push(self.down().char());
        g.push(self.down_right().char());
        g
    }
}

} // verus!
