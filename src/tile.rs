use vstd::prelude::*;

verus! {

/// The sizes of the tiles that cover the faces of walls, in cells.
#[derive(Clone, Copy, Debug, PartialEq, Eq, Hash, Structural)]
pub enum TileSize {
    T1x1,
    T1x2,
    T2x1,
    T2x2,
    T2x3,
    T3x2,
    T3x3,
}

impl TileSize {
    /// Width and height of the tile.
    pub open spec fn dims(&self) -> (int, int) {
        match *self {
            TileSize::T1x1 => (1, 1),
            TileSize::T1x2 => (1, 2),
            TileSize::T2x1 => (2, 1),
            TileSize::T2x2 => (2, 2),
            TileSize::T2x3 => (2, 3),
            TileSize::T3x2 => (3, 2),
            TileSize::T3x3 => (3, 3),
        }
    }

    /// A tile of that width and height exists.
    pub open spec fn is_tile_size(width: int, height: int) -> bool {
        1 <= width <= 3 && 1 <= height <= 3 && !(width == 1 && height == 3) && !(width == 3 && height == 1)
    }

    pub fn size(&self) -> (r: (isize, isize))
        ensures
            (r.0 as int, r.1 as int) == self.dims(),
    {
        match *self {
            TileSize::T1x1 => (1, 1),
            TileSize::T1x2 => (1, 2),
            TileSize::T2x1 => (2, 1),
            TileSize::T2x2 => (2, 2),
            TileSize::T2x3 => (2, 3),
            TileSize::T3x2 => (3, 2),
            TileSize::T3x3 => (3, 3),
        }
    }

    pub fn width(&self) -> (r: isize)
        ensures
            r == self.dims().0,
    {
        self.size().0
    }

    pub fn height(&self) -> (r: isize)
        ensures
            r == self.dims().1,
    {
        self.size().1
    }

    /// The tile of the given width and height.
    pub fn from_size(width: isize, height: isize) -> (r: TileSize)
        requires
            Self::is_tile_size(width as int, height as int),
        ensures
            r.dims() == (width as int, height as int),
    {
        if width == 1 && height == 1 {
            TileSize::T1x1
        } else if width == 2 && height == 1 {
            TileSize::T2x1
        } else if width == 1 && height == 2 {
            TileSize::T1x2
        } else if width == 2 && height == 2 {
            TileSize::T2x2
        } else if width == 3 && height == 2 {
            TileSize::T3x2
        } else if width == 2 && height == 3 {
            TileSize::T2x3
        } else {
            TileSize::T3x3
        }
    }
}

/// The shapes of tube pieces.
#[derive(Clone, Copy, Debug, PartialEq, Eq, Hash, Structural)]
pub enum Shape {
    /// Line along the y axis.
    Line,
    /// Angle from the y axis to the x axis.
    Angle,
}

/// The collision groups of physical bodies.
#[derive(Clone, Copy, Debug, PartialEq, Eq, Hash, Structural)]
pub enum Group {
    Target,
    Wall,
    Player,
    Rocket,
    Mine,
}

} // verus!
