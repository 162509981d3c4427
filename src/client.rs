//! The board as a client reads it back from the server's rendering.
use crate::text::chars_of;
use vstd::prelude::*;

verus! {

/// A settled cell as the client sees it.
#[derive(Clone, Copy, Debug, Default, PartialEq, Eq, Structural)]
pub enum Tile {
    #[default]
    Empty,
    Wall,
    /// A stone; the number counts from `'A'`.
    Player(u8),
}

/// Whether `c` is a symbol of the rendering: `.`, `/`, or a player symbol
/// between `'A'` and `'z'`.
pub open spec fn is_tile_char(c: char) -> bool {
    c == '.' || c == '/' || ('A' <= c && c <= 'z')
}

/// The tile that symbol `c` stands for.
pub open spec fn tile_of(c: char) -> Tile {
    if c == '.' {
        Tile::Empty
    } else if c == '/' {
        Tile::Wall
    } else {
        Tile::Player(((c as u32) - ('A' as u32)) as u8)
    }
}

impl Tile {
    pub fn from_char(c: char) -> (r: Tile)
        requires
            is_tile_char(c),
        ensures
            r == tile_of(c),
    {
        if c == '.' {
            Tile::Empty
        } else if c == '/' {
            Tile::Wall
        } else {
            Tile::Player(((c as u32) - ('A' as u32)) as u8)
        }
    }
}

/// A `width` by `height` grid of tiles, row-major.
#[derive(Debug, Default, Clone)]
pub struct TileMap {
    width: u16,
    height: u16,
    data: Vec<Tile>,
}

impl TileMap {
    pub closed spec fn tiles(&self) -> Seq<Tile> {
        self.data@
    }

    pub closed spec fn w(&self) -> int {
        self.width as int
    }

    pub closed spec fn h(&self) -> int {
        self.height as int
    }

    /// An empty map.
    pub fn new(width: u16, height: u16) -> (r: TileMap)
        requires
            width * height <= u16::MAX,
        ensures
            r.w() == width,
            r.h() == height,
            r.tiles() == Seq::new((width * height) as nat, |i: int| Tile::Empty),
    {
        let n = (width * height) as usize;
        let mut data: Vec<Tile> = Vec::new();
        let mut i: usize = 0;
        while i < n
            invariant
                i <= n,
                data@ == Seq::new(i as nat, |j: int| Tile::Empty),
            decreases n - i,
        {
            data.push(Tile::Empty);
            i = i + 1;
            assert(data@ =~= Seq::new(i as nat, |j: int| Tile::Empty));
        }
        TileMap { width, height, data }
    }

    /// The tile at `(x, y)`.
    pub fn get(&self, x: u16, y: u16) -> (r: Tile)
        requires
            y * self.w() + x <= u16::MAX,
            y * self.w() + x < self.tiles().len(),
        ensures
            r == self.tiles()[y * self.w() + x],
    {
        self.data[(y * self.width + x) as usize]
    }

    /// The map that `data` renders, one symbol per cell; `Err` when the
    /// number of symbols is not `width * height`.
    pub fn parse(width: u16, height: u16, data: &str) -> (r: Result<TileMap, ()>)
        requires
            width * height <= u16::MAX,
            forall|i: int| 0 <= i < data@.len() ==> is_tile_char(#[trigger] data@[i]),
        ensures
            data@.len() != width * height ==> r is Err,
            data@.len() == width * height ==> (r matches Ok(m) && m.w() == width && m.h() == height
                && m.tiles() == data@.map_values(|c: char| tile_of(c))),
    {
        let chars = chars_of(data);
        let mut tiles: Vec<Tile> = Vec::new();
        let mut i: usize = 0;
        while i < chars.len()
            invariant
                chars@ == data@,
                i <= chars@.len(),
                forall|j: int| 0 <= j < data@.len() ==> is_tile_char(#[trigger] data@[j]),
                tiles@ == chars@.subrange(0, i as int).map_values(|c: char| tile_of(c)),
            decreases chars@.len() - i,
        {
            tiles.push(Tile::from_char(chars[i]));
            i = i + 1;
            assert(tiles@ =~= chars@.subrange(0, i as int).map_values(|c: char| tile_of(c)));
        }
        assert(chars@.subrange(0, i as int) =~= chars@);
        if tiles.len() != (width * height) as usize {
            return Err(());
        }
        Ok(TileMap { width, height, data: tiles })
    }
}

} // verus!
