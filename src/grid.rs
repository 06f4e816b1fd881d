use vstd::prelude::*;

verus! {

/// What a single cell of the board holds.
#[derive(Clone, Copy, Debug, PartialEq, Eq, Structural)]
pub enum Tile {
    /// Unoccupied and open to any species.
    Empty,
    /// A permanent obstacle.
    Wall,
    /// A cell held by a species (`.0`) with a remaining age countdown (`.1`).
    Bug(u8, u8),
}

/// One colour channel brightened by four steps per unit of age, saturating at 255.
pub open spec fn brighten(channel: u8, age: u8) -> u8 {
    if channel as int + 4 * age as int > 255 {
        255
    } else {
        (channel as int + 4 * age as int) as u8
    }
}

/// The colour of a tile, given the species palette.
pub open spec fn color_of(tile: Tile, palette: Seq<[u8; 4]>) -> Seq<u8> {
    match tile {
        Tile::Empty => seq![0u8, 0u8, 0u8, 0u8],
        Tile::Wall => seq![32u8, 32u8, 32u8, 255u8],
        Tile::Bug(s, age) => {
            let base = palette[s as int]@;
            seq![brighten(base[0], age), brighten(base[1], age), brighten(base[2], age), base[3]]
        },
    }
}

/// A species' base colour with red, green and blue brightened by `4 * age`; alpha is kept.
pub fn shade(base: [u8; 4], age: u8) -> (r: [u8; 4])
    ensures
        r@ == seq![brighten(base@[0], age), brighten(base@[1], age), brighten(base@[2], age), base@[3]],
{
    let step: u16 = (age as u16) * 4;
    let mut r = base;
    let mut c: usize = 0;
    while c < 3
        invariant
            c <= 3,
            step == 4 * age as int,
            r@.len() == 4,
            forall|k: int| 0 <= k < c ==> r@[k] == brighten(base@[k], age),
            forall|k: int| c <= k < 4 ==> r@[k] == base@[k],
        decreases 3 - c,
    {
        let v: u16 = base[c] as u16 + step;
        r[c] = if v > 255 { 255 } else { v as u8 };
        c += 1;
    }
    assert(r@ =~= seq![brighten(base@[0], age), brighten(base@[1], age), brighten(base@[2], age), base@[3]]);
    r
}

/// The colour that a tile is drawn with.
pub fn tile_color(tile: Tile, palette: &Vec<[u8; 4]>) -> (r: [u8; 4])
    requires
        tile matches Tile::Bug(s, _) ==> (s as int) < palette@.len(),
    ensures
        r@ == color_of(tile, palette@),
{
    match tile {
        Tile::Empty => {
            let r: [u8; 4] = [0, 0, 0, 0];
            assert(r@ =~= color_of(tile, palette@));
            r
        },
        Tile::Wall => {
            let r: [u8; 4] = [32, 32, 32, 255];
            assert(r@ =~= color_of(tile, palette@));
            r
        },
        Tile::Bug(s, age) => shade(palette[s as usize], age),
    }
}

} // verus!
