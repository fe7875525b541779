//! Levels drawn as rows of symbols, and whole-template rotations.
use vstd::prelude::*;
use crate::actions::CWRotation;
use crate::level::Tile;

verus! {

/// The tile a symbol stands for; empty squares and unknown symbols stand for
/// no tile.
pub open spec fn tile_of_symbol(c: char) -> Option<Tile> {
    if c == '🟩' {
        Some(Tile::Finish)
    } else if c == '⬜' {
        Some(Tile::Wall)
    } else if c == '🟦' {
        Some(Tile::Basic)
    } else if c == '🏂' {
        Some(Tile::Ice)
    } else if c == '🧑' {
        Some(Tile::Start(CWRotation::Zero))
    } else if c == '🧒' {
        Some(Tile::Start(CWRotation::Ninety))
    } else if c == '👩' {
        Some(Tile::Start(CWRotation::OneEighty))
    } else if c == '🧓' {
        Some(Tile::Start(CWRotation::TwoSeventy))
    } else if c == '🔃' {
        Some(Tile::CWRot)
    } else if c == '🔄' {
        Some(Tile::CCWRot)
    } else {
        None
    }
}

/// The rows read one after the other.
pub open spec fn joined(rows: Seq<Seq<char>>) -> Seq<char>
    decreases rows.len(),
{
    if rows.len() == 0 {
        Seq::empty()
    } else {
        joined(rows.drop_last()) + rows.last()
    }
}

/// The symbol at position `i` of the joined rows sits in column `i % width`
/// and row `i / width`, both shifted so that the middle lands on zero.
pub open spec fn cell_position(i: int, width: int, length: int) -> (int, int) {
    (i % width - width / 2, i / width - length / 2)
}

/// The tiles drawn by the symbols `s`, in reading order.
pub open spec fn cells(s: Seq<char>, width: int, length: int) -> Seq<((i32, i32), Tile)>
    decreases s.len(),
{
    if s.len() == 0 {
        Seq::empty()
    } else {
        let rest = cells(s.drop_last(), width, length);
        let p = cell_position(s.len() - 1, width, length);
        match tile_of_symbol(s.last()) {
            Some(t) => rest.push(((p.0 as i32, p.1 as i32), t)),
            None => rest,
        }
    }
}

fn symbol_tile(c: char) -> (r: Option<Tile>)
    ensures
        r == tile_of_symbol(c),
{
    if c == '🟩' {
        Some(Tile::Finish)
    } else if c == '⬜' {
        Some(Tile::Wall)
    } else if c == '🟦' {
        Some(Tile::Basic)
    } else if c == '🏂' {
        Some(Tile::Ice)
    } else if c == '🧑' {
        Some(Tile::Start(CWRotation::Zero))
    } else if c == '🧒' {
        Some(Tile::Start(CWRotation::Ninety))
    } else if c == '👩' {
        Some(Tile::Start(CWRotation::OneEighty))
    } else if c == '🧓' {
        Some(Tile::Start(CWRotation::TwoSeventy))
    } else if c == '🔃' {
        Some(Tile::CWRot)
    } else if c == '🔄' {
        Some(Tile::CCWRot)
    } else {
        None
    }
}

/// The tiles that `lines` draw: the width is that of the first line, and the
/// drawing is centred on the origin.
pub fn from_pictogram(lines: &[Vec<char>]) -> (r: Vec<((i32, i32), Tile)>)
    requires
        lines@.len() > 0,
        lines@[0]@.len() < i32::MAX,
        lines@[0]@.len() > 0 || joined(lines@.map_values(|l: Vec<char>| l@)).len() == 0,
        joined(lines@.map_values(|l: Vec<char>| l@)).len() < i32::MAX,
        lines@.len() < i32::MAX,
    ensures
        r@ == cells(
            joined(lines@.map_values(|l: Vec<char>| l@)),
            lines@[0]@.len() as int,
            lines@.len() as int,
        ),
{
    let ghost rows = lines@.map_values(|l: Vec<char>| l@);
    let mut flat: Vec<char> = Vec::new();
    let mut i: usize = 0;
    while i < lines.len()
        invariant
            i <= lines@.len(),
            rows == lines@.map_values(|l: Vec<char>| l@),
            flat@ == joined(rows.take(i as int)),
        decreases lines@.len() - i,
    {
        let ghost before = flat@;
        let mut j: usize = 0;
        while j < lines[i].len()
            invariant
                i < lines@.len(),
                j <= lines@[i as int]@.len(),
                flat@ == before + lines@[i as int]@.take(j as int),
            decreases lines@[i as int]@.len() - j,
        {
            flat.push(lines[i][j]);
            j = j + 1;
            assert(lines@[i as int]@.take(j as int) =~= lines@[i as int]@.take(j - 1).push(
                lines@[i as int]@[j - 1],
            ));
        }
        assert(lines@[i as int]@.take(j as int) =~= lines@[i as int]@);
        assert(rows.take(i + 1).drop_last() =~= rows.take(i as int));
        i = i + 1;
    }
    assert(rows.take(i as int) =~= rows);
    let width = lines[0].len() as i32;
    let length = lines.len() as i32;
    let mut out: Vec<((i32, i32), Tile)> = Vec::new();
    let mut k: usize = 0;
    while k < flat.len()
        invariant
            k <= flat@.len(),
            flat@.len() < i32::MAX,
            width as int == lines@[0]@.len(),
            flat@.len() > 0 ==> width > 0,
            length as int == lines@.len(),
            length > 0,
            out@ == cells(flat@.take(k as int), width as int, length as int),
        decreases flat@.len() - k,
    {
        let index = k as i32;
        let column = index % width - width / 2;
        let row = index / width - length / 2;
        assert(flat@.take(k + 1).drop_last() =~= flat@.take(k as int));
        assert(flat@.take(k + 1).last() == flat@[k as int]);
        match symbol_tile(flat[k]) {
            Some(t) => out.push(((column, row), t)),
            None => {},
        }
        k = k + 1;
    }
    assert(flat@.take(k as int) =~= flat@);
    out
}

/// A placed tile moved by the matrix `rot`.
pub open spec fn transformed(rot: ((i32, i32), (i32, i32)), e: ((i32, i32), Tile)) -> ((int, int), Tile) {
    (
        (
            e.0.0 * rot.0.0 + e.0.1 * rot.0.1,
            e.0.0 * rot.1.0 + e.0.1 * rot.1.1,
        ),
        e.1,
    )
}

pub open spec fn fits(p: (int, int)) -> bool {
    i32::MIN <= p.0 <= i32::MAX && i32::MIN <= p.1 <= i32::MAX
}

fn scale(v: i32, k: i32) -> (r: i64)
    requires
        -1 <= k <= 1,
    ensures
        r == v * k,
{
    if k == 1 {
        assert(v * k == v) by (nonlinear_arith)
            requires
                k == 1,
        ;
        v as i64
    } else if k == -1 {
        assert(v * k == -v) by (nonlinear_arith)
            requires
                k == -1,
        ;
        -(v as i64)
    } else {
        assert(v * k == 0) by (nonlinear_arith)
            requires
                k == 0,
        ;
        0
    }
}

/// Moves every placed tile by the matrix `rot`, whose rows give the new
/// `x` and `y` as combinations of the old ones.
pub fn transform(rot: ((i32, i32), (i32, i32)), tiles: Vec<((i32, i32), Tile)>) -> (r: Vec<
    ((i32, i32), Tile),
>)
    requires
        -1 <= rot.0.0 <= 1 && -1 <= rot.0.1 <= 1 && -1 <= rot.1.0 <= 1 && -1 <= rot.1.1 <= 1,
        forall|i: int| 0 <= i < tiles@.len() ==> fits(#[trigger] transformed(rot, tiles@[i]).0),
    ensures
        r@.len() == tiles@.len(),
        forall|i: int|
            0 <= i < r@.len() ==> (#[trigger] r@[i]).1 == tiles@[i].1 && (
                r@[i].0.0 as int,
                r@[i].0.1 as int,
            ) == transformed(rot, tiles@[i]).0,
{
    let mut out: Vec<((i32, i32), Tile)> = Vec::new();
    let mut i: usize = 0;
    while i < tiles.len()
        invariant
            i <= tiles@.len(),
            out@.len() == i,
            -1 <= rot.0.0 <= 1 && -1 <= rot.0.1 <= 1 && -1 <= rot.1.0 <= 1 && -1 <= rot.1.1 <= 1,
            forall|k: int| 0 <= k < tiles@.len() ==> fits(#[trigger] transformed(rot, tiles@[k]).0),
            forall|k: int|
                0 <= k < i ==> (#[trigger] out@[k]).1 == tiles@[k].1 && (
                    out@[k].0.0 as int,
                    out@[k].0.1 as int,
                ) == transformed(rot, tiles@[k]).0,
        decreases tiles@.len() - i,
    {
        let ((x, y), tile) = tiles[i];
        assert(fits(transformed(rot, tiles@[i as int]).0));
        let xa = scale(x, rot.0.0);
        let yb = scale(y, rot.0.1);
        let xc = scale(x, rot.1.0);
        let yd = scale(y, rot.1.1);
        let nx = (xa + yb) as i32;
        let ny = (xc + yd) as i32;
        out.push(((nx, ny), tile));
        i = i + 1;
    }
    out
}

} // verus!
