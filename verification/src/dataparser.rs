//! The terrain map file: a text grid, one line per row of the map, with `0`
//! for an open tile, `w` for a wall and `s` for sand.
//!
//! Reading the file is left to the caller, who hands over the lines as they
//! were read: each either the text of the line, without its line break, or
//! the message of the error that reading it gave.

use crate::terrain::Terrain;
use vstd::prelude::*;

verus! {

/// Why a terrain map could not be loaded.
#[derive(Debug, PartialEq, Eq)]
pub enum DataParserErr {
    /// The map has too many lines, a line that is too long, or a character
    /// that stands for no tile. Holds the path of the map.
    InvalidWallData(String),
    /// A line of the map could not be read. Holds the message of the error.
    Io(String),
}

/// The tile that the character `ch` stands for, if it stands for one.
pub open spec fn tile_for(ch: char) -> Option<Terrain> {
    if ch == '0' {
        Some(Terrain::Open)
    } else if ch == 'w' {
        Some(Terrain::Wall)
    } else if ch == 's' {
        Some(Terrain::Sand)
    } else {
        None
    }
}

/// Whether the text of a line fits a map of `max_w` columns: it is no longer
/// than that, and each of its characters stands for a tile.
pub open spec fn line_fits(line: Seq<char>, max_w: usize) -> bool {
    &&& line.len() <= max_w
    &&& forall|x: int| 0 <= x < line.len() ==> tile_for(#[trigger] line[x]) is Some
}

/// Whether line `y` is acceptable: it is one of the first `max_h` lines, it
/// was read without error, and its text fits the map.
pub open spec fn line_ok(
    lines: Seq<Result<String, String>>,
    y: int,
    max_w: usize,
    max_h: usize,
) -> bool {
    &&& y < max_h
    &&& lines[y] is Ok
    &&& line_fits(lines[y]->Ok_0@, max_w)
}

/// Whether the first `n` lines are acceptable.
pub open spec fn lines_ok(
    lines: Seq<Result<String, String>>,
    n: int,
    max_w: usize,
    max_h: usize,
) -> bool {
    forall|y: int| 0 <= y < n ==> #[trigger] line_ok(lines, y, max_w, max_h)
}

/// The tile at column `x` of row `y` of the map that the lines describe: the
/// tile that the character there stands for, and an open tile where the
/// lines hold no character.
pub open spec fn tile_at(lines: Seq<Result<String, String>>, x: int, y: int) -> Terrain {
    if 0 <= y < lines.len() && lines[y] is Ok && 0 <= x < lines[y]->Ok_0@.len() {
        match tile_for(lines[y]->Ok_0@[x]) {
            Some(t) => t,
            None => Terrain::Open,
        }
    } else {
        Terrain::Open
    }
}

/// The error that the first unacceptable line `y` gives: a line beyond the
/// map's height is invalid data, whether or not it could be read; a line
/// that could not be read passes its error on; any other fault of a line is
/// invalid data.
pub open spec fn fault_of(
    lines: Seq<Result<String, String>>,
    y: int,
    path: Seq<char>,
    max_h: usize,
    err: DataParserErr,
) -> bool {
    if y < max_h && lines[y] is Err {
        err matches DataParserErr::Io(msg) && msg@ == lines[y]->Err_0@
    } else {
        err matches DataParserErr::InvalidWallData(p) && p@ == path
    }
}

/// The tile that `ch` stands for, if it stands for one.
fn tile_of_char(ch: char) -> (t: Option<Terrain>)
    ensures
        t == tile_for(ch),
{
    if ch == '0' {
        Some(Terrain::Open)
    } else if ch == 'w' {
        Some(Terrain::Wall)
    } else if ch == 's' {
        Some(Terrain::Sand)
    } else {
        None
    }
}

/// The tiles that the characters of `line` stand for, if the line fits a map
/// of `max_w` columns.
fn parse_line(line: &str, max_w: usize) -> (row: Option<Vec<Terrain>>)
    ensures
        row is Some <==> line_fits(line@, max_w),
        row matches Some(tiles) ==> {
            &&& tiles@.len() == line@.len()
            &&& forall|x: int|
                0 <= x < tiles@.len() ==> tile_for(line@[x]) == Some(#[trigger] tiles@[x])
        },
{
    let mut tiles: Vec<Terrain> = Vec::new();
    let mut x: usize = 0;
    for ch in it: line.chars()
        invariant
            it.seq() == line@,
            x == it.index(),
            x <= max_w,
            tiles@.len() == x,
            forall|i: int| 0 <= i < x ==> tile_for(line@[i]) == Some(#[trigger] tiles@[i]),
    {
        if x >= max_w {
            assert(line@.len() > max_w);
            return None;
        }
        match tile_of_char(ch) {
            Some(t) => {
                tiles.push(t);
            },
            None => {
                assert(tile_for(line@[x as int]) is None);
                return None;
            },
        }
        x = x + 1;
    }
    assert(line@.len() == x);
    assert forall|i: int| 0 <= i < line@.len() implies tile_for(#[trigger] line@[i]) is Some by {
        assert(tile_for(line@[i]) == Some(tiles@[i]));
    }
    Some(tiles)
}

/// Builds the terrain matrix of a map of `max_w` columns and `max_h` rows
/// from the lines of its file. The matrix is indexed by column first:
/// `terrain[x][y]` is the tile that character `x` of line `y` stands for.
/// Cells for which the lines hold no character are open.
///
/// The lines are taken in order, and the first fault decides the error:
/// a line beyond the map's height, a line longer than the map is wide and a
/// character that stands for no tile give `InvalidWallData` with `path`; a
/// line that could not be read gives `Io` with the message of its error.
///
/// The map says nothing of where a unit starts: an exploration does not
/// look at the tile under its source, so a unit that starts on a wall can
/// still move off it.
pub fn parse_walls_from_bufread(
    lines: &Vec<Result<String, String>>,
    path: &str,
    max_w: usize,
    max_h: usize,
) -> (result: Result<Vec<Vec<Terrain>>, DataParserErr>)
    ensures
        result is Ok <==> lines_ok(lines@, lines@.len() as int, max_w, max_h),
        result matches Ok(terrain) ==> {
            &&& terrain@.len() == max_w
            &&& forall|x: int| 0 <= x < max_w ==> (#[trigger] terrain@[x])@.len() == max_h
            &&& forall|x: int, y: int|
                0 <= x < max_w && 0 <= y < max_h ==> #[trigger] terrain@[x]@[y] == tile_at(
                    lines@,
                    x,
                    y,
                )
        },
        result matches Err(err) ==> exists|y: int|
            {
                &&& 0 <= y < lines@.len()
                &&& lines_ok(lines@, y, max_w, max_h)
                &&& !line_ok(lines@, y, max_w, max_h)
                &&& fault_of(lines@, y, path@, max_h, err)
            },
{
    let mut rows: Vec<Vec<Terrain>> = Vec::new();
    let mut y: usize = 0;
    while y < lines.len()
        invariant
            y <= lines@.len(),
            rows@.len() == y,
            lines_ok(lines@, y as int, max_w, max_h),
            forall|j: int|
                0 <= j < y ==> {
                    &&& (#[trigger] rows@[j])@.len() == lines@[j]->Ok_0@.len()
                    &&& forall|x: int|
                        0 <= x < rows@[j]@.len() ==> tile_for(lines@[j]->Ok_0@[x]) == Some(
                            #[trigger] rows@[j]@[x],
                        )
                },
        decreases lines.len() - y,
    {
        if y >= max_h {
            assert(!line_ok(lines@, y as int, max_w, max_h));
            return Err(DataParserErr::InvalidWallData(path.to_owned()));
        }
        match &lines[y] {
            Ok(line) => {
                match parse_line(line.as_str(), max_w) {
                    Some(tiles) => {
                        rows.push(tiles);
                    },
                    None => {
                        assert(!line_ok(lines@, y as int, max_w, max_h));
                        return Err(DataParserErr::InvalidWallData(path.to_owned()));
                    },
                }
            },
            Err(msg) => {
                assert(!line_ok(lines@, y as int, max_w, max_h));
                return Err(DataParserErr::Io(msg.clone()));
            },
        }
        assert(line_ok(lines@, y as int, max_w, max_h));
        y = y + 1;
    }
    let mut terrain: Vec<Vec<Terrain>> = Vec::new();
    let mut x: usize = 0;
    while x < max_w
        invariant
            x <= max_w,
            terrain@.len() == x,
            rows@.len() == lines@.len(),
            lines_ok(lines@, lines@.len() as int, max_w, max_h),
            forall|j: int|
                0 <= j < rows@.len() ==> {
                    &&& (#[trigger] rows@[j])@.len() == lines@[j]->Ok_0@.len()
                    &&& forall|x: int|
                        0 <= x < rows@[j]@.len() ==> tile_for(lines@[j]->Ok_0@[x]) == Some(
                            #[trigger] rows@[j]@[x],
                        )
                },
            forall|i: int| 0 <= i < x ==> (#[trigger] terrain@[i])@.len() == max_h,
            forall|i: int, j: int|
                0 <= i < x && 0 <= j < max_h ==> #[trigger] terrain@[i]@[j] == tile_at(
                    lines@,
                    i,
                    j,
                ),
        decreases max_w - x,
    {
        let mut column: Vec<Terrain> = Vec::new();
        let mut y: usize = 0;
        while y < max_h
            invariant
                x < max_w,
                y <= max_h,
                column@.len() == y,
                rows@.len() == lines@.len(),
                lines_ok(lines@, lines@.len() as int, max_w, max_h),
                forall|j: int|
                    0 <= j < rows@.len() ==> {
                        &&& (#[trigger] rows@[j])@.len() == lines@[j]->Ok_0@.len()
                        &&& forall|x: int|
                            0 <= x < rows@[j]@.len() ==> tile_for(lines@[j]->Ok_0@[x]) == Some(
                                #[trigger] rows@[j]@[x],
                            )
                    },
                forall|j: int| 0 <= j < y ==> #[trigger] column@[j] == tile_at(lines@, x as int, j),
            decreases max_h - y,
        {
            let mut t = Terrain::Open;
            if y < rows.len() {
                assert(line_ok(lines@, y as int, max_w, max_h));
                if x < rows[y].len() {
                    t = rows[y][x];
                    assert(tile_for(lines@[y as int]->Ok_0@[x as int]) == Some(
                        rows@[y as int]@[x as int],
                    ));
                }
            }
            column.push(t);
            y = y + 1;
        }
        terrain.push(column);
        x = x + 1;
    }
    Ok(terrain)
}

} // verus!
