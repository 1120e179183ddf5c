//! Reading a whole puzzle off a saved game page: the level, the board's
//! size and cells, the icon cycle that gives each cell its value, and the
//! piece shapes.

use vstd::prelude::*;
use vstd::string::StringSliceAdditionalSpecFns;
use std::collections::HashMap;
use crate::page::{capture_group_one, capture_groups, captures_of, find_from, first_from, group_one_captures,
    headings_in_order, parse_pieces, pieces_of};
use crate::page_bytes::{bytes_equal, number_in, parse_decimal};
use crate::page_icons::{PageError, icon_cycle_read, parse_icon_cycle};
use crate::puzzle::PuzzleJson;

verus! {

/// What `text_of` returns for `bytes`.
pub uninterp spec fn utf8_text(bytes: Seq<u8>) -> Seq<char>;

/// `String::from_utf8`: the text `bytes` encode, or an empty string where
/// they are not UTF-8. The contract only names the decoded text.
#[verifier::external_body]
fn text_of(bytes: Vec<u8>) -> (r: String)
    ensures
        r@ == utf8_text(bytes@),
{
    match String::from_utf8(bytes) {
        Ok(s) => s,
        Err(_) => String::new(),
    }
}

/// Group 1 of the first match of a one-group pattern.
pub open spec fn first_group(pattern: Seq<char>, html: Seq<u8>) -> Option<Seq<u8>> {
    let g = group_one_captures(pattern, html);
    if g.len() > 0 {
        Some(g[0])
    } else {
        None
    }
}

/// The level number: 0 where the page names none; `None` where it is not a
/// number that fits.
pub open spec fn level_of(html: Seq<u8>) -> Option<int> {
    match first_group(r"LEVEL\s+(\d+)"@, html) {
        Some(g) => number_in(g, u32::MAX as int),
        None => Some(0),
    }
}

/// The width (gX) or height (gY) the page sets.
pub open spec fn dimension(pattern: Seq<char>, html: Seq<u8>) -> Option<int> {
    match first_group(pattern, html) {
        Some(g) => number_in(g, usize::MAX as int),
        None => None,
    }
}

/// The cell icon assignments `imgLocStr[col][row] = "icon"`: column, row and
/// icon of each.
pub open spec fn assignments(html: Seq<u8>) -> Seq<Seq<Seq<u8>>> {
    captures_of(r#"imgLocStr\[(\d+)\]\[(\d+)\]\s*=\s*"(\w+)""#@, 3, html)
}

/// Every assignment has a column and a row that are numbers that fit.
pub open spec fn assignments_ok(caps: Seq<Seq<Seq<u8>>>) -> bool {
    forall|k: int|
        0 <= k < caps.len() ==> number_in(#[trigger] caps[k][0], usize::MAX as int) is Some && number_in(
            caps[k][1],
            usize::MAX as int,
        ) is Some
}

/// The icon the last of the first `n` assignments for (col, row) gives.
pub open spec fn assigned_icon(caps: Seq<Seq<Seq<u8>>>, col: int, row: int, n: int) -> Option<Seq<u8>>
    decreases n,
{
    if n <= 0 {
        None
    } else if number_in(caps[n - 1][0], usize::MAX as int) == Some(col) && number_in(caps[n - 1][1], usize::MAX as int)
        == Some(row) {
        Some(caps[n - 1][2])
    } else {
        assigned_icon(caps, col, row, n - 1)
    }
}

/// The value the last of the first `n` entries for `icon` gives.
pub open spec fn value_of(entries: Seq<(Vec<u8>, u8)>, icon: Seq<u8>, n: int) -> Option<u8>
    decreases n,
{
    if n <= 0 {
        None
    } else if entries[n - 1].0@ == icon {
        Some(entries[n - 1].1)
    } else {
        value_of(entries, icon, n - 1)
    }
}

/// The value of the cell at (col, row): that of its assigned icon, 0 where
/// it has none or the icon is not in the cycle.
pub open spec fn cell_value(caps: Seq<Seq<Seq<u8>>>, entries: Seq<(Vec<u8>, u8)>, col: int, row: int) -> u8 {
    match assigned_icon(caps, col, row, caps.len() as int) {
        Some(icon) => match value_of(entries, icon, entries.len() as int) {
            Some(v) => v,
            None => 0,
        },
        None => 0,
    }
}

/// The first reason, in the order the page is read, that it cannot be
/// read as a puzzle.
pub open spec fn page_error(html: Seq<u8>) -> Option<PageError> {
    if level_of(html) is None {
        Some(PageError::BadNumber)
    } else if first_from(html, "You Won!".spec_bytes(), 0) is Some {
        Some(PageError::YouWon)
    } else if first_group(r"gX\s*=\s*(\d+)"@, html) is None {
        Some(PageError::MissingWidth)
    } else if dimension(r"gX\s*=\s*(\d+)"@, html) is None {
        Some(PageError::BadNumber)
    } else if first_group(r"gY\s*=\s*(\d+)"@, html) is None {
        Some(PageError::MissingHeight)
    } else if dimension(r"gY\s*=\s*(\d+)"@, html) is None {
        Some(PageError::BadNumber)
    } else if !assignments_ok(assignments(html)) {
        Some(PageError::BadNumber)
    } else if icon_cycle_read(html, Err(PageError::NoCycleIcons)) {
        Some(PageError::NoCycleIcons)
    } else if !headings_in_order(html) {
        Some(PageError::HeadingsOutOfOrder)
    } else {
        None
    }
}

/// `p` is the puzzle of `html` read with icon cycle `c`.
pub open spec fn puzzle_from(p: PuzzleJson, html: Seq<u8>, c: (u8, Vec<(Vec<u8>, u8)>, Vec<Vec<u8>>)) -> bool {
    let gx = dimension(r"gX\s*=\s*(\d+)"@, html).unwrap();
    let gy = dimension(r"gY\s*=\s*(\d+)"@, html).unwrap();
    &&& p.level == level_of(html).unwrap()
    &&& p.m == c.0
    &&& p.rows == gy % 256
    &&& p.columns == gx % 256
    &&& p.board@.len() == gy
    &&& forall|r: int|
        0 <= r < gy ==> (#[trigger] p.board@[r])@.len() == gx && forall|col: int|
            0 <= col < gx ==> #[trigger] p.board@[r]@[col] == cell_value(assignments(html), c.1@, col, r)
    &&& p.pieces.deep_view() == pieces_of(html)
    &&& p.icons@.len() == c.2@.len()
    &&& forall|k: int| 0 <= k < c.2@.len() ==> (#[trigger] p.icons@[k])@ == utf8_text(c.2@[k]@)
}

/// The value the last entry for `icon` gives, else 0.
fn lookup_value(entries: &Vec<(Vec<u8>, u8)>, icon: &Vec<u8>) -> (r: u8)
    ensures
        r == match value_of(entries@, icon@, entries@.len() as int) {
            Some(v) => v,
            None => 0u8,
        },
{
    let mut k = entries.len();
    while k > 0
        invariant
            k <= entries@.len(),
            value_of(entries@, icon@, entries@.len() as int) == value_of(entries@, icon@, k as int),
        decreases k,
    {
        if bytes_equal(entries[k - 1].0.as_slice(), icon.as_slice()) {
            return entries[k - 1].1;
        }
        k = k - 1;
    }
    0
}

/// The key of cell (col, row) in the map of assignments: column and row
/// side by side in one number.
pub open spec fn cell_key(col: int, row: int) -> int {
    col * 0x1_0000_0000_0000_0000 + row
}

fn key_of(col: usize, row: usize) -> (r: u128)
    ensures
        r == cell_key(col as int, row as int),
{
    assert(col * 0x1_0000_0000_0000_0000 + row <= u128::MAX) by (nonlinear_arith)
        requires
            col <= usize::MAX,
            row <= usize::MAX,
            usize::MAX <= u64::MAX,
    ;
    (col as u128) * 0x1_0000_0000_0000_0000u128 + row as u128
}

/// Different cells have different keys.
proof fn lemma_cell_key_injective(c1: int, r1: int, c2: int, r2: int)
    requires
        0 <= r1 < 0x1_0000_0000_0000_0000,
        0 <= r2 < 0x1_0000_0000_0000_0000,
        cell_key(c1, r1) == cell_key(c2, r2),
    ensures
        c1 == c2,
        r1 == r2,
{
    let big = 0x1_0000_0000_0000_0000int;
    vstd::arithmetic::div_mod::lemma_fundamental_div_mod_converse(cell_key(c1, r1), big, c1, r1);
    vstd::arithmetic::div_mod::lemma_fundamental_div_mod_converse(cell_key(c2, r2), big, c2, r2);
}

/// The map holds, for every cell with an assignment among the first `k`,
/// the index of the last one.
pub open spec fn maps_last_assignments(map: Map<u128, usize>, found: Seq<Seq<Seq<u8>>>, k: int) -> bool {
    forall|col: int, row: int|
        0 <= col <= usize::MAX && 0 <= row <= usize::MAX ==> {
            let key = cell_key(col, row) as u128;
            &&& map.contains_key(key) <==> #[trigger] assigned_icon(found, col, row, k) is Some
            &&& map.contains_key(key) ==> map[key] < k && assigned_icon(found, col, row, k) == Some(
                found[map[key] as int][2],
            )
        }
}

/// Each assigned cell, keyed by column and row, to its last assignment.
fn assignment_map(cols: &Vec<usize>, rows: &Vec<usize>, Ghost(found): Ghost<Seq<Seq<Seq<u8>>>>) -> (map: HashMap<
    u128,
    usize,
>)
    requires
        cols@.len() == found.len(),
        rows@.len() == found.len(),
        forall|j: int| 0 <= j < found.len() ==> number_in(#[trigger] found[j][0], usize::MAX as int) == Some(cols@[j] as int),
        forall|j: int| 0 <= j < found.len() ==> number_in(#[trigger] found[j][1], usize::MAX as int) == Some(rows@[j] as int),
    ensures
        maps_last_assignments(map@, found, found.len() as int),
{
    broadcast use vstd::std_specs::hash::group_hash_axioms;

    let mut map: HashMap<u128, usize> = HashMap::new();
    let mut k: usize = 0;
    while k < cols.len()
        invariant
            cols@.len() == found.len(),
            rows@.len() == found.len(),
            forall|j: int| 0 <= j < found.len() ==> number_in(#[trigger] found[j][0], usize::MAX as int) == Some(cols@[j] as int),
            forall|j: int| 0 <= j < found.len() ==> number_in(#[trigger] found[j][1], usize::MAX as int) == Some(rows@[j] as int),
            0 <= k <= found.len(),
            maps_last_assignments(map@, found, k as int),
        decreases found.len() - k,
    {
        let key = key_of(cols[k], rows[k]);
        let ghost prev = map@;
        map.insert(key, k);
        proof {
            let c0 = cols@[k as int] as int;
            let r0 = rows@[k as int] as int;
            assert(number_in(found[k as int][0], usize::MAX as int) == Some(c0));
            assert(number_in(found[k as int][1], usize::MAX as int) == Some(r0));
            assert forall|col: int, row: int| 0 <= col <= usize::MAX && 0 <= row <= usize::MAX implies {
                let key2 = cell_key(col, row) as u128;
                &&& map@.contains_key(key2) <==> #[trigger] assigned_icon(found, col, row, k + 1) is Some
                &&& map@.contains_key(key2) ==> map@[key2] < k + 1 && assigned_icon(found, col, row, k + 1) == Some(
                    found[map@[key2] as int][2],
                )
            } by {
                let key2 = cell_key(col, row) as u128;
                assert(map@ == prev.insert(key, k));
                let before = assigned_icon(found, col, row, k as int);
                assert(prev.contains_key(key2) <==> before is Some);
                if col == c0 && row == r0 {
                    assert(key2 == key);
                } else {
                    if cell_key(col, row) == cell_key(c0, r0) {
                        lemma_cell_key_injective(col, row, c0, r0);
                    }
                    assert(cell_key(col, row) != cell_key(c0, r0));
                    assert(0 <= cell_key(col, row) <= u128::MAX) by (nonlinear_arith)
                        requires
                            0 <= col <= usize::MAX,
                            0 <= row <= usize::MAX,
                            usize::MAX <= u64::MAX,
                    ;
                    assert(0 <= cell_key(c0, r0) <= u128::MAX) by (nonlinear_arith)
                        requires
                            0 <= c0 <= usize::MAX,
                            0 <= r0 <= usize::MAX,
                            usize::MAX <= u64::MAX,
                    ;
                    assert(key2 != key);
                }
            }
        }
        k = k + 1;
    }
    map
}

/// The value of the cell at (col, row).
fn cell_value_at(
    map: &HashMap<u128, usize>,
    caps: &Vec<Vec<Vec<u8>>>,
    entries: &Vec<(Vec<u8>, u8)>,
    col: usize,
    row: usize,
    Ghost(found): Ghost<Seq<Seq<Seq<u8>>>>,
) -> (r: u8)
    requires
        caps.deep_view() == found,
        forall|j: int| 0 <= j < caps@.len() ==> #[trigger] caps@[j]@.len() == 3,
        maps_last_assignments(map@, found, found.len() as int),
    ensures
        r == cell_value(found, entries@, col as int, row as int),
{
    broadcast use vstd::std_specs::hash::group_hash_axioms;

    let key = key_of(col, row);
    proof {
        assert(assigned_icon(found, col as int, row as int, found.len() as int) is Some <==> map@.contains_key(key));
    }
    match map.get(&key) {
        Some(j) => {
            proof {
                assert(caps@[*j as int]@[2]@ == found[*j as int][2]);
            }
            lookup_value(entries, &caps[*j][2])
        },
        None => 0,
    }
}

/// The column and row of every cell icon assignment, read as numbers;
/// `None` where one of them is not a number that fits.
pub fn assignment_positions(caps: &Vec<Vec<Vec<u8>>>) -> (r: Option<(Vec<usize>, Vec<usize>)>)
    requires
        forall|j: int| 0 <= j < caps@.len() ==> #[trigger] caps@[j]@.len() == 3,
    ensures
        r is Some <==> assignments_ok(caps.deep_view()),
        r matches Some(positions) ==> {
            &&& positions.0@.len() == caps@.len()
            &&& positions.1@.len() == caps@.len()
            &&& forall|j: int|
                0 <= j < caps@.len() ==> number_in(#[trigger] caps.deep_view()[j][0], usize::MAX as int) == Some(
                    positions.0@[j] as int,
                )
            &&& forall|j: int|
                0 <= j < caps@.len() ==> number_in(#[trigger] caps.deep_view()[j][1], usize::MAX as int) == Some(
                    positions.1@[j] as int,
                )
        },
{
    let ghost found = caps.deep_view();
    let mut cols: Vec<usize> = Vec::new();
    let mut rows: Vec<usize> = Vec::new();
    let mut k: usize = 0;
    while k < caps.len()
        invariant
            caps.deep_view() == found,
            forall|j: int| 0 <= j < caps@.len() ==> #[trigger] caps@[j]@.len() == 3,
            0 <= k <= caps@.len(),
            cols@.len() == k,
            rows@.len() == k,
            forall|j: int| 0 <= j < k ==> number_in(#[trigger] found[j][0], usize::MAX as int) == Some(cols@[j] as int),
            forall|j: int| 0 <= j < k ==> number_in(#[trigger] found[j][1], usize::MAX as int) == Some(rows@[j] as int),
        decreases caps@.len() - k,
    {
        proof {
            assert(caps@[k as int]@[0]@ == found[k as int][0]);
            assert(caps@[k as int]@[1]@ == found[k as int][1]);
        }
        let col = match parse_decimal(caps[k][0].as_slice(), usize::MAX as u64) {
            Some(v) => v as usize,
            None => {
                proof {
                    assert(!assignments_ok(found));
                }
                return None;
            },
        };
        let row = match parse_decimal(caps[k][1].as_slice(), usize::MAX as u64) {
            Some(v) => v as usize,
            None => {
                proof {
                    assert(!assignments_ok(found));
                }
                return None;
            },
        };
        cols.push(col);
        rows.push(row);
        k = k + 1;
    }
    Some((cols, rows))
}

/// The board's cell values: `gy` rows of `gx` cells, each the value its
/// assigned icon takes in the cycle `entries`.
pub fn board_cells(
    caps: &Vec<Vec<Vec<u8>>>,
    cols: &Vec<usize>,
    rows: &Vec<usize>,
    entries: &Vec<(Vec<u8>, u8)>,
    gx: usize,
    gy: usize,
) -> (board: Vec<Vec<u8>>)
    requires
        forall|j: int| 0 <= j < caps@.len() ==> #[trigger] caps@[j]@.len() == 3,
        cols@.len() == caps@.len(),
        rows@.len() == caps@.len(),
        forall|j: int|
            0 <= j < caps@.len() ==> number_in(#[trigger] caps.deep_view()[j][0], usize::MAX as int) == Some(cols@[j] as int),
        forall|j: int|
            0 <= j < caps@.len() ==> number_in(#[trigger] caps.deep_view()[j][1], usize::MAX as int) == Some(rows@[j] as int),
    ensures
        board@.len() == gy,
        forall|i: int|
            0 <= i < gy ==> (#[trigger] board@[i])@.len() == gx && forall|col: int|
                0 <= col < gx ==> #[trigger] board@[i]@[col] == cell_value(caps.deep_view(), entries@, col, i),
{
    let ghost found = caps.deep_view();
    let map = assignment_map(cols, rows, Ghost(found));
    let mut board: Vec<Vec<u8>> = Vec::new();
    let mut r: usize = 0;
    while r < gy
        invariant
            caps.deep_view() == found,
            forall|j: int| 0 <= j < caps@.len() ==> #[trigger] caps@[j]@.len() == 3,
            maps_last_assignments(map@, found, found.len() as int),
            0 <= r <= gy,
            board@.len() == r,
            forall|i: int|
                0 <= i < r ==> (#[trigger] board@[i])@.len() == gx && forall|col: int|
                    0 <= col < gx ==> #[trigger] board@[i]@[col] == cell_value(found, entries@, col, i),
        decreases gy - r,
    {
        let mut line: Vec<u8> = Vec::new();
        let mut col: usize = 0;
        while col < gx
            invariant
                caps.deep_view() == found,
                forall|j: int| 0 <= j < caps@.len() ==> #[trigger] caps@[j]@.len() == 3,
                maps_last_assignments(map@, found, found.len() as int),
                0 <= col <= gx,
                line@.len() == col,
                forall|i: int| 0 <= i < col ==> #[trigger] line@[i] == cell_value(found, entries@, i, r as int),
            decreases gx - col,
        {
            let v = cell_value_at(&map, caps, entries, col, r, Ghost(found));
            line.push(v);
            col = col + 1;
        }
        board.push(line);
        r = r + 1;
    }
    board
}

/// Read a saved game page as a puzzle: the level, the board's size and
/// cell values, the piece shapes and the icon of each value. A page that
/// shows a finished game, lacks the board's size, holds a number that is not
/// one or does not fit, has a goal table without icons or lists the queued
/// shapes before the active one gives the first such error.
pub fn parse_shapeshifter_html(html: &[u8]) -> (r: Result<PuzzleJson, PageError>)
    ensures
        page_error(html@) matches Some(e) ==> r == Err::<PuzzleJson, PageError>(e),
        page_error(html@) is None ==> (r matches Ok(p) && exists|c: (u8, Vec<(Vec<u8>, u8)>, Vec<Vec<u8>>)|
            #[trigger] icon_cycle_read(html@, Ok(c)) && puzzle_from(p, html@, c)),
{
    let level_caps = capture_group_one(r"LEVEL\s+(\d+)", html);
    let level: u32 = if level_caps.len() > 0 {
        proof {
            assert(level_caps@[0]@ == level_caps.deep_view()[0]);
        }
        match parse_decimal(level_caps[0].as_slice(), u32::MAX as u64) {
            Some(v) => v as u32,
            None => {
                return Err(PageError::BadNumber);
            },
        }
    } else {
        0
    };
    if find_from(html, "You Won!".as_bytes(), 0).is_some() {
        return Err(PageError::YouWon);
    }
    let gx_caps = capture_group_one(r"gX\s*=\s*(\d+)", html);
    if gx_caps.len() == 0 {
        return Err(PageError::MissingWidth);
    }
    proof {
        assert(gx_caps@[0]@ == gx_caps.deep_view()[0]);
    }
    let gx = match parse_decimal(gx_caps[0].as_slice(), usize::MAX as u64) {
        Some(v) => v as usize,
        None => {
            return Err(PageError::BadNumber);
        },
    };
    let gy_caps = capture_group_one(r"gY\s*=\s*(\d+)", html);
    if gy_caps.len() == 0 {
        return Err(PageError::MissingHeight);
    }
    proof {
        assert(gy_caps@[0]@ == gy_caps.deep_view()[0]);
    }
    let gy = match parse_decimal(gy_caps[0].as_slice(), usize::MAX as u64) {
        Some(v) => v as usize,
        None => {
            return Err(PageError::BadNumber);
        },
    };
    let caps = capture_groups(r#"imgLocStr\[(\d+)\]\[(\d+)\]\s*=\s*"(\w+)""#, 3, html);
    let ghost found = assignments(html@);
    let (cols, rows) = match assignment_positions(&caps) {
        Some(positions) => positions,
        None => {
            return Err(PageError::BadNumber);
        },
    };
    let cycle = parse_icon_cycle(html);
    let (m, entries, icon_list) = match cycle {
        Ok(c) => c,
        Err(e) => {
            return Err(e);
        },
    };
    let ghost c = (m, entries, icon_list);
    let board = board_cells(&caps, &cols, &rows, &entries, gx, gy);
    let active = find_from(html, "ACTIVE SHAPE".as_bytes(), 0);
    let next = find_from(html, "NEXT SHAPES".as_bytes(), 0);
    if let (Some(ap), Some(np)) = (active, next) {
        if ap > np {
            return Err(PageError::HeadingsOutOfOrder);
        }
    }
    let pieces = parse_pieces(html);
    let mut icons: Vec<String> = Vec::new();
    let mut i: usize = 0;
    while i < icon_list.len()
        invariant
            0 <= i <= icon_list@.len(),
            icons@.len() == i,
            forall|j: int| 0 <= j < i ==> (#[trigger] icons@[j])@ == utf8_text(icon_list@[j]@),
        decreases icon_list@.len() - i,
    {
        let copy = crate::page::copy_bytes(&icon_list[i]);
        icons.push(text_of(copy));
        i = i + 1;
    }
    let p = PuzzleJson {
        level,
        m,
        rows: (gy % 256) as u8,
        columns: (gx % 256) as u8,
        board,
        pieces,
        icons,
    };
    proof {
        assert(icon_cycle_read(html@, Ok(c)));
        assert(puzzle_from(p, html@, c));
    }
    Ok(p)
}

} // verus!
