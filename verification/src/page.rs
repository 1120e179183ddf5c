//! Reading the piece shapes from a saved game page: the active shape and
//! the queued shapes, each an HTML table of filled and empty squares.

use vstd::prelude::*;
use regex::bytes::Regex;
use vstd::string::StringSliceAdditionalSpecFns;

verus! {

/// The patterns read off a saved page, with the number of groups each one
/// has; every one of those groups takes part in every match.
pub open spec fn page_pattern(pattern: Seq<char>, groups: usize) -> bool {
    ||| groups == 1 && pattern == r"(?si)<table\s+border=.?0.?\s+cellpadding=.?0.?\s+cellspacing=.?0.?>(.*?)</table>"@
    ||| groups == 1 && pattern == r"(?si)<tr>(.*?)</tr>"@
    ||| groups == 1 && pattern == r"(?si)<td[^>]*>(.*?)</td>"@
    ||| groups == 1 && pattern == r"LEVEL\s+(\d+)"@
    ||| groups == 1 && pattern == r"gX\s*=\s*(\d+)"@
    ||| groups == 1 && pattern == r"gY\s*=\s*(\d+)"@
    ||| groups == 3 && pattern == r#"imgLocStr\[(\d+)\]\[(\d+)\]\s*=\s*"(\w+)""#@
    ||| groups == 1 && pattern == r#"imgLocStr\[\d+\]\[\d+\]\s*=\s*"(\w+)""#@
    ||| groups == 1 && pattern == r"/(\w+)_0\.gif"@
    ||| groups == 1 && pattern == r"/(\w+)_0\.gif[^>]*>[^<]*<br><b><small>GOAL"@
}

/// What `capture_groups` returns for `pattern`, `groups` and `haystack`.
pub uninterp spec fn captures_of(pattern: Seq<char>, groups: usize, haystack: Seq<u8>) -> Seq<Seq<Seq<u8>>>;

/// Compiles `pattern` with `regex::bytes::Regex::new` and returns, for each
/// match that `Regex::captures_iter` finds in `haystack`, in order, the bytes
/// of its groups 1 to `groups` (an empty list where the pattern does not
/// compile). The contract only names the result: which matches the regex
/// engine finds is not restated here. Only the page's own patterns are
/// admitted, whose groups all take part in every match, so indexing a group
/// cannot panic.
#[verifier::external_body]
pub(crate) fn capture_groups(pattern: &str, groups: usize, haystack: &[u8]) -> (r: Vec<Vec<Vec<u8>>>)
    requires
        page_pattern(pattern@, groups),
    ensures
        r.deep_view() == captures_of(pattern@, groups, haystack@),
        forall|j: int| 0 <= j < r@.len() ==> #[trigger] r@[j]@.len() == groups,
{
    match Regex::new(pattern) {
        Ok(re) => re.captures_iter(haystack).map(|c| (1..=groups).map(|g| c[g].to_vec()).collect()).collect(),
        Err(_) => Vec::new(),
    }
}

/// Group 1 of each match of a one-group pattern.
pub open spec fn group_one_captures(pattern: Seq<char>, haystack: Seq<u8>) -> Seq<Seq<u8>> {
    captures_of(pattern, 1, haystack).map_values(|m: Seq<Seq<u8>>| m[0])
}

/// Group 1 of each match of a one-group page pattern.
pub(crate) fn capture_group_one(pattern: &str, haystack: &[u8]) -> (r: Vec<Vec<u8>>)
    requires
        page_pattern(pattern@, 1),
    ensures
        r.deep_view() == group_one_captures(pattern@, haystack@),
{
    let all = capture_groups(pattern, 1, haystack);
    let ghost found = captures_of(pattern@, 1, haystack@);
    let mut r: Vec<Vec<u8>> = Vec::new();
    let mut k: usize = 0;
    while k < all.len()
        invariant
            all.deep_view() == found,
            forall|j: int| 0 <= j < all@.len() ==> #[trigger] all@[j]@.len() == 1,
            0 <= k <= all@.len(),
            r.deep_view() == found.subrange(0, k as int).map_values(|m: Seq<Seq<u8>>| m[0]),
        decreases all@.len() - k,
    {
        proof {
            assert(all@[k as int].deep_view() == found[k as int]);
        }
        assert(all@[k as int]@.len() == 1);
        let first = copy_bytes(&all[k][0]);
        proof {
            assert(all@[k as int]@[0]@ == found[k as int][0]);
        }
        let ghost before = r.deep_view();
        r.push(first);
        proof {
            assert(r.deep_view() =~= before.push(found[k as int][0]));
            assert(found.subrange(0, k + 1).map_values(|m: Seq<Seq<u8>>| m[0]) =~= found.subrange(
                0,
                k as int,
            ).map_values(|m: Seq<Seq<u8>>| m[0]).push(found[k as int][0]));
        }
        k = k + 1;
    }
    proof {
        assert(found.subrange(0, k as int) =~= found);
    }
    r
}

/// A copy of `v`.
pub(crate) fn copy_bytes(v: &Vec<u8>) -> (r: Vec<u8>)
    ensures
        r@ == v@,
{
    let mut r: Vec<u8> = Vec::new();
    let mut i: usize = 0;
    while i < v.len()
        invariant
            0 <= i <= v@.len(),
            r@ == v@.subrange(0, i as int),
        decreases v@.len() - i,
    {
        r.push(v[i]);
        i = i + 1;
        proof {
            assert(r@ =~= v@.subrange(0, i as int));
        }
    }
    proof {
        assert(r@ =~= v@);
    }
    r
}

/// `needle` occurs in `hay` starting at index `i`.
pub open spec fn occurs_at(hay: Seq<u8>, needle: Seq<u8>, i: int) -> bool {
    0 <= i && i + needle.len() <= hay.len() && hay.subrange(i, i + needle.len()) == needle
}

/// The first index at or after `i` where `needle` occurs in `hay`.
pub open spec fn first_from(hay: Seq<u8>, needle: Seq<u8>, i: int) -> Option<int>
    decreases hay.len() + 1 - i,
{
    if i < 0 || i + needle.len() > hay.len() {
        None
    } else if occurs_at(hay, needle, i) {
        Some(i)
    } else {
        first_from(hay, needle, i + 1)
    }
}

/// Whether `needle` occurs in `hay` at index `i`.
pub(crate) fn occurs_at_exec(hay: &[u8], needle: &[u8], i: usize) -> (r: bool)
    requires
        i + needle@.len() <= hay@.len(),
    ensures
        r == occurs_at(hay@, needle@, i as int),
{
    proof {
        assert(hay@.len() == hay.len());
    }
    let mut k: usize = 0;
    while k < needle.len()
        invariant
            i + needle@.len() <= hay@.len(),
            hay@.len() <= usize::MAX,
            0 <= k <= needle@.len(),
            hay@.subrange(i as int, i + k) == needle@.subrange(0, k as int),
        decreases needle@.len() - k,
    {
        if hay[i + k] != needle[k] {
            proof {
                assert(hay@.subrange(i as int, i + needle@.len())[k as int] != needle@[k as int]);
            }
            return false;
        }
        k = k + 1;
        proof {
            assert(hay@.subrange(i as int, i + k) =~= needle@.subrange(0, k as int));
        }
    }
    proof {
        assert(needle@.subrange(0, k as int) =~= needle@);
    }
    true
}

/// The first index at or after `start` where `needle` occurs in `hay`.
pub fn find_from(hay: &[u8], needle: &[u8], start: usize) -> (r: Option<usize>)
    ensures
        r matches Some(i) ==> first_from(hay@, needle@, start as int) == Some(i as int),
        r is None ==> first_from(hay@, needle@, start as int) is None,
        r matches Some(i) ==> start <= i && i + needle@.len() <= hay@.len(),
{
    if needle.len() > hay.len() || start > hay.len() - needle.len() {
        return None;
    }
    let last = hay.len() - needle.len();
    let mut i = start;
    while i < last
        invariant
            last + needle@.len() == hay@.len(),
            start <= i <= last,
            first_from(hay@, needle@, start as int) == first_from(hay@, needle@, i as int),
        decreases last - i,
    {
        if occurs_at_exec(hay, needle, i) {
            return Some(i);
        }
        i = i + 1;
    }
    if occurs_at_exec(hay, needle, last) {
        return Some(last);
    }
    proof {
        assert(first_from(hay@, needle@, last + 1) is None);
        assert(first_from(hay@, needle@, last as int) == first_from(hay@, needle@, last + 1));
    }
    None
}

/// The bytes of `hay` from `lo` up to `hi`.
pub(crate) fn bytes_between(hay: &[u8], lo: usize, hi: usize) -> (r: Vec<u8>)
    requires
        lo <= hi <= hay@.len(),
    ensures
        r@ == hay@.subrange(lo as int, hi as int),
{
    let mut r: Vec<u8> = Vec::new();
    let mut i = lo;
    while i < hi
        invariant
            lo <= i <= hi <= hay@.len(),
            r@ == hay@.subrange(lo as int, i as int),
        decreases hi - i,
    {
        r.push(hay[i]);
        i = i + 1;
        proof {
            assert(r@ =~= hay@.subrange(lo as int, i as int));
        }
    }
    r
}

/// A table cell is a filled square when it shows the square image.
pub open spec fn filled(cell: Seq<u8>) -> bool {
    first_from(cell, "square.gif".spec_bytes(), 0) is Some
}

/// The squares of one table row, one per cell.
pub open spec fn row_of(row: Seq<u8>) -> Seq<bool> {
    group_one_captures(r"(?si)<td[^>]*>(.*?)</td>"@, row).map_values(|c: Seq<u8>| filled(c))
}

/// The rows of a shape table that have at least one cell.
pub open spec fn kept_rows(rows: Seq<Seq<u8>>) -> Seq<Seq<bool>>
    decreases rows.len(),
{
    if rows.len() == 0 {
        seq![]
    } else if row_of(rows.last()).len() > 0 {
        kept_rows(rows.drop_last()).push(row_of(rows.last()))
    } else {
        kept_rows(rows.drop_last())
    }
}

/// The shape a table draws: its rows that have cells, top to bottom.
pub open spec fn shape_of(table: Seq<u8>) -> Seq<Seq<bool>> {
    kept_rows(group_one_captures(r"(?si)<tr>(.*?)</tr>"@, table))
}

/// The shapes of the tables that have at least one row.
pub open spec fn kept_shapes(tables: Seq<Seq<u8>>) -> Seq<Seq<Seq<bool>>>
    decreases tables.len(),
{
    if tables.len() == 0 {
        seq![]
    } else if shape_of(tables.last()).len() > 0 {
        kept_shapes(tables.drop_last()).push(shape_of(tables.last()))
    } else {
        kept_shapes(tables.drop_last())
    }
}

/// The shapes drawn by the borderless shape tables of a page section.
pub open spec fn shapes_of(section: Seq<u8>) -> Seq<Seq<Seq<bool>>> {
    kept_shapes(
        group_one_captures(
            r"(?si)<table\s+border=.?0.?\s+cellpadding=.?0.?\s+cellspacing=.?0.?>(.*?)</table>"@,
            section,
        ),
    )
}

/// The squares of one row's cells.
fn parse_row(row: &[u8]) -> (r: Vec<bool>)
    ensures
        r@ == row_of(row@),
{
    let cells = capture_group_one(r"(?si)<td[^>]*>(.*?)</td>", row);
    let ghost found = group_one_captures(r"(?si)<td[^>]*>(.*?)</td>"@, row@);
    let square = "square.gif".as_bytes();
    let mut r: Vec<bool> = Vec::new();
    let mut k: usize = 0;
    while k < cells.len()
        invariant
            cells.deep_view() == found,
            square@ == "square.gif".spec_bytes(),
            0 <= k <= cells@.len(),
            r@ == found.subrange(0, k as int).map_values(|c: Seq<u8>| filled(c)),
        decreases cells@.len() - k,
    {
        let hit = find_from(cells[k].as_slice(), square, 0);
        proof {
            assert(cells@[k as int]@ == found[k as int]);
        }
        r.push(hit.is_some());
        k = k + 1;
        proof {
            assert(r@ =~= found.subrange(0, k as int).map_values(|c: Seq<u8>| filled(c)));
        }
    }
    proof {
        assert(found.subrange(0, k as int) =~= found);
    }
    r
}

/// The rows of one shape table, skipping rows without cells.
fn parse_shape(table: &[u8]) -> (r: Vec<Vec<bool>>)
    ensures
        r.deep_view() == shape_of(table@),
{
    let rows = capture_group_one(r"(?si)<tr>(.*?)</tr>", table);
    let ghost found = group_one_captures(r"(?si)<tr>(.*?)</tr>"@, table@);
    let mut shape: Vec<Vec<bool>> = Vec::new();
    let mut k: usize = 0;
    while k < rows.len()
        invariant
            rows.deep_view() == found,
            0 <= k <= rows@.len(),
            shape.deep_view() == kept_rows(found.subrange(0, k as int)),
        decreases rows@.len() - k,
    {
        let row = parse_row(rows[k].as_slice());
        proof {
            assert(rows@[k as int]@ == found[k as int]);
            assert(found.subrange(0, k + 1).drop_last() =~= found.subrange(0, k as int));
        }
        proof {
            assert(row.deep_view() =~= row@);
        }
        if row.len() > 0 {
            shape.push(row);
        }
        k = k + 1;
        proof {
            assert(shape.deep_view() =~= kept_rows(found.subrange(0, k as int)));
        }
    }
    proof {
        assert(found.subrange(0, k as int) =~= found);
    }
    shape
}

/// The shapes drawn in a page section, in page order.
pub fn parse_shape_tables(section: &[u8]) -> (r: Vec<Vec<Vec<bool>>>)
    ensures
        r.deep_view() == shapes_of(section@),
{
    let tables = capture_group_one(
        r"(?si)<table\s+border=.?0.?\s+cellpadding=.?0.?\s+cellspacing=.?0.?>(.*?)</table>",
        section,
    );
    let ghost found = group_one_captures(
        r"(?si)<table\s+border=.?0.?\s+cellpadding=.?0.?\s+cellspacing=.?0.?>(.*?)</table>"@,
        section@,
    );
    let mut shapes: Vec<Vec<Vec<bool>>> = Vec::new();
    let mut k: usize = 0;
    while k < tables.len()
        invariant
            tables.deep_view() == found,
            0 <= k <= tables@.len(),
            shapes.deep_view() == kept_shapes(found.subrange(0, k as int)),
        decreases tables@.len() - k,
    {
        let shape = parse_shape(tables[k].as_slice());
        proof {
            assert(tables@[k as int]@ == found[k as int]);
            assert(found.subrange(0, k + 1).drop_last() =~= found.subrange(0, k as int));
        }
        if shape.len() > 0 {
            shapes.push(shape);
        }
        k = k + 1;
        proof {
            assert(shapes.deep_view() =~= kept_shapes(found.subrange(0, k as int)));
        }
    }
    proof {
        assert(found.subrange(0, k as int) =~= found);
    }
    shapes
}

/// Where the active shape's section ends: at the queued shapes' heading, or
/// 2000 bytes on where there is none, and never past the page.
pub open spec fn active_end(html: Seq<u8>, ap: int) -> int {
    let e = match first_from(html, "NEXT SHAPES".spec_bytes(), 0) {
        Some(np) => np,
        None => ap + 2000,
    };
    if e < html.len() {
        e
    } else {
        html.len() as int
    }
}

/// The smaller of an index that may be missing and a bound.
pub open spec fn earlier(a: Option<int>, b: int) -> int {
    match a {
        Some(x) => if x < b {
            x
        } else {
            b
        },
        None => b,
    }
}

/// Where the queued shapes' section starting at `np` ends: at the first of
/// the page's closing landmarks after it, or at the end of the page.
pub open spec fn next_end(html: Seq<u8>, np: int) -> int {
    earlier(
        first_from(html, "rules_icon".spec_bytes(), np),
        earlier(
            first_from(html, "Back to Games".spec_bytes(), np),
            earlier(first_from(html, "shapeshifter_instruct".spec_bytes(), np), html.len() as int),
        ),
    )
}

/// The shapes of a saved game page: those of the active shape's section,
/// then those of the queued shapes' section.
pub open spec fn pieces_of(html: Seq<u8>) -> Seq<Seq<Seq<bool>>> {
    let active = match first_from(html, "ACTIVE SHAPE".spec_bytes(), 0) {
        Some(ap) => shapes_of(html.subrange(ap, active_end(html, ap))),
        None => seq![],
    };
    let next = match first_from(html, "NEXT SHAPES".spec_bytes(), 0) {
        Some(np) => shapes_of(html.subrange(np, next_end(html, np))),
        None => seq![],
    };
    active + next
}

/// The page's headings come in order: where both stand, the active shape's
/// comes first.
pub open spec fn headings_in_order(html: Seq<u8>) -> bool {
    match (first_from(html, "ACTIVE SHAPE".spec_bytes(), 0), first_from(html, "NEXT SHAPES".spec_bytes(), 0)) {
        (Some(ap), Some(np)) => ap <= np,
        _ => true,
    }
}

/// Moves the shapes of `more` to the end of `shapes`.
fn append_shapes(shapes: &mut Vec<Vec<Vec<bool>>>, more: Vec<Vec<Vec<bool>>>)
    ensures
        final(shapes).deep_view() == old(shapes).deep_view() + more.deep_view(),
{
    let mut more = more;
    let ghost added = more.deep_view();
    shapes.append(&mut more);
    proof {
        assert(shapes.deep_view() =~= old(shapes).deep_view() + added);
    }
}

/// The piece shapes of a saved game page, as rows of filled (`true`) and
/// empty squares: the active shape first, then the queued shapes.
pub fn parse_pieces(html: &[u8]) -> (r: Vec<Vec<Vec<bool>>>)
    requires
        headings_in_order(html@),
    ensures
        r.deep_view() == pieces_of(html@),
{
    let mut pieces: Vec<Vec<Vec<bool>>> = Vec::new();
    let active_pos = find_from(html, "ACTIVE SHAPE".as_bytes(), 0);
    let next_pos = find_from(html, "NEXT SHAPES".as_bytes(), 0);
    let ghost active_found = first_from(html@, "ACTIVE SHAPE".spec_bytes(), 0);
    let ghost next_found = first_from(html@, "NEXT SHAPES".spec_bytes(), 0);
    let ghost first_part: Seq<Seq<Seq<bool>>> = match active_found {
        Some(ap) => shapes_of(html@.subrange(ap, active_end(html@, ap))),
        None => seq![],
    };
    proof {
        if let (Some(ap), Some(np)) = (active_found, next_found) {
            assert(ap <= np);
        }
    }
    if let Some(ap) = active_pos {
        let bound = match next_pos {
            Some(np) => np,
            None => if ap <= usize::MAX - 2000 {
                ap + 2000
            } else {
                usize::MAX
            },
        };
        let end = if bound < html.len() {
            bound
        } else {
            html.len()
        };
        let section = bytes_between(html, ap, end);
        let shapes = parse_shape_tables(section.as_slice());
        append_shapes(&mut pieces, shapes);
    }
    proof {
        assert(pieces.deep_view() =~= first_part);
    }
    if let Some(np) = next_pos {
        let mut end = html.len();
        let rules = find_from(html, "rules_icon".as_bytes(), np);
        let back = find_from(html, "Back to Games".as_bytes(), np);
        let instructions = find_from(html, "shapeshifter_instruct".as_bytes(), np);
        if let Some(p) = instructions {
            if p < end {
                end = p;
            }
        }
        if let Some(p) = back {
            if p < end {
                end = p;
            }
        }
        if let Some(p) = rules {
            if p < end {
                end = p;
            }
        }
        let section = bytes_between(html, np, end);
        let shapes = parse_shape_tables(section.as_slice());
        append_shapes(&mut pieces, shapes);
    }
    proof {
        assert(pieces.deep_view() =~= pieces_of(html@));
    }
    pieces
}

} // verus!
