//! The icon cycle of a saved page: the icons in the order a cell steps
//! through them, the value each icon stands for, and the icon of each value.

use vstd::prelude::*;
use vstd::string::StringSliceAdditionalSpecFns;
use crate::page::{capture_group_one, copy_bytes, find_from, first_from, group_one_captures, bytes_between};
use crate::page_bytes::{bytes_equal, bytes_less, last_within, lex_lt, lemma_lex_total, lemma_lex_transitive, rfind_within};
use crate::model::board::applied_value;

verus! {

/// Why a saved page cannot be read as a puzzle.
#[derive(Clone, Copy, Debug, PartialEq, Eq, Structural)]
pub enum PageError {
    /// A number on the page is not plain decimal digits, or does not fit.
    BadNumber,
    /// The page shows a finished game.
    YouWon,
    /// The board width is missing.
    MissingWidth,
    /// The board height is missing.
    MissingHeight,
    /// The goal table names no icon.
    NoCycleIcons,
    /// The queued shapes come before the active shape.
    HeadingsOutOfOrder,
}

/// The table holding the GOAL marker: from the last `<table` in the 2000
/// bytes before the marker to the end of the first `</table>` after it.
pub open spec fn goal_table(html: Seq<u8>) -> Option<(int, int)> {
    match first_from(html, "GOAL".spec_bytes(), 0) {
        Some(gp) => {
            let lo = if gp >= 2000 {
                gp - 2000
            } else {
                0
            };
            match (last_within(html, "<table".spec_bytes(), lo, gp), first_from(html, "</table>".spec_bytes(), gp)) {
                (Some(s), Some(e)) => Some((s, e + "</table>".spec_bytes().len())),
                _ => None,
            }
        },
        None => None,
    }
}

/// The names, without those that are the arrow.
pub open spec fn without_arrow(names: Seq<Seq<u8>>) -> Seq<Seq<u8>>
    decreases names.len(),
{
    if names.len() == 0 {
        seq![]
    } else if names.last() == "arrow".spec_bytes() {
        without_arrow(names.drop_last())
    } else {
        without_arrow(names.drop_last()).push(names.last())
    }
}

/// The icons of the goal table, in cycle order.
pub open spec fn cycle_names(section: Seq<u8>) -> Seq<Seq<u8>> {
    without_arrow(group_one_captures(r"/(\w+)_0\.gif"@, section))
}

/// The goal icon: the one marked GOAL, else the middle icon of the cycle.
pub open spec fn goal_name(section: Seq<u8>) -> Option<Seq<u8>> {
    let marked = group_one_captures(r"/(\w+)_0\.gif[^>]*>[^<]*<br><b><small>GOAL"@, section);
    let names = cycle_names(section);
    if marked.len() > 0 {
        Some(marked[0])
    } else if names.len() > 0 {
        Some(names[(names.len() / 2) as int])
    } else {
        None
    }
}

/// The cycle without a last icon that repeats the first.
pub open spec fn trimmed(names: Seq<Seq<u8>>) -> Seq<Seq<u8>> {
    if names.len() > 1 && names.last() == names[0] {
        names.drop_last()
    } else {
        names
    }
}

/// The first index at or after `i` holding `x`, else 0.
pub open spec fn position_from(names: Seq<Seq<u8>>, x: Seq<u8>, i: int) -> int
    decreases names.len() - i,
{
    if i < 0 || i >= names.len() {
        0
    } else if names[i] == x {
        i
    } else {
        position_from(names, x, i + 1)
    }
}

/// The icon cycle read from the goal table: `m` is the number of icons (as
/// a byte); offset `o` from the goal icon stands for value `(m - o) % m`,
/// and value `v` is shown by the icon at offset `(m - v) % m`.
pub open spec fn cycle_result(c: (u8, Vec<(Vec<u8>, u8)>, Vec<Vec<u8>>), cycle: Seq<Seq<u8>>, goal: Seq<u8>) -> bool {
    let m = (cycle.len() % 256) as int;
    let gi = position_from(cycle, goal, 0);
    &&& c.0 == m
    &&& c.1@.len() == m
    &&& forall|o: int|
        0 <= o < m ==> (#[trigger] c.1@[o]).0@ == cycle[(gi + o) % m] && c.1@[o].1 == (m - o) % m
    &&& c.2@.len() == m
    &&& forall|v: int| 0 <= v < m ==> (#[trigger] c.2@[v])@ == cycle[(gi + (m - v) % m) % m]
}

/// The first position from `i` on holds `x` where some position does.
proof fn lemma_position_found(names: Seq<Seq<u8>>, x: Seq<u8>, i: int, j: int)
    requires
        0 <= i <= j < names.len(),
        names[j] == x,
    ensures
        i <= position_from(names, x, i) <= j,
        names[position_from(names, x, i)] == x,
    decreases j - i,
{
    if names[i] != x {
        lemma_position_found(names, x, i + 1, j);
    }
}

/// Read off a goal table, the icons step down the values: the goal icon
/// stands for 0, each icon stands for one less (modulo the cycle's length)
/// than the icon before it in the table, so that placing a piece over a cell
/// moves its icon one step along the cycle; and the icon listed for value
/// `v` is one that stands for `v`.
pub proof fn lemma_cycle_steps(c: (u8, Vec<(Vec<u8>, u8)>, Vec<Vec<u8>>), cycle: Seq<Seq<u8>>, goal: Seq<u8>)
    requires
        cycle_result(c, cycle, goal),
        c.0 >= 1,
    ensures
        c.1@[0].1 == 0,
        cycle.contains(goal) && cycle.len() < 256 ==> c.1@[0].0@ == goal,
        forall|o: int|
            0 <= o < c.0 ==> #[trigger] c.1@[(o + 1) % (c.0 as int)].1 == applied_value(
                c.1@[o].1 as int,
                c.0 as int,
                true,
            ),
        forall|o: int|
            0 <= o < c.0 ==> #[trigger] c.1@[(o + 1) % (c.0 as int)].0@ == cycle[(position_from(cycle, goal, 0) + o
                + 1) % (c.0 as int)],
        forall|v: int|
            0 <= v < c.0 ==> exists|o: int| 0 <= o < c.0 && c.1@[o].0@ == #[trigger] c.2@[v]@ && c.1@[o].1 == v,
{
    let m = c.0 as int;
    let gi = position_from(cycle, goal, 0);
    vstd::arithmetic::div_mod::lemma_mod_self_0(m);
    vstd::arithmetic::div_mod::lemma_small_mod(0, m as nat);
    assert(c.1@[0].1 == (m - 0) % m);
    if cycle.contains(goal) && cycle.len() < 256 {
        let j = choose|j: int| 0 <= j < cycle.len() && cycle[j] == goal;
        lemma_position_found(cycle, goal, 0, j);
        vstd::arithmetic::div_mod::lemma_small_mod(gi as nat, m as nat);
        assert(c.1@[0].0@ == cycle[(gi + 0) % m]);
    }
    assert forall|o: int| 0 <= o < m implies #[trigger] c.1@[(o + 1) % m].1 == applied_value(c.1@[o].1 as int, m, true)
        && c.1@[(o + 1) % m].0@ == cycle[(gi + o + 1) % m] by {
        let o1 = (o + 1) % m;
        vstd::arithmetic::div_mod::lemma_mod_bound(o + 1, m);
        assert(c.1@[o1].0@ == cycle[(gi + o1) % m]);
        vstd::arithmetic::div_mod::lemma_add_mod_noop(gi, o + 1, m);
        vstd::arithmetic::div_mod::lemma_mod_twice(o + 1, m);
        vstd::arithmetic::div_mod::lemma_add_mod_noop(gi, o1, m);
        if o + 1 < m {
            vstd::arithmetic::div_mod::lemma_small_mod((o + 1) as nat, m as nat);
            vstd::arithmetic::div_mod::lemma_small_mod((m - o - 1) as nat, m as nat);
            if o == 0 {
                assert(c.1@[0].1 == 0);
            } else {
                vstd::arithmetic::div_mod::lemma_small_mod((m - o) as nat, m as nat);
                assert(c.1@[o].1 == m - o);
            }
        } else {
            assert(o1 == 0);
            if m == 1 {
                assert(c.1@[o].1 == 0);
            } else {
                vstd::arithmetic::div_mod::lemma_small_mod(1, m as nat);
                assert(c.1@[o].1 == 1);
            }
        }
    }
    assert forall|v: int| 0 <= v < m implies exists|o: int| 0 <= o < m && c.1@[o].0@ == #[trigger] c.2@[v]@ && c.1@[o].1
        == v by {
        let o = (m - v) % m;
        vstd::arithmetic::div_mod::lemma_mod_bound(m - v, m);
        if v == 0 {
            assert(o == 0);
        } else {
            vstd::arithmetic::div_mod::lemma_small_mod((m - v) as nat, m as nat);
            vstd::arithmetic::div_mod::lemma_small_mod(v as nat, m as nat);
        }
        assert(c.1@[o].0@ == cycle[(gi + o) % m]);
        assert(c.2@[v]@ == cycle[(gi + (m - v) % m) % m]);
    }
}

/// A page with a goal table is read into a cycle that steps down the values
/// as `lemma_cycle_steps` says.
pub proof fn lemma_read_cycle_steps(html: Seq<u8>, c: (u8, Vec<(Vec<u8>, u8)>, Vec<Vec<u8>>))
    requires
        icon_cycle_read(html, Ok(c)),
        goal_table(html) is Some,
        c.0 >= 1,
    ensures
        c.1@[0].1 == 0,
        forall|o: int|
            0 <= o < c.0 ==> #[trigger] c.1@[(o + 1) % (c.0 as int)].1 == applied_value(
                c.1@[o].1 as int,
                c.0 as int,
                true,
            ),
        forall|v: int|
            0 <= v < c.0 ==> exists|o: int| 0 <= o < c.0 && c.1@[o].0@ == #[trigger] c.2@[v]@ && c.1@[o].1 == v,
{
    let (st, en) = goal_table(html).unwrap();
    let section = html.subrange(st, en);
    let goal = goal_name(section).unwrap();
    lemma_cycle_steps(c, trimmed(cycle_names(section)), goal);
}

/// `sd` holds, in strictly increasing byte order, each name of `all` once.
pub open spec fn sorted_distinct(sd: Seq<Seq<u8>>, all: Seq<Seq<u8>>) -> bool {
    &&& forall|a: int, b: int| 0 <= a < b < sd.len() ==> lex_lt(#[trigger] sd[a], #[trigger] sd[b])
    &&& forall|x: Seq<u8>| #[trigger] sd.contains(x) <==> all.contains(x)
}

/// The icons read off the cell assignments where the page has no goal
/// table: each name once, in byte order, standing for its position.
pub open spec fn fallback_result(c: (u8, Vec<(Vec<u8>, u8)>, Vec<Vec<u8>>), all: Seq<Seq<u8>>) -> bool {
    &&& sorted_distinct(c.2.deep_view(), all)
    &&& c.0 == c.2@.len() % 256
    &&& c.1@.len() == c.2@.len()
    &&& forall|i: int| 0 <= i < c.2@.len() ==> (#[trigger] c.1@[i]).0@ == c.2@[i]@ && c.1@[i].1 == i % 256
}

/// The names of the cell assignments on the page.
pub open spec fn assigned_names(html: Seq<u8>) -> Seq<Seq<u8>> {
    group_one_captures(r#"imgLocStr\[\d+\]\[\d+\]\s*=\s*"(\w+)""#@, html)
}

/// What reading the icon cycle of `html` gives.
pub open spec fn icon_cycle_read(html: Seq<u8>, r: Result<(u8, Vec<(Vec<u8>, u8)>, Vec<Vec<u8>>), PageError>) -> bool {
    match goal_table(html) {
        Some((s, e)) => {
            let section = html.subrange(s, e);
            match goal_name(section) {
                Some(goal) => r matches Ok(c) && cycle_result(c, trimmed(cycle_names(section)), goal),
                None => r == Err::<(u8, Vec<(Vec<u8>, u8)>, Vec<Vec<u8>>), PageError>(PageError::NoCycleIcons),
            }
        },
        None => r matches Ok(c) && fallback_result(c, assigned_names(html)),
    }
}

/// The names that are not the arrow.
fn drop_arrows(names: &Vec<Vec<u8>>) -> (r: Vec<Vec<u8>>)
    ensures
        r.deep_view() == without_arrow(names.deep_view()),
{
    let arrow = "arrow".as_bytes();
    let ghost all = names.deep_view();
    let mut r: Vec<Vec<u8>> = Vec::new();
    let mut k: usize = 0;
    while k < names.len()
        invariant
            arrow@ == "arrow".spec_bytes(),
            all == names.deep_view(),
            0 <= k <= names@.len(),
            r.deep_view() == without_arrow(all.take(k as int)),
        decreases names@.len() - k,
    {
        proof {
            assert(all.take(k + 1).drop_last() =~= all.take(k as int));
            assert(names@[k as int]@ == all[k as int]);
        }
        if !bytes_equal(names[k].as_slice(), arrow) {
            let ghost before = r.deep_view();
            r.push(copy_bytes(&names[k]));
            proof {
                assert(r.deep_view() =~= before.push(all[k as int]));
            }
        }
        k = k + 1;
    }
    proof {
        assert(all.take(k as int) =~= all);
    }
    r
}

/// The first index holding `x`, else 0.
fn position_of(names: &Vec<Vec<u8>>, x: &Vec<u8>) -> (r: usize)
    ensures
        r == position_from(names.deep_view(), x@, 0),
        names@.len() > 0 ==> r < names@.len(),
{
    let ghost all = names.deep_view();
    let mut i: usize = 0;
    while i < names.len()
        invariant
            all == names.deep_view(),
            0 <= i <= names@.len(),
            position_from(all, x@, 0) == position_from(all, x@, i as int),
        decreases names@.len() - i,
    {
        proof {
            assert(names@[i as int]@ == all[i as int]);
        }
        if bytes_equal(names[i].as_slice(), x.as_slice()) {
            return i;
        }
        i = i + 1;
    }
    0
}

/// Each name of `all` once, in byte order.
fn sort_distinct(all: &Vec<Vec<u8>>) -> (r: Vec<Vec<u8>>)
    ensures
        sorted_distinct(r.deep_view(), all.deep_view()),
{
    let ghost src = all.deep_view();
    let mut sd: Vec<Vec<u8>> = Vec::new();
    let mut k: usize = 0;
    while k < all.len()
        invariant
            src == all.deep_view(),
            0 <= k <= all@.len(),
            sorted_distinct(sd.deep_view(), src.take(k as int)),
        decreases all@.len() - k,
    {
        let ghost g = sd.deep_view();
        let ghost x = src[k as int];
        let ghost t1 = src.take(k + 1);
        let ghost t0 = src.take(k as int);
        proof {
            assert(all@[k as int]@ == x);
        }
        let mut pos: usize = 0;
        while pos < sd.len() && bytes_less(sd[pos].as_slice(), all[k].as_slice())
            invariant
                g == sd.deep_view(),
                k < all@.len(),
                x == all@[k as int]@,
                0 <= pos <= g.len(),
                forall|a: int| 0 <= a < pos ==> lex_lt(#[trigger] g[a], x),
            decreases g.len() - pos,
        {
            proof {
                assert(sd@[pos as int]@ == g[pos as int]);
            }
            pos = pos + 1;
        }
        let present = pos < sd.len() && bytes_equal(sd[pos].as_slice(), all[k].as_slice());
        proof {
            assert(t1 =~= t0.push(x));
            if pos < g.len() {
                assert(sd@[pos as int]@ == g[pos as int]);
            }
        }
        if present {
            proof {
                assert(g.contains(x)) by {
                    assert(g[pos as int] == x);
                }
                assert forall|y: Seq<u8>| #[trigger] g.contains(y) <==> t1.contains(y) by {
                    if t1.contains(y) {
                        let j = choose|j: int| #![auto] 0 <= j < t1.len() && t1[j] == y;
                        if j < k {
                            assert(t0[j] == y);
                        }
                    }
                    if g.contains(y) {
                        assert(t0.contains(y));
                        let j = choose|j: int| #![auto] 0 <= j < t0.len() && t0[j] == y;
                        assert(t1[j] == y);
                    }
                }
            }
        } else {
            proof {
                // Everything from `pos` on sorts after `x`.
                assert forall|a: int| pos <= a < g.len() implies lex_lt(x, #[trigger] g[a]) by {
                    lemma_lex_total(g[pos as int], x);
                    if a > pos {
                        lemma_lex_transitive(x, g[pos as int], g[a]);
                    }
                }
            }
            let item = copy_bytes(&all[k]);
            sd.insert(pos, item);
            proof {
                let n = sd.deep_view();
                assert(n =~= g.insert(pos as int, x));
                assert forall|a: int, b: int| 0 <= a < b < n.len() implies lex_lt(#[trigger] n[a], #[trigger] n[b]) by {
                    if a < pos && b > pos {
                        lemma_lex_transitive(g[a], x, g[b - 1]);
                    }
                }
                assert forall|y: Seq<u8>| #[trigger] n.contains(y) <==> t1.contains(y) by {
                    if n.contains(y) {
                        let j = choose|j: int| #![auto] 0 <= j < n.len() && n[j] == y;
                        if j < pos {
                            assert(g[j] == y);
                            assert(g.contains(y));
                        } else if j > pos {
                            assert(g[j - 1] == y);
                            assert(g.contains(y));
                        } else {
                            assert(t1[k as int] == y);
                        }
                        if g.contains(y) {
                            let i = choose|i: int| #![auto] 0 <= i < t0.len() && t0[i] == y;
                            assert(t1[i] == y);
                        }
                    }
                    if t1.contains(y) {
                        let j = choose|j: int| #![auto] 0 <= j < t1.len() && t1[j] == y;
                        if j < k {
                            assert(t0[j] == y);
                            assert(g.contains(y));
                            let i = choose|i: int| #![auto] 0 <= i < g.len() && g[i] == y;
                            if i < pos {
                                assert(n[i] == y);
                            } else {
                                assert(n[i + 1] == y);
                            }
                        } else {
                            assert(n[pos as int] == y);
                        }
                    }
                }
            }
        }
        k = k + 1;
    }
    proof {
        assert(src.take(k as int) =~= src);
    }
    sd
}

/// Read the icon cycle: from the table holding the GOAL marker where there
/// is one, else from the icons the cells are assigned. Returns the number
/// of icons (as a byte), each icon with the value it stands for, and the
/// icon of each value.
pub fn parse_icon_cycle(html: &[u8]) -> (r: Result<(u8, Vec<(Vec<u8>, u8)>, Vec<Vec<u8>>), PageError>)
    ensures
        icon_cycle_read(html@, r),
{
    let goal_marker = "GOAL".as_bytes();
    let open_marker = "<table".as_bytes();
    let close_marker = "</table>".as_bytes();
    if let Some(gp) = find_from(html, goal_marker, 0) {
        let lo = if gp >= 2000 {
            gp - 2000
        } else {
            0
        };
        let table_start = rfind_within(html, open_marker, lo, gp);
        let table_close = find_from(html, close_marker, gp);
        if let (Some(start), Some(close)) = (table_start, table_close) {
            let total = html.len();
            proof {
                assert(close + close_marker@.len() <= html@.len());
                assert(total == html@.len());
                assert(start <= gp <= close);
            }
            let end = close + close_marker.len();
            let section = bytes_between(html, start, end);
            let ghost sec = html@.subrange(start as int, end as int);
            let captured = capture_group_one(r"/(\w+)_0\.gif", section.as_slice());
            let mut names = drop_arrows(&captured);
            let marked = capture_group_one(r"/(\w+)_0\.gif[^>]*>[^<]*<br><b><small>GOAL", section.as_slice());
            let goal = if marked.len() > 0 {
                proof {
                    assert(marked@[0]@ == marked.deep_view()[0]);
                }
                copy_bytes(&marked[0])
            } else if names.len() > 0 {
                proof {
                    assert(names@[(names@.len() / 2) as int]@ == names.deep_view()[(names@.len() / 2) as int]);
                }
                copy_bytes(&names[names.len() / 2])
            } else {
                return Err(PageError::NoCycleIcons);
            };
            let ghost full = names.deep_view();
            if names.len() > 1 && bytes_equal(names[names.len() - 1].as_slice(), names[0].as_slice()) {
                proof {
                    assert(names@[names@.len() - 1]@ == full.last());
                    assert(names@[0]@ == full[0]);
                }
                names.pop();
                proof {
                    assert(names.deep_view() =~= full.drop_last());
                }
            } else {
                proof {
                    if names@.len() > 1 {
                        assert(names@[names@.len() - 1]@ == full.last());
                        assert(names@[0]@ == full[0]);
                    }
                }
            }
            let ghost cycle = names.deep_view();
            proof {
                assert(cycle == trimmed(full));
            }
            let count = names.len() % 256;
            let m = count as u8;
            let goal_index = position_of(&names, &goal);
            let mut entries: Vec<(Vec<u8>, u8)> = Vec::new();
            let mut list: Vec<Vec<u8>> = Vec::new();
            let mut o: usize = 0;
            while o < count
                invariant
                    cycle == names.deep_view(),
                    count == cycle.len() % 256,
                    count <= cycle.len(),
                    goal_index == position_from(cycle, goal@, 0),
                    cycle.len() > 0 ==> goal_index < cycle.len(),
                    0 <= o <= count,
                    entries@.len() == o,
                    list@.len() == o,
                    forall|j: int|
                        0 <= j < o ==> (#[trigger] entries@[j]).0@ == cycle[(goal_index + j) % (count as int)]
                            && entries@[j].1 == (count - j) % (count as int),
                    forall|v: int|
                        0 <= v < o ==> (#[trigger] list@[v])@ == cycle[(goal_index + (count - v) % (count as int)) % (count as int)],
                decreases count - o,
            {
                let base = goal_index % count;
                let idx = (base + o) % count;
                let value = ((count - o) % count) as u8;
                proof {
                    vstd::arithmetic::div_mod::lemma_add_mod_noop(goal_index as int, o as int, count as int);
                    vstd::arithmetic::div_mod::lemma_mod_twice(goal_index as int, count as int);
                    vstd::arithmetic::div_mod::lemma_add_mod_noop(base as int, o as int, count as int);
                    vstd::arithmetic::div_mod::lemma_mod_bound(goal_index as int, count as int);
                }
                proof {
                    assert(names@[idx as int]@ == cycle[idx as int]);
                }
                entries.push((copy_bytes(&names[idx]), value));
                let back = (count - o) % count;
                let shown = (base + back) % count;
                proof {
                    vstd::arithmetic::div_mod::lemma_add_mod_noop(goal_index as int, back as int, count as int);
                    vstd::arithmetic::div_mod::lemma_add_mod_noop(base as int, back as int, count as int);
                }
                proof {
                    assert(names@[shown as int]@ == cycle[shown as int]);
                }
                list.push(copy_bytes(&names[shown]));
                o = o + 1;
            }
            return Ok((m, entries, list));
        }
    }
    let assigned = capture_group_one(r#"imgLocStr\[\d+\]\[\d+\]\s*=\s*"(\w+)""#, html);
    let list = sort_distinct(&assigned);
    let mut entries: Vec<(Vec<u8>, u8)> = Vec::new();
    let mut i: usize = 0;
    while i < list.len()
        invariant
            0 <= i <= list@.len(),
            entries@.len() == i,
            forall|j: int| 0 <= j < i ==> (#[trigger] entries@[j]).0@ == list@[j]@ && entries@[j].1 == j % 256,
        decreases list@.len() - i,
    {
        entries.push((copy_bytes(&list[i]), (i % 256) as u8));
        i = i + 1;
    }
    let m = (list.len() % 256) as u8;
    Ok((m, entries, list))
}

} // verus!
