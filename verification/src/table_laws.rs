//! What the parse of an opacity file means, line by line.
//!
//! Each line, trimmed, is a table header, an axis line, a rule, a blank line,
//! a row (a line with exactly one `|` that is none of the others), or
//! something else. A table is open from a header until the first blank line
//! that follows a row of it. The results of the parse are stated here in
//! terms of these kinds of lines alone:
//!
//! - the X values are the texts after the sole `=` of the headers, in order;
//! - the row labels are the texts before the `|` of the rows read while a
//!   table is open, and the row values the words after it;
//! - the rows fall into tables: a row starts a new table when a header or a
//!   blank line stands between it and the previous row;
//! - the log R grid is the words after the `|` of the first axis line read
//!   while a table is open;
//! - the log T grid is the labels of the rows of the first table.
use vstd::prelude::*;
use crate::table::{
    axis_header, end_table, lemma_scan_lines_keeps, parse_tables, rule, scan_keeps, scan_line,
    scan_lines, scan_start, table_header, TableScan,
};
use crate::text::{after_sole, before_sole, has_sole, starts_with, trim, words};

verus! {

/// Line `i`, trimmed.
pub open spec fn line_at(lines: Seq<Seq<char>>, i: int) -> Seq<char> {
    trim(lines[i])
}

pub open spec fn is_header(l: Seq<char>) -> bool {
    starts_with(l, table_header())
}

pub open spec fn is_axis(l: Seq<char>) -> bool {
    starts_with(l, axis_header())
}

pub open spec fn is_rule(l: Seq<char>) -> bool {
    starts_with(l, rule())
}

pub open spec fn is_blank(l: Seq<char>) -> bool {
    l.len() == 0
}

/// A header or a blank line: what separates the rows of two tables.
pub open spec fn is_separator(l: Seq<char>) -> bool {
    is_header(l) || is_blank(l)
}

/// A line that is read as a row when a table is open.
pub open spec fn is_row_shaped(l: Seq<char>) -> bool {
    !is_header(l) && !is_axis(l) && !is_rule(l) && !is_blank(l) && has_sole(l, '|')
}

/// Line `b` is blank and some row-shaped line lies between line `h` and it.
pub open spec fn closes_table(lines: Seq<Seq<char>>, h: int, b: int) -> bool {
    is_blank(line_at(lines, b)) && exists|r: int| h < r < b && #[trigger] is_row_shaped(line_at(lines, r))
}

/// A table is open before line `n`: some header precedes it, and no blank
/// line between that header and line `n` follows a row.
pub open spec fn table_open_at(lines: Seq<Seq<char>>, n: int) -> bool {
    exists|h: int|
        0 <= h < n && #[trigger] is_header(line_at(lines, h)) && forall|b: int|
            h < b < n ==> !#[trigger] closes_table(lines, h, b)
}

/// Line `i` is a row of a table.
pub open spec fn is_row_line(lines: Seq<Seq<char>>, i: int) -> bool {
    table_open_at(lines, i) && is_row_shaped(line_at(lines, i))
}

/// Before line `n` some row of the open table has been read with no header
/// or blank line after it.
pub open spec fn has_open_rows(lines: Seq<Seq<char>>, n: int) -> bool {
    exists|j: int|
        0 <= j < n && #[trigger] is_row_line(lines, j) && forall|m: int|
            j < m < n ==> !is_separator(#[trigger] line_at(lines, m))
}

/// Line `i` is an axis line with one `|`, read while a table is open.
pub open spec fn is_grid_line(lines: Seq<Seq<char>>, i: int) -> bool {
    table_open_at(lines, i) && is_axis(line_at(lines, i)) && has_sole(line_at(lines, i), '|')
}

/// Line `a` is the first grid line.
pub open spec fn is_first_grid_line(lines: Seq<Seq<char>>, a: int) -> bool {
    0 <= a < lines.len() && is_grid_line(lines, a) && forall|a2: int|
        0 <= a2 < a ==> !#[trigger] is_grid_line(lines, a2)
}

/// The X values of the headers among the first `n` lines.
pub open spec fn header_xs(lines: Seq<Seq<char>>, n: int) -> Seq<Seq<char>>
    decreases n,
{
    if n <= 0 {
        Seq::empty()
    } else {
        let l = line_at(lines, n - 1);
        header_xs(lines, n - 1) + if is_header(l) && has_sole(l, '=') {
            seq![trim(after_sole(l, '='))]
        } else {
            Seq::empty()
        }
    }
}

/// The labels of the rows among the first `n` lines.
pub open spec fn row_labels_of(lines: Seq<Seq<char>>, n: int) -> Seq<Seq<char>>
    decreases n,
{
    if n <= 0 {
        Seq::empty()
    } else {
        let l = line_at(lines, n - 1);
        row_labels_of(lines, n - 1) + if is_row_line(lines, n - 1) {
            seq![trim(before_sole(l, '|'))]
        } else {
            Seq::empty()
        }
    }
}

/// The values of the rows among the first `n` lines, grouped into tables:
/// a row with no open row before it starts a table, any other row joins the
/// last table.
pub open spec fn row_groups(lines: Seq<Seq<char>>, n: int) -> Seq<Seq<Seq<Seq<char>>>>
    decreases n,
{
    if n <= 0 {
        Seq::empty()
    } else {
        let g = row_groups(lines, n - 1);
        let vals = words(after_sole(line_at(lines, n - 1), '|'));
        if !is_row_line(lines, n - 1) {
            g
        } else if !has_open_rows(lines, n - 1) {
            g.push(seq![vals])
        } else {
            g.update(g.len() - 1, g.last().push(vals))
        }
    }
}

/// The index of the last header among the first `n` lines, or -1.
pub open spec fn last_header(lines: Seq<Seq<char>>, n: int) -> int
    decreases n,
{
    if n <= 0 {
        -1
    } else if is_header(line_at(lines, n - 1)) {
        n - 1
    } else {
        last_header(lines, n - 1)
    }
}

proof fn lemma_first_char(l: Seq<char>, p: Seq<char>)
    requires
        starts_with(l, p),
        p.len() > 0,
    ensures
        l.len() > 0 && l[0] == p[0],
{
    assert(l.subrange(0, p.len() as int)[0] == l[0]);
}

/// The kinds of lines exclude one another.
proof fn lemma_kinds(l: Seq<char>)
    ensures
        is_axis(l) ==> !is_header(l),
        is_rule(l) ==> !is_header(l) && !is_axis(l),
        is_blank(l) ==> !is_header(l) && !is_axis(l) && !is_rule(l),
{
    if is_axis(l) {
        lemma_first_char(l, axis_header());
        if is_header(l) {
            lemma_first_char(l, table_header());
        }
    }
    if is_rule(l) {
        lemma_first_char(l, rule());
        if is_header(l) {
            lemma_first_char(l, table_header());
        }
        if is_axis(l) {
            lemma_first_char(l, axis_header());
        }
    }
    if is_blank(l) {
        if is_header(l) {
            lemma_first_char(l, table_header());
        }
        if is_axis(l) {
            lemma_first_char(l, axis_header());
        }
        if is_rule(l) {
            lemma_first_char(l, rule());
        }
    }
}

proof fn lemma_last_header(lines: Seq<Seq<char>>, n: int)
    requires
        0 <= n,
    ensures
        -1 <= last_header(lines, n) < n,
        last_header(lines, n) >= 0 ==> is_header(line_at(lines, last_header(lines, n))),
        forall|h: int| 0 <= h < n && #[trigger] is_header(line_at(lines, h)) ==> h <= last_header(lines, n),
    decreases n,
{
    if n > 0 {
        lemma_last_header(lines, n - 1);
    }
}

/// A table is open before line `n` exactly when the last header before it
/// has not been closed.
proof fn lemma_open_via_last(lines: Seq<Seq<char>>, n: int)
    requires
        0 <= n,
    ensures
        table_open_at(lines, n) <==> (last_header(lines, n) >= 0 && forall|b: int|
            last_header(lines, n) < b < n ==> !#[trigger] closes_table(lines, last_header(lines, n), b)),
{
    lemma_last_header(lines, n);
    let lh = last_header(lines, n);
    if table_open_at(lines, n) {
        let h = choose|h: int|
            0 <= h < n && #[trigger] is_header(line_at(lines, h)) && forall|b: int|
                h < b < n ==> !#[trigger] closes_table(lines, h, b);
        assert(h <= lh);
        assert forall|b: int| lh < b < n implies !#[trigger] closes_table(lines, lh, b) by {
            if closes_table(lines, lh, b) {
                let r = choose|r: int| lh < r < b && #[trigger] is_row_shaped(line_at(lines, r));
                assert(closes_table(lines, h, b));
            }
        }
    }
    if lh >= 0 && forall|b: int| lh < b < n ==> !#[trigger] closes_table(lines, lh, b) {
        assert(is_header(line_at(lines, lh)));
    }
}

/// The last header before `r` is the last header before `n` when no header
/// lies between them.
proof fn lemma_last_header_same(lines: Seq<Seq<char>>, r: int, n: int)
    requires
        last_header(lines, n) < r <= n,
    ensures
        last_header(lines, r) == last_header(lines, n),
{
    lemma_last_header(lines, n);
    lemma_last_header(lines, r);
    let a = last_header(lines, r);
    let b = last_header(lines, n);
    if a >= 0 {
        assert(is_header(line_at(lines, a)));
        assert(a <= b);
    }
    if b >= 0 {
        assert(is_header(line_at(lines, b)));
        assert(b <= a);
    }
}

/// How line `n` changes whether a table is open.
proof fn lemma_open_step(lines: Seq<Seq<char>>, n: int)
    requires
        0 <= n < lines.len(),
    ensures
        is_header(line_at(lines, n)) ==> table_open_at(lines, n + 1),
        !is_header(line_at(lines, n)) && !is_blank(line_at(lines, n)) ==> (table_open_at(lines, n + 1)
            == table_open_at(lines, n)),
        is_blank(line_at(lines, n)) ==> (table_open_at(lines, n + 1) == (table_open_at(lines, n)
            && !has_open_rows(lines, n))),
{
    let l = line_at(lines, n);
    lemma_kinds(l);
    if is_header(l) {
        assert forall|b: int| n < b < n + 1 implies !#[trigger] closes_table(lines, n, b) by {}
        assert(table_open_at(lines, n + 1));
    } else {
        lemma_open_via_last(lines, n);
        lemma_open_via_last(lines, n + 1);
        lemma_last_header(lines, n);
        assert(last_header(lines, n + 1) == last_header(lines, n));
        let lh = last_header(lines, n);
        if !is_blank(l) {
            assert(!closes_table(lines, lh, n));
            if table_open_at(lines, n) {
                assert forall|b: int| lh < b < n + 1 implies !#[trigger] closes_table(lines, lh, b) by {
                    if b < n {
                    }
                }
            }
        } else {
            if table_open_at(lines, n) {
                // A row-shaped line after the last header is an open row.
                if closes_table(lines, lh, n) {
                    let r = choose|r: int| lh < r < n && #[trigger] is_row_shaped(line_at(lines, r));
                    lemma_last_header_same(lines, r, n);
                    lemma_open_via_last(lines, r);
                    assert forall|b: int| lh < b < r implies !#[trigger] closes_table(lines, lh, b) by {}
                    assert(is_row_line(lines, r));
                    assert forall|m: int| r < m < n implies !is_separator(#[trigger] line_at(lines, m)) by {
                        if is_header(line_at(lines, m)) {
                            assert(m <= lh);
                        }
                        if is_blank(line_at(lines, m)) {
                            assert(closes_table(lines, lh, m));
                        }
                    }
                    assert(has_open_rows(lines, n));
                }
                if has_open_rows(lines, n) {
                    let j = choose|j: int|
                        0 <= j < n && #[trigger] is_row_line(lines, j) && forall|m: int|
                            j < m < n ==> !is_separator(#[trigger] line_at(lines, m));
                    if j <= lh {
                        assert(is_header(line_at(lines, lh)));
                        assert(!is_separator(line_at(lines, lh)) || j == lh);
                    }
                    assert(lh < j);
                    assert(closes_table(lines, lh, n));
                }
                if !has_open_rows(lines, n) {
                    assert forall|b: int| lh < b < n + 1 implies !#[trigger] closes_table(lines, lh, b) by {
                        if b < n {
                        }
                    }
                }
            }
        }
    }
}

/// How line `n` changes whether open rows are pending.
proof fn lemma_open_rows_step(lines: Seq<Seq<char>>, n: int)
    requires
        0 <= n < lines.len(),
    ensures
        is_separator(line_at(lines, n)) ==> !has_open_rows(lines, n + 1),
        is_row_line(lines, n) ==> has_open_rows(lines, n + 1),
        !is_separator(line_at(lines, n)) && !is_row_line(lines, n) ==> (has_open_rows(lines, n + 1)
            == has_open_rows(lines, n)),
{
    let l = line_at(lines, n);
    if is_separator(l) {
        if has_open_rows(lines, n + 1) {
            let j = choose|j: int|
                0 <= j < n + 1 && #[trigger] is_row_line(lines, j) && forall|m: int|
                    j < m < n + 1 ==> !is_separator(#[trigger] line_at(lines, m));
            if j < n {
                assert(!is_separator(line_at(lines, n)));
            }
        }
    }
    if is_row_line(lines, n) {
        assert forall|m: int| n < m < n + 1 implies !is_separator(#[trigger] line_at(lines, m)) by {}
    }
    if !is_separator(l) && !is_row_line(lines, n) {
        if has_open_rows(lines, n + 1) {
            let j = choose|j: int|
                0 <= j < n + 1 && #[trigger] is_row_line(lines, j) && forall|m: int|
                    j < m < n + 1 ==> !is_separator(#[trigger] line_at(lines, m));
            assert(j < n);
            assert(has_open_rows(lines, n));
        }
        if has_open_rows(lines, n) {
            let j = choose|j: int|
                0 <= j < n && #[trigger] is_row_line(lines, j) && forall|m: int|
                    j < m < n ==> !is_separator(#[trigger] line_at(lines, m));
            assert forall|m: int| j < m < n + 1 implies !is_separator(#[trigger] line_at(lines, m)) by {
                if m < n {
                }
            }
        }
    }
}

/// The scan state after the first `n` lines agrees with the line-by-line
/// meaning of those lines.
pub open spec fn agrees_with_lines(st: TableScan, lines: Seq<Seq<char>>, n: int) -> bool {
    &&& st.in_table == table_open_at(lines, n)
    &&& (st.current.len() > 0) == has_open_rows(lines, n)
    &&& row_groups(lines, n) == (if st.current.len() > 0 {
        st.tokens.kappas.push(st.current)
    } else {
        st.tokens.kappas
    })
    &&& st.tokens.xs == header_xs(lines, n)
    &&& st.tokens.row_labels == row_labels_of(lines, n)
    &&& st.parsed_log_rs == exists|a: int| 0 <= a < n && #[trigger] is_grid_line(lines, a)
    &&& forall|a: int| 0 <= a < n && #[trigger] is_first_grid_line(lines, a) ==> st.tokens.log_rs == words(
        after_sole(line_at(lines, a), '|'),
    )
    &&& !st.parsed_log_rs ==> st.tokens.log_rs.len() == 0
}

proof fn lemma_prefix(lines: Seq<Seq<char>>, n: int)
    requires
        0 <= n <= lines.len(),
    ensures
        agrees_with_lines(scan_lines(lines.take(n)), lines, n),
        scan_keeps(scan_lines(lines.take(n))),
    decreases n,
{
    lemma_scan_lines_keeps(lines.take(n));
    if n == 0 {
        assert(lines.take(0).len() == 0);
        let st = scan_start();
        assert(!table_open_at(lines, 0));
        assert(!has_open_rows(lines, 0));
        assert(st.tokens.kappas =~= row_groups(lines, 0));
    } else {
        let i = n - 1;
        lemma_prefix(lines, i);
        assert(lines.take(n).drop_last() =~= lines.take(i));
        assert(lines.take(n).last() == lines[i]);
        let st = scan_lines(lines.take(i));
        let st2 = scan_line(st, lines[i]);
        assert(scan_lines(lines.take(n)) == st2);
        lemma_step(lines, i, st);
    }
}

proof fn lemma_step(lines: Seq<Seq<char>>, i: int, st: TableScan)
    requires
        0 <= i < lines.len(),
        agrees_with_lines(st, lines, i),
        scan_keeps(st),
    ensures
        agrees_with_lines(scan_line(st, lines[i]), lines, i + 1),
{
    let l = line_at(lines, i);
    let st2 = scan_line(st, lines[i]);
    let n = i + 1;
    lemma_kinds(l);
    lemma_open_step(lines, i);
    lemma_open_rows_step(lines, i);
    let g = row_groups(lines, i);
    let vals = words(after_sole(l, '|'));
    // No row other than at a row line, no grid line other than at an axis line.
    if !is_row_line(lines, i) {
        assert(row_groups(lines, n) == g);
        assert(row_labels_of(lines, n) =~= row_labels_of(lines, i));
    }
    if !(is_header(l) && has_sole(l, '=')) {
        assert(header_xs(lines, n) =~= header_xs(lines, i));
    }
    let parsed_before = exists|a: int| 0 <= a < i && #[trigger] is_grid_line(lines, a);
    if !is_grid_line(lines, i) {
        assert((exists|a: int| 0 <= a < n && #[trigger] is_grid_line(lines, a)) == parsed_before) by {
            if exists|a: int| 0 <= a < n && #[trigger] is_grid_line(lines, a) {
                let a = choose|a: int| 0 <= a < n && #[trigger] is_grid_line(lines, a);
                assert(a < i);
            }
        }
        assert forall|a: int| 0 <= a < n && #[trigger] is_first_grid_line(lines, a) implies st2.tokens.log_rs
            == words(after_sole(line_at(lines, a), '|')) by {
            assert(a < i);
        }
    }
    if is_header(l) {
        assert(st2.current.len() == 0);
        if has_sole(l, '=') {
            assert(header_xs(lines, n) =~= header_xs(lines, i).push(trim(after_sole(l, '='))));
        }
    } else if !st.in_table {
        assert(!is_row_line(lines, i));
        assert(!is_grid_line(lines, i));
    } else if is_axis(l) {
        assert(!is_row_shaped(l));
        if is_grid_line(lines, i) {
            assert((exists|a: int| 0 <= a < n && #[trigger] is_grid_line(lines, a)));
            if !st.parsed_log_rs {
                assert(is_first_grid_line(lines, i));
                assert(st2.tokens.log_rs =~= vals);
                assert forall|a: int| 0 <= a < n && #[trigger] is_first_grid_line(lines, a) implies st2.tokens.log_rs
                    == words(after_sole(line_at(lines, a), '|')) by {
                    if a < i {
                        assert(is_grid_line(lines, a));
                    }
                }
            } else {
                assert forall|a: int| 0 <= a < n && #[trigger] is_first_grid_line(lines, a) implies st2.tokens.log_rs
                    == words(after_sole(line_at(lines, a), '|')) by {
                    if a == i {
                        let a2 = choose|a2: int| 0 <= a2 < i && #[trigger] is_grid_line(lines, a2);
                        assert(!is_grid_line(lines, a2));
                    }
                }
            }
        }
    } else if is_rule(l) {
    } else if is_blank(l) {
        if st.current.len() > 0 {
            assert(end_table(st).tokens.kappas == st.tokens.kappas.push(st.current));
        }
    } else if has_sole(l, '|') {
        assert(is_row_shaped(l));
        assert(is_row_line(lines, i));
        assert(row_labels_of(lines, n) =~= row_labels_of(lines, i).push(trim(before_sole(l, '|'))));
        if st.current.len() == 0 {
            assert(st.current.push(vals) =~= seq![vals]);
            assert(row_groups(lines, n) == g.push(seq![vals]));
        } else {
            assert(row_groups(lines, n) == g.update(g.len() - 1, g.last().push(vals)));
            assert(g.update(g.len() - 1, g.last().push(vals)) =~= st.tokens.kappas.push(
                st.current.push(vals),
            ));
        }
    } else {
        assert(!is_row_shaped(l));
    }
}

/// The parse of an opacity file, stated by the kinds of its lines: the X
/// values are those of the headers with a sole `=`, in order; the row
/// labels are those of all rows read in open tables, in order; the tables
/// are the groups of rows between headers and blank lines; the log T grid
/// is the labels of the rows of the first table; the log R grid is the
/// words of the first axis line read in an open table, if any.
pub proof fn parse_tables_reads_lines(lines: Seq<Seq<char>>)
    ensures
        ({
            let t = parse_tables(lines);
            let n = lines.len() as int;
            &&& t.xs == header_xs(lines, n)
            &&& t.row_labels == row_labels_of(lines, n)
            &&& t.kappas == row_groups(lines, n)
            &&& t.log_ts == (if t.kappas.len() > 0 {
                row_labels_of(lines, n).take(row_groups(lines, n)[0].len() as int)
            } else {
                row_labels_of(lines, n)
            })
            &&& forall|a: int| #[trigger] is_first_grid_line(lines, a) ==> t.log_rs == words(
                after_sole(line_at(lines, a), '|'),
            )
            &&& (forall|a: int| 0 <= a < n ==> !#[trigger] is_grid_line(lines, a)) ==> t.log_rs.len() == 0
        }),
{
    let n = lines.len() as int;
    lemma_prefix(lines, n);
    assert(lines.take(n) =~= lines);
    let st = scan_lines(lines);
    crate::table::parsed_tables_are_consistent(lines);
    if st.current.len() > 0 {
        assert(st.in_table);
    }
    if forall|a: int| 0 <= a < n ==> !#[trigger] is_grid_line(lines, a) {
        assert(!st.parsed_log_rs);
    }
}

} // verus!
