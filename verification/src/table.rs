//! The text format of tabulated Rosseland-mean opacities.
//!
//! A file holds one table per hydrogen fraction X:
//!
//! ```text
//! Table for X = 0.70
//! logT / logR | -8.0 -7.5 ...
//! -----------------------------
//! 3.75 | -3.1 -2.9 ...
//! 3.80 | -2.8 -2.6 ...
//!
//! Table for X = 0.35
//! ...
//! ```
//!
//! Lines are compared after trimming white space. A header line starts a
//! table; the first axis line gives the log R grid; rule lines are skipped;
//! each row line gives a log T label and the log kappa values of that row;
//! an empty line ends a table. The parse is done on characters and keeps
//! every number as the text of its token, so that the caller converts each
//! token to a float.
use vstd::prelude::*;
use crate::text::{
    after_sole, before_sole, chars_start_with, find_sole, has_sole, split_words, starts_with,
    sub_chars, tokens_view, trim, trim_chars, words,
};

verus! {

/// The tokens of an opacity file.
pub struct OpacityTokens {
    /// The X value of each table header.
    pub xs: Vec<Vec<char>>,
    /// The log T labels of the rows of the first table.
    pub log_ts: Vec<Vec<char>>,
    /// The log R grid of the first axis line.
    pub log_rs: Vec<Vec<char>>,
    /// The log kappa values: `[table][row][column]`.
    pub kappas: Vec<Vec<Vec<Vec<char>>>>,
    /// The log T label of every row of every table, in file order.
    pub row_labels: Vec<Vec<char>>,
}

/// The character sequences of an opacity file's tokens.
pub struct TokensView {
    pub xs: Seq<Seq<char>>,
    pub log_ts: Seq<Seq<char>>,
    pub log_rs: Seq<Seq<char>>,
    pub kappas: Seq<Seq<Seq<Seq<char>>>>,
    pub row_labels: Seq<Seq<char>>,
}

/// The character sequences of the rows of a table.
pub open spec fn rows_view(v: Seq<Vec<Vec<char>>>) -> Seq<Seq<Seq<char>>> {
    v.map_values(|r: Vec<Vec<char>>| tokens_view(r@))
}

/// The character sequences of a list of tables.
pub open spec fn tables_view(v: Seq<Vec<Vec<Vec<char>>>>) -> Seq<Seq<Seq<Seq<char>>>> {
    v.map_values(|t: Vec<Vec<Vec<char>>>| rows_view(t@))
}

impl View for OpacityTokens {
    type V = TokensView;

    open spec fn view(&self) -> TokensView {
        TokensView {
            xs: tokens_view(self.xs@),
            log_ts: tokens_view(self.log_ts@),
            log_rs: tokens_view(self.log_rs@),
            kappas: tables_view(self.kappas@),
            row_labels: tokens_view(self.row_labels@),
        }
    }
}

/// The prefix of a table header line.
pub open spec fn table_header() -> Seq<char> {
    seq!['T', 'a', 'b', 'l', 'e', ' ', 'f', 'o', 'r', ' ', 'X', ' ', '=']
}

/// The prefix of an axis line.
pub open spec fn axis_header() -> Seq<char> {
    seq!['l', 'o', 'g', 'T', ' ', '/', ' ', 'l', 'o', 'g', 'R', ' ', '|']
}

/// The prefix of a rule line.
pub open spec fn rule() -> Seq<char> {
    seq!['-', '-', '-']
}

/// The state of a scan through the lines of an opacity file.
pub struct TableScan {
    /// What has been read so far; `kappas` holds the completed tables.
    pub tokens: TokensView,
    /// The rows of the table being read.
    pub current: Seq<Seq<Seq<char>>>,
    /// A table header has been read and the table has not ended.
    pub in_table: bool,
    /// The log R grid has been read.
    pub parsed_log_rs: bool,
}

/// The state before the first line.
pub open spec fn scan_start() -> TableScan {
    TableScan {
        tokens: TokensView {
            xs: Seq::empty(),
            log_ts: Seq::empty(),
            log_rs: Seq::empty(),
            kappas: Seq::empty(),
            row_labels: Seq::empty(),
        },
        current: Seq::empty(),
        in_table: false,
        parsed_log_rs: false,
    }
}

/// The table being read is complete: it joins the completed tables.
pub open spec fn end_table(st: TableScan) -> TableScan {
    TableScan {
        tokens: TokensView { kappas: st.tokens.kappas.push(st.current), ..st.tokens },
        current: Seq::empty(),
        ..st
    }
}

/// The effect of one line of the file. The log T label of a row counts
/// towards the temperature grid while no table is complete yet, that is
/// for the rows of the first table.
pub open spec fn scan_line(st: TableScan, raw: Seq<char>) -> TableScan {
    let l = trim(raw);
    if starts_with(l, table_header()) {
        let st1 = if st.in_table && st.current.len() > 0 {
            end_table(st)
        } else {
            st
        };
        let st2 = if has_sole(l, '=') {
            TableScan {
                tokens: TokensView { xs: st1.tokens.xs.push(trim(after_sole(l, '='))), ..st1.tokens },
                ..st1
            }
        } else {
            st1
        };
        TableScan { in_table: true, ..st2 }
    } else if !st.in_table {
        st
    } else if starts_with(l, axis_header()) {
        if !st.parsed_log_rs && has_sole(l, '|') {
            TableScan {
                tokens: TokensView {
                    log_rs: st.tokens.log_rs + words(after_sole(l, '|')),
                    ..st.tokens
                },
                parsed_log_rs: true,
                ..st
            }
        } else {
            st
        }
    } else if starts_with(l, rule()) {
        st
    } else if l.len() == 0 {
        if st.current.len() > 0 {
            TableScan { in_table: false, ..end_table(st) }
        } else {
            st
        }
    } else if has_sole(l, '|') {
        let label = trim(before_sole(l, '|'));
        TableScan {
            tokens: TokensView {
                log_ts: if st.tokens.kappas.len() == 0 {
                    st.tokens.log_ts.push(label)
                } else {
                    st.tokens.log_ts
                },
                row_labels: st.tokens.row_labels.push(label),
                ..st.tokens
            },
            current: st.current.push(words(after_sole(l, '|'))),
            ..st
        }
    } else {
        st
    }
}

/// The state after the given lines.
pub open spec fn scan_lines(lines: Seq<Seq<char>>) -> TableScan
    decreases lines.len(),
{
    if lines.len() == 0 {
        scan_start()
    } else {
        scan_line(scan_lines(lines.drop_last()), lines.last())
    }
}

/// The tokens of a file with the given lines: at the end of the file a
/// table still being read is complete.
pub open spec fn parse_tables(lines: Seq<Seq<char>>) -> TokensView {
    let st = scan_lines(lines);
    if st.in_table && st.current.len() > 0 {
        end_table(st).tokens
    } else {
        st.tokens
    }
}

struct Scanner {
    tokens: OpacityTokens,
    current: Vec<Vec<Vec<char>>>,
    in_table: bool,
    parsed_log_rs: bool,
}

impl View for Scanner {
    type V = TableScan;

    closed spec fn view(&self) -> TableScan {
        TableScan {
            tokens: self.tokens@,
            current: rows_view(self.current@),
            in_table: self.in_table,
            parsed_log_rs: self.parsed_log_rs,
        }
    }
}

impl Scanner {
    fn end_table(&mut self)
        ensures
            final(self)@ == end_table(old(self)@),
    {
        let mut done: Vec<Vec<Vec<char>>> = Vec::new();
        std::mem::swap(&mut done, &mut self.current);
        self.tokens.kappas.push(done);
        proof {
            assert(rows_view(self.current@) =~= Seq::<Seq<Seq<char>>>::empty());
            assert(tables_view(self.tokens.kappas@) =~= tables_view(old(self).tokens.kappas@).push(
                rows_view(old(self).current@),
            ));
        }
    }

    fn scan(&mut self, raw: &Vec<char>)
        ensures
            final(self)@ == scan_line(old(self)@, raw@),
    {
        let l = trim_chars(raw);
        let header = ['T', 'a', 'b', 'l', 'e', ' ', 'f', 'o', 'r', ' ', 'X', ' ', '='];
        let axis = ['l', 'o', 'g', 'T', ' ', '/', ' ', 'l', 'o', 'g', 'R', ' ', '|'];
        let dashes = ['-', '-', '-'];
        assert(header@ =~= table_header());
        assert(axis@ =~= axis_header());
        assert(dashes@ =~= rule());
        if chars_start_with(&l, &header) {
            if self.in_table && self.current.len() > 0 {
                self.end_table();
            }
            if let Some(k) = find_sole(&l, '=') {
                let tail = sub_chars(&l, k + 1, l.len());
                let x = trim_chars(&tail);
                let ghost before = self.tokens.xs@;
                self.tokens.xs.push(x);
                proof {
                    assert(tokens_view(self.tokens.xs@) =~= tokens_view(before).push(x@));
                }
            }
            self.in_table = true;
            return;
        }
        if !self.in_table {
            return;
        }
        if chars_start_with(&l, &axis) {
            if !self.parsed_log_rs {
                if let Some(k) = find_sole(&l, '|') {
                    let tail = sub_chars(&l, k + 1, l.len());
                    let mut vals = split_words(&tail);
                    let ghost before = self.tokens.log_rs@;
                    let ghost added = vals@;
                    self.tokens.log_rs.append(&mut vals);
                    proof {
                        assert(self.tokens.log_rs@ == before + added);
                        assert(tokens_view(self.tokens.log_rs@) =~= tokens_view(before)
                            + tokens_view(added));
                    }
                    self.parsed_log_rs = true;
                }
            }
            return;
        }
        if chars_start_with(&l, &dashes) {
            return;
        }
        if l.len() == 0 {
            if self.current.len() > 0 {
                self.end_table();
                self.in_table = false;
            }
            return;
        }
        if let Some(k) = find_sole(&l, '|') {
            let head = sub_chars(&l, 0, k);
            let label = trim_chars(&head);
            let tail = sub_chars(&l, k + 1, l.len());
            let row = split_words(&tail);
            let ghost old_ts = self.tokens.log_ts@;
            let ghost old_labels = self.tokens.row_labels@;
            let ghost old_current = self.current@;
            if self.tokens.kappas.len() == 0 {
                let label_copy = sub_chars(&label, 0, label.len());
                self.tokens.log_ts.push(label_copy);
                proof {
                    assert(label_copy@ =~= label@);
                    assert(tokens_view(self.tokens.log_ts@) =~= tokens_view(old_ts).push(label@));
                }
            }
            self.tokens.row_labels.push(label);
            self.current.push(row);
            proof {
                assert(tokens_view(self.tokens.row_labels@) =~= tokens_view(old_labels).push(label@));
                assert(rows_view(self.current@) =~= rows_view(old_current).push(tokens_view(row@)));
            }
        }
    }
}

/// Parses the lines of an opacity file into the text of its numbers.
pub fn parse_opacity_lines(lines: &Vec<Vec<char>>) -> (t: OpacityTokens)
    ensures
        t@ == parse_tables(tokens_view(lines@)),
{
    let mut sc = Scanner {
        tokens: OpacityTokens {
            xs: Vec::new(),
            log_ts: Vec::new(),
            log_rs: Vec::new(),
            kappas: Vec::new(),
            row_labels: Vec::new(),
        },
        current: Vec::new(),
        in_table: false,
        parsed_log_rs: false,
    };
    proof {
        assert(sc@.tokens.xs =~= Seq::<Seq<char>>::empty());
        assert(sc@.tokens.log_ts =~= Seq::<Seq<char>>::empty());
        assert(sc@.tokens.log_rs =~= Seq::<Seq<char>>::empty());
        assert(sc@.tokens.row_labels =~= Seq::<Seq<char>>::empty());
        assert(sc@.tokens.kappas =~= Seq::<Seq<Seq<Seq<char>>>>::empty());
        assert(sc@.current =~= Seq::<Seq<Seq<char>>>::empty());
        assert(tokens_view(lines@).take(0) =~= Seq::<Seq<char>>::empty());
    }
    let mut i: usize = 0;
    while i < lines.len()
        invariant
            i <= lines.len(),
            sc@ == scan_lines(tokens_view(lines@).take(i as int)),
        decreases lines.len() - i,
    {
        sc.scan(&lines[i]);
        proof {
            let all = tokens_view(lines@);
            assert(all.take(i + 1).drop_last() =~= all.take(i as int));
            assert(all.take(i + 1).last() == lines@[i as int]@);
        }
        i += 1;
    }
    proof {
        assert(tokens_view(lines@).take(lines.len() as int) =~= tokens_view(lines@));
    }
    if sc.in_table && sc.current.len() > 0 {
        sc.end_table();
    }
    sc.tokens
}

/// The number of rows in a list of tables.
pub open spec fn total_rows(tables: Seq<Seq<Seq<Seq<char>>>>) -> nat
    decreases tables.len(),
{
    if tables.len() == 0 {
        0
    } else {
        total_rows(tables.drop_last()) + tables.last().len()
    }
}

/// What every state of the scan keeps.
pub open spec fn scan_keeps(st: TableScan) -> bool {
    let t = st.tokens;
    &&& forall|k: int| 0 <= k < t.kappas.len() ==> #[trigger] t.kappas[k].len() > 0
    &&& t.row_labels.len() == total_rows(t.kappas) + st.current.len()
    &&& t.kappas.len() == 0 ==> t.log_ts == t.row_labels
    &&& t.kappas.len() > 0 ==> t.kappas[0].len() <= t.row_labels.len() && t.log_ts
        == t.row_labels.take(t.kappas[0].len() as int)
    &&& !st.in_table ==> st.current.len() == 0
}

proof fn lemma_end_table_keeps(st: TableScan)
    requires
        scan_keeps(st),
        st.current.len() > 0,
    ensures
        scan_keeps(end_table(st)),
{
    let t = st.tokens;
    let e = end_table(st);
    assert(e.tokens.kappas.drop_last() =~= t.kappas);
    assert(total_rows(e.tokens.kappas) == total_rows(t.kappas) + st.current.len());
    if t.kappas.len() == 0 {
        assert(e.tokens.kappas[0] == st.current);
        assert(t.row_labels.take(st.current.len() as int) =~= t.row_labels);
    } else {
        assert(e.tokens.kappas[0] == t.kappas[0]);
    }
    assert forall|k: int| 0 <= k < e.tokens.kappas.len() implies #[trigger] e.tokens.kappas[k].len()
        > 0 by {
        if k < t.kappas.len() {
            assert(e.tokens.kappas[k] == t.kappas[k]);
        }
    }
}

proof fn lemma_scan_line_keeps(st: TableScan, raw: Seq<char>)
    requires
        scan_keeps(st),
    ensures
        scan_keeps(scan_line(st, raw)),
{
    let l = trim(raw);
    if starts_with(l, table_header()) {
        if st.in_table && st.current.len() > 0 {
            lemma_end_table_keeps(st);
        }
    } else if !st.in_table {
    } else if starts_with(l, axis_header()) {
    } else if starts_with(l, rule()) {
    } else if l.len() == 0 {
        if st.current.len() > 0 {
            lemma_end_table_keeps(st);
        }
    } else if has_sole(l, '|') {
        let label = trim(before_sole(l, '|'));
        let t = st.tokens;
        let n = scan_line(st, raw);
        if t.kappas.len() > 0 {
            assert(t.row_labels.push(label).take(t.kappas[0].len() as int) =~= t.row_labels.take(
                t.kappas[0].len() as int,
            ));
        }
        assert(n.tokens.kappas == t.kappas);
    }
}

pub(crate) proof fn lemma_scan_lines_keeps(lines: Seq<Seq<char>>)
    ensures
        scan_keeps(scan_lines(lines)),
    decreases lines.len(),
{
    if lines.len() == 0 {
        assert(total_rows(Seq::<Seq<Seq<Seq<char>>>>::empty()) == 0);
    } else {
        lemma_scan_lines_keeps(lines.drop_last());
        lemma_scan_line_keeps(scan_lines(lines.drop_last()), lines.last());
    }
}

/// What the parse of any opacity file satisfies: no table is empty, every
/// row read belongs to exactly one table (the row labels are as many as the
/// rows of all tables), and the temperature grid is the list of row labels
/// of the first table.
pub proof fn parsed_tables_are_consistent(lines: Seq<Seq<char>>)
    ensures
        ({
            let t = parse_tables(lines);
            &&& forall|k: int| 0 <= k < t.kappas.len() ==> #[trigger] t.kappas[k].len() > 0
            &&& t.row_labels.len() == total_rows(t.kappas)
            &&& t.kappas.len() == 0 ==> t.log_ts.len() == 0 && t.row_labels.len() == 0
            &&& t.kappas.len() > 0 ==> t.log_ts == t.row_labels.take(t.kappas[0].len() as int)
        }),
{
    let st = scan_lines(lines);
    lemma_scan_lines_keeps(lines);
    if st.in_table && st.current.len() > 0 {
        lemma_end_table_keeps(st);
    }
}

} // verus!
