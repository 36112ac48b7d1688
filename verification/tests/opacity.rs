use stellar_sim::bracket::find_indices;
use stellar_sim::order::order_key;
use stellar_sim::table::{parse_opacity_lines, OpacityTokens};

fn keys(arr: &[f64]) -> Vec<u64> {
    arr.iter().map(|a| order_key(a.to_bits())).collect()
}

fn indices_and_weight(arr: &[f64], val: f64) -> (usize, usize, f64) {
    let (i0, i1) = find_indices(&keys(arr), order_key(val.to_bits()));
    if i0 == i1 {
        (i0, i1, 0.0)
    } else {
        (i0, i1, (val - arr[i0]) / (arr[i1] - arr[i0]))
    }
}

fn lines(text: &str) -> Vec<Vec<char>> {
    text.lines().map(|l| l.chars().collect()).collect()
}

fn s(t: &Vec<char>) -> String {
    t.iter().collect()
}

fn strs(v: &Vec<Vec<char>>) -> Vec<String> {
    v.iter().map(s).collect()
}

#[test]
fn test_find_indices() {
    let arr = vec![1.0, 2.0, 3.0, 4.0];
    let (i0, i1, t) = indices_and_weight(&arr, 2.5);
    assert_eq!(i0, 1);
    assert_eq!(i1, 2);
    assert!((t - 0.5).abs() < 1e-6);
}

#[test]
fn bracket_below_above_and_on_grid() {
    let arr = vec![-1.5, 0.0, 2.0, 7.25];
    assert_eq!(indices_and_weight(&arr, -3.0), (0, 0, 0.0));
    assert_eq!(indices_and_weight(&arr, -1.5), (0, 0, 0.0));
    assert_eq!(indices_and_weight(&arr, 7.25), (3, 3, 0.0));
    assert_eq!(indices_and_weight(&arr, 100.0), (3, 3, 0.0));
    assert_eq!(indices_and_weight(&arr, 2.0), (2, 2, 0.0));
    assert_eq!(indices_and_weight(&arr, -0.0), (1, 1, 0.0));
    let (i0, i1, t) = indices_and_weight(&arr, -0.75);
    assert_eq!((i0, i1), (0, 1));
    assert!((t - 0.5).abs() < 1e-12);
    let (i0, i1, t) = indices_and_weight(&arr, 5.0);
    assert_eq!((i0, i1), (2, 3));
    assert!((t - 3.0 / 5.25).abs() < 1e-12);
}

#[test]
fn bracket_on_single_point_axis() {
    assert_eq!(find_indices(&vec![5u64], 1), (0, 0));
    assert_eq!(find_indices(&vec![5u64], 9), (0, 0));
}

#[test]
fn bracket_on_integer_keys() {
    let k = vec![10u64, 20, 30, 40, 50];
    assert_eq!(find_indices(&k, 35), (2, 3));
    assert_eq!(find_indices(&k, 11), (0, 1));
    assert_eq!(find_indices(&k, 49), (3, 4));
    assert_eq!(find_indices(&k, 40), (3, 3));
}

const SAMPLE: &str = "\
# opacity tables
Table for X = 0.70
logT / logR | -8.0 -7.5  -7.0
--------------------------
  3.75 | -3.10 -2.90 -2.70
  3.80 | -2.80 -2.60 -2.40

Table for X = 0.35
logT / logR | 9 9 9
--------------------------
3.75 | -3.20 -3.00 -2.80
3.80 | -2.90 -2.70 -2.50
";

#[test]
fn parse_two_tables() {
    let t: OpacityTokens = parse_opacity_lines(&lines(SAMPLE));
    assert_eq!(strs(&t.xs), vec!["0.70", "0.35"]);
    assert_eq!(strs(&t.log_rs), vec!["-8.0", "-7.5", "-7.0"]);
    assert_eq!(strs(&t.log_ts), vec!["3.75", "3.80"]);
    assert_eq!(strs(&t.row_labels), vec!["3.75", "3.80", "3.75", "3.80"]);
    assert_eq!(t.kappas.len(), 2);
    assert_eq!(strs(&t.kappas[0][0]), vec!["-3.10", "-2.90", "-2.70"]);
    assert_eq!(strs(&t.kappas[0][1]), vec!["-2.80", "-2.60", "-2.40"]);
    assert_eq!(strs(&t.kappas[1][1]), vec!["-2.90", "-2.70", "-2.50"]);
}

#[test]
fn parse_header_closes_a_table_without_blank_line() {
    let text = "Table for X = 1\n1 | a b\nTable for X = 2\n2 | c\n3 | d e f";
    let t = parse_opacity_lines(&lines(text));
    assert_eq!(strs(&t.xs), vec!["1", "2"]);
    assert_eq!(t.kappas.len(), 2);
    assert_eq!(t.kappas[0].len(), 1);
    assert_eq!(t.kappas[1].len(), 2);
    assert_eq!(strs(&t.log_ts), vec!["1"]);
    assert_eq!(strs(&t.kappas[1][1]), vec!["d", "e", "f"]);
}

#[test]
fn parse_ignores_lines_outside_tables_and_odd_lines() {
    let text = "1 | 2 3\nlogT / logR | 5\n\nTable for X = 0.1 = 2\nno separator\n1 | 2 | 3\n4 |  5\n";
    let t = parse_opacity_lines(&lines(text));
    // A header with two '=' gives no X value but still opens a table.
    assert!(t.xs.is_empty());
    assert!(t.log_rs.is_empty());
    assert_eq!(t.kappas.len(), 1);
    assert_eq!(strs(&t.row_labels), vec!["4"]);
    assert_eq!(strs(&t.kappas[0][0]), vec!["5"]);
}

#[test]
fn parse_blank_line_without_rows_keeps_table_open() {
    let text = "Table for X = 0.5\n\n   \n7 | 8\n";
    let t = parse_opacity_lines(&lines(text));
    assert_eq!(t.kappas.len(), 1);
    assert_eq!(strs(&t.log_ts), vec!["7"]);
}

#[test]
fn parse_empty_file() {
    let t = parse_opacity_lines(&Vec::new());
    assert!(t.xs.is_empty() && t.log_ts.is_empty() && t.log_rs.is_empty());
    assert!(t.kappas.is_empty() && t.row_labels.is_empty());
}

#[test]
fn parse_keeps_only_first_axis_line() {
    let text = "Table for X = 0.5\nlogT / logR | 1 2\nlogT / logR | 3 4\n1|5 6\n";
    let t = parse_opacity_lines(&lines(text));
    assert_eq!(strs(&t.log_rs), vec!["1", "2"]);
    assert_eq!(strs(&t.kappas[0][0]), vec!["5", "6"]);
}
