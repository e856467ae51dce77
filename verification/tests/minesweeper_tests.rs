use labs::minesweeper::annotate;

fn run(rows: &[&str]) -> Vec<String> {
    annotate(rows)
}

#[test]
fn no_rows() {
    assert_eq!(run(&[]), Vec::<String>::new());
}

#[test]
fn no_columns() {
    assert_eq!(run(&[""]), vec![String::new()]);
}

#[test]
fn no_mines() {
    assert_eq!(run(&["   ", "   ", "   "]), vec!["   ", "   ", "   "]);
}

#[test]
fn only_mines() {
    assert_eq!(run(&["***", "***", "***"]), vec!["***", "***", "***"]);
}

#[test]
fn mine_surrounded_by_spaces() {
    assert_eq!(run(&["   ", " * ", "   "]), vec!["111", "1*1", "111"]);
}

#[test]
fn space_surrounded_by_mines() {
    assert_eq!(run(&["***", "* *", "***"]), vec!["***", "*8*", "***"]);
}

#[test]
fn horizontal_line() {
    assert_eq!(run(&[" * * "]), vec!["1*2*1"]);
}

#[test]
fn vertical_line() {
    assert_eq!(run(&[" ", "*", " ", "*", " "]), vec!["1", "*", "2", "*", "1"]);
}

#[test]
fn larger_board() {
    assert_eq!(
        run(&[" *  * ", "  *   ", "    * ", "   * *", " *  * ", "      "]),
        vec!["1*22*1", "12*322", " 123*2", "112*4*", "1*22*2", "111111"]
    );
}
