use exact_cover::dancing_links::cells::Cell;
use exact_cover::dancing_links::cursors::Cursor;
use exact_cover::dancing_links::links::{Link, LinkedList};
use exact_cover::dancing_links::matrix::Matrix;
use exact_cover::dancing_links::solvers::solve;

#[test]
fn sample_problem() {
    let f = false;
    let t = true;

    let mut m = Matrix::new(7);
    m.add_row(&[f, f, t, f, t, t, f]);
    m.add_row(&[t, f, f, t, f, f, t]);
    m.add_row(&[f, t, t, f, f, t, f]);
    m.add_row(&[t, f, f, t, f, f, f]);
    m.add_row(&[f, t, f, f, f, f, t]);
    m.add_row(&[f, f, f, t, t, f, t]);

    let solutions = solve(&mut m);
    assert_eq!(solutions, 1);
    assert_eq!(m.sizes, vec![0, 2, 2, 2, 3, 2, 2, 3]);
}

#[test]
fn allocate_appends_self_linked_cells() {
    let mut list = LinkedList::with_capacity(2);
    assert_eq!(list.allocate(), Cell(0));
    assert_eq!(list.allocate(), Cell(1));
    assert_eq!(list.data, vec![Link { prev: Cell(0), next: Cell(0) }, Link { prev: Cell(1), next: Cell(1) }]);
}

#[test]
fn counting_twice_gives_the_same_count_and_the_same_matrix() {
    let mut m = Matrix::new(3);
    m.add_row(&[true, false, false]);
    m.add_row(&[false, true, true]);
    m.add_row(&[false, true, false]);
    m.add_row(&[false, false, true]);
    m.add_row(&[true, true, true]);
    let before = format!("{:?}", m);
    let first = solve(&mut m);
    assert_eq!(format!("{:?}", m), before);
    let second = solve(&mut m);
    assert_eq!(format!("{:?}", m), before);
    assert_eq!(first, 3);
    assert_eq!(second, 3);
}

#[test]
fn an_empty_column_leaves_no_cover() {
    let mut m = Matrix::new(3);
    m.add_row(&[true, false, false]);
    m.add_row(&[true, true, false]);
    m.add_row(&[false, true, false]);
    assert_eq!(solve(&mut m), 0);
}

#[test]
fn no_columns_one_cover() {
    let mut m = Matrix::new(0);
    assert_eq!(solve(&mut m), 1);
    m.add_row(&[]);
    assert_eq!(solve(&mut m), 1);
}

#[test]
fn cover_then_uncover_restores_every_entry() {
    let mut m = Matrix::new(4);
    m.add_row(&[true, true, false, false]);
    m.add_row(&[false, true, true, false]);
    m.add_row(&[true, false, false, true]);
    m.add_row(&[false, false, true, true]);
    let before = format!("{:?}", m);
    for column in 1..=4 {
        m.cover(Cell(column));
        assert_ne!(format!("{:?}", m), before);
        m.uncover(Cell(column));
        assert_eq!(format!("{:?}", m), before);
    }
    m.cover(Cell(2));
    m.cover(Cell(4));
    m.uncover(Cell(4));
    m.uncover(Cell(2));
    assert_eq!(format!("{:?}", m), before);
}

#[test]
fn cover_takes_the_rows_of_the_column_out_of_the_other_columns() {
    let mut m = Matrix::new(3);
    m.add_row(&[true, true, false]);
    m.add_row(&[false, true, true]);
    m.add_row(&[false, false, true]);
    assert_eq!(m.sizes, vec![0, 1, 2, 2]);
    m.cover(Cell(1));
    assert_eq!(m.sizes, vec![0, 1, 1, 2]);
    assert_eq!(m.vlinks.data[0], Link { prev: Cell(3), next: Cell(2) });
    assert_eq!(m.hlinks.data[2], Link { prev: Cell(6), next: Cell(6) });
}

#[test]
fn sizes_count_the_cells_of_each_column() {
    let mut m = Matrix::new(3);
    m.add_row(&[true, true, false]);
    m.add_row(&[false, true, true]);
    m.add_row(&[false, false, false]);
    m.add_row(&[false, true, false]);
    m.cover(Cell(2));
    m.uncover(Cell(2));
    for column in 1..=3usize {
        let mut count = 0;
        let mut at = m.hlinks.data[column].next;
        while at != Cell(column) {
            count += 1;
            at = m.hlinks.data[at.0].next;
        }
        assert_eq!(m.sizes[column], count);
    }
    assert_eq!(m.sizes, vec![0, 1, 3, 1]);
    assert_eq!(m.headers, vec![Cell(0), Cell(1), Cell(2), Cell(3), Cell(1), Cell(2), Cell(2), Cell(3), Cell(2)]);
}

#[test]
fn new_links_the_headers_behind_the_sentinel() {
    let m = Matrix::new(2);
    assert_eq!(m.sizes, vec![0, 0, 0]);
    assert_eq!(m.headers, vec![Cell(0), Cell(1), Cell(2)]);
    assert_eq!(
        m.vlinks.data,
        vec![
            Link { prev: Cell(2), next: Cell(1) },
            Link { prev: Cell(0), next: Cell(2) },
            Link { prev: Cell(1), next: Cell(0) },
        ]
    );
    assert_eq!(
        m.hlinks.data,
        vec![
            Link { prev: Cell(0), next: Cell(0) },
            Link { prev: Cell(1), next: Cell(1) },
            Link { prev: Cell(2), next: Cell(2) },
        ]
    );
}

#[test]
fn list_operations_splice_unlink_and_relink() {
    let mut list = LinkedList::with_capacity(3);
    let a = list.allocate();
    let b = list.allocate();
    let c = list.allocate();
    list.insert(a, b);
    list.insert(b, c);
    assert_eq!(
        list.data,
        vec![Link { prev: c, next: b }, Link { prev: a, next: c }, Link { prev: b, next: a }]
    );
    list.remove(b);
    assert_eq!(
        list.data,
        vec![Link { prev: c, next: c }, Link { prev: a, next: c }, Link { prev: a, next: a }]
    );
    list.restore(b);
    assert_eq!(
        list.data,
        vec![Link { prev: c, next: b }, Link { prev: a, next: c }, Link { prev: b, next: a }]
    );
}

#[test]
fn cursor_stops_when_it_is_back_at_its_head() {
    let mut list = LinkedList::with_capacity(3);
    let a = list.allocate();
    let b = list.allocate();
    let c = list.allocate();
    list.insert(a, b);
    list.insert(b, c);
    let mut cursor = Cursor::from_head(a);
    assert_eq!(cursor.next(&list), Some(b));
    assert_eq!(cursor.next(&list), Some(c));
    assert_eq!(cursor.next(&list), None);
    let mut cursor = Cursor::from_head(b);
    assert_eq!(cursor.prev(&list), Some(a));
    assert_eq!(cursor.prev(&list), Some(c));
    assert_eq!(cursor.prev(&list), None);
}

fn expected_text(m: &Matrix) -> String {
    let mut text = String::new();
    text.push_str("s: ");
    for s in &m.sizes {
        text.push_str(&format!("{:^5}", s));
    }
    text.push('\n');
    text.push_str("c: ");
    for &Cell(c) in &m.headers {
        text.push_str(&format!("{:^5}", c.saturating_sub(1)));
    }
    text.push('\n');
    text.push_str("x: ");
    for link in &m.vlinks.data {
        text.push_str(&format!(" {:>1}|{:<1} ", link.prev.0, link.next.0));
    }
    text.push('\n');
    text.push_str("y: ");
    for link in &m.hlinks.data {
        text.push_str(&format!(" {:>1}|{:<1} ", link.prev.0, link.next.0));
    }
    text.push('\n');
    text.push_str("i: ");
    for i in 0..m.hlinks.data.len() {
        text.push_str(&format!("{:^5}", i));
    }
    text.push('\n');
    text
}

#[test]
fn test_display() {
    let mut m = Matrix::new(3);
    m.add_row(&[true, false, true]);
    println!("{}", m.to_string());
    assert_eq!(m.to_string(), expected_text(&m));
}

#[test]
fn display_centers_wide_and_narrow_numbers() {
    let mut m = Matrix::new(12);
    for _ in 0..11 {
        m.add_row(&[true, true, true, true, true, true, true, true, true, true, true, true]);
    }
    assert_eq!(m.to_string(), expected_text(&m));
    assert!(m.to_string().starts_with("s:   0   11   11  "));
    let blank = Matrix::new(0);
    assert_eq!(blank.to_string(), "s:   0  \nc:   0  \nx:  0|0 \ny:  0|0 \ni:   0  \n");
}
