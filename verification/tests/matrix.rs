use bullpen::Matrix;

/// The text layout the matrix is shown in, written out directly.
fn expected_text(m: &Matrix) -> String {
    let mut out = String::new();
    out.push_str("s: ");
    for s in &m.size {
        out.push_str(&format!("{:^5}", s));
    }
    out.push('\n');
    out.push_str("c: ");
    for c in &m.c {
        out.push_str(&format!("{:^5}", c.0.saturating_sub(1)));
    }
    out.push('\n');
    out.push_str("x: ");
    for link in &m.x.data {
        out.push_str(&format!(" {:>1}|{:<1} ", link.prev.0, link.next.0));
    }
    out.push('\n');
    out.push_str("y: ");
    for link in &m.y.data {
        out.push_str(&format!(" {:>1}|{:<1} ", link.prev.0, link.next.0));
    }
    out.push('\n');
    out.push_str("i: ");
    for i in 0..m.x.data.len() {
        out.push_str(&format!("{:^5}", i));
    }
    out.push('\n');
    out
}

#[test]
fn render_shows_sizes_columns_links_and_ids() {
    let mut m = Matrix::new(3);
    m.add_row(&[true, false, true]);
    m.add_row(&[false, true, true]);
    let text = m.render();
    assert_eq!(text, expected_text(&m));
    assert!(text.starts_with("s: "));
    assert_eq!(text.lines().count(), 5);
}

#[test]
fn render_of_an_empty_matrix_lists_only_the_root() {
    let m = Matrix::new(0);
    assert_eq!(m.render(), "s:   0  \nc:   0  \nx:  0|0 \ny:  0|0 \ni:   0  \n");
}

#[test]
fn render_pads_wide_numbers_without_cutting_them() {
    let mut m = Matrix::new(12);
    let mut row = vec![false; 12];
    row[11] = true;
    m.add_row(&row);
    let text = m.render();
    assert_eq!(text, expected_text(&m));
    assert!(text.contains("  11 "));
}

#[test]
fn removals_undone_in_reverse_order_restore_the_list() {
    let mut list = bullpen::LList::with_capacity(4);
    let a = list.alloc_node();
    let b = list.alloc_node();
    let c = list.alloc_node();
    let d = list.alloc_node();
    list.insert(a, b);
    list.insert(b, c);
    list.insert(c, d);
    let before: Vec<bullpen::Link> = [a, b, c, d].iter().map(|&x| *list.index(x)).collect();
    list.remove(b);
    list.remove(c);
    assert_eq!(list.index(a).next, d);
    list.restore(c);
    list.restore(b);
    let after: Vec<bullpen::Link> = [a, b, c, d].iter().map(|&x| *list.index(x)).collect();
    assert_eq!(before, after);
}
