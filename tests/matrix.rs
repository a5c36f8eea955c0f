use mna_core::element::{get_element_type, Analysis, CircuitError, Cx, Element, ElementType, SCALE};
use mna_core::grid::{Grid, Line};
use mna_core::matrix::{change_vec_from_netlist, CircuitMatrix, Netlist, Slot};

fn dense(g: &Grid) -> Vec<Vec<Cx>> {
    let n = g.size();
    (0..n).map(|i| (0..n).map(|j| g.get(i, j)).collect()).collect()
}

fn entries(l: &Line) -> Vec<Cx> {
    (0..l.len()).map(|i| l.get(i)).collect()
}

fn snapshot(m: &CircuitMatrix) -> (Vec<Vec<Cx>>, Vec<Cx>) {
    let (g, v) = m.get_current_mat_vec();
    (dense(&g), entries(&v))
}

fn units(x: i128) -> i128 {
    x * SCALE
}

fn empty_netlist() -> Netlist {
    Netlist { v: Vec::new(), r: Vec::new(), c: Vec::new(), l: Vec::new() }
}

fn elem(pos: usize, neg: usize, value: i128) -> Element {
    Element { pos, neg, value }
}

fn re(x: i128) -> Cx {
    Cx::new(x, 0)
}

fn zero() -> Cx {
    Cx::new(0, 0)
}

#[test]
fn matrix() {
    let c1_element = elem(2, 0, units(3));
    let r1_element = elem(0, 1, units(3));
    let r2_element = elem(1, 2, units(3));
    let mut netlist = empty_netlist();
    netlist.c.push((String::from("c1"), c1_element));
    netlist.r.push((String::from("r1"), r1_element));
    netlist.r.push((String::from("r2"), r2_element));
    let mut m = CircuitMatrix::new();
    assert_eq!(m.create_mat_vec_from_netlist(&netlist, Analysis::DC, 0), Ok(()));
    assert_eq!(m.get_number_of_nodes(), 3);
}

#[test]
fn new_system_is_two_by_two_zero() {
    let m = CircuitMatrix::new();
    let (mat, vec) = snapshot(&m);
    assert_eq!(mat, vec![vec![zero(), zero()], vec![zero(), zero()]]);
    assert_eq!(vec, vec![zero(), zero()]);
    assert_eq!(m.get_number_of_nodes(), 2);
    assert_eq!(m.get_nodes(), &vec![Slot::Node(0), Slot::Node(1)]);
}

#[test]
fn element_type_from_name() {
    assert_eq!(get_element_type("v1"), Some(ElementType::V));
    assert_eq!(get_element_type("R2"), Some(ElementType::R));
    assert_eq!(get_element_type("c"), Some(ElementType::C));
    assert_eq!(get_element_type("Lx"), Some(ElementType::L));
    assert_eq!(get_element_type("x1"), None);
    assert_eq!(get_element_type(""), None);
}

#[test]
fn netlist_order_is_sources_resistors_capacitors_inductors() {
    let mut n = empty_netlist();
    n.l.push((String::from("l1"), elem(1, 0, 1)));
    n.c.push((String::from("c1"), elem(1, 0, 2)));
    n.r.push((String::from("r1"), elem(1, 0, 3)));
    n.v.push((String::from("v1"), elem(1, 0, 4)));
    let all = change_vec_from_netlist(&n);
    let names: Vec<&str> = all.iter().map(|p| p.0).collect();
    assert_eq!(names, vec!["v1", "r1", "c1", "l1"]);
    assert_eq!(all[2].1.value, 2);
}

fn divider() -> CircuitMatrix {
    let mut n = empty_netlist();
    n.v.push((String::from("V1"), elem(1, 0, units(9))));
    n.r.push((String::from("R1"), elem(1, 2, units(1000))));
    n.r.push((String::from("R2"), elem(2, 0, units(2000))));
    let mut m = CircuitMatrix::new();
    assert_eq!(m.create_mat_vec_from_netlist(&n, Analysis::DC, 0), Ok(()));
    m
}

#[test]
fn voltage_divider_system() {
    let mut m = divider();
    assert_eq!(m.get_nodes(), &vec![Slot::Node(0), Slot::Node(1), Slot::Branch(0), Slot::Node(2)]);
    assert_eq!(m.remove_ground(), Ok(()));
    assert_eq!(m.get_nodes(), &vec![Slot::Node(1), Slot::Branch(0), Slot::Node(2)]);
    let (mat, vec) = snapshot(&m);
    let g1 = SCALE / 1000;
    let g2 = SCALE / 2000;
    assert_eq!(
        mat,
        vec![
            vec![re(g1), re(SCALE), re(-g1)],
            vec![re(SCALE), zero(), zero()],
            vec![re(-g1), zero(), re(g1 + g2)],
        ]
    );
    assert_eq!(vec, vec![zero(), re(units(9)), zero()]);
    // node1 = 9 V, node2 = 6 V, source current = -3 mA solve the system exactly
    let x = [units(9), -SCALE * 3 / 1000, units(6)];
    for r in 0..3 {
        let mut acc: i128 = 0;
        for c in 0..3 {
            acc += mat[r][c].re * x[c] / SCALE;
            assert_eq!(mat[r][c].im, 0);
        }
        assert_eq!(acc, vec[r].re);
    }
}

#[test]
fn floating_resistor_gives_singular_system() {
    let mut n = empty_netlist();
    n.r.push((String::from("R1"), elem(1, 2, units(100))));
    let mut m = CircuitMatrix::new();
    assert_eq!(m.create_mat_vec_from_netlist(&n, Analysis::DC, 0), Ok(()));
    assert_eq!(m.remove_ground(), Ok(()));
    let (mat, vec) = snapshot(&m);
    assert_eq!(mat.len(), 2);
    let det = mat[0][0].re * mat[1][1].re - mat[0][1].re * mat[1][0].re;
    assert_eq!(det, 0);
    assert_eq!(vec, vec![zero(), zero()]);
}

#[test]
fn transient_is_refused_and_leaves_system() {
    let mut m = divider();
    let before = snapshot(&m);
    let count = m.get_number_of_nodes();
    let mut n = empty_netlist();
    n.r.push((String::from("R9"), elem(5, 6, units(1))));
    assert_eq!(
        m.create_mat_vec_from_netlist(&n, Analysis::Tran, 0),
        Err(CircuitError::UnsupportedAnalysis)
    );
    assert_eq!(m.get_number_of_nodes(), count);
    assert_eq!(snapshot(&m), before);
}

#[test]
fn unsupported_element_stops_assembly() {
    let mut n = empty_netlist();
    n.r.push((String::from("R1"), elem(1, 2, units(10))));
    n.r.push((String::from("X1"), elem(3, 4, units(10))));
    n.r.push((String::from("R2"), elem(5, 6, units(10))));
    let mut m = CircuitMatrix::new();
    assert_eq!(
        m.create_mat_vec_from_netlist(&n, Analysis::DC, 0),
        Err(CircuitError::UnsupportedElement)
    );
    assert_eq!(m.get_number_of_nodes(), 3);
}

#[test]
fn invalid_values_are_refused() {
    let mut n = empty_netlist();
    n.r.push((String::from("R1"), elem(1, 0, 0)));
    let mut m = CircuitMatrix::new();
    assert_eq!(m.create_mat_vec_from_netlist(&n, Analysis::DC, 0), Err(CircuitError::InvalidValue));
    let mut n = empty_netlist();
    n.c.push((String::from("C1"), elem(1, 0, i128::MAX)));
    let mut m = CircuitMatrix::new();
    assert_eq!(m.create_mat_vec_from_netlist(&n, Analysis::AC, 2), Err(CircuitError::InvalidValue));
    let mut n = empty_netlist();
    n.v.push((String::from("V1"), elem(1, 0, i128::MAX)));
    let mut m = CircuitMatrix::new();
    assert_eq!(m.create_mat_vec_from_netlist(&n, Analysis::DC, 0), Err(CircuitError::InvalidValue));
    assert_eq!(m.get_number_of_nodes(), 2);
}

#[test]
fn negative_values_are_accepted() {
    let (dc, _) = single("R1", elem(1, 0, -units(2)), Analysis::DC, 0);
    assert_eq!(dc[1][1], re(-SCALE / 2));
    assert_eq!(dc[0][1], re(SCALE / 2));
    let (cdc, _) = single("C1", elem(1, 0, -units(3)), Analysis::DC, 0);
    assert_eq!(cdc, vec![vec![zero(), zero()], vec![zero(), zero()]]);
    let (cac, _) = single("C1", elem(1, 0, units(1)), Analysis::AC, -units(1));
    assert_eq!(cac[1][1], Cx::new(0, -units(1)));
    let (ldc, _) = single("L1", elem(1, 0, -units(1)), Analysis::DC, 0);
    assert_eq!(ldc[2], vec![re(-SCALE), re(SCALE), zero()]);
    let (lac, _) = single("L1", elem(1, 0, units(1)), Analysis::AC, -units(1));
    assert_eq!(lac[2][2], Cx::new(0, units(1)));
}

#[test]
fn capacitor_rounding_is_within_one_unit() {
    // omega * C = 0.5 fixed-point units rounds to zero; doubled it is one unit
    let e = elem(1, 0, 1);
    let (m1, _) = single("C1", e, Analysis::AC, SCALE / 2);
    let (m2, _) = single("C1", e, Analysis::AC, SCALE);
    assert_eq!(m1[1][1], Cx::new(0, 0));
    assert_eq!(m2[1][1], Cx::new(0, 1));
    let (n1, _) = single("C1", elem(1, 0, -1), Analysis::AC, SCALE / 2);
    let (n2, _) = single("C1", elem(1, 0, -1), Analysis::AC, SCALE);
    assert_eq!(n1[1][1], Cx::new(0, 0));
    assert_eq!(n2[1][1], Cx::new(0, -1));
}

#[test]
fn accumulation_overflow_is_reported() {
    let mut n = empty_netlist();
    for i in 0..200 {
        n.r.push((format!("R{}", i), elem(1, 0, 1)));
    }
    let mut m = CircuitMatrix::new();
    assert_eq!(m.create_mat_vec_from_netlist(&n, Analysis::DC, 0), Err(CircuitError::Overflow));
    let (mat, _) = snapshot(&m);
    assert!(mat[1][1].re > 0);
}

#[test]
fn node_growth() {
    let mut m = CircuitMatrix::new();
    let mut n = empty_netlist();
    n.r.push((String::from("R1"), elem(1, 2, units(1))));
    assert_eq!(m.create_mat_vec_from_netlist(&n, Analysis::DC, 0), Ok(()));
    assert_eq!(m.get_number_of_nodes(), 3);
    assert_eq!(m.create_mat_vec_from_netlist(&n, Analysis::DC, 0), Ok(()));
    assert_eq!(m.get_number_of_nodes(), 3);
    let mut n = empty_netlist();
    n.v.push((String::from("V1"), elem(1, 2, units(1))));
    n.l.push((String::from("L1"), elem(1, 2, units(1))));
    assert_eq!(m.create_mat_vec_from_netlist(&n, Analysis::DC, 0), Ok(()));
    assert_eq!(m.get_number_of_nodes(), 5);
    assert_eq!(m.get_nodes()[3], Slot::Branch(0));
    assert_eq!(m.get_nodes()[4], Slot::Branch(1));
}

#[test]
fn superposition_of_two_elements() {
    let a = (String::from("R1"), elem(1, 0, units(4)));
    let b = (String::from("C1"), elem(0, 1, units(2)));
    let omega = units(3);
    let mut both = empty_netlist();
    both.r.push(a.clone());
    both.c.push(b.clone());
    let mut only_a = empty_netlist();
    only_a.r.push(a);
    let mut only_b = empty_netlist();
    only_b.c.push(b);
    let mut m = CircuitMatrix::new();
    m.create_mat_vec_from_netlist(&both, Analysis::AC, omega).unwrap();
    let mut ma = CircuitMatrix::new();
    ma.create_mat_vec_from_netlist(&only_a, Analysis::AC, omega).unwrap();
    let mut mb = CircuitMatrix::new();
    mb.create_mat_vec_from_netlist(&only_b, Analysis::AC, omega).unwrap();
    let (x, _) = snapshot(&m);
    let (xa, _) = snapshot(&ma);
    let (xb, _) = snapshot(&mb);
    for r in 0..2 {
        for c in 0..2 {
            assert_eq!(x[r][c].re, xa[r][c].re + xb[r][c].re);
            assert_eq!(x[r][c].im, xa[r][c].im + xb[r][c].im);
        }
    }
    assert_eq!(x[1][1], Cx::new(SCALE / 4, units(6)));
}

#[test]
fn ground_reduction_drops_index_zero() {
    let mut m = divider();
    let (before, v0) = snapshot(&m);
    let count = m.get_number_of_nodes();
    assert_eq!(m.remove_ground(), Ok(()));
    let (after, v1) = snapshot(&m);
    assert_eq!(m.get_number_of_nodes(), count - 1);
    assert_eq!(after.len(), count - 1);
    assert_eq!(v1.len(), count - 1);
    for r in 0..count - 1 {
        assert_eq!(after[r].len(), count - 1);
        assert_eq!(v1[r], v0[r + 1]);
        for c in 0..count - 1 {
            assert_eq!(after[r][c], before[r + 1][c + 1]);
        }
    }
}

#[test]
fn remove_ground_on_empty_system() {
    let mut m = CircuitMatrix::new();
    assert_eq!(m.remove_ground(), Ok(()));
    assert_eq!(m.remove_ground(), Ok(()));
    assert_eq!(m.get_number_of_nodes(), 0);
    assert_eq!(m.remove_ground(), Err(CircuitError::InvalidState));
}

fn single(kind: &str, e: Element, analysis: Analysis, omega: i128) -> (Vec<Vec<Cx>>, Vec<Cx>) {
    let mut n = empty_netlist();
    let entry = (String::from(kind), e);
    match kind.chars().next() {
        Some('V') => n.v.push(entry),
        Some('R') => n.r.push(entry),
        Some('C') => n.c.push(entry),
        _ => n.l.push(entry),
    }
    let mut m = CircuitMatrix::new();
    m.create_mat_vec_from_netlist(&n, analysis, omega).unwrap();
    snapshot(&m)
}

#[test]
fn resistor_ac_equals_dc() {
    let e = elem(1, 0, units(50));
    let dc = single("R1", e, Analysis::DC, 0);
    for w in [0, 1, units(1), units(1000)] {
        assert_eq!(single("R1", e, Analysis::AC, w), dc);
    }
    assert_eq!(dc.0[1][1], re(SCALE / 50));
    assert_eq!(dc.0[0][1], re(-SCALE / 50));
}

#[test]
fn capacitor_ac_scales_with_omega() {
    let e = elem(1, 0, units(2));
    let (m1, _) = single("C1", e, Analysis::AC, units(5));
    let (m2, _) = single("C1", e, Analysis::AC, units(10));
    for r in 0..2 {
        for c in 0..2 {
            assert_eq!(m1[r][c].re, 0);
            assert_eq!(m2[r][c].re, 0);
            assert_eq!(m2[r][c].im, 2 * m1[r][c].im);
        }
    }
    assert_eq!(m1[1][1], Cx::new(0, units(10)));
    assert_eq!(m1[0][1], Cx::new(0, -units(10)));
    let (dc, _) = single("C1", e, Analysis::DC, 0);
    assert_eq!(dc, vec![vec![zero(), zero()], vec![zero(), zero()]]);
}

#[test]
fn inductor_stamps() {
    let e = elem(1, 0, units(2));
    let (dc, v) = single("L1", e, Analysis::DC, 0);
    assert_eq!(dc[2], vec![re(-SCALE), re(SCALE), zero()]);
    assert_eq!(dc[1][2], re(SCALE));
    assert_eq!(dc[0][2], re(-SCALE));
    assert_eq!(v, vec![zero(), zero(), zero()]);
    let (ac, _) = single("L1", e, Analysis::AC, units(3));
    assert_eq!(ac[2][2], Cx::new(0, -units(6)));
}

#[test]
fn voltage_source_stamp() {
    let (m, v) = single("V1", elem(1, 0, units(5)), Analysis::AC, units(7));
    assert_eq!(m[2], vec![re(-SCALE), re(SCALE), zero()]);
    assert_eq!(v, vec![zero(), zero(), re(units(5))]);
}
