use vstd::prelude::*;
use crate::grid::{
    Grid, Line, grid, line, zero_mat, zero_vec, size_ok, is_square, zero_grid, zero_line, copy_block,
    copy_line_block,
};
use crate::element::{
    Analysis, CircuitError, Cx, Element, ElementType, LIMIT, rows, small, stamp_mat, stamp_shape,
    stamp_size, stamp_vec, type_of_name, value_ok, zero, cx, get_element_type,
    gen_mat_vec_from_element, ac_mat_vec, lemma_stamp_shape,
};

verus! {

/// An entry of the node list: a real node, or the current unknown of a branch.
#[derive(Clone, Copy, PartialEq, Eq, Structural, Debug)]
pub enum Slot {
    Node(usize),
    Branch(usize),
}

/// The elements of a circuit, by kind, each with its instance name.
pub struct Netlist {
    pub v: Vec<(String, Element)>,
    pub r: Vec<(String, Element)>,
    pub c: Vec<(String, Element)>,
    pub l: Vec<(String, Element)>,
}

/// The assembled system `mat * x = vec` over the unknowns listed in `nodes`.
pub struct CircuitMatrix {
    mat: Grid,
    vec: Line,
    nodes: Vec<Slot>,
    /// Identifier for the next branch unknown.
    branches: usize,
}

/// The mathematical content of a `CircuitMatrix`.
pub struct SysModel {
    pub mat: Seq<Seq<Cx>>,
    pub vec: Seq<Cx>,
    pub nodes: Seq<Slot>,
    pub branches: nat,
}

impl View for CircuitMatrix {
    type V = SysModel;

    closed spec fn view(&self) -> SysModel {
        SysModel {
            mat: grid(self.mat),
            vec: line(self.vec),
            nodes: self.nodes@,
            branches: self.branches as nat,
        }
    }
}

/// Square matrix, vector and node list of one size.
pub open spec fn shaped(s: SysModel) -> bool {
    let n = s.nodes.len();
    &&& s.mat.len() == n
    &&& s.vec.len() == n
    &&& forall|i: int| 0 <= i < n ==> #[trigger] s.mat[i].len() == n
}

/// Every slot occurs once, and branch identifiers are below the counter.
pub open spec fn slots_ok(s: SysModel) -> bool {
    &&& forall|i: int, j: int|
        0 <= i < s.nodes.len() && 0 <= j < s.nodes.len() && i != j ==> #[trigger] s.nodes[i]
            != #[trigger] s.nodes[j]
    &&& forall|i: int|
        0 <= i < s.nodes.len() ==> (#[trigger] s.nodes[i] is Branch ==> s.nodes[i]->Branch_0
            < s.branches)
}

pub open spec fn model_wf(s: SysModel) -> bool {
    shaped(s) && slots_ok(s) && size_ok(s.nodes.len() as int)
}

/// Sizes shrink with `n`.
pub proof fn lemma_size_mono(a: int, b: int)
    requires
        0 <= a <= b,
        size_ok(b),
    ensures
        size_ok(a),
        b <= isize::MAX,
{
    assert(a * a <= b * b) by (nonlinear_arith)
        requires 0 <= a <= b;
    assert(b <= b * b || b == 0) by (nonlinear_arith)
        requires 0 <= b;
}


/// The system with one more unknown `slot`, zero in its new row, column and entry.
pub open spec fn grow(s: SysModel, slot: Slot) -> SysModel {
    let n = s.nodes.len();
    SysModel {
        mat: Seq::new(
            n + 1,
            |r: int|
                if r < n {
                    s.mat[r].push(zero())
                } else {
                    zero_vec(n + 1)
                },
        ),
        vec: s.vec.push(zero()),
        nodes: s.nodes.push(slot),
        branches: s.branches,
    }
}

pub open spec fn register_node(s: SysModel, id: usize) -> SysModel {
    if s.nodes.contains(Slot::Node(id)) {
        s
    } else {
        grow(s, Slot::Node(id))
    }
}

pub open spec fn register_branch(s: SysModel) -> SysModel {
    let g = grow(s, Slot::Branch(s.branches as usize));
    SysModel { branches: s.branches + 1, ..g }
}

pub open spec fn needs_branch(t: ElementType) -> bool {
    t is V || t is L
}

/// The system after registering an element's terminals and, for a source or
/// an inductor, its branch unknown.
pub open spec fn update_nodes_spec(s: SysModel, pos: usize, neg: usize, t: ElementType) -> SysModel {
    let s2 = register_node(register_node(s, pos), neg);
    if needs_branch(t) {
        register_branch(s2)
    } else {
        s2
    }
}

/// Position of `slot` in the node list.
pub open spec fn index_of(nodes: Seq<Slot>, slot: Slot) -> int {
    choose|i: int| 0 <= i < nodes.len() && nodes[i] == slot
}

/// Global indices of a stamp's local rows: positive, negative, then the
/// newest entry for a branch unknown.
pub open spec fn stamp_indices(nodes: Seq<Slot>, pos: usize, neg: usize, t: ElementType) -> Seq<int> {
    let two = seq![index_of(nodes, Slot::Node(pos)), index_of(nodes, Slot::Node(neg))];
    if needs_branch(t) {
        two.push(nodes.len() - 1)
    } else {
        two
    }
}

pub open spec fn add_cx(x: Cx, y: Cx) -> Cx {
    cx(x.re + y.re, x.im + y.im)
}

/// The local (row, column) pairs of a `k`-by-`k` stamp, row by row.
pub open spec fn local_pairs(k: nat) -> Seq<(int, int)> {
    if k == 2 {
        seq![(0, 0), (0, 1), (1, 0), (1, 1)]
    } else {
        seq![(0, 0), (0, 1), (0, 2), (1, 0), (1, 1), (1, 2), (2, 0), (2, 1), (2, 2)]
    }
}

/// `m` with `x` added at `(r, c)`.
pub open spec fn put(m: Seq<Seq<Cx>>, r: int, c: int, x: Cx) -> Seq<Seq<Cx>> {
    m.update(r, m[r].update(c, add_cx(m[r][c], x)))
}

/// The first `p` local entries of `lm` deposited onto `m` at the global indices `idx`.
pub open spec fn scatter_mat(m: Seq<Seq<Cx>>, lm: Seq<Seq<Cx>>, idx: Seq<int>, p: nat) -> Seq<
    Seq<Cx>,
>
    decreases p,
{
    if p == 0 {
        m
    } else {
        let q = local_pairs(idx.len())[p - 1];
        put(scatter_mat(m, lm, idx, (p - 1) as nat), idx[q.0], idx[q.1], lm[q.0][q.1])
    }
}

pub open spec fn scatter_vec(v: Seq<Cx>, lv: Seq<Cx>, idx: Seq<int>, p: nat) -> Seq<Cx>
    decreases p,
{
    if p == 0 {
        v
    } else {
        let w = scatter_vec(v, lv, idx, (p - 1) as nat);
        let a = p - 1;
        w.update(idx[a], add_cx(w[idx[a]], lv[a]))
    }
}

pub open spec fn fits(x: int) -> bool {
    i128::MIN <= x <= i128::MAX
}

/// The sum of two entries fits in `i128`, in both parts.
pub open spec fn entry_fits(x: Cx, y: Cx) -> bool {
    fits(x.re + y.re) && fits(x.im + y.im)
}

/// Every entrywise sum of the two systems fits in `i128`.
pub open spec fn sum_fits(m1: Seq<Seq<Cx>>, v1: Seq<Cx>, m2: Seq<Seq<Cx>>, v2: Seq<Cx>) -> bool {
    &&& forall|r: int, c: int|
        0 <= r < v1.len() && 0 <= c < v1.len() ==> #[trigger] entry_fits(m1[r][c], m2[r][c])
    &&& forall|r: int| 0 <= r < v1.len() ==> #[trigger] entry_fits(v1[r], v2[r])
}

pub open spec fn mat_sum(m1: Seq<Seq<Cx>>, m2: Seq<Seq<Cx>>) -> Seq<Seq<Cx>> {
    Seq::new(m1.len(), |r: int| Seq::new(m1[r].len(), |c: int| add_cx(m1[r][c], m2[r][c])))
}

pub open spec fn vec_sum(v1: Seq<Cx>, v2: Seq<Cx>) -> Seq<Cx> {
    Seq::new(v1.len(), |r: int| add_cx(v1[r], v2[r]))
}

impl CircuitMatrix {
    pub open spec fn wf(&self) -> bool {
        model_wf(self@)
    }

    /// The starting system: two zero unknowns for nodes 0 and 1.
    pub fn new() -> (r: Self)
        ensures
            r.wf(),
            r@.nodes == seq![Slot::Node(0), Slot::Node(1)],
            r@.mat == zero_mat(2),
            r@.vec == zero_vec(2),
            r@.branches == 0,
    {
        let mat = zero_grid(2);
        let vec = zero_line(2);
        let mut nodes: Vec<Slot> = Vec::new();
        nodes.push(Slot::Node(0));
        nodes.push(Slot::Node(1));
        let r = CircuitMatrix { mat, vec, nodes, branches: 0 };
        proof {
            assert(r@.nodes =~= seq![Slot::Node(0), Slot::Node(1)]);
        }
        r
    }

    /// Position of real node `id` in the node list, if it is there.
    fn find_node(&self, id: usize) -> (r: Option<usize>)
        ensures
            r is Some ==> r->0 < self@.nodes.len() && self@.nodes[r->0 as int] == Slot::Node(id),
            r is None <==> !self@.nodes.contains(Slot::Node(id)),
    {
        let mut i: usize = 0;
        while i < self.nodes.len()
            invariant
                i <= self.nodes@.len(),
                forall|j: int| 0 <= j < i ==> self.nodes@[j] != Slot::Node(id),
            decreases self.nodes@.len() - i,
        {
            if self.nodes[i] == Slot::Node(id) {
                return Some(i);
            }
            i = i + 1;
        }
        None
    }

    /// Adds one unknown `slot`, with a zero row, column and vector entry.
    fn extend_with0(&mut self, slot: Slot)
        requires
            shaped(old(self)@),
            size_ok(old(self)@.nodes.len() + 1 as int),
        ensures
            final(self)@ == grow(old(self)@, slot),
    {
        let n = self.nodes.len();
        proof {
            lemma_size_mono(n as int, n + 1);
        }
        let mut g = zero_grid(n + 1);
        copy_block(&mut g, &self.mat, n, n, 0);
        self.mat = g;
        let mut nv = zero_line(n + 1);
        copy_line_block(&mut nv, &self.vec, n, 0);
        self.vec = nv;
        self.nodes.push(slot);
        proof {
            let want = grow(old(self)@, slot).mat;
            let m0 = old(self)@.mat;
            assert forall|r: int| 0 <= r < n + 1 implies #[trigger] self@.mat[r] =~= want[r] by {
                if r < n {
                    assert(m0[r].len() == n);
                }
            }
            assert(self@.mat =~= want);
            assert(self@.vec =~= old(self)@.vec.push(zero()));
        }
    }
}

proof fn lemma_grow_wf(s: SysModel, slot: Slot, b: nat)
    requires
        model_wf(s),
        size_ok((s.nodes.len() + 1) as int),
        !s.nodes.contains(slot),
        s.branches <= b,
        slot is Branch ==> slot->Branch_0 < b,
    ensures
        model_wf(SysModel { branches: b, ..grow(s, slot) }),
{
    let g = SysModel { branches: b, ..grow(s, slot) };
    let n = s.nodes.len();
    assert forall|i: int| 0 <= i < g.nodes.len() implies #[trigger] g.mat[i].len() == g.nodes.len() by {
        if i < n {
            assert(s.mat[i].len() == n);
        }
    }
    assert forall|i: int, j: int|
        0 <= i < g.nodes.len() && 0 <= j < g.nodes.len() && i != j implies #[trigger] g.nodes[i]
        != #[trigger] g.nodes[j] by {
        if i == n {
            assert(s.nodes[j] == g.nodes[j]);
        } else if j == n {
            assert(s.nodes[i] == g.nodes[i]);
        }
    }
}

/// In a list without repeats, the position of an entry is where it stands.
proof fn lemma_index_of_unique(nodes: Seq<Slot>, i: int)
    requires
        0 <= i < nodes.len(),
        forall|a: int, b: int|
            0 <= a < nodes.len() && 0 <= b < nodes.len() && a != b ==> #[trigger] nodes[a]
                != #[trigger] nodes[b],
    ensures
        index_of(nodes, nodes[i]) == i,
{
    let j = index_of(nodes, nodes[i]);
    assert(0 <= j < nodes.len() && nodes[j] == nodes[i]);
}

impl CircuitMatrix {
    /// Registers real node `id` (once) and returns its position.
    fn register(&mut self, id: usize) -> (r: usize)
        requires
            old(self).wf(),
            size_ok(old(self)@.nodes.len() + 1 as int),
        ensures
            final(self).wf(),
            final(self)@ == register_node(old(self)@, id),
            r < final(self)@.nodes.len(),
            final(self)@.nodes[r as int] == Slot::Node(id),
    {
        match self.find_node(id) {
            Some(i) => i,
            None => {
                proof {
                    lemma_grow_wf(self@, Slot::Node(id), self@.branches);
                    assert(SysModel { branches: self@.branches, ..grow(self@, Slot::Node(id)) } == grow(self@, Slot::Node(id)));
                }
                let n = self.nodes.len();
                self.extend_with0(Slot::Node(id));
                n
            },
        }
    }

    /// Adds a fresh branch unknown and returns its position.
    fn register_branch(&mut self) -> (r: usize)
        requires
            old(self).wf(),
            size_ok(old(self)@.nodes.len() + 1 as int),
            old(self).branches < usize::MAX,
        ensures
            final(self).wf(),
            final(self)@ == register_branch(old(self)@),
            r == final(self)@.nodes.len() - 1,
    {
        let slot = Slot::Branch(self.branches);
        proof {
            if self@.nodes.contains(slot) {
                let i = choose|i: int| 0 <= i < self@.nodes.len() && self@.nodes[i] == slot;
                assert(self@.nodes[i] is Branch);
            }
            lemma_grow_wf(self@, slot, self@.branches + 1);
        }
        let n = self.nodes.len();
        self.extend_with0(slot);
        self.branches = self.branches + 1;
        proof {
            assert(self@ == register_branch(old(self)@));
        }
        n
    }

    /// Registers an element's terminals and, for a source or an inductor, its
    /// branch unknown.
    fn update_nodes(&mut self, pos: usize, neg: usize, etype: ElementType) -> (r: (usize, usize))
        requires
            old(self).wf(),
            needs_branch(etype) ==> old(self).branches < usize::MAX,
            size_ok(old(self)@.nodes.len() + 3 as int),
        ensures
            final(self).wf(),
            final(self)@ == update_nodes_spec(old(self)@, pos, neg, etype),
            r.0 < final(self)@.nodes.len() && final(self)@.nodes[r.0 as int] == Slot::Node(pos),
            r.1 < final(self)@.nodes.len() && final(self)@.nodes[r.1 as int] == Slot::Node(neg),
    {
        let ghost n0: int = self@.nodes.len() as int;
        proof {
            lemma_size_mono(n0 + 1, n0 + 3 as int);
        }
        let ip = self.register(pos);
        proof {
            lemma_size_mono(self@.nodes.len() + 1 as int, n0 + 3);
        }
        let ineg = self.register(neg);
        proof {
            lemma_size_mono(self@.nodes.len() + 1 as int, n0 + 3);
        }
        match etype {
            ElementType::V | ElementType::L => {
                self.register_branch();
            },
            _ => {},
        }
        (ip, ineg)
    }
}

pub open spec fn as_ints(idx: Seq<usize>) -> Seq<int> {
    idx.map_values(|i: usize| i as int)
}

pub open spec fn bounded(x: Cx, b: int) -> bool {
    -b <= x.re <= b && -b <= x.im <= b
}

/// Adds `src` into `dst` entry by entry; `false` when some sum leaves `i128`.
fn add_line(dst: &mut Line, src: &Line, n: usize) -> (ok: bool)
    requires
        line(*old(dst)).len() == n,
        line(*src).len() == n,
    ensures
        ok <==> forall|c: int| 0 <= c < n ==> #[trigger] entry_fits(line(*old(dst))[c], line(*src)[c]),
        ok ==> line(*final(dst)) == vec_sum(line(*old(dst)), line(*src)),
{
    let ghost d0 = line(*dst);
    let ghost sv = line(*src);
    let mut c: usize = 0;
    while c < n
        invariant
            c <= n,
            d0 == line(*old(dst)),
            sv == line(*src),
            d0.len() == n,
            sv.len() == n,
            line(*dst).len() == n,
            forall|j: int| 0 <= j < n ==> #[trigger] line(*dst)[j] == if j < c {
                add_cx(d0[j], sv[j])
            } else {
                d0[j]
            },
            forall|j: int| 0 <= j < c ==> #[trigger] entry_fits(d0[j], sv[j]),
        decreases n - c,
    {
        let x = dst.get(c);
        let y = src.get(c);
        let re = match x.re.checked_add(y.re) {
            Some(t) => t,
            None => {
                proof {
                    assert(!entry_fits(d0[c as int], sv[c as int]));
                }
                return false;
            },
        };
        let im = match x.im.checked_add(y.im) {
            Some(t) => t,
            None => {
                proof {
                    assert(!entry_fits(d0[c as int], sv[c as int]));
                }
                return false;
            },
        };
        proof {
            assert(entry_fits(d0[c as int], sv[c as int]));
        }
        dst.set(c, Cx { re, im });
        c = c + 1;
    }
    proof {
        assert(line(*dst) =~= vec_sum(d0, sv));
    }
    true
}

impl CircuitMatrix {
    /// Places a local stamp at the global positions `idx`, in a zero system of
    /// the current size.
    fn extend_elem_mat_vec(&self, lm: &Vec<Vec<Cx>>, lv: &Vec<Cx>, idx: &Vec<usize>) -> (r: (
        Grid,
        Line,
    ))
        requires
            self.wf(),
            idx@.len() == 2 || idx@.len() == 3,
            stamp_shape(rows(lm@), lv@, idx@.len()),
            forall|a: int| 0 <= a < idx@.len() ==> #[trigger] idx@[a] < self@.nodes.len(),
        ensures
            grid(r.0) == scatter_mat(
                zero_mat(self@.nodes.len()),
                rows(lm@),
                as_ints(idx@),
                local_pairs(idx@.len()).len(),
            ),
            line(r.1) == scatter_vec(zero_vec(self@.nodes.len()), lv@, as_ints(idx@), idx@.len()),
            is_square(grid(r.0), self@.nodes.len()),
            line(r.1).len() == self@.nodes.len(),
    {
        let n = self.nodes.len();
        let k = idx.len();
        let ghost lmv = rows(lm@);
        let ghost ix = as_ints(idx@);
        let ghost z = zero_mat(n as nat);
        let pairs: Vec<(usize, usize)> = if k == 2 {
            vec![(0, 0), (0, 1), (1, 0), (1, 1)]
        } else {
            vec![(0, 0), (0, 1), (0, 2), (1, 0), (1, 1), (1, 2), (2, 0), (2, 1), (2, 2)]
        };
        let ghost pv = pairs@;
        let mut m = zero_grid(n);
        let mut p: usize = 0;
        while p < pairs.len()
            invariant
                n == self@.nodes.len(),
                k == idx@.len(),
                k == 2 || k == 3,
                stamp_shape(lmv, lv@, k as nat),
                lmv == rows(lm@),
                ix == as_ints(idx@),
                z == zero_mat(n as nat),
                forall|a: int| 0 <= a < k ==> #[trigger] idx@[a] < n,
                pairs@ == pv,
                pv.len() == local_pairs(k as nat).len(),
                forall|q: int| 0 <= q < pv.len() ==> #[trigger] pv[q].0 as int == local_pairs(k as nat)[q].0
                    && pv[q].1 as int == local_pairs(k as nat)[q].1
                    && pv[q].0 < k && pv[q].1 < k,
                p <= pairs@.len(),
                pairs@.len() <= 9,
                is_square(grid(m), n as nat),
                grid(m) == scatter_mat(z, lmv, ix, p as nat),
                forall|i: int, j: int| 0 <= i < n && 0 <= j < n ==> bounded(#[trigger] grid(m)[i][j], p * LIMIT),
            decreases pairs@.len() - p,
        {
            let (a, b) = pairs[p];
            let r = idx[a];
            let c = idx[b];
            proof {
                assert(lmv[a as int] == lm@[a as int]@);
            }
            let x = lm[a][b];
            let cur = m.get(r, c);
            proof {
                assert(lmv[a as int][b as int] == x);
                assert(small(x));
                assert(bounded(cur, p * LIMIT));
                assert(p * LIMIT + LIMIT == (p + 1) * LIMIT) by (nonlinear_arith);
                assert((p + 1) * LIMIT <= 9 * LIMIT) by (nonlinear_arith)
                    requires p + 1 <= 9;
            }
            let ghost before = grid(m);
            m.set(r, c, Cx { re: cur.re + x.re, im: cur.im + x.im });
            p = p + 1;
            proof {
                assert(ix[a as int] == r as int);
                assert(ix[b as int] == c as int);
                assert(grid(m) =~= put(before, r as int, c as int, x));
                assert forall|i: int, j: int| 0 <= i < n && 0 <= j < n implies bounded(#[trigger] grid(m)[i][j], p * LIMIT) by {
                    if i != r || j != c {
                        assert(bounded(before[i][j], (p - 1) * LIMIT));
                    }
                }
            }
        }
        proof {
            lemma_size_mono(n as int, n as int);
        }
        let mut v = zero_line(n);
        let mut a: usize = 0;
        while a < k
            invariant
                n == self@.nodes.len(),
                k == idx@.len(),
                k == 2 || k == 3,
                stamp_shape(lmv, lv@, k as nat),
                ix == as_ints(idx@),
                forall|q: int| 0 <= q < k ==> #[trigger] idx@[q] < n,
                a <= k,
                line(v).len() == n,
                line(v) == scatter_vec(zero_vec(n as nat), lv@, ix, a as nat),
                forall|i: int| 0 <= i < n ==> bounded(#[trigger] line(v)[i], a * LIMIT),
            decreases k - a,
        {
            let r = idx[a];
            let x = lv[a];
            let cur = v.get(r);
            proof {
                assert(small(x));
                assert(a * LIMIT + LIMIT == (a + 1) * LIMIT) by (nonlinear_arith);
                assert((a + 1) * LIMIT <= 3 * LIMIT) by (nonlinear_arith)
                    requires a + 1 <= 3;
            }
            let ghost before = line(v);
            v.set(r, Cx { re: cur.re + x.re, im: cur.im + x.im });
            a = a + 1;
            proof {
                assert(ix[a - 1] == r as int);
                assert(line(v) =~= before.update(r as int, add_cx(before[r as int], lv@[a - 1])));
                assert forall|i: int| 0 <= i < n implies bounded(#[trigger] line(v)[i], a * LIMIT) by {
                    if i != r {
                        assert(bounded(before[i], (a - 1) * LIMIT));
                    }
                }
            }
        }
        (m, v)
    }

    /// Adds a global-size contribution to the system; on overflow the system
    /// is left as it was.
    fn add_mat_vec(&mut self, m: &Grid, v: &Line) -> (r: Result<(), CircuitError>)
        requires
            old(self).wf(),
            shaped(SysModel { mat: grid(*m), vec: line(*v), ..old(self)@ }),
        ensures
            final(self).wf(),
            r is Ok <==> sum_fits(old(self)@.mat, old(self)@.vec, grid(*m), line(*v)),
            r is Ok ==> final(self)@ == (SysModel {
                mat: mat_sum(old(self)@.mat, grid(*m)),
                vec: vec_sum(old(self)@.vec, line(*v)),
                ..old(self)@
            }),
            r is Err ==> final(self)@ == old(self)@ && r->Err_0 == CircuitError::Overflow,
    {
        let n = self.nodes.len();
        let ghost mv = grid(*m);
        let ghost s = self@;
        let mut g = self.mat.duplicate();
        if !add_grid(&mut g, m, n) {
            proof {
                let (r, c) = choose|r: int, c: int| 0 <= r < n && 0 <= c < n && !entry_fits(s.mat[r][c], mv[r][c]);
                if sum_fits(s.mat, s.vec, mv, line(*v)) {
                    assert(entry_fits(s.mat[r][c], mv[r][c]));
                }
            }
            return Err(CircuitError::Overflow);
        }
        let mut nv = self.vec.duplicate();
        match add_line(&mut nv, v, n) {
            true => {
                self.mat = g;
                self.vec = nv;
                proof {
                    assert forall|r: int| 0 <= r < n implies #[trigger] self@.mat[r].len() == n by {
                        assert(s.mat[r].len() == n);
                    }
                }
                Ok(())
            },
            false => {
                proof {
                    let c = choose|c: int| 0 <= c < n && !(entry_fits(s.vec[c], line(*v)[c]));
                    if sum_fits(s.mat, s.vec, mv, line(*v)) {
                        assert(entry_fits(s.vec[c], line(*v)[c]));
                    }
                }
                Err(CircuitError::Overflow)
            },
        }
    }
}

/// Adds `src` into `dst` entry by entry; `false` when some sum leaves `i128`.
fn add_grid(dst: &mut Grid, src: &Grid, n: usize) -> (ok: bool)
    requires
        is_square(grid(*old(dst)), n as nat),
        is_square(grid(*src), n as nat),
    ensures
        ok <==> forall|r: int, c: int|
            0 <= r < n && 0 <= c < n ==> #[trigger] entry_fits(grid(*old(dst))[r][c], grid(*src)[r][c]),
        ok ==> grid(*final(dst)) == mat_sum(grid(*old(dst)), grid(*src)),
{
    let ghost d0 = grid(*dst);
    let ghost sv = grid(*src);
    let mut i: usize = 0;
    while i < n
        invariant
            i <= n,
            d0 == grid(*old(dst)),
            sv == grid(*src),
            is_square(d0, n as nat),
            is_square(sv, n as nat),
            is_square(grid(*dst), n as nat),
            forall|r: int, c: int|
                0 <= r < n && 0 <= c < n ==> #[trigger] grid(*dst)[r][c] == if r < i {
                    add_cx(d0[r][c], sv[r][c])
                } else {
                    d0[r][c]
                },
            forall|r: int, c: int| 0 <= r < i && 0 <= c < n ==> #[trigger] entry_fits(d0[r][c], sv[r][c]),
        decreases n - i,
    {
        let mut j: usize = 0;
        while j < n
            invariant
                i < n,
                j <= n,
                d0 == grid(*old(dst)),
                sv == grid(*src),
                is_square(d0, n as nat),
                is_square(sv, n as nat),
                is_square(grid(*dst), n as nat),
                forall|r: int, c: int|
                    0 <= r < n && 0 <= c < n ==> #[trigger] grid(*dst)[r][c] == if r < i || (r == i
                        && c < j) {
                        add_cx(d0[r][c], sv[r][c])
                    } else {
                        d0[r][c]
                    },
                forall|r: int, c: int|
                    0 <= r < n && 0 <= c < n && (r < i || (r == i && c < j)) ==> #[trigger] entry_fits(
                        d0[r][c],
                        sv[r][c],
                    ),
            decreases n - j,
        {
            let x = dst.get(i, j);
            let y = src.get(i, j);
            let re = match x.re.checked_add(y.re) {
                Some(t) => t,
                None => {
                    proof {
                        assert(!entry_fits(d0[i as int][j as int], sv[i as int][j as int]));
                    }
                    return false;
                },
            };
            let im = match x.im.checked_add(y.im) {
                Some(t) => t,
                None => {
                    proof {
                        assert(!entry_fits(d0[i as int][j as int], sv[i as int][j as int]));
                    }
                    return false;
                },
            };
            proof {
                assert(entry_fits(d0[i as int][j as int], sv[i as int][j as int]));
            }
            dst.set(i, j, Cx { re, im });
            j = j + 1;
        }
        i = i + 1;
    }
    proof {
        let want = mat_sum(d0, sv);
        assert forall|r: int| 0 <= r < n implies #[trigger] grid(*dst)[r] =~= want[r] by {
            assert(grid(*dst)[r].len() == n);
        }
        assert(grid(*dst) =~= want);
    }
    true
}

/// An element's stamp placed at global size, after its terminals (and
/// branch unknown) are registered.
pub open spec fn placed(s: SysModel, name: Seq<char>, e: Element, ac: bool, omega: int) -> (
    Seq<Seq<Cx>>,
    Seq<Cx>,
) {
    let t = type_of_name(name)->0;
    let w = if ac {
        omega
    } else {
        0
    };
    let s2 = update_nodes_spec(s, e.pos, e.neg, t);
    let n = s2.nodes.len();
    let idx = stamp_indices(s2.nodes, e.pos, e.neg, t);
    (
        scatter_mat(zero_mat(n), stamp_mat(t, e.value as int, ac, w), idx, local_pairs(stamp_size(t)).len()),
        scatter_vec(zero_vec(n), stamp_vec(t, e.value as int), idx, stamp_size(t)),
    )
}

/// One element's effect: the system it leaves, and the error that stopped it.
pub open spec fn step(s: SysModel, name: Seq<char>, e: Element, ac: bool, omega: int) -> (
    SysModel,
    Option<CircuitError>,
) {
    let w = if ac {
        omega
    } else {
        0
    };
    match type_of_name(name) {
        None => (s, Some(CircuitError::UnsupportedElement)),
        Some(t) => {
            if !value_ok(t, e.value as int, ac, w) {
                (s, Some(CircuitError::InvalidValue))
            } else if (needs_branch(t) && s.branches >= usize::MAX) || !size_ok((s.nodes.len() + 3) as int) {
                (s, Some(CircuitError::Overflow))
            } else {
                let s2 = update_nodes_spec(s, e.pos, e.neg, t);
                let (sm, sv) = placed(s, name, e, ac, omega);
                if sum_fits(s2.mat, s2.vec, sm, sv) {
                    (SysModel { mat: mat_sum(s2.mat, sm), vec: vec_sum(s2.vec, sv), ..s2 }, None)
                } else {
                    (s2, Some(CircuitError::Overflow))
                }
            }
        },
    }
}

/// The elements processed in order, stopping at the first error.
pub open spec fn assemble_from(
    s: SysModel,
    elems: Seq<(Seq<char>, Element)>,
    ac: bool,
    omega: int,
) -> (SysModel, Option<CircuitError>)
    decreases elems.len(),
{
    if elems.len() == 0 {
        (s, None)
    } else {
        let r = step(s, elems[0].0, elems[0].1, ac, omega);
        if r.1 is Some {
            r
        } else {
            assemble_from(r.0, elems.drop_first(), ac, omega)
        }
    }
}

pub open spec fn named(v: Seq<(String, Element)>) -> Seq<(Seq<char>, Element)> {
    v.map_values(|p: (String, Element)| (p.0@, p.1))
}

/// All elements of a netlist: sources, resistors, capacitors, then inductors.
pub open spec fn netlist_elements(n: Netlist) -> Seq<(Seq<char>, Element)> {
    named(n.v@) + named(n.r@) + named(n.c@) + named(n.l@)
}

pub open spec fn err_of(r: Result<(), CircuitError>) -> Option<CircuitError> {
    match r {
        Ok(_) => None,
        Err(e) => Some(e),
    }
}

/// The system without its first unknown (the ground reference).
pub open spec fn drop_ground(s: SysModel) -> SysModel {
    SysModel {
        mat: Seq::new((s.nodes.len() - 1) as nat, |r: int| s.mat[r + 1].drop_first()),
        vec: s.vec.drop_first(),
        nodes: s.nodes.drop_first(),
        branches: s.branches,
    }
}

pub open spec fn strs(v: Seq<(&str, Element)>) -> Seq<(Seq<char>, Element)> {
    v.map_values(|p: (&str, Element)| (p.0@, p.1))
}

fn push_all<'a>(out: &mut Vec<(&'a str, Element)>, src: &'a Vec<(String, Element)>)
    ensures
        strs(final(out)@) == strs(old(out)@) + named(src@),
{
    let ghost start = strs(old(out)@);
    let mut i: usize = 0;
    while i < src.len()
        invariant
            i <= src@.len(),
            strs(out@) == start + named(src@).take(i as int),
        decreases src@.len() - i,
    {
        let ghost before = out@;
        let name = src[i].0.as_str();
        out.push((name, src[i].1));
        i = i + 1;
        proof {
            assert(out@ == before.push((name, src@[i - 1].1)));
            assert(strs(out@) =~= strs(before).push((src@[i - 1].0@, src@[i - 1].1)));
            assert(named(src@).take(i as int) =~= named(src@).take(i - 1).push((src@[i - 1].0@, src@[i - 1].1)));
            assert(strs(out@) =~= start + named(src@).take(i as int));
        }
    }
    proof {
        assert(named(src@).take(src@.len() as int) =~= named(src@));
    }
}

/// All elements of a netlist in one list: sources, resistors, capacitors,
/// then inductors, each kind in its stored order.
pub fn change_vec_from_netlist(netlist: &Netlist) -> (r: Vec<(&str, Element)>)
    ensures
        strs(r@) == netlist_elements(*netlist),
{
    let mut out: Vec<(&str, Element)> = Vec::new();
    proof {
        assert(strs(out@) =~= Seq::empty());
    }
    push_all(&mut out, &netlist.v);
    push_all(&mut out, &netlist.r);
    push_all(&mut out, &netlist.c);
    push_all(&mut out, &netlist.l);
    proof {
        assert(strs(out@) =~= netlist_elements(*netlist));
    }
    out
}

impl CircuitMatrix {
    /// Whether three more unknowns still fit in a matrix `ndarray` can allocate.
    fn has_room(&self) -> (r: bool)
        ensures
            r == size_ok((self@.nodes.len() + 3) as int),
    {
        let n = self.nodes.len();
        if n > usize::MAX - 3 {
            proof {
                assert(n + 3 > isize::MAX);
                assert((n + 3) * (n + 3) >= n + 3) by (nonlinear_arith)
                    requires n >= 0;
            }
            return false;
        }
        let m = n + 3;
        match m.checked_mul(m) {
            Some(sq) => sq <= isize::MAX as usize,
            None => false,
        }
    }

    /// Processes one element: type, stamp, registration, placement, accumulation.
    fn assemble_element(&mut self, name: &str, elem: Element, ac: bool, omega: i128) -> (r: Result<
        (),
        CircuitError,
    >)
        requires
            old(self).wf(),
        ensures
            final(self).wf(),
            (final(self)@, err_of(r)) == step(old(self)@, name@, elem, ac, omega as int),
    {
        let etype = match get_element_type(name) {
            Some(t) => t,
            None => return Err(CircuitError::UnsupportedElement),
        };
        let stamp = if ac {
            ac_mat_vec(elem, etype, omega)
        } else {
            gen_mat_vec_from_element(elem, etype)
        };
        let (lm, lv) = match stamp {
            Ok(st) => st,
            Err(e) => return Err(e),
        };
        let branch = match etype {
            ElementType::V | ElementType::L => true,
            _ => false,
        };
        if branch && self.branches == usize::MAX {
            return Err(CircuitError::Overflow);
        }
        if !self.has_room() {
            return Err(CircuitError::Overflow);
        }
        let ghost w: int = if ac { omega as int } else { 0 };
        proof {
            lemma_stamp_shape(etype, elem.value as int, ac, w);
        }
        let (ip, ineg) = self.update_nodes(elem.pos, elem.neg, etype);
        let ghost s2 = self@;
        let mut idx: Vec<usize> = Vec::new();
        idx.push(ip);
        idx.push(ineg);
        if branch {
            idx.push(self.nodes.len() - 1);
        }
        proof {
            lemma_index_of_unique(s2.nodes, ip as int);
            lemma_index_of_unique(s2.nodes, ineg as int);
            assert(as_ints(idx@) =~= stamp_indices(s2.nodes, elem.pos, elem.neg, etype));
        }
        let (gm, gv) = self.extend_elem_mat_vec(&lm, &lv, &idx);
        self.add_mat_vec(&gm, &gv)
    }

    /// Assembles every element of `netlist` into the system, in the order of
    /// `change_vec_from_netlist`, stopping at the first error. `omega` is used
    /// only in AC analysis; transient analysis is refused before any change.
    pub fn create_mat_vec_from_netlist(
        &mut self,
        netlist: &Netlist,
        analysis: Analysis,
        omega: i128,
    ) -> (r: Result<(), CircuitError>)
        requires
            old(self).wf(),
        ensures
            final(self).wf(),
            analysis is Tran ==> r == Err::<(), CircuitError>(CircuitError::UnsupportedAnalysis)
                && final(self)@ == old(self)@,
            !(analysis is Tran) ==> (final(self)@, err_of(r)) == assemble_from(
                old(self)@,
                netlist_elements(*netlist),
                analysis is AC,
                omega as int,
            ),
    {
        let ac = match analysis {
            Analysis::DC => false,
            Analysis::AC => true,
            Analysis::Tran => return Err(CircuitError::UnsupportedAnalysis),
        };
        let elements = change_vec_from_netlist(netlist);
        let ghost all = strs(elements@);
        let mut i: usize = 0;
        proof {
            assert(all.skip(0) =~= all);
        }
        while i < elements.len()
            invariant
                self.wf(),
                ac == (analysis is AC),
                !(analysis is Tran),
                all == strs(elements@),
                all == netlist_elements(*netlist),
                i <= elements@.len(),
                assemble_from(old(self)@, all, ac, omega as int) == assemble_from(
                    self@,
                    all.skip(i as int),
                    ac,
                    omega as int,
                ),
            decreases elements@.len() - i,
        {
            let (name, elem) = elements[i];
            let ghost before = self@;
            let res = self.assemble_element(name, elem, ac, omega);
            proof {
                assert(all.skip(i as int)[0] == (name@, elem));
                assert(all.skip(i as int).drop_first() =~= all.skip(i + 1));
            }
            match res {
                Ok(()) => {},
                Err(e) => return Err(e),
            }
            i = i + 1;
        }
        proof {
            assert(all.skip(i as int).len() == 0);
        }
        Ok(())
    }
}

/// The vector without its first entry.
fn remove_ground_from_vector(vector: &Line, n: usize) -> (r: Line)
    requires
        n >= 1,
        n <= isize::MAX,
        line(*vector).len() == n,
    ensures
        line(r) == line(*vector).drop_first(),
{
    let mut out = zero_line(n - 1);
    copy_line_block(&mut out, vector, n - 1, 1);
    proof {
        assert(line(out) =~= line(*vector).drop_first());
    }
    out
}

/// The node list without its first entry.
fn remove_ground_from_nodes(nodes: &Vec<Slot>) -> (r: Vec<Slot>)
    requires
        nodes@.len() >= 1,
    ensures
        r@ == nodes@.drop_first(),
{
    let mut out: Vec<Slot> = Vec::new();
    let mut j: usize = 1;
    while j < nodes.len()
        invariant
            1 <= j <= nodes@.len(),
            out@ == nodes@.subrange(1, j as int),
        decreases nodes@.len() - j,
    {
        out.push(nodes[j]);
        j = j + 1;
        proof {
            assert(out@ =~= nodes@.subrange(1, j as int));
        }
    }
    proof {
        assert(nodes@.subrange(1, nodes@.len() as int) =~= nodes@.drop_first());
    }
    out
}

/// The square matrix without its first row and first column.
fn remove_ground_from_array(matrix: &Grid, n: usize) -> (r: Grid)
    requires
        n >= 1,
        size_ok(n as int),
        is_square(grid(*matrix), n as nat),
    ensures
        grid(r) == Seq::new((n - 1) as nat, |i: int| grid(*matrix)[i + 1].drop_first()),
{
    proof {
        lemma_size_mono(n - 1, n as int);
    }
    let mut g = zero_grid(n - 1);
    copy_block(&mut g, matrix, n - 1, n - 1, 1);
    proof {
        let want = Seq::new((n - 1) as nat, |i: int| grid(*matrix)[i + 1].drop_first());
        assert forall|r: int| 0 <= r < n - 1 implies #[trigger] grid(g)[r] =~= want[r] by {
            assert(grid(*matrix)[r + 1].len() == n);
        }
        assert(grid(g) =~= want);
    }
    g
}

impl CircuitMatrix {
    /// Removes the ground reference: row 0, column 0, vector entry 0 and node 0.
    pub fn remove_ground(&mut self) -> (r: Result<(), CircuitError>)
        requires
            old(self).wf(),
        ensures
            final(self).wf(),
            old(self)@.nodes.len() == 0 ==> r == Err::<(), CircuitError>(CircuitError::InvalidState)
                && final(self)@ == old(self)@,
            old(self)@.nodes.len() > 0 ==> r is Ok && final(self)@ == drop_ground(old(self)@),
    {
        if self.nodes.len() == 0 {
            return Err(CircuitError::InvalidState);
        }
        let ghost s = self@;
        let mat = remove_ground_from_array(&self.mat, self.nodes.len());
        proof {
            lemma_size_mono(self@.nodes.len() as int, self@.nodes.len() as int);
        }
        let vec = remove_ground_from_vector(&self.vec, self.nodes.len());
        let nodes = remove_ground_from_nodes(&self.nodes);
        self.mat = mat;
        self.vec = vec;
        self.nodes = nodes;
        proof {
            let n = s.nodes.len();
            assert(self@.mat =~= drop_ground(s).mat);
            assert forall|i: int| 0 <= i < n - 1 implies #[trigger] self@.mat[i].len() == n - 1 by {
                assert(s.mat[i + 1].len() == n);
            }
            assert forall|i: int, j: int|
                0 <= i < self@.nodes.len() && 0 <= j < self@.nodes.len() && i != j implies #[trigger] self@.nodes[i]
                != #[trigger] self@.nodes[j] by {
                assert(s.nodes[i + 1] != s.nodes[j + 1]);
            }
            assert forall|i: int| 0 <= i < self@.nodes.len() && #[trigger] self@.nodes[i] is Branch implies
                self@.nodes[i]->Branch_0 < self@.branches by {
                assert(s.nodes[i + 1] == self@.nodes[i]);
            }
            lemma_size_mono(n - 1, n as int);
        }
        Ok(())
    }

    /// A copy of the matrix and the vector.
    pub fn get_current_mat_vec(&self) -> (r: (Grid, Line))
        ensures
            grid(r.0) == self@.mat,
            line(r.1) == self@.vec,
    {
        (self.mat.duplicate(), self.vec.duplicate())
    }

    /// The unknowns, in row order.
    pub fn get_nodes(&self) -> (r: &Vec<Slot>)
        ensures
            r@ == self@.nodes,
    {
        &self.nodes
    }

    /// Number of unknowns: nodes and branch currents.
    pub fn get_number_of_nodes(&self) -> (r: usize)
        ensures
            r == self@.nodes.len(),
    {
        self.nodes.len()
    }
}

/// Registering a real node twice is the same as registering it once; a node
/// already listed leaves the count unchanged, a new one adds exactly one
/// unknown, and a source or an inductor adds exactly one branch unknown beyond
/// its terminals.
pub proof fn lemma_node_growth(s: SysModel, id: usize, pos: usize, neg: usize)
    requires
        model_wf(s),
    ensures
        register_node(register_node(s, id), id) == register_node(s, id),
        s.nodes.contains(Slot::Node(id)) ==> register_node(s, id).nodes.len() == s.nodes.len(),
        !s.nodes.contains(Slot::Node(id)) ==> register_node(s, id).nodes.len() == s.nodes.len() + 1,
        register_branch(s).nodes.len() == s.nodes.len() + 1,
        update_nodes_spec(s, pos, neg, ElementType::V).nodes.len() == update_nodes_spec(
            s,
            pos,
            neg,
            ElementType::R,
        ).nodes.len() + 1,
        update_nodes_spec(s, pos, neg, ElementType::L).nodes.len() == update_nodes_spec(
            s,
            pos,
            neg,
            ElementType::C,
        ).nodes.len() + 1,
        s.nodes.contains(Slot::Node(pos)) && s.nodes.contains(Slot::Node(neg)) ==> update_nodes_spec(
            s,
            pos,
            neg,
            ElementType::R,
        ) == s && update_nodes_spec(s, pos, neg, ElementType::C) == s,
{
    let r = register_node(s, id);
    if !s.nodes.contains(Slot::Node(id)) {
        assert(r.nodes[s.nodes.len() as int] == Slot::Node(id));
    }
    assert(r.nodes.contains(Slot::Node(id)));
}

/// A square system of size `n`.
pub open spec fn square(m: Seq<Seq<Cx>>, v: Seq<Cx>, n: nat) -> bool {
    &&& m.len() == n
    &&& v.len() == n
    &&& forall|i: int| 0 <= i < n ==> #[trigger] m[i].len() == n
}

/// Accumulating two contributions one after the other, in either order, is
/// accumulating their sum, as long as no entry leaves `i128`.
pub proof fn lemma_superposition(
    m: Seq<Seq<Cx>>,
    v: Seq<Cx>,
    x1: Seq<Seq<Cx>>,
    w1: Seq<Cx>,
    x2: Seq<Seq<Cx>>,
    w2: Seq<Cx>,
    n: nat,
)
    requires
        square(m, v, n),
        square(x1, w1, n),
        square(x2, w2, n),
        sum_fits(m, v, x1, w1),
        sum_fits(m, v, x2, w2),
        sum_fits(x1, w1, x2, w2),
        sum_fits(mat_sum(m, x1), vec_sum(v, w1), x2, w2),
    ensures
        mat_sum(mat_sum(m, x1), x2) == mat_sum(m, mat_sum(x1, x2)),
        vec_sum(vec_sum(v, w1), w2) == vec_sum(v, vec_sum(w1, w2)),
        mat_sum(mat_sum(m, x1), x2) == mat_sum(mat_sum(m, x2), x1),
        vec_sum(vec_sum(v, w1), w2) == vec_sum(vec_sum(v, w2), w1),
{
    let a = mat_sum(mat_sum(m, x1), x2);
    let b = mat_sum(m, mat_sum(x1, x2));
    let c = mat_sum(mat_sum(m, x2), x1);
    assert forall|r: int| 0 <= r < n implies #[trigger] a[r] =~= b[r] && a[r] =~= c[r] by {
        assert forall|k: int| 0 <= k < n implies #[trigger] a[r][k] == b[r][k] && a[r][k] == c[r][k] by {
            assert(entry_fits(m[r][k], x1[r][k]));
            assert(entry_fits(m[r][k], x2[r][k]));
            assert(entry_fits(x1[r][k], x2[r][k]));
            assert(entry_fits(mat_sum(m, x1)[r][k], x2[r][k]));
        }
    }
    assert(a =~= b);
    assert(a =~= c);
    let p = vec_sum(vec_sum(v, w1), w2);
    let q = vec_sum(v, vec_sum(w1, w2));
    let t = vec_sum(vec_sum(v, w2), w1);
    assert forall|r: int| 0 <= r < n implies #[trigger] p[r] == q[r] && p[r] == t[r] by {
        assert(entry_fits(v[r], w1[r]));
        assert(entry_fits(v[r], w2[r]));
        assert(entry_fits(w1[r], w2[r]));
        assert(entry_fits(vec_sum(v, w1)[r], w2[r]));
    }
    assert(p =~= q);
    assert(p =~= t);
}

/// Removing the ground reference keeps the system square and consistent,
/// shrinks every dimension by exactly one, and removes index 0: every other
/// entry moves up by one position.
pub proof fn lemma_ground_reduction(s: SysModel)
    requires
        model_wf(s),
        s.nodes.len() > 0,
    ensures
        model_wf(drop_ground(s)),
        drop_ground(s).nodes.len() == s.nodes.len() - 1,
        drop_ground(s).mat.len() == s.mat.len() - 1,
        drop_ground(s).vec.len() == s.vec.len() - 1,
        forall|i: int, j: int|
            0 <= i < s.nodes.len() - 1 && 0 <= j < s.nodes.len() - 1 ==> #[trigger] drop_ground(
                s,
            ).mat[i][j] == s.mat[i + 1][j + 1],
        forall|i: int|
            0 <= i < s.nodes.len() - 1 ==> #[trigger] drop_ground(s).vec[i] == s.vec[i + 1]
                && drop_ground(s).nodes[i] == s.nodes[i + 1],
{
    let d = drop_ground(s);
    let n = s.nodes.len();
    assert forall|i: int| 0 <= i < n - 1 implies #[trigger] d.mat[i].len() == n - 1 by {
        assert(s.mat[i + 1].len() == n);
    }
    assert forall|i: int, j: int|
        0 <= i < d.nodes.len() && 0 <= j < d.nodes.len() && i != j implies #[trigger] d.nodes[i]
        != #[trigger] d.nodes[j] by {
        assert(s.nodes[i + 1] != s.nodes[j + 1]);
    }
    assert forall|i: int| 0 <= i < d.nodes.len() && #[trigger] d.nodes[i] is Branch implies
        d.nodes[i]->Branch_0 < d.branches by {
        assert(s.nodes[i + 1] == d.nodes[i]);
    }
    lemma_size_mono(n - 1, n as int);
}

/// Registering one real node keeps the system well formed.
proof fn lemma_register_node_wf(s: SysModel, id: usize)
    requires
        model_wf(s),
        size_ok(s.nodes.len() + 1 as int),
    ensures
        model_wf(register_node(s, id)),
        register_node(s, id).nodes.len() <= s.nodes.len() + 1,
        register_node(s, id).branches == s.branches,
{
    if !s.nodes.contains(Slot::Node(id)) {
        lemma_grow_wf(s, Slot::Node(id), s.branches);
        assert(SysModel { branches: s.branches, ..grow(s, Slot::Node(id)) } == grow(s, Slot::Node(id)));
    }
}

/// Registering an element's terminals and branch unknown keeps the matrix
/// square, with as many rows as the vector has entries and the node list has
/// slots, and keeps every slot distinct.
pub proof fn lemma_update_nodes_wf(s: SysModel, pos: usize, neg: usize, t: ElementType)
    requires
        model_wf(s),
        size_ok(s.nodes.len() + 3 as int),
        needs_branch(t) ==> s.branches < usize::MAX,
    ensures
        model_wf(update_nodes_spec(s, pos, neg, t)),
{
    let n = s.nodes.len() as int;
    lemma_size_mono(n + 1, n + 3);
    lemma_register_node_wf(s, pos);
    let s1 = register_node(s, pos);
    lemma_size_mono(s1.nodes.len() + 1 as int, n + 3);
    lemma_register_node_wf(s1, neg);
    let s2 = register_node(s1, neg);
    if needs_branch(t) {
        lemma_size_mono(s2.nodes.len() + 1 as int, n + 3);
        let slot = Slot::Branch(s2.branches as usize);
        if s2.nodes.contains(slot) {
            let i = choose|i: int| 0 <= i < s2.nodes.len() && s2.nodes[i] == slot;
            assert(s2.nodes[i] is Branch);
        }
        lemma_grow_wf(s2, slot, s2.branches + 1);
        assert(register_branch(s2) == SysModel { branches: s2.branches + 1, ..grow(s2, slot) });
    }
}

/// Two resistors or capacitors between nodes already listed superpose:
/// assembling one and then the other gives the system plus the sum of their
/// placed stamps, in either order, as long as no entry leaves `i128`.
pub proof fn lemma_step_superposition(
    s: SysModel,
    na: Seq<char>,
    a: Element,
    nb: Seq<char>,
    b: Element,
    ac: bool,
    omega: int,
)
    requires
        model_wf(s),
        type_of_name(na) == Some(ElementType::R) || type_of_name(na) == Some(ElementType::C),
        type_of_name(nb) == Some(ElementType::R) || type_of_name(nb) == Some(ElementType::C),
        s.nodes.contains(Slot::Node(a.pos)) && s.nodes.contains(Slot::Node(a.neg)),
        s.nodes.contains(Slot::Node(b.pos)) && s.nodes.contains(Slot::Node(b.neg)),
        size_ok(s.nodes.len() + 3 as int),
        step(s, na, a, ac, omega).1 is None,
        step(s, nb, b, ac, omega).1 is None,
        step(step(s, na, a, ac, omega).0, nb, b, ac, omega).1 is None,
        ({
            let (xa, wa) = placed(s, na, a, ac, omega);
            let (xb, wb) = placed(s, nb, b, ac, omega);
            sum_fits(xa, wa, xb, wb)
        }),
    ensures
        ({
            let (xa, wa) = placed(s, na, a, ac, omega);
            let (xb, wb) = placed(s, nb, b, ac, omega);
            &&& step(step(s, na, a, ac, omega).0, nb, b, ac, omega).0 == (SysModel {
                mat: mat_sum(s.mat, mat_sum(xa, xb)),
                vec: vec_sum(s.vec, vec_sum(wa, wb)),
                ..s
            })
            &&& step(step(s, na, a, ac, omega).0, nb, b, ac, omega).0 == (SysModel {
                mat: mat_sum(mat_sum(s.mat, xb), xa),
                vec: vec_sum(vec_sum(s.vec, wb), wa),
                ..s
            })
        }),
{
    let ta = type_of_name(na)->0;
    let tb = type_of_name(nb)->0;
    assert(update_nodes_spec(s, a.pos, a.neg, ta) == s);
    assert(update_nodes_spec(s, b.pos, b.neg, tb) == s);
    let (xa, wa) = placed(s, na, a, ac, omega);
    let (xb, wb) = placed(s, nb, b, ac, omega);
    let s1 = step(s, na, a, ac, omega).0;
    assert(s1 == SysModel { mat: mat_sum(s.mat, xa), vec: vec_sum(s.vec, wa), ..s });
    assert(s1.nodes == s.nodes);
    assert(update_nodes_spec(s1, b.pos, b.neg, tb) == s1);
    assert(placed(s1, nb, b, ac, omega) == placed(s, nb, b, ac, omega));
    lemma_placed_square(s, na, a, ac, omega);
    lemma_placed_square(s, nb, b, ac, omega);
    lemma_superposition(s.mat, s.vec, xa, wa, xb, wb, s.nodes.len());
}

proof fn lemma_scatter_shape(m: Seq<Seq<Cx>>, lm: Seq<Seq<Cx>>, idx: Seq<int>, p: nat, n: nat)
    requires
        is_square(m, n),
        idx.len() == 2 || idx.len() == 3,
        p <= local_pairs(idx.len()).len(),
        forall|a: int| 0 <= a < idx.len() ==> 0 <= #[trigger] idx[a] < n,
    ensures
        is_square(scatter_mat(m, lm, idx, p), n),
    decreases p,
{
    if p > 0 {
        lemma_scatter_shape(m, lm, idx, (p - 1) as nat, n);
        let q = local_pairs(idx.len())[p - 1];
        assert(0 <= q.0 < idx.len() && 0 <= q.1 < idx.len());
        let prev = scatter_mat(m, lm, idx, (p - 1) as nat);
        assert(prev[idx[q.0]].len() == n);
    }
}

proof fn lemma_scatter_vec_len(v: Seq<Cx>, lv: Seq<Cx>, idx: Seq<int>, p: nat, n: nat)
    requires
        v.len() == n,
        p <= idx.len(),
        forall|a: int| 0 <= a < idx.len() ==> 0 <= #[trigger] idx[a] < n,
    ensures
        scatter_vec(v, lv, idx, p).len() == n,
    decreases p,
{
    if p > 0 {
        lemma_scatter_vec_len(v, lv, idx, (p - 1) as nat, n);
    }
}

/// A resistor or capacitor between listed nodes is placed at the system's size.
proof fn lemma_placed_square(s: SysModel, name: Seq<char>, e: Element, ac: bool, omega: int)
    requires
        model_wf(s),
        type_of_name(name) == Some(ElementType::R) || type_of_name(name) == Some(ElementType::C),
        s.nodes.contains(Slot::Node(e.pos)) && s.nodes.contains(Slot::Node(e.neg)),
    ensures
        square(placed(s, name, e, ac, omega).0, placed(s, name, e, ac, omega).1, s.nodes.len()),
{
    let t = type_of_name(name)->0;
    assert(update_nodes_spec(s, e.pos, e.neg, t) == s);
    let idx = stamp_indices(s.nodes, e.pos, e.neg, t);
    let n = s.nodes.len();
    assert(forall|a: int| 0 <= a < idx.len() ==> 0 <= #[trigger] idx[a] < n);
    assert(is_square(zero_mat(n), n));
    lemma_scatter_shape(zero_mat(n), stamp_mat(t, e.value as int, ac, if ac { omega } else { 0 }), idx, local_pairs(2).len(), n);
    lemma_scatter_vec_len(zero_vec(n), stamp_vec(t, e.value as int), idx, 2, n);
}

} // verus!
