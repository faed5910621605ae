//! Matrix products, one dot product for each element.
use vstd::prelude::*;

use crate::assembler::chip::AssemblerChip;
use crate::assembler::config::{key_below, AssemblerConfig};
use crate::assembler::error::AssemblerError;
use crate::assembler::registers::{
    dot_general_step, has_dot, outcome, resolved, the_dot, AssignedRegisters, RegisterCells,
};
use crate::assembler::semantics::{
    index_a, index_b, lemma_index, lemma_index_a, lemma_index_b, partials_fit, sum_fits,
    sum_misfit_text, Product, RegisterRef,
};
use crate::chips::bridge::{
    all_in, all_linked, assign_unshift, equal_cells, hold_raw, lemma_hold, link_each, links_trace,
    BridgeConfig,
};
use crate::chips::dot_general::{
    accumulate, assign_dot_rows, products, products_fit, DotProductConfig,
};
use crate::chips::layer_norm::all_i64;
use crate::chips::reduce::{cell_raws, raws, total};
use crate::field::{centered, modulus};
use crate::field_convert::unshifted;
use crate::fixed_point::{is_i64, requantize_raw, rescaled, I18};
use crate::layout::{cell_at, cells_of, column_of, AssignedCell, Cell, Laid, Layouter, Mark};
use crate::plonk::{Assignment, Setup};

verus! {

/// The shape of a matrix product, whose operands' lengths can be counted.
#[derive(Clone, Copy, Debug)]
pub struct Shape {
    pub m: usize,
    pub n: usize,
    pub k: usize,
    pub trans_a: bool,
    pub trans_b: bool,
}

impl Shape {
    pub open spec fn product(self) -> Product {
        Product {
            m: self.m as int,
            n: self.n as int,
            k: self.k as int,
            trans_a: self.trans_a,
            trans_b: self.trans_b,
        }
    }

    pub open spec fn wf(self) -> bool {
        self.m * self.k <= usize::MAX && self.k * self.n <= usize::MAX
    }
}

/// The values and the cells of row `i` of the first operand.
fn gather_a(shape: Shape, a: &RegisterCells, i: usize) -> (r: RegisterCells)
    requires
        shape.wf(),
        i < shape.m,
        a.values@.len() == shape.m * shape.k,
        a.cells@.len() == a.values@.len(),
    ensures
        r.values@.len() == shape.k,
        r.cells@.len() == shape.k,
        forall|l: int|
            0 <= l < shape.k ==> #[trigger] r.values@[l] == a.values@[index_a(
                shape.trans_a,
                shape.m as int,
                shape.k as int,
                i as int,
                l,
            )],
        forall|l: int|
            0 <= l < shape.k ==> #[trigger] r.cells@[l] == a.cells@[index_a(
                shape.trans_a,
                shape.m as int,
                shape.k as int,
                i as int,
                l,
            )],
{
    let mut values: Vec<I18> = Vec::new();
    let mut cells: Vec<AssignedCell> = Vec::new();
    let mut l: usize = 0;
    while l < shape.k
        invariant
            l <= shape.k,
            shape.wf(),
            i < shape.m,
            a.values@.len() == shape.m * shape.k,
            a.cells@.len() == a.values@.len(),
            values@.len() == l,
            cells@.len() == l,
            forall|t: int|
                0 <= t < l ==> #[trigger] values@[t] == a.values@[index_a(
                    shape.trans_a,
                    shape.m as int,
                    shape.k as int,
                    i as int,
                    t,
                )],
            forall|t: int|
                0 <= t < l ==> #[trigger] cells@[t] == a.cells@[index_a(
                    shape.trans_a,
                    shape.m as int,
                    shape.k as int,
                    i as int,
                    t,
                )],
        decreases shape.k - l,
    {
        proof {
            lemma_index_a(shape.trans_a, shape.m as int, shape.k as int, i as int, l as int);
            assert(0 <= i * shape.k && 0 <= l * shape.m) by (nonlinear_arith);
        }
        let index: usize = if shape.trans_a {
            l * shape.m + i
        } else {
            i * shape.k + l
        };
        values.push(a.values[index]);
        cells.push(a.cells[index]);
        l += 1;
    }
    RegisterCells { values, cells }
}

/// The values and the cells of column `j` of the second operand.
fn gather_b(shape: Shape, b: &RegisterCells, j: usize) -> (r: RegisterCells)
    requires
        shape.wf(),
        j < shape.n,
        b.values@.len() == shape.k * shape.n,
        b.cells@.len() == b.values@.len(),
    ensures
        r.values@.len() == shape.k,
        r.cells@.len() == shape.k,
        forall|l: int|
            0 <= l < shape.k ==> #[trigger] r.values@[l] == b.values@[index_b(
                shape.trans_b,
                shape.n as int,
                shape.k as int,
                l,
                j as int,
            )],
        forall|l: int|
            0 <= l < shape.k ==> #[trigger] r.cells@[l] == b.cells@[index_b(
                shape.trans_b,
                shape.n as int,
                shape.k as int,
                l,
                j as int,
            )],
{
    let mut values: Vec<I18> = Vec::new();
    let mut cells: Vec<AssignedCell> = Vec::new();
    let mut l: usize = 0;
    while l < shape.k
        invariant
            l <= shape.k,
            shape.wf(),
            j < shape.n,
            b.values@.len() == shape.k * shape.n,
            b.cells@.len() == b.values@.len(),
            values@.len() == l,
            cells@.len() == l,
            forall|t: int|
                0 <= t < l ==> #[trigger] values@[t] == b.values@[index_b(
                    shape.trans_b,
                    shape.n as int,
                    shape.k as int,
                    t,
                    j as int,
                )],
            forall|t: int|
                0 <= t < l ==> #[trigger] cells@[t] == b.cells@[index_b(
                    shape.trans_b,
                    shape.n as int,
                    shape.k as int,
                    t,
                    j as int,
                )],
        decreases shape.k - l,
    {
        proof {
            lemma_index_b(shape.trans_b, shape.n as int, shape.k as int, l as int, j as int);
            assert(0 <= j * shape.k && 0 <= l * shape.n) by (nonlinear_arith);
        }
        let index: usize = if shape.trans_b {
            j * shape.k + l
        } else {
            l * shape.n + j
        };
        values.push(b.values[index]);
        cells.push(b.cells[index]);
        l += 1;
    }
    RegisterCells { values, cells }
}

/// The cells of row `i` of the first operand.
pub closed spec fn row_cells(p: Product, a: Seq<Cell>, i: int) -> Seq<Cell> {
    Seq::new(p.k as nat, |l: int| a[index_a(p.trans_a, p.m, p.k, i, l)])
}

/// The cells of column `j` of the second operand.
pub closed spec fn column_cells(p: Product, b: Seq<Cell>, j: int) -> Seq<Cell> {
    Seq::new(p.k as nat, |l: int| b[index_b(p.trans_b, p.n, p.k, l, j)])
}

/// The layout after element `(i, j)` of a matrix product, with its cell.
pub closed spec fn element_layout(
    cfg: DotProductConfig,
    bridge: BridgeConfig,
    t: Seq<Mark>,
    p: Product,
    a: Seq<Cell>,
    b: Seq<Cell>,
    i: int,
    j: int,
) -> Laid {
    let rows = links_trace(
        cfg.trace(t),
        column_of(t.len(), cfg.a, p.k),
        row_cells(p, a, i),
        p.k,
    );
    let columns = links_trace(
        rows,
        column_of(t.len(), cfg.b, p.k),
        column_cells(p, b, j),
        p.k,
    );
    Laid {
        trace: bridge.unshift_trace(columns, cell_at(t.len(), cfg.q, p.k - 1)),
        cells: seq![cell_at(columns.len(), bridge.unshifted, 0)],
    }
}

/// The layout after the first `s` elements of a matrix product, with their cells.
pub closed spec fn product_layout(
    cfg: DotProductConfig,
    bridge: BridgeConfig,
    t: Seq<Mark>,
    p: Product,
    a: Seq<Cell>,
    b: Seq<Cell>,
    s: int,
) -> Laid
    decreases s,
{
    if s <= 0 {
        Laid { trace: t, cells: Seq::empty() }
    } else {
        let before = product_layout(cfg, bridge, t, p, a, b, s - 1);
        let element = element_layout(
            cfg,
            bridge,
            before.trace,
            p,
            a,
            b,
            (s - 1) / p.n,
            (s - 1) % p.n,
        );
        Laid { trace: element.trace, cells: before.cells.push(element.cells[0]) }
    }
}

/// Row `i` of the first operand holds 64-bit integers.
pub open spec fn row_fits(p: Product, a: Seq<int>, i: int) -> bool {
    forall|l: int|
        0 <= l < p.k ==> is_i64(a[#[trigger] index_a(p.trans_a, p.m, p.k, i, l)])
}

/// Column `j` of the second operand holds 64-bit integers.
pub open spec fn column_fits(p: Product, b: Seq<int>, j: int) -> bool {
    forall|l: int|
        0 <= l < p.k ==> is_i64(b[#[trigger] index_b(p.trans_b, p.n, p.k, l, j)])
}

/// The rows of the first operand are all of it.
proof fn lemma_rows_cover(p: Product, a: Seq<int>)
    requires
        p.m > 0,
        p.k > 0,
        a.len() == p.m * p.k,
        forall|i: int| 0 <= i < p.m ==> #[trigger] row_fits(p, a, i),
    ensures
        all_i64(a),
{
    assert forall|t: int| 0 <= t < a.len() implies is_i64(#[trigger] a[t]) by {
        let (i, l) = if p.trans_a {
            (t % p.m, t / p.m)
        } else {
            (t / p.k, t % p.k)
        };
        if p.trans_a {
            vstd::arithmetic::div_mod::lemma_fundamental_div_mod(t, p.m);
            assert(l * p.m + i == t) by (nonlinear_arith)
                requires
                    t == p.m * l + i,
            ;
            assert(0 <= l < p.k) by (nonlinear_arith)
                requires
                    l * p.m + i == t,
                    0 <= i < p.m,
                    0 <= t < p.m * p.k,
            ;
        } else {
            vstd::arithmetic::div_mod::lemma_fundamental_div_mod(t, p.k);
            assert(i * p.k + l == t) by (nonlinear_arith)
                requires
                    t == p.k * i + l,
            ;
            assert(0 <= i < p.m) by (nonlinear_arith)
                requires
                    i * p.k + l == t,
                    0 <= l < p.k,
                    0 <= t < p.m * p.k,
            ;
        }
        assert(row_fits(p, a, i));
        assert(index_a(p.trans_a, p.m, p.k, i, l) == t);
    }
}

/// The columns of the second operand are all of it.
proof fn lemma_columns_cover(p: Product, b: Seq<int>)
    requires
        p.n > 0,
        p.k > 0,
        b.len() == p.k * p.n,
        forall|j: int| 0 <= j < p.n ==> #[trigger] column_fits(p, b, j),
    ensures
        all_i64(b),
{
    assert forall|t: int| 0 <= t < b.len() implies is_i64(#[trigger] b[t]) by {
        let (l, j) = if p.trans_b {
            (t % p.k, t / p.k)
        } else {
            (t / p.n, t % p.n)
        };
        if p.trans_b {
            vstd::arithmetic::div_mod::lemma_fundamental_div_mod(t, p.k);
            assert(j * p.k + l == t) by (nonlinear_arith)
                requires
                    t == p.k * j + l,
            ;
            assert(0 <= j < p.n) by (nonlinear_arith)
                requires
                    j * p.k + l == t,
                    0 <= l < p.k,
                    0 <= t < p.k * p.n,
            ;
        } else {
            vstd::arithmetic::div_mod::lemma_fundamental_div_mod(t, p.n);
            assert(l * p.n + j == t) by (nonlinear_arith)
                requires
                    t == p.n * l + j,
            ;
            assert(0 <= l < p.k) by (nonlinear_arith)
                requires
                    l * p.n + j == t,
                    0 <= j < p.n,
                    0 <= t < p.k * p.n,
            ;
        }
        assert(column_fits(p, b, j));
        assert(index_b(p.trans_b, p.n, p.k, l, j) == t);
    }
}

/// Whatever satisfies the layout has 64-bit integers in the row and the column, and the element
/// in the cell.
pub open spec fn element_sound(
    cfg: DotProductConfig,
    bridge: BridgeConfig,
    l: Layouter,
    p: Product,
    a: Seq<AssignedCell>,
    b: Seq<AssignedCell>,
    i: int,
    j: int,
    c: AssignedCell,
) -> bool {
    forall|setup: Setup, env: Assignment|
        cfg.ok(setup) && bridge.ok(setup) && #[trigger] l.sat(setup, env) ==> {
            let v = centered(env.cell(c.cell));
            &&& row_fits(p, cell_raws(env, a), i)
            &&& column_fits(p, cell_raws(env, b), j)
            &&& is_i64(v)
            &&& v == rescaled(total(p.terms(cell_raws(env, a), cell_raws(env, b), i, j)))
        }
}

/// Lays element `(i, j)` of a matrix product out: the dot product of a row and a column, its
/// operands linked to the registers' cells, and its unshifted value. Nothing is laid out where
/// the value is out of range.
pub(crate) fn assign_dot_row(
    cfg: &DotProductConfig,
    bridge: &BridgeConfig,
    layouter: &mut Layouter,
    shape: Shape,
    a: &RegisterCells,
    b: &RegisterCells,
    i: usize,
    j: usize,
) -> (res: Result<(I18, AssignedCell), AssemblerError>)
    requires
        cfg.wf(),
        cfg.k == shape.k,
        shape.wf(),
        i < shape.m,
        j < shape.n,
        a.values@.len() == shape.m * shape.k,
        b.values@.len() == shape.k * shape.n,
        a.held(*old(layouter)),
        b.held(*old(layouter)),
    ensures
        final(layouter).grows(*old(layouter)),
        ({
            let terms = shape.product().terms(raws(a.values@), raws(b.values@), i as int, j as int);
            match res {
                Ok((v, c)) => {
                    &&& sum_fits(terms)
                    &&& (Laid { trace: final(layouter).trace(), cells: seq![c.cell] })
                        == element_layout(
                        *cfg,
                        *bridge,
                        old(layouter).trace(),
                        shape.product(),
                        cells_of(a.cells@),
                        cells_of(b.cells@),
                        i as int,
                        j as int,
                    )
                    &&& v@ == rescaled(total(terms))
                    &&& c.cell.column == bridge.unshifted
                    &&& c.value@ == v@ % modulus()
                    &&& final(layouter).has(c)
                    &&& element_sound(
                        *cfg,
                        *bridge,
                        *final(layouter),
                        shape.product(),
                        a.cells@,
                        b.cells@,
                        i as int,
                        j as int,
                        c,
                    )
                    &&& forall|setup: Setup|
                        cfg.ok(setup) && cfg.distinct() && bridge.ok(setup)
                            && bridge.distinct() && all_linked(setup, a.cells@) && all_linked(
                            setup,
                            b.cells@,
                        ) && old(layouter).honest(setup) ==> #[trigger] final(layouter).honest(
                            setup,
                        )
                },
                Err(e) => !sum_fits(terms) && (e matches AssemblerError::Overflow(msg) && msg@
                    == sum_misfit_text(terms)),
            }
        }),
{
    let ghost base = *layouter;
    let ghost p = shape.product();
    let row = gather_a(shape, a, i);
    let column = gather_b(shape, b, j);
    let ghost terms = p.terms(raws(a.values@), raws(b.values@), i as int, j as int);
    proof {
        assert forall|l: int| 0 <= l < shape.k implies #[trigger] products(
            row.values@,
            column.values@,
        )[l] == terms[l] by {
            lemma_index_a(shape.trans_a, shape.m as int, shape.k as int, i as int, l);
            lemma_index_b(shape.trans_b, shape.n as int, shape.k as int, l, j as int);
            assert(row.values@[l] == row.values@[l]);
            assert(column.values@[l] == column.values@[l]);
        }
        assert(products(row.values@, column.values@) =~= terms);
        assert(partials_fit(terms) == products_fit(row.values@, column.values@));
        assert(terms.take(terms.len() as int) =~= terms);
    }
    let sums = match accumulate(&row.values, &column.values) {
        Ok(sums) => sums,
        Err(e) => {
            return Err(AssemblerError::from(e));
        },
    };
    let last: i128 = sums[shape.k - 1];
    assert(last == total(terms));
    let (q, r): (I18, i128) = match requantize_raw(last) {
        Ok(pair) => pair,
        Err(e) => {
            return Err(AssemblerError::from(e));
        },
    };
    let rows = assign_dot_rows(
        cfg,
        layouter,
        &row.values,
        &column.values,
        &sums,
        q,
        r,
    );
    let ghost l1 = *layouter;
    link_each(layouter, &rows.a, &row.cells);
    let ghost l2 = *layouter;
    link_each(layouter, &rows.b, &column.cells);
    let ghost l3 = *layouter;
    proof {
        assert(l1.has(rows.q));
        assert forall|env: Assignment| #[trigger] l3.agrees(env) implies env.cell(rows.q.cell)
            == rows.q.value@ by {
            assert(l2.agrees(env));
            assert(l1.agrees(env));
        }
    }
    let c = assign_unshift(bridge, layouter, rows.q, q.raw());
    proof {
        let t = base.trace();
        assert(cells_of(rows.a@) =~= column_of(t.len(), cfg.a, p.k));
        assert(cells_of(rows.b@) =~= column_of(t.len(), cfg.b, p.k));
        assert(cells_of(row.cells@) =~= row_cells(p, cells_of(a.cells@), i as int)) by {
            assert forall|l: int| 0 <= l < p.k implies #[trigger] cells_of(row.cells@)[l]
                == row_cells(p, cells_of(a.cells@), i as int)[l] by {
                lemma_index_a(p.trans_a, p.m, p.k, i as int, l);
            }
        }
        assert(cells_of(column.cells@) =~= column_cells(p, cells_of(b.cells@), j as int)) by {
            assert forall|l: int| 0 <= l < p.k implies #[trigger] cells_of(column.cells@)[l]
                == column_cells(p, cells_of(b.cells@), j as int)[l] by {
                lemma_index_b(p.trans_b, p.n, p.k, l, j as int);
            }
        }
    }
    proof {
        let g = base.next();
        let l4 = *layouter;
        assert forall|setup: Setup, env: Assignment|
            cfg.ok(setup) && bridge.ok(setup) && #[trigger] l4.sat(setup, env) implies {
            let v = centered(env.cell(c.cell));
            &&& row_fits(p, cell_raws(env, a.cells@), i as int)
            &&& column_fits(p, cell_raws(env, b.cells@), j as int)
            &&& is_i64(v)
            &&& v == rescaled(
                total(p.terms(cell_raws(env, a.cells@), cell_raws(env, b.cells@), i as int, j as int)),
            )
        } by {
            assert(l3.sat(setup, env));
            assert(l2.sat(setup, env));
            assert(l1.sat(setup, env));
            let xs = cell_raws(env, a.cells@);
            let ys = cell_raws(env, b.cells@);
            let want = p.terms(xs, ys, i as int, j as int);
            assert(equal_cells(env, rows.a@, row.cells@));
            assert(equal_cells(env, rows.b@, column.cells@));
            assert(cfg.operands_fit(env, g));
            assert forall|l: int| 0 <= l < shape.k implies {
                let ia = #[trigger] index_a(p.trans_a, p.m, p.k, i as int, l);
                let ib = index_b(p.trans_b, p.n, p.k, l, j as int);
                &&& is_i64(xs[ia])
                &&& is_i64(ys[ib])
                &&& cfg.cell_products(env, g)[l] == want[l]
            } by {
                let ia = index_a(p.trans_a, p.m, p.k, i as int, l);
                let ib = index_b(p.trans_b, p.n, p.k, l, j as int);
                lemma_index_a(shape.trans_a, shape.m as int, shape.k as int, i as int, l);
                lemma_index_b(shape.trans_b, shape.n as int, shape.k as int, l, j as int);
                assert(rows.a@[l].is(g, cfg.a, l, row.values@[l]@ % modulus()));
                assert(rows.b@[l].is(g, cfg.b, l, column.values@[l]@ % modulus()));
                assert(row.cells@[l] == a.cells@[ia]);
                assert(column.cells@[l] == b.cells@[ib]);
                assert(xs[ia] == centered(env.at(g, cfg.a, l)));
                assert(ys[ib] == centered(env.at(g, cfg.b, l)));
                assert(is_i64(centered(env.at(g, cfg.a, l))));
            }
            assert(row_fits(p, xs, i as int));
            assert(column_fits(p, ys, j as int)) by {
                assert forall|l: int| 0 <= l < p.k implies is_i64(
                    ys[#[trigger] index_b(p.trans_b, p.n, p.k, l, j as int)],
                ) by {
                    let ia = index_a(p.trans_a, p.m, p.k, i as int, l);
                }
            }
            assert(cfg.cell_products(env, g) =~= want) by {
                assert forall|l: int| 0 <= l < shape.k implies #[trigger] cfg.cell_products(
                    env,
                    g,
                )[l] == want[l] by {
                    let ia = index_a(p.trans_a, p.m, p.k, i as int, l);
                }
            }
            assert(cfg.computes(env, g));
            assert(env.cell(rows.q.cell) == env.at(g, cfg.q, cfg.k - 1));
        }
        assert forall|setup: Setup|
            cfg.ok(setup) && cfg.distinct() && bridge.ok(setup) && bridge.distinct()
                && all_linked(setup, a.cells@) && all_linked(setup, b.cells@) && base.honest(
                setup,
            ) implies #[trigger] l4.honest(setup) by {
            assert(l1.honest(setup));
            assert forall|l: int| 0 <= l < shape.k implies {
                &&& l1.has(#[trigger] rows.a@[l])
                &&& l1.has(row.cells@[l])
                &&& rows.a@[l].value@ == row.cells@[l].value@
                &&& setup.cs.linked(rows.a@[l].cell.column)
                &&& setup.cs.linked(row.cells@[l].cell.column)
            } by {
                let ia = index_a(shape.trans_a, shape.m as int, shape.k as int, i as int, l);
                lemma_index_a(shape.trans_a, shape.m as int, shape.k as int, i as int, l);
                assert(row.cells@[l] == a.cells@[ia]);
                assert(row.values@[l] == a.values@[ia]);
                assert(base.has(a.cells@[ia]));
                assert(setup.cs.linked(a.cells@[ia].cell.column));
                assert forall|env: Assignment| #[trigger] l1.agrees(env) implies env.cell(
                    rows.a@[l].cell,
                ) == rows.a@[l].value@ && env.cell(row.cells@[l].cell) == row.cells@[l].value@ by {
                    assert(base.agrees(env));
                    assert(env.at(g, cfg.a, l) == row.values@[l]@ % modulus());
                }
            }
            assert(all_linked(setup, rows.a@) && all_linked(setup, row.cells@)) by {
                assert forall|l: int| 0 <= l < shape.k implies setup.cs.linked(
                    (#[trigger] row.cells@[l]).cell.column,
                ) by {
                    assert(setup.cs.linked(rows.a@[l].cell.column));
                }
            }
            assert(l2.honest(setup));
            assert forall|l: int| 0 <= l < shape.k implies {
                &&& l2.has(#[trigger] rows.b@[l])
                &&& l2.has(column.cells@[l])
                &&& rows.b@[l].value@ == column.cells@[l].value@
                &&& setup.cs.linked(rows.b@[l].cell.column)
                &&& setup.cs.linked(column.cells@[l].cell.column)
            } by {
                let ib = index_b(shape.trans_b, shape.n as int, shape.k as int, l, j as int);
                lemma_index_b(shape.trans_b, shape.n as int, shape.k as int, l, j as int);
                assert(column.cells@[l] == b.cells@[ib]);
                assert(column.values@[l] == b.values@[ib]);
                assert(base.has(b.cells@[ib]));
                assert(setup.cs.linked(b.cells@[ib].cell.column));
                assert forall|env: Assignment| #[trigger] l2.agrees(env) implies env.cell(
                    rows.b@[l].cell,
                ) == rows.b@[l].value@ && env.cell(column.cells@[l].cell)
                    == column.cells@[l].value@ by {
                    assert(l1.agrees(env));
                    assert(base.agrees(env));
                    assert(env.at(g, cfg.b, l) == column.values@[l]@ % modulus());
                }
            }
            assert(all_linked(setup, rows.b@) && all_linked(setup, column.cells@)) by {
                assert forall|l: int| 0 <= l < shape.k implies setup.cs.linked(
                    (#[trigger] column.cells@[l]).cell.column,
                ) by {
                    assert(setup.cs.linked(rows.b@[l].cell.column));
                }
            }
            assert(l3.honest(setup));
        }
    }
    Ok((q, c))
}

/// The first elements of a matrix product are laid out.
spec fn elements_laid(
    cfg: DotProductConfig,
    bridge: BridgeConfig,
    base: Layouter,
    l: Layouter,
    p: Product,
    a: RegisterCells,
    b: RegisterCells,
    values: Seq<I18>,
    cells: Seq<AssignedCell>,
) -> bool {
    &&& hold_raw(l, cells, values)
    &&& all_in(cells, bridge.unshifted)
    &&& forall|s: int|
        0 <= s < values.len() ==> #[trigger] p.fits_at(raws(a.values@), raws(b.values@), s)
    &&& forall|s: int|
        0 <= s < values.len() ==> (#[trigger] values[s])@ == rescaled(
            total(p.terms(raws(a.values@), raws(b.values@), s / p.n, s % p.n)),
        )
    &&& forall|setup: Setup, env: Assignment, s: int|
        #![trigger l.sat(setup, env), cells[s]]
        cfg.ok(setup) && bridge.ok(setup) && l.sat(setup, env) && 0 <= s < cells.len() ==> {
            let v = centered(env.cell(cells[s].cell));
            &&& row_fits(p, cell_raws(env, a.cells@), s / p.n)
            &&& column_fits(p, cell_raws(env, b.cells@), s % p.n)
            &&& is_i64(v)
            &&& v == rescaled(
                total(
                    p.terms(
                        cell_raws(env, a.cells@),
                        cell_raws(env, b.cells@),
                        s / p.n,
                        s % p.n,
                    ),
                ),
            )
        }
    &&& forall|setup: Setup|
        cfg.ok(setup) && cfg.distinct() && bridge.ok(setup) && bridge.distinct()
            && all_linked(setup, a.cells@) && all_linked(setup, b.cells@) && base.honest(setup)
            ==> #[trigger] l.honest(setup)
}

/// One more element is laid out.
proof fn lemma_elements(
    cfg: DotProductConfig,
    bridge: BridgeConfig,
    base: Layouter,
    before: Layouter,
    l: Layouter,
    p: Product,
    a: RegisterCells,
    b: RegisterCells,
    values: Seq<I18>,
    cells: Seq<AssignedCell>,
    i: int,
    j: int,
    v: I18,
    c: AssignedCell,
)
    requires
        elements_laid(cfg, bridge, base, before, p, a, b, values, cells),
        l.grows(before),
        0 <= i < p.m,
        0 <= j < p.n,
        values.len() == i * p.n + j,
        p.fits_at(raws(a.values@), raws(b.values@), i * p.n + j),
        v@ == rescaled(total(p.terms(raws(a.values@), raws(b.values@), i, j))),
        c.cell.column == bridge.unshifted,
        c.value@ == v@ % modulus(),
        l.has(c),
        element_sound(cfg, bridge, l, p, a.cells@, b.cells@, i, j, c),
        forall|setup: Setup|
            cfg.ok(setup) && cfg.distinct() && bridge.ok(setup) && bridge.distinct()
                && all_linked(setup, a.cells@) && all_linked(setup, b.cells@) && before.honest(
                setup,
            ) ==> #[trigger] l.honest(setup),
    ensures
        elements_laid(cfg, bridge, base, l, p, a, b, values.push(v), cells.push(c)),
{
    lemma_index(p.m, p.n, i, j);
    lemma_hold(l, before, cells);
    let values2 = values.push(v);
    let cells2 = cells.push(c);
    let n = values.len() as int;
    assert(hold_raw(l, cells2, values2)) by {
        assert forall|s: int| 0 <= s < cells2.len() implies l.has(#[trigger] cells2[s])
            && cells2[s].value@ == values2[s]@ % modulus() by {
            if s < n {
                assert(l.has(cells[s]));
            }
        }
    }
    assert forall|setup: Setup, env: Assignment, s: int|
        #![trigger l.sat(setup, env), cells2[s]]
        cfg.ok(setup) && bridge.ok(setup) && l.sat(setup, env) && 0 <= s
            < cells2.len() implies {
        let v = centered(env.cell(cells2[s].cell));
        &&& row_fits(p, cell_raws(env, a.cells@), s / p.n)
        &&& column_fits(p, cell_raws(env, b.cells@), s % p.n)
        &&& is_i64(v)
        &&& v == rescaled(
            total(p.terms(cell_raws(env, a.cells@), cell_raws(env, b.cells@), s / p.n, s % p.n)),
        )
    } by {
        if s < n {
            assert(before.sat(setup, env));
            assert(cells2[s] == cells[s]);
        }
    }
    assert forall|setup: Setup|
        cfg.ok(setup) && cfg.distinct() && bridge.ok(setup) && bridge.distinct()
            && all_linked(setup, a.cells@) && all_linked(setup, b.cells@) && base.honest(
            setup,
        ) implies #[trigger] l.honest(setup) by {
        assert(before.honest(setup));
    }
}

/// A later record still holds a register.
pub(crate) proof fn lemma_held(r: RegisterCells, l: Layouter, base: Layouter)
    requires
        l.grows(base),
        r.held(base),
    ensures
        r.held(l),
{
    lemma_hold(l, base, r.cells@);
}

/// Lays every element of a matrix product out, or stops at the first that is out of range.
fn assign_elements(
    cfg: &DotProductConfig,
    bridge: &BridgeConfig,
    layouter: &mut Layouter,
    shape: Shape,
    a: &RegisterCells,
    b: &RegisterCells,
) -> (res: Result<RegisterCells, AssemblerError>)
    requires
        cfg.wf(),
        cfg.k == shape.k,
        shape.wf(),
        a.values@.len() == shape.m * shape.k,
        b.values@.len() == shape.k * shape.n,
        a.held(*old(layouter)),
        b.held(*old(layouter)),
    ensures
        final(layouter).grows(*old(layouter)),
        ({
            let p = shape.product();
            let (xs, ys) = (raws(a.values@), raws(b.values@));
            match res {
                Ok(out) => {
                    &&& p.fits(xs, ys)
                    &&& (Laid { trace: final(layouter).trace(), cells: cells_of(out.cells@) })
                        == product_layout(
                        *cfg,
                        *bridge,
                        old(layouter).trace(),
                        p,
                        cells_of(a.cells@),
                        cells_of(b.cells@),
                        p.m * p.n,
                    )
                    &&& out.values@.len() == p.m * p.n
                    &&& elements_laid(
                        *cfg,
                        *bridge,
                        *old(layouter),
                        *final(layouter),
                        p,
                        *a,
                        *b,
                        out.values@,
                        out.cells@,
                    )
                },
                Err(e) => !p.fits(xs, ys) && (e matches AssemblerError::Overflow(msg) && exists|
                    t: int,
                | #[trigger] p.first_misfit(xs, ys, t) && msg@ == p.misfit_text(xs, ys, t)),
            }
        }),
{
    let ghost base = *layouter;
    let ghost p = shape.product();
    let ghost xs = raws(a.values@);
    let ghost ys = raws(b.values@);
    let mut values: Vec<I18> = Vec::new();
    let mut cells: Vec<AssignedCell> = Vec::new();
    assert(cells_of(cells@) =~= Seq::<Cell>::empty());
    let mut i: usize = 0;
    while i < shape.m
        invariant
            i <= shape.m,
            p == shape.product(),
            xs == raws(a.values@),
            ys == raws(b.values@),
            base == *old(layouter),
            cfg.wf(),
            cfg.k == shape.k,
            shape.wf(),
            a.values@.len() == shape.m * shape.k,
            b.values@.len() == shape.k * shape.n,
            a.held(*layouter),
            b.held(*layouter),
            layouter.grows(base),
            values@.len() == i * p.n,
            (Laid { trace: layouter.trace(), cells: cells_of(cells@) }) == product_layout(
                *cfg,
                *bridge,
                base.trace(),
                p,
                cells_of(a.cells@),
                cells_of(b.cells@),
                i * p.n,
            ),
            elements_laid(*cfg, *bridge, base, *layouter, p, *a, *b, values@, cells@),
        decreases shape.m - i,
    {
        let mut j: usize = 0;
        while j < shape.n
            invariant
                i < shape.m,
                j <= shape.n,
                p == shape.product(),
                xs == raws(a.values@),
                ys == raws(b.values@),
                base == *old(layouter),
                cfg.wf(),
                cfg.k == shape.k,
                shape.wf(),
                a.values@.len() == shape.m * shape.k,
                b.values@.len() == shape.k * shape.n,
                a.held(*layouter),
                b.held(*layouter),
                layouter.grows(base),
                values@.len() == i * p.n + j,
                (Laid { trace: layouter.trace(), cells: cells_of(cells@) }) == product_layout(
                    *cfg,
                    *bridge,
                    base.trace(),
                    p,
                    cells_of(a.cells@),
                    cells_of(b.cells@),
                    i * p.n + j,
                ),
                elements_laid(*cfg, *bridge, base, *layouter, p, *a, *b, values@, cells@),
            decreases shape.n - j,
        {
            let ghost before = *layouter;
            proof {
                lemma_index(p.m, p.n, i as int, j as int);
            }
            match assign_dot_row(cfg, bridge, layouter, shape, a, b, i, j) {
                Ok((v, c)) => {
                    proof {
                        lemma_elements(
                            *cfg,
                            *bridge,
                            base,
                            before,
                            *layouter,
                            p,
                            *a,
                            *b,
                            values@,
                            cells@,
                            i as int,
                            j as int,
                            v,
                            c,
                        );
                        lemma_held(*a, *layouter, before);
                        lemma_held(*b, *layouter, before);
                    }
                    let ghost prev = cells@;
                    values.push(v);
                    cells.push(c);
                    assert(cells_of(cells@) =~= cells_of(prev).push(c.cell));
                },
                Err(e) => {
                    assert(p.first_misfit(xs, ys, i * p.n + j));
                    return Err(e);
                },
            }
            j += 1;
        }
        assert((i + 1) * p.n == i * p.n + p.n) by (nonlinear_arith);
        i += 1;
    }
    assert(p.fits(xs, ys));
    Ok(RegisterCells { values, cells })
}

impl AssemblerChip {
    /// The configured dot product of length `k`.
    fn find_dot(&self, k: usize) -> (res: Option<DotProductConfig>)
        requires
            self.config.wf(),
        ensures
            match res {
                Some(c) => has_dot(self.config, k) && c == the_dot(self.config, k) && exists|i: int|
                    0 <= i < self.config.dot@.len() && #[trigger] self.config.dot@[i] == c && c.k
                        == k,
                None => !has_dot(self.config, k),
            },
    {
        let mut i: usize = 0;
        while i < self.config.dot.len()
            invariant
                i <= self.config.dot@.len(),
                self.config.wf(),
                forall|j: int| 0 <= j < i ==> (#[trigger] self.config.dot@[j]).k != k,
            decreases self.config.dot@.len() - i,
        {
            if self.config.dot[i].k == k {
                let c = self.config.dot[i];
                assert(self.config.dot@[i as int] == c);
                proof {
                    let j = choose|j: int|
                        0 <= j < self.config.dot@.len() && (#[trigger] self.config.dot@[j]).k == k;
                    let keys = self.config.dot_keys();
                    assert(keys[i as int] == keys[j]);
                    if i < j {
                        assert(key_below(keys[i as int], keys[j]));
                    } else if j < i {
                        assert(key_below(keys[j], keys[i as int]));
                    }
                }
                return Some(c);
            }
            i += 1;
        }
        None
    }

    /// Lays a matrix product out.
    pub(crate) fn assign_dot_general(
        &self,
        layouter: &mut Layouter,
        regs: &AssignedRegisters,
        inputs: &Vec<RegisterRef>,
        shape: Shape,
        batched: bool,
    ) -> (res: Result<RegisterCells, AssemblerError>)
        requires
            self.config.wf(),
            regs.held(*old(layouter)),
            !batched && inputs@.len() == 2 && resolved(regs.values(), inputs@) ==> shape.wf(),
        ensures
            final(layouter).grows(*old(layouter)),
            dot_general_step(
                self.config,
                regs.values(),
                inputs@,
                shape.product(),
                batched,
                shape.k,
                outcome(res),
            ),
            res matches Ok(out) ==> (Laid {
                trace: final(layouter).trace(),
                cells: cells_of(out.cells@),
            }) == product_layout(
                the_dot(self.config, shape.k),
                self.config.bridge,
                old(layouter).trace(),
                shape.product(),
                regs.places().get(inputs@[0]),
                regs.places().get(inputs@[1]),
                shape.m * shape.n,
            ),
            res matches Ok(out) ==> product_laid(
                self.config,
                *regs,
                inputs@,
                shape.product(),
                *old(layouter),
                *final(layouter),
                out,
            ),
    {
        if batched {
            return Err(AssemblerError::DotGeneralBatchDimsUnsupported);
        }
        if inputs.len() != 2 {
            return Err(AssemblerError::DotGeneralInputCount { expected: 2, got: inputs.len() });
        }
        let a = regs.resolve(inputs[0])?;
        let b = regs.resolve(inputs[1])?;
        let expected_a: usize = shape.m * shape.k;
        let expected_b: usize = shape.k * shape.n;
        if a.values.len() != expected_a || b.values.len() != expected_b {
            return Err(
                AssemblerError::DotGeneralShapeMismatch {
                    expected_a,
                    got_a: a.values.len(),
                    expected_b,
                    got_b: b.values.len(),
                },
            );
        }
        let cfg = match self.find_dot(shape.k) {
            Some(cfg) => cfg,
            None => {
                return Err(AssemblerError::UnconfiguredDotK { k: shape.k });
            },
        };
        let ghost base = *layouter;
        let ghost p = shape.product();
        let ghost at = choose|i: int|
            0 <= i < self.config.dot@.len() && #[trigger] self.config.dot@[i] == cfg;
        assert(self.config.dot@[at].wf());
        let out = assign_elements(&cfg, &self.config.bridge, layouter, shape, a, b)?;
        proof {
            let l = *layouter;
            let (xs, ys) = (raws(a.values@), raws(b.values@));
            assert(raws(out.values@) =~= p.of(xs, ys));
            assert forall|setup: Setup, env: Assignment|
                self.config.ok(setup) && #[trigger] l.sat(setup, env) implies {
                let vs = regs.cell_values(env);
                &&& p.m > 0 && p.n > 0 ==> all_i64(vs.get(inputs@[0])) && all_i64(
                    vs.get(inputs@[1]),
                )
                &&& cell_raws(env, out.cells@) == p.of(vs.get(inputs@[0]), vs.get(inputs@[1]))
                &&& all_i64(cell_raws(env, out.cells@))
            } by {
                assert(self.config.dot@[at].rules(setup));
                let vs = regs.cell_values(env);
                assert(vs.get(inputs@[0]) == cell_raws(env, a.cells@));
                assert(vs.get(inputs@[1]) == cell_raws(env, b.cells@));
                let got = cell_raws(env, out.cells@);
                let want = p.of(vs.get(inputs@[0]), vs.get(inputs@[1]));
                assert forall|s: int| 0 <= s < got.len() implies #[trigger] got[s] == want[s]
                    && is_i64(got[s]) by {
                    assert(out.cells@[s] == out.cells@[s]);
                }
                assert(got =~= want);
                if p.m > 0 && p.n > 0 {
                    let (ca, cb) = (cell_raws(env, a.cells@), cell_raws(env, b.cells@));
                    assert forall|i: int| 0 <= i < p.m implies #[trigger] row_fits(p, ca, i) by {
                        lemma_index(p.m, p.n, i, 0);
                        let c = out.cells@[i * p.n];
                    }
                    assert forall|j: int| 0 <= j < p.n implies #[trigger] column_fits(
                        p,
                        cb,
                        j,
                    ) by {
                        lemma_index(p.m, p.n, 0, j);
                        let c = out.cells@[j];
                    }
                    lemma_rows_cover(p, ca);
                    lemma_columns_cover(p, cb);
                }
            }
            assert forall|setup: Setup|
                self.config.ok(setup) && self.config.distinct() && regs.linked(setup)
                    && base.honest(setup) implies #[trigger] l.honest(setup) by {
                assert(self.config.dot@[at].rules(setup));
                assert(self.config.dot@[at].distinct());
            }
        }
        Ok(out)
    }
}

/// A matrix product is laid out.
pub open spec fn product_laid(
    config: AssemblerConfig,
    regs: AssignedRegisters,
    inputs: Seq<RegisterRef>,
    p: Product,
    before: Layouter,
    after: Layouter,
    out: RegisterCells,
) -> bool {
    &&& out.held(after)
    &&& all_in(out.cells@, config.bridge.unshifted)
    &&& forall|setup: Setup, env: Assignment|
        config.ok(setup) && #[trigger] after.sat(setup, env) ==> {
            let vs = regs.cell_values(env);
            &&& p.m > 0 && p.n > 0 ==> all_i64(vs.get(inputs[0])) && all_i64(vs.get(inputs[1]))
            &&& cell_raws(env, out.cells@) == p.of(vs.get(inputs[0]), vs.get(inputs[1]))
            &&& all_i64(cell_raws(env, out.cells@))
        }
    &&& forall|setup: Setup|
        config.ok(setup) && config.distinct() && regs.linked(setup) && before.honest(setup)
            ==> #[trigger] after.honest(setup)
}

} // verus!
