//! Elementwise operations, the shorter operand repeated.
use vstd::prelude::*;
use vstd::string::*;

use crate::assembler::chip::AssemblerChip;
use crate::assembler::config::AssemblerConfig;
use crate::assembler::dot::lemma_held;
use crate::assembler::error::AssemblerError;
use crate::assembler::registers::{eltwise_step, outcome, AssignedRegisters, RegisterCells};
use crate::assembler::semantics::{
    apply, broadcasts, elementwise, elementwise_first_misfit, elementwise_fits,
    elementwise_fits_at, elementwise_misfit_text, longer, RegisterRef,
};
use crate::chips::bridge::{
    all_in, all_linked, assign_bridge, assign_unshift, bridged, hold_raw, lemma_hold,
};
use crate::chips::eltwise::{assign_add_row, assign_mul_row};
use crate::chips::layer_norm::all_i64;
use crate::chips::reduce::{cell_raws, raws};
use crate::field::{centered, modulus};
use crate::fixed_point::{is_i64, lemma_i18_range, requantize_mul, requantize_mul_text, rescaled, I18};
use crate::isa::EltwiseOp;
use crate::layout::{cell_at, cells_of, AssignedCell, Cell, Laid, Layouter, Mark};
use crate::plonk::{Assignment, Setup};

verus! {

/// The layout after one element of an elementwise operation, with its cell.
pub closed spec fn op_layout(
    config: AssemblerConfig,
    t: Seq<Mark>,
    op: EltwiseOp,
    a: Cell,
    b: Cell,
) -> Laid {
    let bridge = config.bridge;
    match op {
        EltwiseOp::Add => {
            let first = bridge.trace(t).push(Mark::Region).push(
                Mark::Equal { left: cell_at(t.len(), bridge.unshifted, 0), right: a },
            );
            let second = bridge.trace(first).push(Mark::Region).push(
                Mark::Equal { left: cell_at(first.len(), bridge.unshifted, 0), right: b },
            );
            let sum = config.add.trace(second).push(Mark::Region).push(
                Mark::Equal {
                    left: cell_at(second.len(), config.add.a, 0),
                    right: cell_at(t.len(), bridge.shifted, 0),
                },
            ).push(
                Mark::Equal {
                    left: cell_at(second.len(), config.add.b, 0),
                    right: cell_at(first.len(), bridge.shifted, 0),
                },
            );
            Laid {
                trace: bridge.unshift_trace(sum, cell_at(second.len(), config.add.c, 0)),
                cells: seq![cell_at(sum.len(), bridge.unshifted, 0)],
            }
        },
        _ => {
            let product = config.mul.trace(t).push(Mark::Region).push(
                Mark::Equal { left: cell_at(t.len(), config.mul.a, 0), right: a },
            ).push(Mark::Equal { left: cell_at(t.len(), config.mul.b, 0), right: b });
            Laid {
                trace: bridge.unshift_trace(product, cell_at(t.len(), config.mul.q, 0)),
                cells: seq![cell_at(product.len(), bridge.unshifted, 0)],
            }
        },
    }
}

/// The layout after the first `n` elements of an elementwise operation, with their cells.
pub closed spec fn elementwise_layout(
    config: AssemblerConfig,
    t: Seq<Mark>,
    op: EltwiseOp,
    a: Seq<Cell>,
    b: Seq<Cell>,
    n: int,
) -> Laid
    decreases n,
{
    if n <= 0 {
        Laid { trace: t, cells: Seq::empty() }
    } else {
        let before = elementwise_layout(config, t, op, a, b, n - 1);
        let element = op_layout(
            config,
            before.trace,
            op,
            a[(n - 1) % a.len() as int],
            b[(n - 1) % b.len() as int],
        );
        Laid { trace: element.trace, cells: before.cells.push(element.cells[0]) }
    }
}

/// Whatever satisfies the layout has the result of the operation in the cell `c`.
pub open spec fn op_sound(
    config: AssemblerConfig,
    l: Layouter,
    op: EltwiseOp,
    a: AssignedCell,
    b: AssignedCell,
    c: AssignedCell,
) -> bool {
    forall|setup: Setup, env: Assignment|
        config.ok(setup) && #[trigger] l.sat(setup, env) ==> {
            let v = centered(env.cell(c.cell));
            &&& is_i64(v)
            &&& v == apply(op, centered(env.cell(a.cell)), centered(env.cell(b.cell)))
        }
}

/// The recorded values satisfy what was laid out after `base`.
pub open spec fn op_complete(
    config: AssemblerConfig,
    base: Layouter,
    l: Layouter,
    a: AssignedCell,
    b: AssignedCell,
) -> bool {
    forall|setup: Setup|
        config.ok(setup) && config.distinct() && setup.cs.linked(a.cell.column)
            && setup.cs.linked(b.cell.column) && base.honest(setup) ==> #[trigger] l.honest(setup)
}

/// Lays a sum out: the operands' cells bridged to the addition's shifted ones, and the sum's
/// unshifted cell.
fn assign_sum(
    config: &AssemblerConfig,
    layouter: &mut Layouter,
    a: I18,
    a_cell: AssignedCell,
    b: I18,
    b_cell: AssignedCell,
) -> (c: AssignedCell)
    requires
        config.wf(),
        is_i64(a@ + b@),
        old(layouter).has(a_cell),
        old(layouter).has(b_cell),
        a_cell.value@ == a@ % modulus(),
        b_cell.value@ == b@ % modulus(),
    ensures
        final(layouter).grows(*old(layouter)),
        (Laid { trace: final(layouter).trace(), cells: seq![c.cell] }) == op_layout(
            *config,
            old(layouter).trace(),
            EltwiseOp::Add,
            a_cell.cell,
            b_cell.cell,
        ),
        c.cell.column == config.bridge.unshifted,
        c.value@ == (a@ + b@) % modulus(),
        final(layouter).has(c),
        op_sound(*config, *final(layouter), EltwiseOp::Add, a_cell, b_cell, c),
        op_complete(*config, *old(layouter), *final(layouter), a_cell, b_cell),
{
    let ghost base = *layouter;
    let (a_unshifted, a_shifted): (AssignedCell, AssignedCell) = assign_bridge(
        &config.bridge,
        layouter,
        a.raw(),
    );
    let ghost l1 = *layouter;
    layouter.region();
    layouter.constrain_equal(a_unshifted.cell, a_cell.cell);
    let ghost l2 = *layouter;
    let (b_unshifted, b_shifted): (AssignedCell, AssignedCell) = assign_bridge(
        &config.bridge,
        layouter,
        b.raw(),
    );
    let ghost l3 = *layouter;
    layouter.region();
    layouter.constrain_equal(b_unshifted.cell, b_cell.cell);
    let ghost l4 = *layouter;
    let row = assign_add_row(&config.add, layouter, a.raw(), b.raw());
    let ghost l5 = *layouter;
    layouter.region();
    layouter.constrain_equal(row.a.cell, a_shifted.cell);
    layouter.constrain_equal(row.b.cell, b_shifted.cell);
    let ghost l6 = *layouter;
    let sum: i64 = a.raw() + b.raw();
    let c = assign_unshift(&config.bridge, layouter, row.c, sum);
    proof {
        let l7 = *layouter;
        assert forall|setup: Setup, env: Assignment|
            config.ok(setup) && #[trigger] l7.sat(setup, env) implies {
            let v = centered(env.cell(c.cell));
            &&& is_i64(v)
            &&& v == centered(env.cell(a_cell.cell)) + centered(env.cell(b_cell.cell))
        } by {
            assert(l6.sat(setup, env));
            assert(l5.sat(setup, env));
            assert(l4.sat(setup, env));
            assert(l3.sat(setup, env));
            assert(l2.sat(setup, env));
            assert(l1.sat(setup, env));
            assert(row.sound(env));
            assert(bridged(env.cell(a_unshifted.cell), env.cell(a_shifted.cell)));
            assert(bridged(env.cell(b_unshifted.cell), env.cell(b_shifted.cell)));
            assert(bridged(env.cell(c.cell), env.cell(row.c.cell)));
        }
        assert forall|setup: Setup|
            config.ok(setup) && config.distinct() && setup.cs.linked(a_cell.cell.column)
                && setup.cs.linked(b_cell.cell.column) && base.honest(
                setup,
            ) implies #[trigger] l7.honest(setup) by {
            assert(l1.honest(setup));
            assert(l2.honest(setup)) by {
                assert forall|env: Assignment| #[trigger] l2.agrees(env) implies l2.sat(
                    setup,
                    env,
                ) by {
                    assert(l1.agrees(env));
                    assert(base.agrees(env));
                }
            }
            assert(l3.honest(setup));
            assert(l4.honest(setup)) by {
                assert forall|env: Assignment| #[trigger] l4.agrees(env) implies l4.sat(
                    setup,
                    env,
                ) by {
                    assert(l3.agrees(env));
                    assert(l2.agrees(env));
                    assert(base.agrees(env));
                }
            }
            assert(l5.honest(setup));
            assert(l6.honest(setup)) by {
                assert forall|env: Assignment| #[trigger] l6.agrees(env) implies l6.sat(
                    setup,
                    env,
                ) by {
                    assert(l5.agrees(env));
                    assert(l4.agrees(env));
                    assert(l3.agrees(env));
                    assert(l2.agrees(env));
                    assert(l1.agrees(env));
                }
            }
        }
    }
    c
}

/// Lays a requantized product out: the multiplication's operands linked to their cells, and the
/// product's unshifted cell.
fn assign_product(
    config: &AssemblerConfig,
    layouter: &mut Layouter,
    a: I18,
    a_cell: AssignedCell,
    b: I18,
    b_cell: AssignedCell,
    q: I18,
) -> (c: AssignedCell)
    requires
        config.wf(),
        q@ == rescaled(a@ * b@),
        old(layouter).has(a_cell),
        old(layouter).has(b_cell),
        a_cell.value@ == a@ % modulus(),
        b_cell.value@ == b@ % modulus(),
    ensures
        final(layouter).grows(*old(layouter)),
        (Laid { trace: final(layouter).trace(), cells: seq![c.cell] }) == op_layout(
            *config,
            old(layouter).trace(),
            EltwiseOp::Mul,
            a_cell.cell,
            b_cell.cell,
        ),
        c.cell.column == config.bridge.unshifted,
        c.value@ == q@ % modulus(),
        final(layouter).has(c),
        op_sound(*config, *final(layouter), EltwiseOp::Mul, a_cell, b_cell, c),
        op_complete(*config, *old(layouter), *final(layouter), a_cell, b_cell),
{
    let ghost base = *layouter;
    proof {
        lemma_i18_range(q);
    }
    let row = assign_mul_row(&config.mul, layouter, a, b);
    let ghost l1 = *layouter;
    layouter.region();
    layouter.constrain_equal(row.a.cell, a_cell.cell);
    layouter.constrain_equal(row.b.cell, b_cell.cell);
    let ghost l2 = *layouter;
    let c = assign_unshift(&config.bridge, layouter, row.q, q.raw());
    proof {
        let l3 = *layouter;
        assert forall|setup: Setup, env: Assignment|
            config.ok(setup) && #[trigger] l3.sat(setup, env) implies {
            let v = centered(env.cell(c.cell));
            &&& is_i64(v)
            &&& v == rescaled(centered(env.cell(a_cell.cell)) * centered(env.cell(b_cell.cell)))
        } by {
            assert(l2.sat(setup, env));
            assert(l1.sat(setup, env));
            assert(row.sound(env));
            assert(bridged(env.cell(c.cell), env.cell(row.q.cell)));
        }
        assert forall|setup: Setup|
            config.ok(setup) && config.distinct() && setup.cs.linked(a_cell.cell.column)
                && setup.cs.linked(b_cell.cell.column) && base.honest(
                setup,
            ) implies #[trigger] l3.honest(setup) by {
            assert(l1.honest(setup));
            assert(l2.honest(setup)) by {
                assert forall|env: Assignment| #[trigger] l2.agrees(env) implies l2.sat(
                    setup,
                    env,
                ) by {
                    assert(l1.agrees(env));
                    assert(base.agrees(env));
                }
            }
        }
    }
    c
}

/// Lays one element of an elementwise operation out. Nothing is laid out where the result is
/// out of range.
fn assign_op(
    config: &AssemblerConfig,
    layouter: &mut Layouter,
    op: EltwiseOp,
    a: I18,
    a_cell: AssignedCell,
    b: I18,
    b_cell: AssignedCell,
) -> (res: Result<(I18, AssignedCell), AssemblerError>)
    requires
        config.wf(),
        old(layouter).has(a_cell),
        old(layouter).has(b_cell),
        a_cell.value@ == a@ % modulus(),
        b_cell.value@ == b@ % modulus(),
    ensures
        final(layouter).grows(*old(layouter)),
        match res {
            Ok((v, c)) => {
                &&& is_i64(apply(op, a@, b@))
                &&& (Laid { trace: final(layouter).trace(), cells: seq![c.cell] }) == op_layout(
                    *config,
                    old(layouter).trace(),
                    op,
                    a_cell.cell,
                    b_cell.cell,
                )
                &&& v@ == apply(op, a@, b@)
                &&& c.cell.column == config.bridge.unshifted
                &&& c.value@ == v@ % modulus()
                &&& final(layouter).has(c)
                &&& op_sound(*config, *final(layouter), op, a_cell, b_cell, c)
                &&& op_complete(*config, *old(layouter), *final(layouter), a_cell, b_cell)
            },
            Err(e) => !is_i64(apply(op, a@, b@)) && (e matches AssemblerError::Overflow(msg) && msg@
                == match op {
                EltwiseOp::Add => "eltwise add overflow"@,
                _ => requantize_mul_text(a@, b@),
            }),
        },
{
    match op {
        EltwiseOp::Add => {
            match a.raw().checked_add(b.raw()) {
                Some(sum) => {
                    let c = assign_sum(config, layouter, a, a_cell, b, b_cell);
                    Ok((I18::from_raw(sum), c))
                },
                None => Err(AssemblerError::Overflow(String::from_str("eltwise add overflow"))),
            }
        },
        _ => {
            match requantize_mul(a, b) {
                Ok((q, _)) => {
                    proof {
                        lemma_i18_range(q);
                    }
                    let c = assign_product(config, layouter, a, a_cell, b, b_cell, q);
                    Ok((q, c))
                },
                Err(e) => Err(AssemblerError::from(e)),
            }
        },
    }
}

/// The first elements of an elementwise operation are laid out.
spec fn ops_laid(
    config: AssemblerConfig,
    base: Layouter,
    l: Layouter,
    op: EltwiseOp,
    a: RegisterCells,
    b: RegisterCells,
    values: Seq<I18>,
    cells: Seq<AssignedCell>,
) -> bool {
    &&& hold_raw(l, cells, values)
    &&& all_in(cells, config.bridge.unshifted)
    &&& forall|s: int|
        0 <= s < values.len() ==> #[trigger] elementwise_fits_at(
            op,
            raws(a.values@),
            raws(b.values@),
            s,
        )
    &&& forall|s: int|
        0 <= s < values.len() ==> (#[trigger] values[s])@ == elementwise(
            op,
            raws(a.values@),
            raws(b.values@),
        )[s]
    &&& forall|setup: Setup, env: Assignment, s: int|
        #![trigger l.sat(setup, env), cells[s]]
        config.ok(setup) && l.sat(setup, env) && 0 <= s < cells.len() ==> {
            let v = centered(env.cell(cells[s].cell));
            &&& is_i64(v)
            &&& v == elementwise(op, cell_raws(env, a.cells@), cell_raws(env, b.cells@))[s]
        }
    &&& forall|setup: Setup|
        config.ok(setup) && config.distinct() && all_linked(setup, a.cells@) && all_linked(
            setup,
            b.cells@,
        ) && base.honest(setup) ==> #[trigger] l.honest(setup)
}

/// One more element is laid out.
proof fn lemma_ops(
    config: AssemblerConfig,
    base: Layouter,
    before: Layouter,
    l: Layouter,
    op: EltwiseOp,
    a: RegisterCells,
    b: RegisterCells,
    values: Seq<I18>,
    cells: Seq<AssignedCell>,
    v: I18,
    c: AssignedCell,
)
    requires
        ops_laid(config, base, before, op, a, b, values, cells),
        l.grows(before),
        a.values@.len() > 0 && b.values@.len() > 0,
        a.cells@.len() == a.values@.len(),
        b.cells@.len() == b.values@.len(),
        values.len() < longer(a.values@.len() as int, b.values@.len() as int),
        is_i64(elementwise(op, raws(a.values@), raws(b.values@))[values.len() as int]),
        v@ == elementwise(op, raws(a.values@), raws(b.values@))[values.len() as int],
        c.cell.column == config.bridge.unshifted,
        c.value@ == v@ % modulus(),
        l.has(c),
        op_sound(
            config,
            l,
            op,
            a.cells@[values.len() as int % a.cells@.len() as int],
            b.cells@[values.len() as int % b.cells@.len() as int],
            c,
        ),
        op_complete(
            config,
            before,
            l,
            a.cells@[values.len() as int % a.cells@.len() as int],
            b.cells@[values.len() as int % b.cells@.len() as int],
        ),
    ensures
        ops_laid(config, base, l, op, a, b, values.push(v), cells.push(c)),
{
    lemma_hold(l, before, cells);
    let values2 = values.push(v);
    let cells2 = cells.push(c);
    let n = values.len() as int;
    let ia = n % a.cells@.len() as int;
    let ib = n % b.cells@.len() as int;
    assert(hold_raw(l, cells2, values2)) by {
        assert forall|s: int| 0 <= s < cells2.len() implies l.has(#[trigger] cells2[s])
            && cells2[s].value@ == values2[s]@ % modulus() by {
            if s < n {
                assert(l.has(cells[s]));
            }
        }
    }
    assert forall|setup: Setup, env: Assignment, s: int|
        #![trigger l.sat(setup, env), cells2[s]]
        config.ok(setup) && l.sat(setup, env) && 0 <= s < cells2.len() implies {
        let v = centered(env.cell(cells2[s].cell));
        &&& is_i64(v)
        &&& v == elementwise(op, cell_raws(env, a.cells@), cell_raws(env, b.cells@))[s]
    } by {
        if s < n {
            assert(before.sat(setup, env));
            assert(cells2[s] == cells[s]);
        } else {
            let (xs, ys) = (cell_raws(env, a.cells@), cell_raws(env, b.cells@));
            assert(xs[ia] == centered(env.cell(a.cells@[ia].cell)));
            assert(ys[ib] == centered(env.cell(b.cells@[ib].cell)));
        }
    }
    assert forall|setup: Setup|
        config.ok(setup) && config.distinct() && all_linked(setup, a.cells@) && all_linked(
            setup,
            b.cells@,
        ) && base.honest(setup) implies #[trigger] l.honest(setup) by {
        assert(before.honest(setup));
        assert(setup.cs.linked(a.cells@[ia].cell.column));
        assert(setup.cs.linked(b.cells@[ib].cell.column));
    }
}

/// Lays every element of an elementwise operation out, or stops at the first that is out of
/// range.
fn assign_ops(
    config: &AssemblerConfig,
    layouter: &mut Layouter,
    op: EltwiseOp,
    a: &RegisterCells,
    b: &RegisterCells,
) -> (res: Result<RegisterCells, AssemblerError>)
    requires
        config.wf(),
        a.values@.len() > 0 && b.values@.len() > 0,
        a.held(*old(layouter)),
        b.held(*old(layouter)),
    ensures
        final(layouter).grows(*old(layouter)),
        ({
            let (xs, ys) = (raws(a.values@), raws(b.values@));
            match res {
                Ok(out) => {
                    &&& elementwise_fits(op, xs, ys)
                    &&& (Laid { trace: final(layouter).trace(), cells: cells_of(out.cells@) })
                        == elementwise_layout(
                        *config,
                        old(layouter).trace(),
                        op,
                        cells_of(a.cells@),
                        cells_of(b.cells@),
                        longer(xs.len() as int, ys.len() as int),
                    )
                    &&& out.values@.len() == longer(xs.len() as int, ys.len() as int)
                    &&& ops_laid(
                        *config,
                        *old(layouter),
                        *final(layouter),
                        op,
                        *a,
                        *b,
                        out.values@,
                        out.cells@,
                    )
                },
                Err(e) => !elementwise_fits(op, xs, ys) && (e matches AssemblerError::Overflow(msg)
                    && exists|t: int| #[trigger]
                    elementwise_first_misfit(op, xs, ys, t) && msg@ == elementwise_misfit_text(
                        op,
                        xs,
                        ys,
                        t,
                    )),
            }
        }),
{
    let ghost base = *layouter;
    let ghost xs = raws(a.values@);
    let ghost ys = raws(b.values@);
    let len_a: usize = a.values.len();
    let len_b: usize = b.values.len();
    let len: usize = if len_a >= len_b {
        len_a
    } else {
        len_b
    };
    let mut values: Vec<I18> = Vec::new();
    let mut cells: Vec<AssignedCell> = Vec::new();
    assert(cells_of(cells@) =~= Seq::<Cell>::empty());
    let mut i: usize = 0;
    while i < len
        invariant
            i <= len,
            len_a == a.values@.len(),
            len_b == b.values@.len(),
            len == longer(len_a as int, len_b as int),
            len_a > 0 && len_b > 0,
            xs == raws(a.values@),
            ys == raws(b.values@),
            base == *old(layouter),
            config.wf(),
            a.held(*layouter),
            b.held(*layouter),
            layouter.grows(base),
            values@.len() == i,
            (Laid { trace: layouter.trace(), cells: cells_of(cells@) }) == elementwise_layout(
                *config,
                base.trace(),
                op,
                cells_of(a.cells@),
                cells_of(b.cells@),
                i as int,
            ),
            ops_laid(*config, base, *layouter, op, *a, *b, values@, cells@),
        decreases len - i,
    {
        let ghost before = *layouter;
        let ia: usize = i % len_a;
        let ib: usize = i % len_b;
        assert(layouter.has(a.cells@[ia as int]));
        assert(layouter.has(b.cells@[ib as int]));
        match assign_op(config, layouter, op, a.values[ia], a.cells[ia], b.values[ib], b.cells[ib]) {
            Ok((v, c)) => {
                proof {
                    lemma_ops(
                        *config,
                        base,
                        before,
                        *layouter,
                        op,
                        *a,
                        *b,
                        values@,
                        cells@,
                        v,
                        c,
                    );
                    lemma_held(*a, *layouter, before);
                    lemma_held(*b, *layouter, before);
                }
                let ghost prev = cells@;
                values.push(v);
                cells.push(c);
                assert(cells_of(cells@) =~= cells_of(prev).push(c.cell));
            },
            Err(e) => {
                assert(elementwise_first_misfit(op, xs, ys, i as int));
                return Err(e);
            },
        }
        i += 1;
    }
    assert(elementwise_fits(op, xs, ys));
    Ok(RegisterCells { values, cells })
}

/// An elementwise operation is laid out.
pub open spec fn elementwise_laid(
    config: AssemblerConfig,
    regs: AssignedRegisters,
    inputs: Seq<RegisterRef>,
    op: EltwiseOp,
    before: Layouter,
    after: Layouter,
    out: RegisterCells,
) -> bool {
    &&& out.held(after)
    &&& all_in(out.cells@, config.bridge.unshifted)
    &&& forall|setup: Setup, env: Assignment|
        config.ok(setup) && #[trigger] after.sat(setup, env) ==> {
            let vs = regs.cell_values(env);
            &&& cell_raws(env, out.cells@) == elementwise(
                op,
                vs.get(inputs[0]),
                vs.get(inputs[1]),
            )
            &&& all_i64(cell_raws(env, out.cells@))
        }
    &&& forall|setup: Setup|
        config.ok(setup) && config.distinct() && regs.linked(setup) && before.honest(setup)
            ==> #[trigger] after.honest(setup)
}

impl AssemblerChip {
    /// Lays a sum or a product, element by element, out.
    pub(crate) fn assign_eltwise(
        &self,
        layouter: &mut Layouter,
        regs: &AssignedRegisters,
        inputs: &Vec<RegisterRef>,
        op: EltwiseOp,
    ) -> (res: Result<RegisterCells, AssemblerError>)
        requires
            self.config.wf(),
            regs.held(*old(layouter)),
        ensures
            final(layouter).grows(*old(layouter)),
            eltwise_step(regs.values(), inputs@, op, outcome(res)),
            res matches Ok(out) ==> ({
                let a = regs.places().get(inputs@[0]);
                let b = regs.places().get(inputs@[1]);
                (Laid { trace: final(layouter).trace(), cells: cells_of(out.cells@) })
                    == elementwise_layout(
                    self.config,
                    old(layouter).trace(),
                    op,
                    a,
                    b,
                    longer(a.len() as int, b.len() as int),
                )
            }),
            res matches Ok(out) ==> elementwise_laid(
                self.config,
                *regs,
                inputs@,
                op,
                *old(layouter),
                *final(layouter),
                out,
            ),
    {
        if inputs.len() != 2 {
            return Err(AssemblerError::EltwiseInputCount { expected: 2, got: inputs.len() });
        }
        let a = regs.resolve(inputs[0])?;
        let b = regs.resolve(inputs[1])?;
        let a_len: usize = a.values.len();
        let b_len: usize = b.values.len();
        let compatible = if a_len == 0 || b_len == 0 {
            false
        } else if a_len >= b_len {
            a_len % b_len == 0
        } else {
            b_len % a_len == 0
        };
        proof {
            if a_len > 0 && b_len > 0 {
                vstd::arithmetic::div_mod::lemma_mod_self_0(a_len as int);
                vstd::arithmetic::div_mod::lemma_mod_self_0(b_len as int);
            }
            assert(compatible == broadcasts(a_len as int, b_len as int));
        }
        if !compatible {
            return Err(AssemblerError::EltwiseLengthMismatch { a_len, b_len });
        }
        let ghost base = *layouter;
        let out = assign_ops(&self.config, layouter, op, a, b)?;
        proof {
            let l = *layouter;
            assert(raws(out.values@) =~= elementwise(op, raws(a.values@), raws(b.values@)));
            assert forall|setup: Setup, env: Assignment|
                self.config.ok(setup) && #[trigger] l.sat(setup, env) implies {
                let vs = regs.cell_values(env);
                &&& cell_raws(env, out.cells@) == elementwise(
                    op,
                    vs.get(inputs@[0]),
                    vs.get(inputs@[1]),
                )
                &&& all_i64(cell_raws(env, out.cells@))
            } by {
                let vs = regs.cell_values(env);
                assert(vs.get(inputs@[0]) == cell_raws(env, a.cells@));
                assert(vs.get(inputs@[1]) == cell_raws(env, b.cells@));
                let got = cell_raws(env, out.cells@);
                let want = elementwise(op, vs.get(inputs@[0]), vs.get(inputs@[1]));
                assert forall|s: int| 0 <= s < got.len() implies #[trigger] got[s] == want[s]
                    && is_i64(got[s]) by {
                    assert(out.cells@[s] == out.cells@[s]);
                }
                assert(got =~= want);
            }
        }
        Ok(out)
    }
}

} // verus!
