//! The Poseidon hash and the commitment in a circuit.
use vstd::prelude::*;

use crate::chips::poseidon_boundary::hash::{
    compress, fifth_power, light_poseidon_parameters, poseidon_parameters, PoseidonParameters,
};
use crate::chips::poseidon_boundary::identity::values_of;
use crate::chips::poseidon_boundary::round::{round_native, width_three};
use crate::field::{modulus, Fr};
use crate::layout::{cell_at, AssignedCell, Cell, Layouter, Mark};
use crate::plonk::{
    group_extends, lemma_at_range, Assignment, Column, ColumnKind, ConstraintSystem, Expression,
    Selector, Setup,
};

verus! {

#[derive(Clone, Copy, Debug)]
pub struct PoseidonBoundaryConfig {
    pub state: [Column; 3],
    pub round_constants: [Column; 3],
    pub constant: Column,
    pub full_round: Selector,
    pub partial_round: Selector,
}

impl PoseidonBoundaryConfig {
    /// The columns are all different.
    pub open spec fn distinct(self) -> bool {
        &&& forall|i: int, j: int|
            0 <= i < j < 3 ==> #[trigger] self.state@[i] != #[trigger] self.state@[j]
        &&& forall|i: int, j: int|
            0 <= i < j < 3 ==> #[trigger] self.round_constants@[i]
                != #[trigger] self.round_constants@[j]
        &&& forall|i: int, j: int|
            0 <= i < 3 && 0 <= j < 3 ==> #[trigger] self.state@[i]
                != #[trigger] self.round_constants@[j]
    }

    /// A state element of a row after the round constant and the nonlinear step.
    pub open spec fn boxed(self, env: Assignment, r: int, o: int, full: bool, i: int) -> int {
        let x = env.at(r, self.state@[i], o) + env.at(r, self.round_constants@[i], o);
        if i == 0 || full {
            fifth_power(x)
        } else {
            x
        }
    }

    /// Vanishes where a state element of the next row is what the round makes of the row.
    pub open spec fn round_gate(self, env: Assignment, r: int, o: int, full: bool, row: int) -> int {
        let mds = poseidon_parameters(3).mds[row];
        env.at(r, self.state@[row], o + 1) - (self.boxed(env, r, o, full, 0) * mds[0] + self.boxed(
            env,
            r,
            o,
            full,
            1,
        ) * mds[1] + self.boxed(env, r, o, full, 2) * mds[2])
    }

    pub open spec fn round_holds(self, env: Assignment, r: int, o: int, full: bool) -> bool {
        &&& self.round_gate(env, r, o, full, 0) % modulus() == 0
        &&& self.round_gate(env, r, o, full, 1) % modulus() == 0
        &&& self.round_gate(env, r, o, full, 2) % modulus() == 0
    }

    pub open spec fn ok(self, setup: Setup) -> bool {
        &&& forall|env: Assignment, r: int, o: int| #[trigger]
            setup.holds(self.full_round, env, r, o) <==> self.round_holds(env, r, o, true)
        &&& forall|env: Assignment, r: int, o: int| #[trigger]
            setup.holds(self.partial_round, env, r, o) <==> self.round_holds(env, r, o, false)
        &&& setup.cs.linked(self.state@[0])
        &&& setup.cs.linked(self.state@[1])
        &&& setup.cs.linked(self.state@[2])
        &&& setup.cs.has_constants()
    }

    /// The selector of a round.
    pub open spec fn selector(self, round: int) -> Selector {
        if poseidon_parameters(3).is_full(round) {
            self.full_round
        } else {
            self.partial_round
        }
    }

    /// The layout after the first `n` rounds.
    pub closed spec fn rounds_trace(self, t: Seq<Mark>, region: nat, n: int) -> Seq<Mark>
        decreases n,
    {
        if n <= 0 {
            t
        } else {
            self.round_trace(self.rounds_trace(t, region, n - 1), region, n - 1)
        }
    }

    /// The layout after a round.
    pub closed spec fn round_trace(self, t: Seq<Mark>, region: nat, round: int) -> Seq<Mark> {
        let ark = poseidon_parameters(3).ark;
        t.push(
            Mark::Enable {
                region: region as usize,
                selector: self.selector(round),
                offset: round as usize,
            },
        ).push(
            Mark::Fixed {
                cell: cell_at(region, self.round_constants@[0], round),
                value: ark[3 * round],
            },
        ).push(
            Mark::Fixed {
                cell: cell_at(region, self.round_constants@[1], round),
                value: ark[3 * round + 1],
            },
        ).push(
            Mark::Fixed {
                cell: cell_at(region, self.round_constants@[2], round),
                value: ark[3 * round + 2],
            },
        ).push(Mark::Advice { cell: cell_at(region, self.state@[0], round + 1) }).push(
            Mark::Advice { cell: cell_at(region, self.state@[1], round + 1) },
        ).push(Mark::Advice { cell: cell_at(region, self.state@[2], round + 1) })
    }

    /// The layout after a hash of two cells.
    pub closed spec fn hash_trace(self, t: Seq<Mark>, left: Cell, right: Cell) -> Seq<Mark> {
        let (a, b, c) = (
            cell_at(t.len(), self.state@[0], 0),
            cell_at(t.len(), self.state@[1], 0),
            cell_at(t.len(), self.state@[2], 0),
        );
        self.rounds_trace(
            t.push(Mark::Region).push(Mark::Advice { cell: a }).push(
                Mark::Constant { cell: a, value: 0 },
            ).push(Mark::Advice { cell: b }).push(Mark::Equal { left, right: b }).push(
                Mark::Advice { cell: c },
            ).push(Mark::Equal { left: right, right: c }),
            t.len(),
            65,
        )
    }

    /// The cell of a hash.
    pub closed spec fn hash_cell(self, t: Seq<Mark>) -> Cell {
        cell_at(t.len(), self.state@[0], 65)
    }
}

#[derive(Clone, Copy, Debug)]
pub struct PoseidonBoundaryChip {
    pub config: PoseidonBoundaryConfig,
}

/// A cell plus its round constant.
fn sum_expression(state: Column, constant: Column) -> (e: Expression)
    ensures
        forall|env: Assignment, r: int, o: int| #[trigger]
            e.eval(env, r, o) == env.at(r, state, o) + env.at(r, constant, o),
{
    Expression::cell(state).plus(Expression::cell(constant))
}

/// A cell after the round constant and, where `power` holds, the nonlinear step.
fn boxed_expression(state: Column, constant: Column, power: bool) -> (e: Expression)
    ensures
        forall|env: Assignment, r: int, o: int| #[trigger]
            e.eval(env, r, o) == if power {
                fifth_power(env.at(r, state, o) + env.at(r, constant, o))
            } else {
                env.at(r, state, o) + env.at(r, constant, o)
            },
{
    let x = sum_expression(state, constant);
    if !power {
        return x;
    }
    let low = x.times(sum_expression(state, constant));
    let high = sum_expression(state, constant).times(sum_expression(state, constant));
    low.times(high).times(sum_expression(state, constant))
}

/// The polynomial of one state element's round.
fn round_expression(
    state: [Column; 3],
    constants: [Column; 3],
    mds: &Vec<Fr>,
    full: bool,
    row: usize,
) -> (e: Expression)
    requires
        mds@.len() == 3,
        row < 3,
    ensures
        forall|env: Assignment, r: int, o: int| #[trigger]
            e.eval(env, r, o) == {
                let x0 = env.at(r, state@[0], o) + env.at(r, constants@[0], o);
                let x1 = env.at(r, state@[1], o) + env.at(r, constants@[1], o);
                let x2 = env.at(r, state@[2], o) + env.at(r, constants@[2], o);
                let b1 = if full {
                    fifth_power(x1)
                } else {
                    x1
                };
                let b2 = if full {
                    fifth_power(x2)
                } else {
                    x2
                };
                env.at(r, state@[row as int], o + 1) - (fifth_power(x0) * mds@[0]@ + b1 * mds@[1]@
                    + b2 * mds@[2]@)
            },
{
    let t0 = boxed_expression(state[0], constants[0], true).times(Expression::constant(mds[0]));
    let t1 = boxed_expression(state[1], constants[1], full).times(Expression::constant(mds[1]));
    let t2 = boxed_expression(state[2], constants[2], full).times(Expression::constant(mds[2]));
    Expression::cell_at(state[row], 1).minus(t0.plus(t1).plus(t2))
}

impl PoseidonBoundaryChip {
    pub fn configure(meta: &mut ConstraintSystem) -> (config: PoseidonBoundaryConfig)
        requires
            old(meta).advice + 3 <= usize::MAX,
            old(meta).fixed + 4 <= usize::MAX,
        ensures
            config.distinct(),
            forall|i: int|
                0 <= i < 3 ==> #[trigger] config.state@[i] == (Column {
                    kind: ColumnKind::Advice,
                    index: (old(meta).advice + i) as usize,
                }),
            forall|i: int|
                0 <= i < 3 ==> #[trigger] config.round_constants@[i] == (Column {
                    kind: ColumnKind::Fixed,
                    index: (old(meta).fixed + i) as usize,
                }),
            config.constant == (Column {
                kind: ColumnKind::Fixed,
                index: (old(meta).fixed + 3) as usize,
            }),
            final(meta).advice == old(meta).advice + 3,
            final(meta).fixed == old(meta).fixed + 4,
            final(meta).tables == old(meta).tables,
            final(meta).instance == old(meta).instance,
            final(meta).constants@ == old(meta).constants@.push(config.constant),
            final(meta).rules@.len() == old(meta).rules@.len() + 2,
            final(meta).extends(*old(meta)),
            forall|setup: Setup| setup.cs.extends(*final(meta)) ==> #[trigger] config.ok(setup),
            forall|setup: Setup| #[trigger]
                setup.cs.extends(*final(meta)) ==> setup.rests_between(*old(meta), *final(meta)),
    {
        let state = [meta.advice_column(), meta.advice_column(), meta.advice_column()];
        meta.enable_equality(state[0]);
        meta.enable_equality(state[1]);
        meta.enable_equality(state[2]);
        let round_constants = [meta.fixed_column(), meta.fixed_column(), meta.fixed_column()];
        let constant = meta.fixed_column();
        meta.enable_constant(constant);
        let ghost mid = *meta;
        let p = light_poseidon_parameters(3);
        let ghost mds = poseidon_parameters(3).mds;
        proof {
            assert(p@.mds == mds);
            assert(mds[0] == values_of(p.mds@[0]@));
            assert(mds[1] == values_of(p.mds@[1]@));
            assert(mds[2] == values_of(p.mds@[2]@));
        }
        let f0 = round_expression(state, round_constants, &p.mds[0], true, 0);
        let f1 = round_expression(state, round_constants, &p.mds[1], true, 1);
        let f2 = round_expression(state, round_constants, &p.mds[2], true, 2);
        let full_round = meta.gate_triple(f0, f1, f2);
        let p0 = round_expression(state, round_constants, &p.mds[0], false, 0);
        let p1 = round_expression(state, round_constants, &p.mds[1], false, 1);
        let p2 = round_expression(state, round_constants, &p.mds[2], false, 2);
        let partial_round = meta.gate_triple(p0, p1, p2);
        let config = PoseidonBoundaryConfig {
            state,
            round_constants,
            constant,
            full_round,
            partial_round,
        };
        proof {
            broadcast use group_extends;

            assert forall|env: Assignment, r: int, o: int|
                #![trigger config.round_holds(env, r, o, true)]
                {
                &&& f0.eval(env, r, o) == config.round_gate(env, r, o, true, 0)
                &&& f1.eval(env, r, o) == config.round_gate(env, r, o, true, 1)
                &&& f2.eval(env, r, o) == config.round_gate(env, r, o, true, 2)
            } by {}
            assert forall|env: Assignment, r: int, o: int|
                #![trigger config.round_holds(env, r, o, false)]
                {
                &&& p0.eval(env, r, o) == config.round_gate(env, r, o, false, 0)
                &&& p1.eval(env, r, o) == config.round_gate(env, r, o, false, 1)
                &&& p2.eval(env, r, o) == config.round_gate(env, r, o, false, 2)
            } by {}
            assert forall|setup: Setup| setup.cs.extends(*meta) implies #[trigger] config.ok(
                setup,
            ) by {
                assert(setup.cs.extends(mid));
                setup.cs.lemma_extends_keeps(mid);
                assert forall|env: Assignment, r: int, o: int| #[trigger]
                    setup.holds(full_round, env, r, o) <==> config.round_holds(
                        env,
                        r,
                        o,
                        true,
                    ) by {}
                assert forall|env: Assignment, r: int, o: int| #[trigger]
                    setup.holds(partial_round, env, r, o) <==> config.round_holds(
                        env,
                        r,
                        o,
                        false,
                    ) by {}
            }
        }
        config
    }

    pub fn construct(config: PoseidonBoundaryConfig) -> (chip: Self)
        ensures
            chip.config == config,
    {
        PoseidonBoundaryChip { config }
    }

    /// Lays a round out in a region: its selector and constants in the row, the next state in
    /// the row after it. Returns the next state with its first cell.
    fn assign_round(
        &self,
        layouter: &mut Layouter,
        region: usize,
        p: &PoseidonParameters,
        round: usize,
        state: &[Fr; 3],
    ) -> (res: ([Fr; 3], AssignedCell))
        requires
            width_three(*p),
            p@ == poseidon_parameters(3),
            round < 65,
            region < old(layouter).next(),
        ensures
            ({
                let g = region as int;
                let cfg = self.config;
                let r = round as int;
                &&& values_of(res.0@) == p@.round(r, values_of(state@))
                &&& res.1.is(g, cfg.state@[0], r + 1, res.0@[0]@)
                &&& final(layouter).trace() == cfg.round_trace(
                    old(layouter).trace(),
                    region as nat,
                    r,
                )
                &&& old(layouter).next() <= final(layouter).next()
                &&& final(layouter).known == old(layouter).known
                &&& final(layouter).tables() == old(layouter).tables()
                &&& forall|env: Assignment| #[trigger]
                    final(layouter).agrees(env) <==> old(layouter).agrees(env) && constants_at(
                        cfg,
                        env,
                        g,
                        r,
                    ) && state_is(cfg, env, g, r + 1, values_of(res.0@))
                &&& forall|setup: Setup, env: Assignment| #[trigger]
                    final(layouter).sat(setup, env) <==> old(layouter).sat(setup, env)
                        && setup.holds(cfg.selector(r), env, g, r) && constants_at(cfg, env, g, r)
                &&& forall|a: int, c: Column, o: int| #[trigger]
                    final(layouter).assigned(a, c, o) ==> old(layouter).assigned(a, c, o) || (a == g
                        && ((is_state(cfg, c) && o == r + 1) || (is_constant(cfg, c) && o == r)))
                &&& old(layouter).fresh() ==> final(layouter).fresh()
                &&& cfg.distinct() && old(layouter).consistent() && unassigned(
                    cfg,
                    *old(layouter),
                    g,
                    r,
                ) ==> final(layouter).consistent()
            }),
    {
        let ghost base = *layouter;
        let cfg = self.config;
        let full = round < 4 || round >= 61;
        assert(full == poseidon_parameters(3).is_full(round as int));
        if full {
            layouter.enable(region, cfg.full_round, round);
        } else {
            layouter.enable(region, cfg.partial_round, round);
        }
        let ghost l0 = *layouter;
        layouter.assign_fixed(region, cfg.round_constants[0], round, p.ark[3 * round]);
        let ghost l1 = *layouter;
        layouter.assign_fixed(region, cfg.round_constants[1], round, p.ark[3 * round + 1]);
        let ghost l2 = *layouter;
        layouter.assign_fixed(region, cfg.round_constants[2], round, p.ark[3 * round + 2]);
        let ghost l3 = *layouter;
        let next = round_native(p, round, state);
        let c = layouter.assign_advice(region, cfg.state[0], round + 1, next[0]);
        let ghost l4 = *layouter;
        layouter.assign_advice(region, cfg.state[1], round + 1, next[1]);
        let ghost l5 = *layouter;
        layouter.assign_advice(region, cfg.state[2], round + 1, next[2]);
        proof {
            let g = region as int;
            let r = round as int;
            let ark = poseidon_parameters(3).ark;
            assert(ark == values_of(p.ark@));
            assert(values_of(next@)[0] == next@[0]@);
            assert(values_of(next@)[1] == next@[1]@);
            assert(values_of(next@)[2] == next@[2]@);
            if cfg.distinct() && base.consistent() && unassigned(cfg, base, g, r) {
                assert(is_constant(cfg, cfg.round_constants@[0]) && is_constant(
                    cfg,
                    cfg.round_constants@[1],
                ) && is_constant(cfg, cfg.round_constants@[2]));
                assert(is_state(cfg, cfg.state@[0]) && is_state(cfg, cfg.state@[1]) && is_state(
                    cfg,
                    cfg.state@[2],
                ));
                assert(!l0.assigned(g, cfg.round_constants@[0], r));
                assert(!l1.assigned(g, cfg.round_constants@[1], r));
                assert(!l2.assigned(g, cfg.round_constants@[2], r));
                assert(!l3.assigned(g, cfg.state@[0], r + 1));
                assert(!l4.assigned(g, cfg.state@[1], r + 1));
                assert(!l5.assigned(g, cfg.state@[2], r + 1));
            }
        }
        (next, c)
    }

    /// Hashes two cells into a third.
    pub fn hash_pair(&self, layouter: &mut Layouter, left: &AssignedCell, right: &AssignedCell) -> (c:
        AssignedCell)
        ensures
            final(layouter).grows(*old(layouter)),
            final(layouter).trace() == self.config.hash_trace(
                old(layouter).trace(),
                left.cell,
                right.cell,
            ),
            c.cell == self.config.hash_cell(old(layouter).trace()),
            c.cell.column == self.config.state@[0],
            c.value@ == compress(left.value@, right.value@),
            final(layouter).has(c),
            forall|setup: Setup, env: Assignment|
                self.config.ok(setup) && #[trigger] final(layouter).sat(setup, env) ==> env.cell(
                    c.cell,
                ) == compress(env.cell(left.cell), env.cell(right.cell)),
            forall|setup: Setup|
                self.config.ok(setup) && self.config.distinct() && setup.cs.linked(
                    left.cell.column,
                ) && setup.cs.linked(right.cell.column) && old(layouter).has(*left) && old(
                    layouter,
                ).has(*right) && old(layouter).honest(setup) ==> #[trigger] final(layouter).honest(setup),
    {
        let ghost base = *layouter;
        let cfg = self.config;
        let p = light_poseidon_parameters(3);
        let ghost (x, y) = (left.value@, right.value@);
        let ghost q = poseidon_parameters(3);
        let zero = Fr::zero();
        let region: usize = layouter.region();
        let ghost g = region as int;
        let zero_cell = layouter.assign_advice(region, cfg.state[0], 0, zero);
        layouter.constrain_constant(zero_cell.cell, zero);
        let left_copy = layouter.assign_advice(region, cfg.state[1], 0, left.value);
        layouter.constrain_equal(left.cell, left_copy.cell);
        let right_copy = layouter.assign_advice(region, cfg.state[2], 0, right.value);
        layouter.constrain_equal(right.cell, right_copy.cell);
        let ghost start = *layouter;
        let mut state = [zero, left.value, right.value];
        let mut c = zero_cell;
        let mut round: usize = 0;
        proof {
            assert(values_of(state@) =~= q.state(x, y, 0));
            assert(values_of(state@)[0] == state@[0]@);
        }
        while round < 65
            invariant
                round <= 65,
                cfg == self.config,
                width_three(p),
                p@ == q,
                q == poseidon_parameters(3),
                g == region,
                region < layouter.next(),
                base.next() <= layouter.next(),
                layouter.trace() == cfg.rounds_trace(start.trace(), region as nat, round as int),
                layouter.known == base.known,
                layouter.tables() == base.tables(),
                values_of(state@) == q.state(x, y, round as nat),
                c.is(g, cfg.state@[0], round as int, q.state(x, y, round as nat)[0]),
                forall|env: Assignment| #[trigger]
                    layouter.agrees(env) <==> start.agrees(env) && run_is(
                        cfg,
                        env,
                        g,
                        x,
                        y,
                        round as int,
                    ),
                forall|setup: Setup, env: Assignment| #[trigger]
                    layouter.sat(setup, env) <==> start.sat(setup, env) && rounds_hold(
                        cfg,
                        setup,
                        env,
                        g,
                        round as int,
                    ),
                base.fresh() ==> layouter.fresh() && forall|k: Column, o: int| #[trigger]
                    layouter.assigned(g, k, o) ==> (is_state(cfg, k) && o <= round) || (
                    is_constant(cfg, k) && o < round),
                base.fresh() && base.consistent() && cfg.distinct() ==> layouter.consistent(),
            decreases 65 - round,
        {
            let ghost before = *layouter;
            let (next, next_cell): ([Fr; 3], AssignedCell) = self.assign_round(
                layouter,
                region,
                &p,
                round,
                &state,
            );
            state = next;
            c = next_cell;
            proof {
                assert(values_of(state@)[0] == state@[0]@);
                if base.fresh() {
                    assert(cfg.distinct() ==> unassigned(cfg, before, g, round as int));
                }
                assert forall|env: Assignment| #[trigger] layouter.agrees(env) <==> start.agrees(
                    env,
                ) && run_is(cfg, env, g, x, y, round + 1) by {
                    lemma_run_step(cfg, env, g, x, y, round as int);
                }
                assert forall|setup: Setup, env: Assignment| #[trigger]
                    layouter.sat(setup, env) <==> start.sat(setup, env) && rounds_hold(
                        cfg,
                        setup,
                        env,
                        g,
                        round + 1,
                    ) by {
                    lemma_rounds_step(cfg, setup, env, g, round as int);
                }
            }
            round += 1;
        }
        proof {
            let l = *layouter;
            assert(q.rounds() == 65);
            assert forall|setup: Setup, env: Assignment|
                cfg.ok(setup) && #[trigger] l.sat(setup, env) implies env.cell(c.cell) == compress(
                env.cell(left.cell),
                env.cell(right.cell),
            ) by {
                assert(start.sat(setup, env));
                lemma_rounds_sound(cfg, setup, env, g, 65);
            }
            assert forall|env: Assignment| #[trigger] l.agrees(env) implies env.cell(c.cell)
                == c.value@ by {
                assert(run_is(cfg, env, g, x, y, 65));
                assert(state_is(cfg, env, g, 65, q.state(x, y, 65)));
            }
            assert forall|setup: Setup|
                cfg.ok(setup) && cfg.distinct() && setup.cs.linked(left.cell.column)
                    && setup.cs.linked(right.cell.column) && base.has(*left) && base.has(*right)
                    && base.honest(setup) implies #[trigger] l.honest(setup) by {
                assert forall|env: Assignment| #[trigger] l.agrees(env) implies l.sat(
                    setup,
                    env,
                ) by {
                    assert(start.agrees(env));
                    assert(base.agrees(env));
                    assert(start.sat(setup, env));
                    lemma_rounds_complete(cfg, setup, env, g, x, y, 65);
                }
            }
        }
        c
    }
}

/// The column holds a state element.
pub open spec fn is_state(cfg: PoseidonBoundaryConfig, c: Column) -> bool {
    c == cfg.state@[0] || c == cfg.state@[1] || c == cfg.state@[2]
}

/// The column holds a round constant.
pub open spec fn is_constant(cfg: PoseidonBoundaryConfig, c: Column) -> bool {
    c == cfg.round_constants@[0] || c == cfg.round_constants@[1] || c == cfg.round_constants@[2]
}

/// The cells that a round fills have no value yet.
pub open spec fn unassigned(cfg: PoseidonBoundaryConfig, l: Layouter, g: int, round: int) -> bool {
    forall|c: Column|
        #![trigger is_state(cfg, c)]
        #![trigger is_constant(cfg, c)]
        (is_state(cfg, c) ==> !l.assigned(g, c, round + 1)) && (is_constant(cfg, c)
            ==> !l.assigned(g, c, round))
}

/// A row has the constants of a round.
pub open spec fn constants_at(cfg: PoseidonBoundaryConfig, env: Assignment, g: int, round: int) -> bool {
    let ark = poseidon_parameters(3).ark;
    &&& env.at(g, cfg.round_constants@[0], round) == ark[3 * round]
    &&& env.at(g, cfg.round_constants@[1], round) == ark[3 * round + 1]
    &&& env.at(g, cfg.round_constants@[2], round) == ark[3 * round + 2]
}

/// A row has a state.
pub open spec fn state_is(
    cfg: PoseidonBoundaryConfig,
    env: Assignment,
    g: int,
    row: int,
    state: Seq<int>,
) -> bool {
    &&& env.at(g, cfg.state@[0], row) == state[0]
    &&& env.at(g, cfg.state@[1], row) == state[1]
    &&& env.at(g, cfg.state@[2], row) == state[2]
}

/// The rows have the constants of the first `n` rounds and the states after each.
pub open spec fn run_is(
    cfg: PoseidonBoundaryConfig,
    env: Assignment,
    g: int,
    x: int,
    y: int,
    n: int,
) -> bool {
    &&& forall|j: int| 0 <= j < n ==> #[trigger] constants_at(cfg, env, g, j)
    &&& forall|j: int|
        1 <= j <= n ==> state_is(
            cfg,
            env,
            g,
            j,
            #[trigger] poseidon_parameters(3).state(x, y, j as nat),
        )
}

/// The first `n` rounds are switched on and have their constants.
pub open spec fn rounds_hold(
    cfg: PoseidonBoundaryConfig,
    setup: Setup,
    env: Assignment,
    g: int,
    n: int,
) -> bool {
    forall|j: int|
        0 <= j < n ==> #[trigger] constants_at(cfg, env, g, j) && setup.holds(
            cfg.selector(j),
            env,
            g,
            j,
        )
}

proof fn lemma_run_step(
    cfg: PoseidonBoundaryConfig,
    env: Assignment,
    g: int,
    x: int,
    y: int,
    n: int,
)
    requires
        0 <= n,
    ensures
        run_is(cfg, env, g, x, y, n + 1) <==> run_is(cfg, env, g, x, y, n) && constants_at(
            cfg,
            env,
            g,
            n,
        ) && state_is(
            cfg,
            env,
            g,
            n + 1,
            poseidon_parameters(3).round(n, poseidon_parameters(3).state(x, y, n as nat)),
        ),
{
    let q = poseidon_parameters(3);
    assert(q.state(x, y, (n + 1) as nat) == q.round(n, q.state(x, y, n as nat)));
    if run_is(cfg, env, g, x, y, n + 1) {
        assert(constants_at(cfg, env, g, n));
        assert(state_is(cfg, env, g, n + 1, q.state(x, y, (n + 1) as nat)));
    }
}

proof fn lemma_rounds_step(
    cfg: PoseidonBoundaryConfig,
    setup: Setup,
    env: Assignment,
    g: int,
    n: int,
)
    requires
        0 <= n,
    ensures
        rounds_hold(cfg, setup, env, g, n + 1) <==> rounds_hold(cfg, setup, env, g, n)
            && constants_at(cfg, env, g, n) && setup.holds(cfg.selector(n), env, g, n),
{
    if rounds_hold(cfg, setup, env, g, n + 1) {
        assert(constants_at(cfg, env, g, n));
    }
}

/// A row's round computes what the permutation's does.
proof fn lemma_round_gate(
    cfg: PoseidonBoundaryConfig,
    env: Assignment,
    g: int,
    round: int,
    state: Seq<int>,
)
    requires
        state_is(cfg, env, g, round, state),
        constants_at(cfg, env, g, round),
    ensures
        cfg.round_holds(env, g, round, poseidon_parameters(3).is_full(round)) <==> state_is(
            cfg,
            env,
            g,
            round + 1,
            poseidon_parameters(3).round(round, state),
        ),
{
    let q = poseidon_parameters(3);
    let full = q.is_full(round);
    assert(cfg.boxed(env, g, round, full, 0) == q.boxed(round, state, 0));
    assert(cfg.boxed(env, g, round, full, 1) == q.boxed(round, state, 1));
    assert(cfg.boxed(env, g, round, full, 2) == q.boxed(round, state, 2));
    assert forall|row: int| 0 <= row < 3 implies (#[trigger] cfg.round_gate(
        env,
        g,
        round,
        full,
        row,
    ) % modulus() == 0 <==> env.at(g, cfg.state@[row], round + 1) == q.round(
        round,
        state,
    )[row]) by {
        lemma_at_range(env, g, cfg.state@[row], round + 1);
        assert(cfg.round_gate(env, g, round, full, row) == env.at(g, cfg.state@[row], round + 1)
            - q.mixed(round, state, row));
        lemma_residue_of(env.at(g, cfg.state@[row], round + 1), q.mixed(round, state, row));
    }
    assert(cfg.round_gate(env, g, round, full, 0) % modulus() == 0 <==> env.at(
        g,
        cfg.state@[0],
        round + 1,
    ) == q.round(round, state)[0]);
    assert(cfg.round_gate(env, g, round, full, 1) % modulus() == 0 <==> env.at(
        g,
        cfg.state@[1],
        round + 1,
    ) == q.round(round, state)[1]);
    assert(cfg.round_gate(env, g, round, full, 2) % modulus() == 0 <==> env.at(
        g,
        cfg.state@[2],
        round + 1,
    ) == q.round(round, state)[2]);
}

/// A reduced number is congruent to another exactly where it is the other's residue.
proof fn lemma_residue_of(v: int, m: int)
    requires
        0 <= v < modulus(),
    ensures
        (v - m) % modulus() == 0 <==> v == m % modulus(),
{
}

/// Rounds that hold compute the permutation's states.
proof fn lemma_rounds_sound(
    cfg: PoseidonBoundaryConfig,
    setup: Setup,
    env: Assignment,
    g: int,
    n: int,
)
    requires
        0 <= n,
        cfg.ok(setup),
        env.at(g, cfg.state@[0], 0) == 0,
        rounds_hold(cfg, setup, env, g, n),
    ensures
        state_is(
            cfg,
            env,
            g,
            n,
            poseidon_parameters(3).state(
                env.at(g, cfg.state@[1], 0),
                env.at(g, cfg.state@[2], 0),
                n as nat,
            ),
        ),
    decreases n,
{
    let (x, y) = (env.at(g, cfg.state@[1], 0), env.at(g, cfg.state@[2], 0));
    let q = poseidon_parameters(3);
    if n > 0 {
        lemma_rounds_step(cfg, setup, env, g, n - 1);
        lemma_rounds_sound(cfg, setup, env, g, n - 1);
        lemma_round_gate(cfg, env, g, n - 1, q.state(x, y, (n - 1) as nat));
    }
}

/// The permutation's states satisfy the rounds.
proof fn lemma_rounds_complete(
    cfg: PoseidonBoundaryConfig,
    setup: Setup,
    env: Assignment,
    g: int,
    x: int,
    y: int,
    n: int,
)
    requires
        0 <= n,
        cfg.ok(setup),
        state_is(cfg, env, g, 0, seq![0, x, y]),
        run_is(cfg, env, g, x, y, n),
    ensures
        rounds_hold(cfg, setup, env, g, n),
    decreases n,
{
    let q = poseidon_parameters(3);
    if n > 0 {
        lemma_run_step(cfg, env, g, x, y, n - 1);
        lemma_rounds_complete(cfg, setup, env, g, x, y, n - 1);
        lemma_rounds_step(cfg, setup, env, g, n - 1);
        if n > 1 {
            assert(state_is(cfg, env, g, n - 1, q.state(x, y, (n - 1) as nat)));
        }
        lemma_round_gate(cfg, env, g, n - 1, q.state(x, y, (n - 1) as nat));
    }
}

} // verus!
