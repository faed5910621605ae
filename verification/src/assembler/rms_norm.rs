//! Normalizations.
use vstd::prelude::*;

use crate::assembler::chip::AssemblerChip;
use crate::assembler::config::{key_below, AssemblerConfig};
use crate::assembler::dot::lemma_held;
use crate::assembler::error::AssemblerError;
use crate::assembler::registers::{
    has_rms_norm, is_rms_norm, outcome, rms_norm_runnable, rms_norm_step, the_rms_norm,
    AssignedRegisters, RegisterCells,
};
use crate::assembler::semantics::RegisterRef;
use crate::chips::bridge::{
    all_bridged, all_in, all_linked, bridged, equal_cells, hold_raw, hold_shifted, lemma_hold,
    link_each, links_trace, unshift_each, BridgeConfig,
};
use crate::chips::layer_norm::{all_i64, shifted_raws};
use crate::chips::reduce::cell_raws;
use crate::chips::rms_norm::{RmsNormChip, RmsNormOutput};
use crate::field_convert::unshifted;
use crate::fixed_point::is_i64;
use crate::layout::{cells_of, AssignedCell, Cell, Laid, Layouter, Mark};
use crate::plonk::{Assignment, Setup};

verus! {

/// The layout after a normalization, with its cells.
pub closed spec fn norm_layout(
    config: AssemblerConfig,
    chip: RmsNormChip,
    t: Seq<Mark>,
    xs: Seq<Cell>,
    ws: Seq<Cell>,
) -> Laid {
    let norm = chip.config.laid(t);
    bound_layout(
        config.bridge,
        norm.trace,
        chip.config.input_anchors(t),
        chip.config.weight_anchors(t),
        norm.cells,
        xs,
        ws,
    )
}

/// The layout after the cells of a normalization are linked to registers, with the unshifted
/// cells of its outputs.
pub closed spec fn bound_layout(
    bridge: BridgeConfig,
    t: Seq<Mark>,
    inputs: Seq<Cell>,
    weights: Seq<Cell>,
    outputs: Seq<Cell>,
    xs: Seq<Cell>,
    ws: Seq<Cell>,
) -> Laid {
    let first = links_trace(t, inputs, xs, inputs.len() as int);
    let second = links_trace(first, weights, ws, weights.len() as int);
    bridge.unshift_laid(second, outputs, outputs.len() as int)
}

/// A normalization is laid out.
pub open spec fn norm_laid(
    config: AssemblerConfig,
    regs: AssignedRegisters,
    inputs: Seq<RegisterRef>,
    chip: RmsNormChip,
    before: Layouter,
    after: Layouter,
    out: RegisterCells,
) -> bool {
    &&& out.held(after)
    &&& all_in(out.cells@, config.bridge.unshifted)
    &&& forall|setup: Setup, env: Assignment|
        config.ok(setup) && #[trigger] after.sat(setup, env) ==> {
            let vs = regs.cell_values(env);
            &&& chip.config.proves(
                chip.domain(),
                vs.get(inputs[0]),
                vs.get(inputs[1]),
                cell_raws(env, out.cells@),
            )
            &&& all_i64(cell_raws(env, out.cells@))
        }
    &&& forall|setup: Setup|
        config.ok(setup) && config.distinct() && regs.linked(setup) && before.honest(setup)
            ==> #[trigger] after.honest(setup)
}

/// Pairwise equal cells hold the same signed integers.
proof fn lemma_same_raws(env: Assignment, xs: Seq<AssignedCell>, ys: Seq<AssignedCell>)
    requires
        xs.len() == ys.len(),
        equal_cells(env, xs, ys),
    ensures
        cell_raws(env, xs) == cell_raws(env, ys),
{
    assert forall|i: int| 0 <= i < xs.len() implies #[trigger] cell_raws(env, xs)[i] == cell_raws(
        env,
        ys,
    )[i] by {
        assert(env.cell(xs[i].cell) == env.cell(ys[i].cell));
    }
    assert(cell_raws(env, xs) =~= cell_raws(env, ys));
}

/// Cells bridged to shifted 64-bit integers hold the same integers.
proof fn lemma_bridged_raws(env: Assignment, us: Seq<AssignedCell>, ss: Seq<AssignedCell>)
    requires
        us.len() == ss.len(),
        all_bridged(env, us, ss),
        all_i64(shifted_raws(env, ss)),
    ensures
        cell_raws(env, us) == shifted_raws(env, ss),
{
    assert forall|i: int| 0 <= i < us.len() implies #[trigger] cell_raws(env, us)[i]
        == shifted_raws(env, ss)[i] by {
        assert(bridged(env.cell(us[i].cell), env.cell(ss[i].cell)));
        assert(is_i64(shifted_raws(env, ss)[i]));
    }
    assert(cell_raws(env, us) =~= shifted_raws(env, ss));
}

/// Links the inputs and the weights of a normalization to registers, and returns the unshifted
/// cells of its outputs.
fn bind_norm(
    bridge: &BridgeConfig,
    layouter: &mut Layouter,
    norm: &RmsNormOutput,
    x: &RegisterCells,
    w: &RegisterCells,
) -> (cells: Vec<AssignedCell>)
    requires
        x.held(*old(layouter)),
        w.held(*old(layouter)),
        hold_raw(*old(layouter), norm.input_cells@, x.values@),
        hold_raw(*old(layouter), norm.weight_cells@, w.values@),
        hold_shifted(*old(layouter), norm.output_cells@, norm.outputs@),
    ensures
        final(layouter).grows(*old(layouter)),
        (Laid { trace: final(layouter).trace(), cells: cells_of(cells@) }) == bound_layout(
            *bridge,
            old(layouter).trace(),
            cells_of(norm.input_cells@),
            cells_of(norm.weight_cells@),
            cells_of(norm.output_cells@),
            cells_of(x.cells@),
            cells_of(w.cells@),
        ),
        hold_raw(*final(layouter), cells@, norm.outputs@),
        all_in(cells@, bridge.unshifted),
        forall|setup: Setup, env: Assignment|
            bridge.ok(setup) && #[trigger] final(layouter).sat(setup, env) ==> {
                &&& cell_raws(env, norm.input_cells@) == cell_raws(env, x.cells@)
                &&& cell_raws(env, norm.weight_cells@) == cell_raws(env, w.cells@)
                &&& all_bridged(env, cells@, norm.output_cells@)
            },
        forall|setup: Setup|
            bridge.ok(setup) && bridge.distinct() && all_linked(setup, norm.input_cells@)
                && all_linked(setup, norm.weight_cells@) && all_linked(setup, norm.output_cells@)
                && all_linked(setup, x.cells@) && all_linked(setup, w.cells@) && old(
                layouter,
            ).honest(setup) ==> #[trigger] final(layouter).honest(setup),
{
    let ghost l1 = *layouter;
    link_each(layouter, &norm.input_cells, &x.cells);
    let ghost l2 = *layouter;
    link_each(layouter, &norm.weight_cells, &w.cells);
    let ghost l3 = *layouter;
    proof {
        lemma_hold(l2, l1, norm.output_cells@);
        lemma_hold(l3, l2, norm.output_cells@);
        assert(hold_shifted(l3, norm.output_cells@, norm.outputs@));
    }
    let cells = unshift_each(bridge, layouter, &norm.output_cells, &norm.outputs);
    proof {
        let l4 = *layouter;
        assert forall|setup: Setup, env: Assignment|
            bridge.ok(setup) && #[trigger] l4.sat(setup, env) implies {
            &&& cell_raws(env, norm.input_cells@) == cell_raws(env, x.cells@)
            &&& cell_raws(env, norm.weight_cells@) == cell_raws(env, w.cells@)
            &&& all_bridged(env, cells@, norm.output_cells@)
        } by {
            assert(l3.sat(setup, env));
            assert(l2.sat(setup, env));
            lemma_same_raws(env, norm.input_cells@, x.cells@);
            lemma_same_raws(env, norm.weight_cells@, w.cells@);
        }
        lemma_hold(l2, l1, norm.weight_cells@);
        lemma_hold(l2, l1, w.cells@);
        assert forall|setup: Setup|
            bridge.ok(setup) && bridge.distinct() && all_linked(setup, norm.input_cells@)
                && all_linked(setup, norm.weight_cells@) && all_linked(setup, norm.output_cells@)
                && all_linked(setup, x.cells@) && all_linked(setup, w.cells@) && l1.honest(
                setup,
            ) implies #[trigger] l4.honest(setup) by {
            assert(l2.honest(setup)) by {
                assert forall|i: int| 0 <= i < norm.input_cells@.len() implies l1.has(
                    #[trigger] norm.input_cells@[i],
                ) && l1.has(x.cells@[i]) && norm.input_cells@[i].value@ == x.cells@[i].value@ by {
                    assert(x.cells@[i] == x.cells@[i]);
                }
            }
            assert(l3.honest(setup)) by {
                assert forall|i: int| 0 <= i < norm.weight_cells@.len() implies l2.has(
                    #[trigger] norm.weight_cells@[i],
                ) && l2.has(w.cells@[i]) && norm.weight_cells@[i].value@ == w.cells@[i].value@ by {
                    assert(w.cells@[i] == w.cells@[i]);
                }
            }
        }
    }
    cells
}

impl AssemblerChip {
    /// The position of the configured normalization for a dimension and an epsilon.
    pub(crate) fn find_rms_norm(&self, dim: usize, epsilon_milli: u64) -> (res: Option<usize>)
        requires
            self.config.wf(),
        ensures
            match res {
                Some(i) => {
                    &&& i < self.config.rms_norm@.len()
                    &&& has_rms_norm(self.config, dim, epsilon_milli)
                    &&& self.config.rms_norm@[i as int] == the_rms_norm(
                        self.config,
                        dim,
                        epsilon_milli,
                    )
                    &&& self.config.rms_norm@[i as int].dim == dim
                },
                None => !has_rms_norm(self.config, dim, epsilon_milli),
            },
    {
        let mut i: usize = 0;
        while i < self.config.rms_norm.len()
            invariant
                i <= self.config.rms_norm@.len(),
                self.config.wf(),
                forall|j: int|
                    0 <= j < i ==> !#[trigger] is_rms_norm(self.config, dim, epsilon_milli, j),
            decreases self.config.rms_norm@.len() - i,
        {
            if self.config.rms_norm[i].dim == dim && self.config.rms_norm[i].epsilon_milli
                == epsilon_milli {
                proof {
                    assert(is_rms_norm(self.config, dim, epsilon_milli, i as int));
                    let j = choose|j: int| #[trigger]
                        is_rms_norm(self.config, dim, epsilon_milli, j);
                    let keys = self.config.rms_norm_keys();
                    assert(keys[i as int] == keys[j]);
                    if i < j {
                        assert(key_below(keys[i as int], keys[j]));
                    } else if j < i {
                        assert(key_below(keys[j], keys[i as int]));
                    }
                }
                return Some(i);
            }
            i += 1;
        }
        None
    }

    /// Lays a normalization out.
    #[verifier::rlimit(40)]
    pub(crate) fn assign_rms_norm(
        &self,
        layouter: &mut Layouter,
        regs: &AssignedRegisters,
        inputs: &Vec<RegisterRef>,
        dim: usize,
        epsilon_milli: u64,
    ) -> (res: Result<RegisterCells, AssemblerError>)
        requires
            self.config.wf(),
            regs.held(*old(layouter)),
            rms_norm_runnable(self.config, regs.values(), inputs@, dim, epsilon_milli),
        ensures
            final(layouter).grows(*old(layouter)),
            rms_norm_step(
                self.config,
                regs.values(),
                inputs@,
                dim,
                epsilon_milli,
                outcome(res),
            ),
            res matches Ok(out) ==> (Laid {
                trace: final(layouter).trace(),
                cells: cells_of(out.cells@),
            }) == norm_layout(
                self.config,
                the_rms_norm(self.config, dim, epsilon_milli).chip,
                old(layouter).trace(),
                regs.places().get(inputs@[0]),
                regs.places().get(inputs@[1]),
            ),
            res matches Ok(out) ==> norm_laid(
                self.config,
                *regs,
                inputs@,
                the_rms_norm(self.config, dim, epsilon_milli).chip,
                *old(layouter),
                *final(layouter),
                out,
            ),
    {
        if inputs.len() != 2 {
            return Err(AssemblerError::RmsNormInputCount { expected: 2, got: inputs.len() });
        }
        let x = regs.resolve(inputs[0])?;
        let w = regs.resolve(inputs[1])?;
        if x.values.len() != dim || w.values.len() != dim {
            return Err(
                AssemblerError::RmsNormShapeMismatch {
                    dim,
                    got_x: x.values.len(),
                    got_weight: w.values.len(),
                },
            );
        }
        let at: usize = match self.find_rms_norm(dim, epsilon_milli) {
            Some(at) => at,
            None => {
                return Err(AssemblerError::UnconfiguredRmsNorm { dim, epsilon_milli });
            },
        };
        let ghost base = *layouter;
        let ghost entry = self.config.rms_norm@[at as int];
        let ghost chip = entry.chip;
        assert(entry.wf());
        let norm = match self.config.rms_norm[at].chip.assign(layouter, &x.values, &w.values) {
            Ok(norm) => norm,
            Err(e) => {
                return Err(AssemblerError::RmsNorm(e));
            },
        };
        let ghost l1 = *layouter;
        proof {
            lemma_held(*x, l1, base);
            lemma_held(*w, l1, base);
        }
        let cells = bind_norm(&self.config.bridge, layouter, &norm, x, w);
        let out = RegisterCells { values: norm.outputs, cells };
        proof {
            let l = *layouter;
            assert forall|setup: Setup, env: Assignment|
                self.config.ok(setup) && #[trigger] l.sat(setup, env) implies {
                let vs = regs.cell_values(env);
                &&& chip.config.proves(
                    chip.domain(),
                    vs.get(inputs@[0]),
                    vs.get(inputs@[1]),
                    cell_raws(env, out.cells@),
                )
                &&& all_i64(cell_raws(env, out.cells@))
            } by {
                assert(l1.sat(setup, env));
                assert(entry.chip.config.rules(setup));
                assert(self.config.rms_norm_loaded(setup, at as int));
                assert(chip.ok(setup));
                lemma_bridged_raws(env, out.cells@, norm.output_cells@);
            }
            assert forall|setup: Setup|
                self.config.ok(setup) && self.config.distinct() && regs.linked(setup)
                    && base.honest(setup) implies #[trigger] l.honest(setup) by {
                assert(entry.chip.config.rules(setup));
                assert(entry.chip.config.distinct());
                assert(self.config.rms_norm_loaded(setup, at as int));
                assert(l1.honest(setup));
                assert(all_linked(setup, norm.input_cells@));
                assert(all_linked(setup, norm.weight_cells@));
                assert(all_linked(setup, norm.output_cells@));
            }
        }
        Ok(out)
    }
}

} // verus!
