//! The instruction set.
use vstd::prelude::*;

verus! {

#[derive(Debug, Clone, Copy, PartialEq, Eq, Structural)]
pub enum EltwiseOp {
    Add,
    Mul,
    Relu,
}

#[derive(Debug, Clone, Copy, PartialEq, Eq, Structural)]
pub enum ReduceOp {
    Sum,
    Mean,
}

#[derive(Debug, PartialEq, Eq)]
pub enum Instruction {
    /// A matrix product of an `m` by `k` and a `k` by `n` matrix, each stored row by row, or
    /// transposed where its flag is set.
    DotGeneral {
        m: usize,
        n: usize,
        k: usize,
        batch_dims: Vec<usize>,
        trans_a: bool,
        trans_b: bool,
    },
    Softmax { axis_dim: usize },
    Gelu,
    LayerNorm { dim: usize, epsilon_milli: u64 },
    /// Root-mean-square normalization of a first register by a second one that holds a weight
    /// for each channel.
    RmsNorm { dim: usize, epsilon_milli: u64 },
    Eltwise { op: EltwiseOp },
    Reduce { op: ReduceOp, axis: usize },
    EmbedLookup { table_size: usize, embed_dim: usize },
    PatchEmbed { patch_len: usize, embed_dim: usize },
}

/// An instruction with its sizes as a sequence.
#[verifier::ext_equal]
pub enum Operation {
    DotGeneral {
        m: usize,
        n: usize,
        k: usize,
        batch_dims: Seq<usize>,
        trans_a: bool,
        trans_b: bool,
    },
    Softmax { axis_dim: usize },
    Gelu,
    LayerNorm { dim: usize, epsilon_milli: u64 },
    RmsNorm { dim: usize, epsilon_milli: u64 },
    Eltwise { op: EltwiseOp },
    Reduce { op: ReduceOp, axis: usize },
    EmbedLookup { table_size: usize, embed_dim: usize },
    PatchEmbed { patch_len: usize, embed_dim: usize },
}

impl View for Instruction {
    type V = Operation;

    open spec fn view(&self) -> Operation {
        match *self {
            Instruction::DotGeneral { m, n, k, batch_dims, trans_a, trans_b } =>
                Operation::DotGeneral { m, n, k, batch_dims: batch_dims@, trans_a, trans_b },
            Instruction::Softmax { axis_dim } => Operation::Softmax { axis_dim },
            Instruction::Gelu => Operation::Gelu,
            Instruction::LayerNorm { dim, epsilon_milli } => Operation::LayerNorm {
                dim,
                epsilon_milli,
            },
            Instruction::RmsNorm { dim, epsilon_milli } => Operation::RmsNorm {
                dim,
                epsilon_milli,
            },
            Instruction::Eltwise { op } => Operation::Eltwise { op },
            Instruction::Reduce { op, axis } => Operation::Reduce { op, axis },
            Instruction::EmbedLookup { table_size, embed_dim } => Operation::EmbedLookup {
                table_size,
                embed_dim,
            },
            Instruction::PatchEmbed { patch_len, embed_dim } => Operation::PatchEmbed {
                patch_len,
                embed_dim,
            },
        }
    }
}

impl Clone for Instruction {
    fn clone(&self) -> (r: Self)
        ensures
            r@ == self@,
    {
        match self {
            Instruction::DotGeneral { m, n, k, batch_dims, trans_a, trans_b } => {
                let mut dims: Vec<usize> = Vec::new();
                let mut i: usize = 0;
                while i < batch_dims.len()
                    invariant
                        i <= batch_dims@.len(),
                        dims@ == batch_dims@.take(i as int),
                    decreases batch_dims@.len() - i,
                {
                    dims.push(batch_dims[i]);
                    assert(batch_dims@.take(i + 1) =~= batch_dims@.take(i as int).push(
                        batch_dims@[i as int],
                    ));
                    i += 1;
                }
                assert(batch_dims@.take(i as int) =~= batch_dims@);
                Instruction::DotGeneral {
                    m: *m,
                    n: *n,
                    k: *k,
                    batch_dims: dims,
                    trans_a: *trans_a,
                    trans_b: *trans_b,
                }
            },
            Instruction::Softmax { axis_dim } => Instruction::Softmax { axis_dim: *axis_dim },
            Instruction::Gelu => Instruction::Gelu,
            Instruction::LayerNorm { dim, epsilon_milli } => Instruction::LayerNorm {
                dim: *dim,
                epsilon_milli: *epsilon_milli,
            },
            Instruction::RmsNorm { dim, epsilon_milli } => Instruction::RmsNorm {
                dim: *dim,
                epsilon_milli: *epsilon_milli,
            },
            Instruction::Eltwise { op } => Instruction::Eltwise { op: *op },
            Instruction::Reduce { op, axis } => Instruction::Reduce { op: *op, axis: *axis },
            Instruction::EmbedLookup { table_size, embed_dim } => Instruction::EmbedLookup {
                table_size: *table_size,
                embed_dim: *embed_dim,
            },
            Instruction::PatchEmbed { patch_len, embed_dim } => Instruction::PatchEmbed {
                patch_len: *patch_len,
                embed_dim: *embed_dim,
            },
        }
    }
}

} // verus!
