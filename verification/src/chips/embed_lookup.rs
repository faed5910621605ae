//! Embedding lookups: the row of a public table at an index, one lookup for each dimension.
use vstd::prelude::*;
use vstd::string::*;

use crate::chips::lookup::{
    assign_lookup_row, in_domain, input_rows, is_function_row, output_rows, LookupChip,
    LookupConfig, LookupError,
};
use crate::field::{centered, modulus};
use crate::fixed_point::{i18, lemma_i18, lemma_i18_ext, I18};
use crate::layout::{AssignedCell, Layouter};
use crate::plonk::{Assignment, Column, ConstraintSystem, Selector, Setup};
use crate::text::{decimal, unsigned_text};

verus! {

#[derive(Debug)]
pub enum EmbedLookupError {
    /// The table does not have the configured count of rows.
    TableRowCountMismatch { expected: usize, got: usize },
    /// A row of the table does not have the configured count of columns.
    TableRowLengthMismatch { row: usize, expected: usize, got: usize },
    /// The index is not below the count of rows.
    IndexOutOfRange { index: usize, table_size: usize },
    /// The lookup of a dimension failed.
    Lookup { dim: usize, source: LookupError },
    /// Loading a dimension's table failed.
    Synthesis { dim: usize, source: String },
}

impl EmbedLookupError {
    pub open spec fn text(self) -> Seq<char> {
        match self {
            EmbedLookupError::TableRowCountMismatch { expected, got } => {
                "embedding table expects "@ + decimal(expected as int)
                    + " rows (table_size), got "@ + decimal(got as int)
            },
            EmbedLookupError::TableRowLengthMismatch { row, expected, got } => {
                "embedding table row "@ + decimal(row as int) + " expects "@ + decimal(
                    expected as int,
                ) + " columns (embed_dim), got "@ + decimal(got as int)
            },
            EmbedLookupError::IndexOutOfRange { index, table_size } => "embed lookup index "@
                + decimal(index as int) + " is out of range for table_size "@ + decimal(
                table_size as int,
            ),
            EmbedLookupError::Lookup { dim, source } => "embed lookup dimension "@ + decimal(
                dim as int,
            ) + " failed: "@ + source.text(),
            EmbedLookupError::Synthesis { dim, source } => "embed lookup dimension "@ + decimal(
                dim as int,
            ) + " table load failed: "@ + source@,
        }
    }

    /// The text of the error.
    pub fn message(&self) -> (r: String)
        ensures
            r@ == self.text(),
    {
        match self {
            EmbedLookupError::TableRowCountMismatch { expected, got } => {
                let mut r = String::from_str("embedding table expects ");
                r.append(unsigned_text(*expected as u128).as_str());
                r.append(" rows (table_size), got ");
                r.append(unsigned_text(*got as u128).as_str());
                r
            },
            EmbedLookupError::TableRowLengthMismatch { row, expected, got } => {
                let mut r = String::from_str("embedding table row ");
                r.append(unsigned_text(*row as u128).as_str());
                r.append(" expects ");
                r.append(unsigned_text(*expected as u128).as_str());
                r.append(" columns (embed_dim), got ");
                r.append(unsigned_text(*got as u128).as_str());
                r
            },
            EmbedLookupError::IndexOutOfRange { index, table_size } => {
                let mut r = String::from_str("embed lookup index ");
                r.append(unsigned_text(*index as u128).as_str());
                r.append(" is out of range for table_size ");
                r.append(unsigned_text(*table_size as u128).as_str());
                r
            },
            EmbedLookupError::Lookup { dim, source } => {
                let mut r = String::from_str("embed lookup dimension ");
                r.append(unsigned_text(*dim as u128).as_str());
                r.append(" failed: ");
                r.append(source.message().as_str());
                r
            },
            EmbedLookupError::Synthesis { dim, source } => {
                let mut r = String::from_str("embed lookup dimension ");
                r.append(unsigned_text(*dim as u128).as_str());
                r.append(" table load failed: ");
                r.append(source.as_str());
                r
            },
        }
    }
}

#[derive(Debug)]
pub struct EmbedLookupConfig {
    pub lookups: Vec<LookupConfig>,
    pub table_size: usize,
    pub embed_dim: usize,
}

/// The function of one dimension: the indices with their entries in a column of the table.
pub open spec fn dimension(table: Seq<Vec<I18>>, dim: int) -> Seq<(I18, I18)> {
    Seq::new(table.len(), |i: int| (i18(i), table[i]@[dim]))
}

impl EmbedLookupConfig {
    pub open spec fn wf(self) -> bool {
        &&& 0 < self.table_size <= i64::MAX
        &&& self.embed_dim > 0
        &&& self.lookups@.len() == self.embed_dim
        &&& forall|d: int| 0 <= d < self.embed_dim ==> (#[trigger] self.lookups@[d]).wf()
        &&& forall|d: int, e: int|
            0 <= d < e < self.embed_dim ==> (#[trigger] self.lookups@[d]).table_output.0 < (
            #[trigger] self.lookups@[e]).table_input.0
        &&& forall|d: int|
            0 <= d < self.embed_dim ==> (#[trigger] self.lookups@[d]).table_input.0
                < self.lookups@[d].table_output.0
    }

    pub open spec fn rules(self, setup: Setup) -> bool {
        forall|d: int| 0 <= d < self.embed_dim ==> (#[trigger] self.lookups@[d]).rules(setup)
    }

    /// The tables of all dimensions are loaded.
    pub open spec fn loaded(self, setup: Setup, table: Seq<Vec<I18>>) -> bool {
        forall|d: int|
            0 <= d < self.embed_dim ==> (#[trigger] self.lookups@[d]).loaded(
                setup,
                dimension(table, d),
            )
    }

    pub open spec fn ok(self, setup: Setup, table: Seq<Vec<I18>>) -> bool {
        self.rules(setup) && self.loaded(setup, table)
    }

    pub open spec fn distinct(self) -> bool {
        forall|d: int|
            0 <= d < self.embed_dim ==> (#[trigger] self.lookups@[d]).input
                != self.lookups@[d].output
    }

    /// The table has the configured shape.
    pub open spec fn shape_fits(self, table: Seq<Vec<I18>>) -> bool {
        &&& table.len() == self.table_size
        &&& forall|i: int|
            0 <= i < table.len() ==> (#[trigger] table[i])@.len() == self.embed_dim
    }

    /// The error for a table of a wrong shape: its count of rows, or its first row of a wrong
    /// length.
    pub open spec fn shape_error(self, table: Seq<Vec<I18>>, e: EmbedLookupError) -> bool {
        match e {
            EmbedLookupError::TableRowCountMismatch { expected, got } => table.len()
                != self.table_size && expected == self.table_size && got == table.len(),
            EmbedLookupError::TableRowLengthMismatch { row, expected, got } => {
                &&& table.len() == self.table_size
                &&& row < table.len() && table[row as int]@.len() != self.embed_dim
                &&& forall|i: int|
                    0 <= i < row ==> (#[trigger] table[i])@.len() == self.embed_dim
                &&& expected == self.embed_dim && got == table[row as int]@.len()
            },
            _ => false,
        }
    }
}

pub struct EmbedLookupChip {
    pub config: EmbedLookupConfig,
}

impl EmbedLookupChip {
    /// `table_size` is the count of rows of the table, `embed_dim` that of its columns.
    pub fn configure(
        meta: &mut ConstraintSystem,
        index: Column,
        output_cols: &Vec<Column>,
        table_size: usize,
        embed_dim: usize,
    ) -> (config: EmbedLookupConfig)
        requires
            0 < table_size <= i64::MAX,
            embed_dim > 0,
            output_cols@.len() == embed_dim,
            old(meta).tables + 2 * embed_dim <= usize::MAX,
        ensures
            config.wf(),
            config.table_size == table_size && config.embed_dim == embed_dim,
            forall|d: int|
                0 <= d < embed_dim ==> (#[trigger] config.lookups@[d]).input == index
                    && config.lookups@[d].output == output_cols@[d],
            final(meta).advice == old(meta).advice,
            final(meta).fixed == old(meta).fixed,
            final(meta).instance == old(meta).instance,
            final(meta).tables == old(meta).tables + 2 * embed_dim,
            final(meta).constants@ == old(meta).constants@,
            final(meta).rules@.len() == old(meta).rules@.len() + embed_dim,
            final(meta).extends(*old(meta)),
            forall|setup: Setup|
                setup.cs.extends(*final(meta)) ==> #[trigger] config.rules(setup),
            forall|setup: Setup, table: Seq<Vec<I18>>|
                #![trigger setup.cs.extends(*final(meta)), config.loaded(setup, table)]
                setup.cs.extends(*final(meta)) && config.loaded(setup, table)
                    ==> setup.rests_between(*old(meta), *final(meta)),
    {
        let ghost base = *meta;
        proof {
            meta.lemma_extends_refl();
        }
        let mut lookups: Vec<LookupConfig> = Vec::new();
        let mut d: usize = 0;
        while d < embed_dim
            invariant
                d <= embed_dim,
                output_cols@.len() == embed_dim,
                base.tables + 2 * embed_dim <= usize::MAX,
                lookups@.len() == d,
                meta.advice == base.advice,
                meta.fixed == base.fixed,
                meta.instance == base.instance,
                meta.tables == base.tables + 2 * d,
                meta.constants@ == base.constants@,
                meta.rules@.len() == base.rules@.len() + d,
                meta.extends(base),
                forall|j: int|
                    0 <= j < d ==> {
                        let c = #[trigger] lookups@[j];
                        &&& c.wf()
                        &&& c.input == index && c.output == output_cols@[j]
                        &&& c.table_input.0 == base.tables + 2 * j
                        &&& c.table_output.0 == base.tables + 2 * j + 1
                        &&& c.selector.0 == base.rules@.len() + j
                    },
                forall|setup: Setup, j: int|
                    #![trigger setup.cs.extends(*meta), lookups@[j]]
                    setup.cs.extends(*meta) && 0 <= j < d ==> lookups@[j].rules(setup),
            decreases embed_dim - d,
        {
            let ghost before = *meta;
            let ghost prev = lookups@;
            let c = LookupChip::configure(meta, index, output_cols[d]);
            lookups.push(c);
            proof {
                assert(c.selector.0 == before.rules.len());
                meta.lemma_extends_trans(before, base);
                assert forall|setup: Setup, j: int|
                    #![trigger setup.cs.extends(*meta), lookups@[j]]
                    setup.cs.extends(*meta) && 0 <= j < d + 1 implies lookups@[j].rules(setup) by {
                    setup.cs.lemma_extends_trans(*meta, before);
                    if j < d {
                        assert(lookups@[j] == prev[j]);
                    } else {
                        assert(c.rules(setup));
                    }
                }
            }
            d += 1;
        }
        let config = EmbedLookupConfig { lookups, table_size, embed_dim };
        proof {
            assert forall|setup: Setup, table: Seq<Vec<I18>>|
                #![trigger setup.cs.extends(*meta), config.loaded(setup, table)]
                setup.cs.extends(*meta) && config.loaded(setup, table) implies setup.rests_between(
                base,
                *meta,
            ) by {
                assert forall|s: Selector|
                    base.rules@.len() <= s.0 < meta.rules@.len() implies #[trigger] setup.rests(
                    s,
                ) by {
                    let j = s.0 - base.rules@.len();
                    assert(lookups@[j].rules(setup));
                    assert(config.lookups@[j].loaded(setup, dimension(table, j)));
                    lookups@[j].lemma_rests(setup, dimension(table, j));
                }
            }
        }
        config
    }

    pub fn construct(config: EmbedLookupConfig) -> (chip: Self)
        ensures
            chip.config == config,
    {
        EmbedLookupChip { config }
    }

    /// Checks that the table has the configured shape.
    fn validate_table_shape(&self, embedding_table: &Vec<Vec<I18>>) -> (res: Result<
        (),
        EmbedLookupError,
    >)
        ensures
            match res {
                Ok(_) => self.config.shape_fits(embedding_table@),
                Err(e) => self.config.shape_error(embedding_table@, e),
            },
    {
        let table_size: usize = self.config.table_size;
        let embed_dim: usize = self.config.embed_dim;
        if embedding_table.len() != table_size {
            return Err(
                EmbedLookupError::TableRowCountMismatch {
                    expected: table_size,
                    got: embedding_table.len(),
                },
            );
        }
        let mut row: usize = 0;
        while row < embedding_table.len()
            invariant
                row <= embedding_table@.len(),
                embedding_table@.len() == table_size,
                table_size == self.config.table_size,
                embed_dim == self.config.embed_dim,
                forall|i: int|
                    0 <= i < row ==> (#[trigger] embedding_table@[i])@.len() == embed_dim,
            decreases embedding_table@.len() - row,
        {
            if embedding_table[row].len() != embed_dim {
                return Err(
                    EmbedLookupError::TableRowLengthMismatch {
                        row,
                        expected: embed_dim,
                        got: embedding_table[row].len(),
                    },
                );
            }
            row += 1;
        }
        Ok(())
    }

    /// The lookup of one dimension.
    fn lookup_chip_for_dim(&self, dim: usize, embedding_table: &Vec<Vec<I18>>) -> (chip: LookupChip)
        requires
            self.config.wf(),
            self.config.shape_fits(embedding_table@),
            dim < self.config.embed_dim,
        ensures
            chip.config == self.config.lookups@[dim as int],
            chip.domain@ == dimension(embedding_table@, dim as int),
    {
        let mut domain: Vec<I18> = Vec::new();
        let mut values: Vec<I18> = Vec::new();
        let mut i: usize = 0;
        while i < embedding_table.len()
            invariant
                i <= embedding_table@.len(),
                embedding_table@.len() <= i64::MAX,
                dim < self.config.embed_dim,
                self.config.shape_fits(embedding_table@),
                domain@.len() == i,
                values@.len() == i,
                forall|j: int| 0 <= j < i ==> #[trigger] domain@[j] == i18(j),
                forall|j: int|
                    0 <= j < i ==> #[trigger] values@[j] == embedding_table@[j]@[dim as int],
            decreases embedding_table@.len() - i,
        {
            assert(embedding_table@[i as int]@.len() == self.config.embed_dim);
            let x = I18::from_raw(i as i64);
            proof {
                lemma_i18(i as int);
                lemma_i18_ext(x, i18(i as int));
            }
            domain.push(x);
            values.push(embedding_table[i][dim]);
            i += 1;
        }
        let chip = LookupChip::construct(self.config.lookups[dim], domain, values);
        assert(chip.domain@ =~= dimension(embedding_table@, dim as int));
        chip
    }

    /// Loads the tables of all dimensions. Called once in a synthesis.
    pub fn load_table(&self, layouter: &mut Layouter, embedding_table: &Vec<Vec<I18>>) -> (res:
        Result<(), EmbedLookupError>)
        requires
            self.config.wf(),
            forall|d: int|
                0 <= d < self.config.embed_dim ==> (old(layouter).tables())((
                #[trigger] self.config.lookups@[d]).table_input.0 as int).len() == 0 && (
                old(layouter).tables())(self.config.lookups@[d].table_output.0 as int).len() == 0,
        ensures
            match res {
                Ok(_) => {
                    &&& self.config.shape_fits(embedding_table@)
                    &&& final(layouter).only_loads(*old(layouter))
                    &&& forall|setup: Setup|
                        setup.tables == final(layouter).tables() ==> #[trigger] self.config.loaded(
                            setup,
                            embedding_table@,
                        )
                },
                Err(e) => self.config.shape_error(embedding_table@, e) && *final(layouter)
                    == *old(layouter),
            },
    {
        match self.validate_table_shape(embedding_table) {
            Ok(_) => {},
            Err(e) => {
                return Err(e);
            },
        }
        let n: usize = self.config.embed_dim;
        let mut d: usize = 0;
        while d < n
            invariant
                d <= n,
                n == self.config.embed_dim,
                self.config.wf(),
                self.config.shape_fits(embedding_table@),
                layouter.only_loads(*old(layouter)),
                forall|j: int|
                    0 <= j < d ==> {
                        let c = #[trigger] self.config.lookups@[j];
                        let f = dimension(embedding_table@, j);
                        &&& (layouter.tables())(c.table_input.0 as int) == input_rows(f)
                        &&& (layouter.tables())(c.table_output.0 as int) == output_rows(f)
                    },
                forall|j: int|
                    d <= j < n ==> (layouter.tables())((
                    #[trigger] self.config.lookups@[j]).table_input.0 as int).len() == 0 && (
                    layouter.tables())(self.config.lookups@[j].table_output.0 as int).len() == 0,
            decreases n - d,
        {
            let chip = self.lookup_chip_for_dim(d, embedding_table);
            assert(self.config.lookups@[d as int].wf());
            chip.load_table(layouter);
            d += 1;
        }
        Ok(())
    }

    /// Whatever satisfies the layout has, for every dimension, a row of its function. The
    /// dimensions witness their indices separately.
    pub open spec fn sound(
        self,
        l: Layouter,
        table: Seq<Vec<I18>>,
        cells: Seq<(AssignedCell, AssignedCell)>,
    ) -> bool {
        forall|setup: Setup, env: Assignment, d: int|
            #![trigger l.sat(setup, env), cells[d]]
            self.config.ok(setup, table) && l.sat(setup, env) && 0 <= d < cells.len()
                ==> is_function_row(
                dimension(table, d),
                centered(env.cell(cells[d].0.cell)),
                centered(env.cell(cells[d].1.cell)),
            )
    }

    /// The cells of each dimension hold the index and the dimension's entry of the row.
    pub open spec fn holds_row(
        self,
        l: Layouter,
        index: usize,
        row: Seq<I18>,
        cells: Seq<(AssignedCell, AssignedCell)>,
    ) -> bool {
        &&& cells.len() == row.len()
        &&& forall|d: int|
            0 <= d < cells.len() ==> {
                let c = #[trigger] cells[d];
                &&& c.0.cell.column == self.config.lookups@[d].input
                &&& c.1.cell.column == self.config.lookups@[d].output
                &&& c.0.value@ == index
                &&& c.1.value@ == row[d]@ % modulus()
                &&& l.has(c.0)
                &&& l.has(c.1)
            }
    }

    /// Witnesses the row of the table at an index and returns it with the cells of each
    /// dimension's index and entry.
    pub fn assign_cells(
        &self,
        layouter: &mut Layouter,
        index: usize,
        embedding_table: &Vec<Vec<I18>>,
    ) -> (res: Result<(Vec<I18>, Vec<(AssignedCell, AssignedCell)>), EmbedLookupError>)
        requires
            self.config.wf(),
        ensures
            match res {
                Ok((row, cells)) => {
                    &&& self.config.shape_fits(embedding_table@)
                    &&& index < self.config.table_size
                    &&& row@ == embedding_table@[index as int]@
                    &&& final(layouter).grows(*old(layouter))
                    &&& self.holds_row(*final(layouter), index, row@, cells@)
                    &&& self.sound(*final(layouter), embedding_table@, cells@)
                    &&& forall|setup: Setup|
                        self.config.ok(setup, embedding_table@) && self.config.distinct() && old(
                            layouter,
                        ).honest(setup) ==> #[trigger] final(layouter).honest(setup)
                },
                Err(e) => *final(layouter) == *old(layouter) && match e {
                    EmbedLookupError::IndexOutOfRange { index: i, table_size } => {
                        &&& self.config.shape_fits(embedding_table@)
                        &&& index >= self.config.table_size
                        &&& i == index && table_size == self.config.table_size
                    },
                    _ => self.config.shape_error(embedding_table@, e),
                },
            },
    {
        match self.validate_table_shape(embedding_table) {
            Ok(_) => {},
            Err(e) => {
                return Err(e);
            },
        }
        let table_size: usize = self.config.table_size;
        if index >= table_size {
            return Err(EmbedLookupError::IndexOutOfRange { index, table_size });
        }
        let ghost base = *layouter;
        let ghost table = embedding_table@;
        let x = I18::from_raw(index as i64);
        proof {
            lemma_i18(index as int);
        }
        let n: usize = self.config.embed_dim;
        assert(table[index as int]@.len() == n);
        let mut row: Vec<I18> = Vec::new();
        let mut cells: Vec<(AssignedCell, AssignedCell)> = Vec::new();
        let mut d: usize = 0;
        while d < n
            invariant
                d <= n,
                n == self.config.embed_dim,
                self.config.wf(),
                table == embedding_table@,
                index < table.len(),
                x@ == index,
                i18(index as int)@ == index,
                table[index as int]@.len() == n,
                layouter.grows(base),
                row@.len() == d,
                cells@.len() == d,
                forall|j: int| 0 <= j < d ==> #[trigger] row@[j] == table[index as int]@[j],
                forall|j: int|
                    0 <= j < d ==> {
                        let c = #[trigger] cells@[j];
                        &&& c.0.cell.column == self.config.lookups@[j].input
                        &&& c.1.cell.column == self.config.lookups@[j].output
                        &&& c.0.value@ == index
                        &&& c.1.value@ == row@[j]@ % modulus()
                        &&& layouter.has(c.0)
                        &&& layouter.has(c.1)
                    },
                self.sound(*layouter, table, cells@),
                forall|setup: Setup|
                    self.config.ok(setup, table) && self.config.distinct() && base.honest(setup)
                        ==> #[trigger] layouter.honest(setup),
            decreases n - d,
        {
            let ghost before = *layouter;
            let ghost prev = cells@;
            let y: I18 = embedding_table[index][d];
            let pair: (AssignedCell, AssignedCell) = assign_lookup_row(
                &self.config.lookups[d],
                layouter,
                x,
                y,
            );
            row.push(y);
            cells.push(pair);
            proof {
                let f = dimension(table, d as int);
                let c = self.config.lookups@[d as int];
                assert(f[index as int].0@ == x@ && f[index as int].1 == y);
                assert(in_domain(f, x@, y@));
                assert forall|j: int| 0 <= j < cells@.len() implies layouter.has(
                    (#[trigger] cells@[j]).0,
                ) && layouter.has(cells@[j].1) by {
                    if j < d {
                        assert(before.has(prev[j].0) && before.has(prev[j].1));
                        assert forall|env: Assignment| #[trigger] layouter.agrees(env) implies {
                            &&& env.cell(cells@[j].0.cell) == cells@[j].0.value@
                            &&& env.cell(cells@[j].1.cell) == cells@[j].1.value@
                        } by {
                            assert(before.agrees(env));
                        }
                    }
                }
                assert(self.sound(*layouter, table, cells@)) by {
                    assert forall|setup: Setup, env: Assignment, j: int|
                        #![trigger layouter.sat(setup, env), cells@[j]]
                        self.config.ok(setup, table) && layouter.sat(setup, env) && 0 <= j < d
                            + 1 implies is_function_row(
                        dimension(table, j),
                        centered(env.cell(cells@[j].0.cell)),
                        centered(env.cell(cells@[j].1.cell)),
                    ) by {
                        assert(before.sat(setup, env));
                        if j < d {
                            assert(cells@[j] == prev[j]);
                        } else {
                            assert(c.ok(setup, f));
                        }
                    }
                }
                assert forall|setup: Setup|
                    self.config.ok(setup, table) && self.config.distinct() && base.honest(
                        setup,
                    ) implies #[trigger] layouter.honest(setup) by {
                    assert(before.honest(setup));
                    assert(c.ok(setup, f));
                }
            }
            d += 1;
        }
        assert(row@ =~= table[index as int]@);
        Ok((row, cells))
    }

    /// Witnesses the row of the table at an index and returns it.
    pub fn assign(&self, layouter: &mut Layouter, index: usize, embedding_table: &Vec<Vec<I18>>) -> (res:
        Result<Vec<I18>, EmbedLookupError>)
        requires
            self.config.wf(),
        ensures
            match res {
                Ok(row) => {
                    &&& self.config.shape_fits(embedding_table@)
                    &&& index < self.config.table_size
                    &&& row@ == embedding_table@[index as int]@
                    &&& final(layouter).grows(*old(layouter))
                    &&& exists|cells: Seq<(AssignedCell, AssignedCell)>|
                        self.holds_row(*final(layouter), index, row@, cells)
                            && #[trigger] self.sound(*final(layouter), embedding_table@, cells)
                    &&& forall|setup: Setup|
                        self.config.ok(setup, embedding_table@) && self.config.distinct() && old(
                            layouter,
                        ).honest(setup) ==> #[trigger] final(layouter).honest(setup)
                },
                Err(e) => *final(layouter) == *old(layouter) && match e {
                    EmbedLookupError::IndexOutOfRange { index: i, table_size } => {
                        &&& self.config.shape_fits(embedding_table@)
                        &&& index >= self.config.table_size
                        &&& i == index && table_size == self.config.table_size
                    },
                    _ => self.config.shape_error(embedding_table@, e),
                },
            },
    {
        match self.assign_cells(layouter, index, embedding_table) {
            Ok((row, cells)) => {
                assert(self.holds_row(*layouter, index, row@, cells@));
                assert(self.sound(*layouter, embedding_table@, cells@));
                Ok(row)
            },
            Err(e) => Err(e),
        }
    }
}

} // verus!
