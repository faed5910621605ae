//! Circuit layouts: the regions, cells and constraints that synthesis records, and what it
//! means for an assignment to satisfy them.
use vstd::prelude::*;

use crate::field::{lemma_fr_range, modulus, Fr};
use crate::plonk::{lemma_set, Assignment, Column, Selector, Setup, TableColumn};

verus! {

/// A circuit could not be laid out.
#[derive(Clone, Copy, Debug, PartialEq, Eq, Structural)]
pub struct SynthesisError;

/// A cell of a region. Rows are counted from the region's first row.
#[derive(Clone, Copy, Debug, PartialEq, Eq, Structural)]
pub struct Cell {
    pub region: usize,
    pub column: Column,
    pub offset: usize,
}

/// A cell with the value it was given.
#[derive(Clone, Copy, Debug, PartialEq, Eq)]
pub struct AssignedCell {
    pub cell: Cell,
    pub value: Fr,
}

/// One step of a synthesis.
#[derive(Clone, Copy, Debug, PartialEq, Eq)]
pub enum Op {
    /// Opens a region; the step's index names the region.
    Region,
    /// Opens a lookup table.
    Table,
    Enable { region: usize, selector: Selector, offset: usize },
    Advice { cell: Cell, value: Fr },
    Fixed { cell: Cell, value: Fr },
    Equal { left: Cell, right: Cell },
    Constant { cell: Cell, value: Fr },
    Instance { cell: Cell, column: Column, row: usize },
    TableRow { table: TableColumn, row: usize, value: Fr },
}

/// The record of a synthesis.
#[derive(Debug)]
pub struct Layouter {
    pub ops: Vec<Op>,
    /// Whether the advice values are witnesses; where they are not, only the layout counts.
    pub known: bool,
}

impl Assignment {
    /// The value of a cell.
    pub open spec fn cell(self, c: Cell) -> int {
        self.at(c.region as int, c.column, c.offset as int)
    }
}

impl AssignedCell {
    /// The cell and value a region's `column` got at `offset`.
    pub open spec fn is(self, region: int, column: Column, offset: int, value: int) -> bool {
        &&& self.cell.region == region
        &&& self.cell.column == column
        &&& self.cell.offset == offset
        &&& self.value@ == value
    }
}

/// One step of a synthesis, without the value of an advice cell.
pub enum Mark {
    Region,
    Table,
    Enable { region: usize, selector: Selector, offset: usize },
    Advice { cell: Cell },
    Fixed { cell: Cell, value: int },
    Equal { left: Cell, right: Cell },
    Constant { cell: Cell, value: int },
    Instance { cell: Cell, column: Column, row: usize },
    TableRow { table: TableColumn, row: usize, value: int },
}

/// What is left of a step without witnesses.
pub open spec fn mark(op: Op) -> Mark {
    match op {
        Op::Region => Mark::Region,
        Op::Table => Mark::Table,
        Op::Enable { region, selector, offset } => Mark::Enable { region, selector, offset },
        Op::Advice { cell, value } => Mark::Advice { cell },
        Op::Fixed { cell, value } => Mark::Fixed { cell, value: value@ },
        Op::Equal { left, right } => Mark::Equal { left, right },
        Op::Constant { cell, value } => Mark::Constant { cell, value: value@ },
        Op::Instance { cell, column, row } => Mark::Instance { cell, column, row },
        Op::TableRow { table, row, value } => Mark::TableRow { table, row, value: value@ },
    }
}

/// A layout with the cells that later steps refer to.
#[verifier::ext_equal]
pub struct Laid {
    pub trace: Seq<Mark>,
    pub cells: Seq<Cell>,
}

/// A cell of a region.
pub open spec fn cell_at(region: nat, column: Column, offset: int) -> Cell {
    Cell { region: region as usize, column, offset: offset as usize }
}

/// The first `n` cells of a column of a region.
pub open spec fn column_of(region: nat, column: Column, n: int) -> Seq<Cell> {
    Seq::new(n as nat, |i: int| cell_at(region, column, i))
}

/// The cells of assigned cells.
pub open spec fn cells_of(cells: Seq<AssignedCell>) -> Seq<Cell> {
    Seq::new(cells.len(), |i: int| cells[i].cell)
}

/// An assignment meets the constraint of one step.
pub open spec fn op_holds(op: Op, setup: Setup, env: Assignment) -> bool {
    match op {
        Op::Region => true,
        Op::Table => true,
        Op::Enable { region, selector, offset } => setup.holds(
            selector,
            env,
            region as int,
            offset as int,
        ),
        Op::Advice { cell, value } => true,
        Op::Fixed { cell, value } => env.cell(cell) == value@,
        Op::Equal { left, right } => {
            &&& setup.cs.linked(left.column)
            &&& setup.cs.linked(right.column)
            &&& env.cell(left) == env.cell(right)
        },
        Op::Constant { cell, value } => {
            &&& setup.cs.linked(cell.column)
            &&& setup.cs.has_constants()
            &&& env.cell(cell) == value@
        },
        Op::Instance { cell, column, row } => {
            &&& setup.cs.linked(cell.column)
            &&& setup.cs.linked(column)
            &&& env.cell(cell) == env.at(-1, column, row as int)
        },
        Op::TableRow { table, row, value } => true,
    }
}

/// An assignment has the value that one step recorded.
pub open spec fn op_agrees(op: Op, env: Assignment) -> bool {
    match op {
        Op::Advice { cell, value } => env.cell(cell) == value@,
        Op::Fixed { cell, value } => env.cell(cell) == value@,
        _ => true,
    }
}

/// One step gives a cell its value.
pub open spec fn op_assigns(op: Op, region: int, column: Column, row: int) -> bool {
    match op {
        Op::Advice { cell, value } => cell.region == region && cell.column == column && cell.offset
            == row,
        Op::Fixed { cell, value } => cell.region == region && cell.column == column && cell.offset
            == row,
        _ => false,
    }
}

/// The rows that a table column was given, in order.
pub open spec fn rows_of(ops: Seq<Op>, table: int) -> Seq<int>
    decreases ops.len(),
{
    if ops.len() == 0 {
        Seq::empty()
    } else {
        let before = rows_of(ops.drop_last(), table);
        match ops.last() {
            Op::TableRow { table: column, row, value } => if column.0 == table {
                before.push(value@)
            } else {
                before
            },
            _ => before,
        }
    }
}

/// A table column keeps the rows it was given.
proof fn lemma_rows_grow(ops: Seq<Op>, n: int, table: int)
    requires
        0 <= n <= ops.len(),
    ensures
        rows_of(ops.take(n), table).len() <= rows_of(ops, table).len(),
    decreases ops.len() - n,
{
    if n < ops.len() {
        lemma_rows_grow(ops, n + 1, table);
        assert(ops.take(n + 1).drop_last() =~= ops.take(n));
    } else {
        assert(ops.take(n) =~= ops);
    }
}

/// Steps that are alike but for witnesses give a table column the same rows.
proof fn lemma_rows_marked(a: Seq<Op>, b: Seq<Op>, table: int)
    requires
        a.len() == b.len(),
        forall|i: int| 0 <= i < a.len() ==> mark(#[trigger] a[i]) == mark(b[i]),
    ensures
        rows_of(a, table) == rows_of(b, table),
    decreases a.len(),
{
    if a.len() > 0 {
        lemma_rows_marked(a.drop_last(), b.drop_last(), table);
        assert(mark(a[a.len() - 1]) == mark(b[b.len() - 1]));
    }
}

impl Layouter {
    /// The number of steps, which is also the name of the next region.
    pub open spec fn next(self) -> int {
        self.ops@.len() as int
    }

    /// The layout: every step, without the witnesses.
    pub open spec fn trace(self) -> Seq<Mark> {
        Seq::new(self.ops@.len(), |i: int| mark(self.ops@[i]))
    }

    /// An assignment meets every recorded constraint.
    pub closed spec fn sat(self, setup: Setup, env: Assignment) -> bool {
        forall|i: int| 0 <= i < self.ops@.len() ==> op_holds(#[trigger] self.ops@[i], setup, env)
    }

    /// An assignment has every recorded value.
    pub closed spec fn agrees(self, env: Assignment) -> bool {
        forall|i: int| 0 <= i < self.ops@.len() ==> op_agrees(#[trigger] self.ops@[i], env)
    }

    /// A value was recorded for a cell.
    pub closed spec fn assigned(self, region: int, column: Column, row: int) -> bool {
        exists|i: int|
            0 <= i < self.ops@.len() && op_assigns(#[trigger] self.ops@[i], region, column, row)
    }

    /// Values were recorded in regions opened so far only.
    pub closed spec fn fresh(self) -> bool {
        forall|region: int, column: Column, row: int| #[trigger]
            self.assigned(region, column, row) ==> region < self.next()
    }

    /// The recorded values do not contradict each other.
    pub closed spec fn consistent(self) -> bool {
        exists|env: Assignment| #[trigger] self.agrees(env)
    }

    /// What the lookup tables were loaded with.
    pub open spec fn tables(self) -> spec_fn(int) -> Seq<int> {
        |table: int| rows_of(self.ops@, table)
    }

    /// The recorded values are consistent, and every assignment that has them meets every
    /// recorded constraint.
    pub open spec fn honest(self, setup: Setup) -> bool {
        &&& self.consistent()
        &&& self.fresh()
        &&& forall|env: Assignment| #[trigger] self.agrees(env) ==> self.sat(setup, env)
    }

    /// Every assignment with the recorded values has `c`'s value in `c`'s cell.
    pub open spec fn has(self, c: AssignedCell) -> bool {
        forall|env: Assignment| #[trigger] self.agrees(env) ==> env.cell(c.cell) == c.value@
    }

    /// This record continues `base` and loads no table.
    pub open spec fn grows(self, base: Layouter) -> bool {
        &&& base.next() <= self.next()
        &&& self.known == base.known
        &&& self.tables() == base.tables()
        &&& forall|env: Assignment| #[trigger] self.agrees(env) ==> base.agrees(env)
        &&& forall|setup: Setup, env: Assignment| #[trigger]
            self.sat(setup, env) ==> base.sat(setup, env)
    }

    /// This record continues `base`.
    pub open spec fn continues(self, base: Layouter) -> bool {
        &&& base.next() <= self.next()
        &&& self.known == base.known
        &&& forall|env: Assignment| #[trigger] self.agrees(env) ==> base.agrees(env)
        &&& forall|setup: Setup, env: Assignment| #[trigger]
            self.sat(setup, env) ==> base.sat(setup, env)
    }

    /// This record continues `base` and does nothing but load tables.
    pub open spec fn only_loads(self, base: Layouter) -> bool {
        &&& base.next() <= self.next()
        &&& self.known == base.known
        &&& forall|env: Assignment| #[trigger] self.agrees(env) <==> base.agrees(env)
        &&& forall|setup: Setup, env: Assignment| #[trigger]
            self.sat(setup, env) <==> base.sat(setup, env)
        &&& base.fresh() ==> self.fresh()
        &&& base.consistent() ==> self.consistent()
    }

    /// The layout decides which assignments satisfy a record and what the tables hold: records
    /// of one layout, whatever their witnesses, are satisfied by the same assignments.
    pub proof fn lemma_same_trace(self, other: Layouter)
        requires
            self.trace() == other.trace(),
        ensures
            forall|setup: Setup, env: Assignment| #[trigger]
                self.sat(setup, env) <==> other.sat(setup, env),
            self.tables() == other.tables(),
    {
        assert(self.trace().len() == self.ops@.len() && other.trace().len() == other.ops@.len());
        assert forall|i: int| 0 <= i < self.ops@.len() implies mark(#[trigger] self.ops@[i])
            == mark(other.ops@[i]) by {
            assert(self.trace()[i] == mark(self.ops@[i]));
            assert(other.trace()[i] == mark(other.ops@[i]));
        }
        assert forall|setup: Setup, env: Assignment| #[trigger] self.sat(setup, env) <==> other.sat(
            setup,
            env,
        ) by {
            assert forall|i: int| 0 <= i < self.ops@.len() implies op_holds(
                #[trigger] self.ops@[i],
                setup,
                env,
            ) == op_holds(other.ops@[i], setup, env) by {
                assert(mark(self.ops@[i]) == mark(other.ops@[i]));
            }
            if self.sat(setup, env) {
                assert forall|i: int| 0 <= i < other.ops@.len() implies op_holds(
                    #[trigger] other.ops@[i],
                    setup,
                    env,
                ) by {
                    assert(op_holds(self.ops@[i], setup, env));
                }
            }
        }
        assert forall|t: int| #[trigger] (self.tables())(t) == (other.tables())(t) by {
            lemma_rows_marked(self.ops@, other.ops@, t);
        }
        assert(self.tables() =~= other.tables());
    }

    /// `self` is `base` with one more step.
    spec fn pushes(self, base: Layouter, op: Op) -> bool {
        self.ops@ == base.ops@.push(op) && self.known == base.known
    }

    proof fn lemma_push(self, base: Layouter, op: Op)
        requires
            self.pushes(base, op),
        ensures
            self.trace() == base.trace().push(mark(op)),
            forall|env: Assignment| #[trigger]
                self.agrees(env) <==> base.agrees(env) && op_agrees(op, env),
            forall|setup: Setup, env: Assignment| #[trigger]
                self.sat(setup, env) <==> base.sat(setup, env) && op_holds(op, setup, env),
            forall|region: int, column: Column, row: int| #[trigger]
                self.assigned(region, column, row) <==> base.assigned(region, column, row)
                    || op_assigns(op, region, column, row),
            !(op is TableRow) ==> self.tables() == base.tables(),
            op is TableRow ==> forall|t: int| #[trigger]
                (self.tables())(t) == if op->table.0 == t {
                    (base.tables())(t).push(op->TableRow_value@)
                } else {
                    (base.tables())(t)
                },
    {
        let n = base.ops@.len() as int;
        assert(self.ops@[n] == op);
        assert(forall|i: int| 0 <= i < n ==> self.ops@[i] == base.ops@[i]);
        assert(self.trace() =~= base.trace().push(mark(op)));
        assert forall|env: Assignment| #[trigger] self.agrees(env) implies base.agrees(env)
            && op_agrees(op, env) by {
            assert forall|i: int| 0 <= i < n implies op_agrees(#[trigger] base.ops@[i], env) by {
                assert(op_agrees(self.ops@[i], env));
            }
        }
        assert forall|setup: Setup, env: Assignment| #[trigger] self.sat(setup, env) implies base.sat(
            setup,
            env,
        ) && op_holds(op, setup, env) by {
            assert forall|i: int| 0 <= i < n implies op_holds(
                #[trigger] base.ops@[i],
                setup,
                env,
            ) by {
                assert(op_holds(self.ops@[i], setup, env));
            }
        }
        assert forall|region: int, column: Column, row: int|
            base.assigned(region, column, row) || op_assigns(
                op,
                region,
                column,
                row,
            ) implies #[trigger] self.assigned(region, column, row) by {
            if base.assigned(region, column, row) {
                let i = choose|i: int|
                    0 <= i < n && op_assigns(#[trigger] base.ops@[i], region, column, row);
                assert(op_assigns(self.ops@[i], region, column, row));
            }
        }
        assert(self.ops@.drop_last() =~= base.ops@);
        assert(self.ops@.last() == op);
        if !(op is TableRow) {
            assert forall|t: int| rows_of(self.ops@, t) == rows_of(base.ops@, t) by {}
            assert(self.tables() =~= base.tables());
        }
    }

    proof fn lemma_push_quiet(self, base: Layouter, op: Op)
        requires
            self.pushes(base, op),
            !(op is Advice),
            !(op is Fixed),
        ensures
            base.fresh() ==> self.fresh(),
            base.consistent() ==> self.consistent(),
    {
        self.lemma_push(base, op);
        if base.consistent() {
            let env = choose|env: Assignment| #[trigger] base.agrees(env);
            assert(self.agrees(env));
        }
    }

    proof fn lemma_push_value(self, base: Layouter, op: Op, cell: Cell, value: Fr)
        requires
            self.pushes(base, op),
            op == (Op::Advice { cell, value }) || op == (Op::Fixed { cell, value }),
        ensures
            base.fresh() && cell.region < base.next() ==> self.fresh(),
            base.consistent() && !base.assigned(
                cell.region as int,
                cell.column,
                cell.offset as int,
            ) ==> self.consistent(),
    {
        self.lemma_push(base, op);
        let (r, c, o) = (cell.region as int, cell.column, cell.offset as int);
        if base.consistent() && !base.assigned(r, c, o) {
            let env = choose|env: Assignment| #[trigger] base.agrees(env);
            let env2 = env.set(r, c, o, value@);
            lemma_fr_range(value);
            lemma_set(env, r, c, o, value@);
            assert(base.agrees(env2)) by {
                assert forall|i: int| 0 <= i < base.ops@.len() implies op_agrees(
                    #[trigger] base.ops@[i],
                    env2,
                ) by {
                    assert(op_agrees(base.ops@[i], env));
                    assert(!op_assigns(base.ops@[i], r, c, o));
                }
            }
            assert(self.agrees(env2));
        }
    }

    /// The advice values stay witnesses only if `known`; nothing else changes.
    pub fn restrict(&mut self, known: bool)
        ensures
            final(self).known == (old(self).known && known),
            final(self).ops@ == old(self).ops@,
            final(self).trace() == old(self).trace(),
            final(self).tables() == old(self).tables(),
            final(self).fresh() == old(self).fresh(),
            final(self).consistent() == old(self).consistent(),
            forall|env: Assignment| #[trigger]
                final(self).agrees(env) <==> old(self).agrees(env),
            forall|setup: Setup, env: Assignment| #[trigger]
                final(self).sat(setup, env) <==> old(self).sat(setup, env),
    {
        let ghost base = *self;
        self.known = self.known && known;
        proof {
            self.lemma_same_ops(base);
        }
    }

    proof fn lemma_same_ops(self, other: Layouter)
        requires
            self.ops@ == other.ops@,
        ensures
            self.fresh() == other.fresh(),
            self.consistent() == other.consistent(),
            forall|env: Assignment| #[trigger] self.agrees(env) <==> other.agrees(env),
            forall|setup: Setup, env: Assignment| #[trigger]
                self.sat(setup, env) <==> other.sat(setup, env),
    {
        assert forall|env: Assignment| #[trigger] self.agrees(env) <==> other.agrees(env) by {}
        if other.consistent() {
            let env = choose|env: Assignment| #[trigger] other.agrees(env);
            assert(self.agrees(env));
        }
        assert forall|region: int, column: Column, row: int| #[trigger]
            self.assigned(region, column, row) == other.assigned(region, column, row) by {}
        assert forall|region: int, column: Column, row: int| #[trigger]
            other.assigned(region, column, row) == self.assigned(region, column, row) by {
            assert(self.assigned(region, column, row) == other.assigned(region, column, row));
        }
    }

    pub fn new(known: bool) -> (l: Layouter)
        ensures
            l.next() == 0,
            l.known == known,
            l.trace() == Seq::<Mark>::empty(),
            l.fresh(),
            l.consistent(),
            forall|setup: Setup, env: Assignment| #[trigger] l.sat(setup, env),
            forall|env: Assignment| #[trigger] l.agrees(env),
            forall|t: int| #[trigger] (l.tables())(t) == Seq::<int>::empty(),
    {
        let l = Layouter { ops: Vec::new(), known };
        proof {
            let env = Assignment { values: |r: int, c: Column, o: int| 0int };
            assert(l.agrees(env));
        }
        l
    }

    /// Opens a region.
    pub fn region(&mut self) -> (r: usize)
        ensures
            r == old(self).next(),
            final(self).next() == old(self).next() + 1,
            final(self).known == old(self).known,
            final(self).trace() == old(self).trace().push(Mark::Region),
            final(self).tables() == old(self).tables(),
            forall|env: Assignment| #[trigger] final(self).agrees(env) <==> old(self).agrees(env),
            forall|setup: Setup, env: Assignment| #[trigger]
                final(self).sat(setup, env) <==> old(self).sat(setup, env),
            old(self).fresh() ==> final(self).fresh(),
            old(self).fresh() ==> forall|c: Column, o: int| !#[trigger]
                final(self).assigned(r as int, c, o),
            old(self).consistent() ==> final(self).consistent(),
    {
        let r: usize = self.ops.len();
        self.ops.push(Op::Region);
        proof {
            self.lemma_push(*old(self), Op::Region);
            self.lemma_push_quiet(*old(self), Op::Region);
        }
        r
    }

    /// Switches the rule of `selector` on.
    pub fn enable(&mut self, region: usize, selector: Selector, offset: usize)
        ensures
            final(self).next() == old(self).next() + 1,
            final(self).known == old(self).known,
            final(self).trace() == old(self).trace().push(Mark::Enable { region, selector, offset }),
            final(self).tables() == old(self).tables(),
            forall|env: Assignment| #[trigger] final(self).agrees(env) <==> old(self).agrees(env),
            forall|setup: Setup, env: Assignment| #[trigger]
                final(self).sat(setup, env) <==> old(self).sat(setup, env) && setup.holds(
                    selector,
                    env,
                    region as int,
                    offset as int,
                ),
            forall|r: int, c: Column, o: int| #[trigger]
                final(self).assigned(r, c, o) <==> old(self).assigned(r, c, o),
            old(self).fresh() ==> final(self).fresh(),
            old(self).consistent() ==> final(self).consistent(),
    {
        let op = Op::Enable { region, selector, offset };
        self.ops.push(op);
        proof {
            self.lemma_push(*old(self), op);
            self.lemma_push_quiet(*old(self), op);
        }
    }

    /// Gives an advice cell its value.
    pub fn assign_advice(&mut self, region: usize, column: Column, offset: usize, value: Fr) -> (c:
        AssignedCell)
        ensures
            c == (AssignedCell { cell: Cell { region, column, offset }, value }),
            final(self).next() == old(self).next() + 1,
            final(self).known == old(self).known,
            final(self).trace() == old(self).trace().push(Mark::Advice { cell: Cell { region, column, offset } }),
            final(self).tables() == old(self).tables(),
            forall|env: Assignment| #[trigger]
                final(self).agrees(env) <==> old(self).agrees(env) && env.at(
                    region as int,
                    column,
                    offset as int,
                ) == value@,
            forall|setup: Setup, env: Assignment| #[trigger]
                final(self).sat(setup, env) <==> old(self).sat(setup, env),
            forall|r: int, c: Column, o: int| #[trigger]
                final(self).assigned(r, c, o) <==> old(self).assigned(r, c, o) || (r == region && c
                    == column && o == offset),
            old(self).fresh() && region < old(self).next() ==> final(self).fresh(),
            old(self).consistent() && !old(self).assigned(region as int, column, offset as int)
                ==> final(self).consistent(),
    {
        let cell = Cell { region, column, offset };
        let op = Op::Advice { cell, value };
        self.ops.push(op);
        proof {
            self.lemma_push(*old(self), op);
            self.lemma_push_value(*old(self), op, cell, value);
        }
        AssignedCell { cell, value }
    }

    /// Gives a fixed cell its value, which every assignment then has.
    pub fn assign_fixed(&mut self, region: usize, column: Column, offset: usize, value: Fr)
        ensures
            final(self).next() == old(self).next() + 1,
            final(self).known == old(self).known,
            final(self).trace() == old(self).trace().push(Mark::Fixed { cell: Cell { region, column, offset }, value: value@ }),
            final(self).tables() == old(self).tables(),
            forall|env: Assignment| #[trigger]
                final(self).agrees(env) <==> old(self).agrees(env) && env.at(
                    region as int,
                    column,
                    offset as int,
                ) == value@,
            forall|setup: Setup, env: Assignment| #[trigger]
                final(self).sat(setup, env) <==> old(self).sat(setup, env) && env.at(
                    region as int,
                    column,
                    offset as int,
                ) == value@,
            forall|r: int, c: Column, o: int| #[trigger]
                final(self).assigned(r, c, o) <==> old(self).assigned(r, c, o) || (r == region && c
                    == column && o == offset),
            old(self).fresh() && region < old(self).next() ==> final(self).fresh(),
            old(self).consistent() && !old(self).assigned(region as int, column, offset as int)
                ==> final(self).consistent(),
    {
        let cell = Cell { region, column, offset };
        let op = Op::Fixed { cell, value };
        self.ops.push(op);
        proof {
            self.lemma_push(*old(self), op);
            self.lemma_push_value(*old(self), op, cell, value);
        }
    }

    /// Constrains two cells to be equal.
    pub fn constrain_equal(&mut self, left: Cell, right: Cell)
        ensures
            final(self).next() == old(self).next() + 1,
            final(self).known == old(self).known,
            final(self).trace() == old(self).trace().push(Mark::Equal { left, right }),
            final(self).tables() == old(self).tables(),
            forall|env: Assignment| #[trigger] final(self).agrees(env) <==> old(self).agrees(env),
            forall|setup: Setup, env: Assignment| #[trigger]
                final(self).sat(setup, env) <==> old(self).sat(setup, env) && setup.cs.linked(
                    left.column,
                ) && setup.cs.linked(right.column) && env.cell(left) == env.cell(right),
            forall|r: int, c: Column, o: int| #[trigger]
                final(self).assigned(r, c, o) <==> old(self).assigned(r, c, o),
            old(self).fresh() ==> final(self).fresh(),
            old(self).consistent() ==> final(self).consistent(),
    {
        let op = Op::Equal { left, right };
        self.ops.push(op);
        proof {
            self.lemma_push(*old(self), op);
            self.lemma_push_quiet(*old(self), op);
        }
    }

    /// Constrains a cell to be a constant.
    pub fn constrain_constant(&mut self, cell: Cell, value: Fr)
        ensures
            final(self).next() == old(self).next() + 1,
            final(self).known == old(self).known,
            final(self).trace() == old(self).trace().push(Mark::Constant { cell, value: value@ }),
            final(self).tables() == old(self).tables(),
            forall|env: Assignment| #[trigger] final(self).agrees(env) <==> old(self).agrees(env),
            forall|setup: Setup, env: Assignment| #[trigger]
                final(self).sat(setup, env) <==> old(self).sat(setup, env) && setup.cs.linked(
                    cell.column,
                ) && setup.cs.has_constants() && env.cell(cell) == value@,
            forall|r: int, c: Column, o: int| #[trigger]
                final(self).assigned(r, c, o) <==> old(self).assigned(r, c, o),
            old(self).fresh() ==> final(self).fresh(),
            old(self).consistent() ==> final(self).consistent(),
    {
        let op = Op::Constant { cell, value };
        self.ops.push(op);
        proof {
            self.lemma_push(*old(self), op);
            self.lemma_push_quiet(*old(self), op);
        }
    }

    /// Constrains a cell to be the public value in `row` of an instance column.
    pub fn constrain_instance(&mut self, cell: Cell, column: Column, row: usize)
        ensures
            final(self).next() == old(self).next() + 1,
            final(self).known == old(self).known,
            final(self).trace() == old(self).trace().push(Mark::Instance { cell, column, row }),
            final(self).tables() == old(self).tables(),
            forall|env: Assignment| #[trigger] final(self).agrees(env) <==> old(self).agrees(env),
            forall|setup: Setup, env: Assignment| #[trigger]
                final(self).sat(setup, env) <==> old(self).sat(setup, env) && setup.cs.linked(
                    cell.column,
                ) && setup.cs.linked(column) && env.cell(cell) == env.at(-1, column, row as int),
            forall|r: int, c: Column, o: int| #[trigger]
                final(self).assigned(r, c, o) <==> old(self).assigned(r, c, o),
            old(self).fresh() ==> final(self).fresh(),
            old(self).consistent() ==> final(self).consistent(),
    {
        let op = Op::Instance { cell, column, row };
        self.ops.push(op);
        proof {
            self.lemma_push(*old(self), op);
            self.lemma_push_quiet(*old(self), op);
        }
    }

    /// Opens a lookup table.
    pub fn table(&mut self)
        ensures
            final(self).next() == old(self).next() + 1,
            final(self).known == old(self).known,
            final(self).trace() == old(self).trace().push(Mark::Table),
            final(self).tables() == old(self).tables(),
            forall|env: Assignment| #[trigger] final(self).agrees(env) <==> old(self).agrees(env),
            forall|setup: Setup, env: Assignment| #[trigger]
                final(self).sat(setup, env) <==> old(self).sat(setup, env),
            forall|r: int, c: Column, o: int| #[trigger]
                final(self).assigned(r, c, o) <==> old(self).assigned(r, c, o),
            old(self).fresh() ==> final(self).fresh(),
            old(self).consistent() ==> final(self).consistent(),
    {
        self.ops.push(Op::Table);
        proof {
            self.lemma_push(*old(self), Op::Table);
            self.lemma_push_quiet(*old(self), Op::Table);
        }
    }

    /// Writes the next row of a table column.
    pub fn assign_table_row(&mut self, column: TableColumn, row: usize, value: Fr)
        requires
            row == (old(self).tables())(column.0 as int).len(),
        ensures
            final(self).next() == old(self).next() + 1,
            final(self).known == old(self).known,
            final(self).trace() == old(self).trace().push(Mark::TableRow { table: column, row, value: value@ }),
            forall|t: int| #[trigger]
                (final(self).tables())(t) == if column.0 == t {
                    (old(self).tables())(t).push(value@)
                } else {
                    (old(self).tables())(t)
                },
            forall|env: Assignment| #[trigger] final(self).agrees(env) <==> old(self).agrees(env),
            forall|setup: Setup, env: Assignment| #[trigger]
                final(self).sat(setup, env) <==> old(self).sat(setup, env),
            forall|r: int, c: Column, o: int| #[trigger]
                final(self).assigned(r, c, o) <==> old(self).assigned(r, c, o),
            old(self).fresh() ==> final(self).fresh(),
            old(self).consistent() ==> final(self).consistent(),
    {
        let op = Op::TableRow { table: column, row, value };
        self.ops.push(op);
        proof {
            self.lemma_push(*old(self), op);
            self.lemma_push_quiet(*old(self), op);
        }
    }

    /// Whether a table column has been given a row.
    pub fn is_loaded(&self, column: TableColumn) -> (r: bool)
        ensures
            r == ((self.tables())(column.0 as int).len() > 0),
    {
        let mut i: usize = 0;
        while i < self.ops.len()
            invariant
                i <= self.ops@.len(),
                rows_of(self.ops@.take(i as int), column.0 as int).len() == 0,
            decreases self.ops@.len() - i,
        {
            let ghost upto = self.ops@.take(i as int + 1);
            assert(upto.drop_last() =~= self.ops@.take(i as int));
            match self.ops[i] {
                Op::TableRow { table, .. } => if table.0 == column.0 {
                    proof {
                        lemma_rows_grow(self.ops@, i as int + 1, column.0 as int);
                    }
                    return true;
                },
                _ => {},
            }
            i += 1;
        }
        assert(self.ops@.take(i as int) =~= self.ops@);
        false
    }

    /// A record that is honest is satisfied by some assignment that has its values.
    pub proof fn lemma_honest_satisfiable(self, setup: Setup) -> (env: Assignment)
        requires
            self.honest(setup),
        ensures
            self.agrees(env),
            self.sat(setup, env),
    {
        choose|env: Assignment| #[trigger] self.agrees(env)
    }

    /// An assignment with public values in place of its own. It has the recorded values where
    /// the assignment has them.
    pub proof fn lemma_with_instance(self, env: Assignment, column: Column, values: Seq<int>) -> (r:
        Assignment)
        requires
            self.agrees(env),
            forall|i: int| 0 <= i < values.len() ==> 0 <= #[trigger] values[i] < modulus(),
        ensures
            self.agrees(r),
            instance_is(r, column, values),
        decreases values.len(),
    {
        if values.len() == 0 {
            env
        } else {
            let n = values.len() - 1;
            let rest = values.drop_last();
            assert forall|i: int| 0 <= i < rest.len() implies 0 <= #[trigger] rest[i] < modulus() by {
                assert(rest[i] == values[i]);
            }
            let mid = self.lemma_with_instance(env, column, rest);
            let r = mid.set(-1, column, n, values[n]);
            lemma_set(mid, -1, column, n, values[n]);
            assert forall|i: int| 0 <= i < self.ops@.len() implies op_agrees(
                #[trigger] self.ops@[i],
                r,
            ) by {
                assert(op_agrees(self.ops@[i], mid));
            }
            assert forall|i: int| 0 <= i < values.len() implies #[trigger] r.at(-1, column, i)
                == values[i] by {
                if i < n {
                    assert(mid.at(-1, column, i) == rest[i]);
                }
            }
            r
        }
    }
}

/// An instance column starts with the values.
pub open spec fn instance_is(env: Assignment, column: Column, values: Seq<int>) -> bool {
    forall|i: int| 0 <= i < values.len() ==> #[trigger] env.at(-1, column, i) == values[i]
}

} // verus!
