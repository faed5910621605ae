//! Constraint systems: columns, polynomial expressions, and the rules (gates and lookups)
//! that a selector switches on for a row.
use vstd::prelude::*;

use crate::field::{modulus, Fr};

verus! {

#[derive(Clone, Copy, Debug, PartialEq, Eq, Structural)]
pub enum ColumnKind {
    Advice,
    Fixed,
    Instance,
}

#[derive(Clone, Copy, Debug, PartialEq, Eq, Structural)]
pub struct Column {
    pub kind: ColumnKind,
    pub index: usize,
}

/// A column of a lookup table.
#[derive(Clone, Copy, Debug, PartialEq, Eq, Structural)]
pub struct TableColumn(pub usize);

/// Switches one rule on for a row of a region. A selector is the index of its rule.
#[derive(Clone, Copy, Debug, PartialEq, Eq, Structural)]
pub struct Selector(pub usize);

/// A polynomial over the cells around a row.
#[derive(Debug)]
pub enum Expression {
    Constant(Fr),
    /// The cell of `column` that lies `rotation` rows further.
    Query { column: Column, rotation: i32 },
    Sum(Box<Expression>, Box<Expression>),
    Difference(Box<Expression>, Box<Expression>),
    Product(Box<Expression>, Box<Expression>),
}

/// One column of a lookup: where the lookup is on, `expression` must stand in the table's
/// row; where it is off, `default` does.
#[derive(Debug)]
pub struct LookupInput {
    pub expression: Expression,
    pub default: Fr,
    pub table: TableColumn,
}

#[derive(Debug)]
pub enum Rule {
    /// Every polynomial vanishes.
    Gate(Vec<Expression>),
    /// The inputs together are a row of the table.
    Lookup(Vec<LookupInput>),
}

#[derive(Debug)]
pub struct ConstraintSystem {
    pub advice: usize,
    pub fixed: usize,
    pub instance: usize,
    pub tables: usize,
    pub rules: Vec<Rule>,
    /// The columns whose cells may take part in copy constraints.
    pub equality: Vec<Column>,
    /// The fixed columns that hold constants.
    pub constants: Vec<Column>,
}

/// A value for every cell: `at` gives the least representative of the field element in a cell
/// of a region. Instance cells lie in the region `-1`.
pub struct Assignment {
    pub values: spec_fn(int, Column, int) -> int,
}

impl Assignment {
    pub closed spec fn at(self, region: int, column: Column, row: int) -> int {
        (self.values)(region, column, row) % modulus()
    }

    /// This assignment with one cell set.
    pub closed spec fn set(self, region: int, column: Column, row: int, value: int) -> Assignment {
        Assignment {
            values: |r: int, c: Column, o: int|
                if r == region && c == column && o == row {
                    value
                } else {
                    (self.values)(r, c, o)
                },
        }
    }
}

/// Every cell holds a field element.
pub broadcast proof fn lemma_at_range(env: Assignment, region: int, column: Column, row: int)
    ensures
        0 <= #[trigger] env.at(region, column, row) < modulus(),
{
}

pub proof fn lemma_set(env: Assignment, region: int, column: Column, row: int, value: int)
    requires
        0 <= value < modulus(),
    ensures
        env.set(region, column, row, value).at(region, column, row) == value,
        forall|r: int, c: Column, o: int|
            r != region || c != column || o != row ==> #[trigger] env.set(
                region,
                column,
                row,
                value,
            ).at(r, c, o) == env.at(r, c, o),
{
}

impl Expression {
    /// The integer the expression has at a row; only its residue matters.
    pub open spec fn eval(self, env: Assignment, region: int, row: int) -> int
        decreases self,
    {
        match self {
            Expression::Constant(c) => c@,
            Expression::Query { column, rotation } => env.at(region, column, row + rotation),
            Expression::Sum(a, b) => a.eval(env, region, row) + b.eval(env, region, row),
            Expression::Difference(a, b) => a.eval(env, region, row) - b.eval(env, region, row),
            Expression::Product(a, b) => a.eval(env, region, row) * b.eval(env, region, row),
        }
    }

    pub fn constant(c: Fr) -> (e: Expression)
        ensures
            forall|env: Assignment, r: int, o: int| #[trigger] e.eval(env, r, o) == c@,
    {
        Expression::Constant(c)
    }

    /// The cell of `column` in the row itself.
    pub fn cell(column: Column) -> (e: Expression)
        ensures
            forall|env: Assignment, r: int, o: int| #[trigger]
                e.eval(env, r, o) == env.at(r, column, o),
    {
        Expression::Query { column, rotation: 0 }
    }

    pub fn cell_at(column: Column, rotation: i32) -> (e: Expression)
        ensures
            forall|env: Assignment, r: int, o: int| #[trigger]
                e.eval(env, r, o) == env.at(r, column, o + rotation),
    {
        Expression::Query { column, rotation }
    }

    pub fn plus(self, other: Expression) -> (e: Expression)
        ensures
            forall|env: Assignment, r: int, o: int| #[trigger]
                e.eval(env, r, o) == self.eval(env, r, o) + other.eval(env, r, o),
    {
        Expression::Sum(Box::new(self), Box::new(other))
    }

    pub fn minus(self, other: Expression) -> (e: Expression)
        ensures
            forall|env: Assignment, r: int, o: int| #[trigger]
                e.eval(env, r, o) == self.eval(env, r, o) - other.eval(env, r, o),
    {
        Expression::Difference(Box::new(self), Box::new(other))
    }

    pub fn times(self, other: Expression) -> (e: Expression)
        ensures
            forall|env: Assignment, r: int, o: int| #[trigger]
                e.eval(env, r, o) == self.eval(env, r, o) * other.eval(env, r, o),
    {
        Expression::Product(Box::new(self), Box::new(other))
    }
}

/// A constraint system together with the contents of its lookup tables.
pub struct Setup {
    pub cs: ConstraintSystem,
    pub tables: spec_fn(int) -> Seq<int>,
}

/// Row `k` of the looked-up columns holds the inputs' values.
pub open spec fn is_table_row(
    tables: spec_fn(int) -> Seq<int>,
    inputs: Seq<LookupInput>,
    env: Assignment,
    region: int,
    row: int,
    k: int,
) -> bool {
    forall|j: int|
        0 <= j < inputs.len() ==> {
            let column = tables((#[trigger] inputs[j]).table.0 as int);
            &&& 0 <= k < column.len()
            &&& column[k] == inputs[j].expression.eval(env, region, row) % modulus()
        }
}

/// Row `k` of the looked-up columns holds the inputs' defaults.
pub open spec fn is_default_row(
    tables: spec_fn(int) -> Seq<int>,
    inputs: Seq<LookupInput>,
    k: int,
) -> bool {
    forall|j: int|
        0 <= j < inputs.len() ==> {
            let column = tables((#[trigger] inputs[j]).table.0 as int);
            &&& 0 <= k < column.len()
            &&& column[k] == inputs[j].default@
        }
}

/// Every polynomial is zero in the field.
pub open spec fn vanish(polys: Seq<Expression>, env: Assignment, region: int, row: int) -> bool {
    forall|j: int|
        0 <= j < polys.len() ==> (#[trigger] polys[j]).eval(env, region, row) % modulus() == 0
}

impl Setup {
    /// The rule of `selector` holds at a row.
    pub closed spec fn holds(
        self,
        selector: Selector,
        env: Assignment,
        region: int,
        row: int,
    ) -> bool {
        match self.cs.rules@[selector.0 as int] {
            Rule::Gate(polys) => vanish(polys@, env, region, row),
            Rule::Lookup(inputs) => exists|k: int| #[trigger]
                is_table_row(self.tables, inputs@, env, region, row, k),
        }
    }

    /// The rule of `selector` holds at every row where it is off: a gate asks nothing there,
    /// and the defaults of a lookup are a row of its table.
    pub closed spec fn rests(self, selector: Selector) -> bool {
        match self.cs.rules@[selector.0 as int] {
            Rule::Gate(polys) => true,
            Rule::Lookup(inputs) => exists|k: int| #[trigger]
                is_default_row(self.tables, inputs@, k),
        }
    }

    /// The rules that `top` has and `base` has not hold at every row where they are off.
    pub open spec fn rests_between(self, base: ConstraintSystem, top: ConstraintSystem) -> bool {
        forall|s: Selector|
            base.rules@.len() <= s.0 < top.rules@.len() ==> #[trigger] self.rests(s)
    }

    pub proof fn lemma_rests_between(
        self,
        base: ConstraintSystem,
        mid: ConstraintSystem,
        top: ConstraintSystem,
    )
        requires
            self.rests_between(base, mid),
            self.rests_between(mid, top),
        ensures
            self.rests_between(base, top),
    {
    }
}

impl ConstraintSystem {
    /// Copy constraints may touch the cells of `column`.
    pub closed spec fn linked(self, column: Column) -> bool {
        self.equality@.contains(column)
    }

    /// A column for constants exists.
    pub open spec fn has_constants(self) -> bool {
        self.constants@.len() > 0
    }

    /// Everything that `base` has stands here too, under the same indices.
    pub closed spec fn extends(self, base: ConstraintSystem) -> bool {
        &&& base.rules@.is_prefix_of(self.rules@)
        &&& forall|c: Column| base.linked(c) ==> #[trigger] self.linked(c)
        &&& base.advice <= self.advice
        &&& base.fixed <= self.fixed
        &&& base.instance <= self.instance
        &&& base.tables <= self.tables
        &&& base.constants@.len() <= self.constants@.len()
    }

    /// The column counts and the columns for constants are those of `base`.
    pub open spec fn same_columns(self, base: ConstraintSystem) -> bool {
        &&& self.advice == base.advice
        &&& self.fixed == base.fixed
        &&& self.instance == base.instance
        &&& self.tables == base.tables
        &&& self.constants@ == base.constants@
    }

    pub proof fn lemma_extends_refl(self)
        ensures
            self.extends(self),
    {
    }

    pub proof fn lemma_extends_trans(self, mid: ConstraintSystem, base: ConstraintSystem)
        requires
            self.extends(mid),
            mid.extends(base),
        ensures
            self.extends(base),
    {
        assert forall|i: int| 0 <= i < base.rules@.len() implies base.rules@[i]
            == self.rules@[i] by {
            assert(base.rules@[i] == mid.rules@[i]);
            assert(mid.rules@[i] == self.rules@[i]);
        }
    }

    /// What a later system still has.
    pub proof fn lemma_extends_keeps(self, base: ConstraintSystem)
        requires
            self.extends(base),
        ensures
            forall|c: Column| base.linked(c) ==> #[trigger] self.linked(c),
            base.has_constants() ==> self.has_constants(),
            base.rules@.len() <= self.rules@.len(),
    {
    }

    pub fn new() -> (cs: ConstraintSystem)
        ensures
            cs.advice == 0,
            cs.fixed == 0,
            cs.instance == 0,
            cs.tables == 0,
            cs.rules@.len() == 0,
            cs.equality@.len() == 0,
            cs.constants@.len() == 0,
    {
        ConstraintSystem {
            advice: 0,
            fixed: 0,
            instance: 0,
            tables: 0,
            rules: Vec::new(),
            equality: Vec::new(),
            constants: Vec::new(),
        }
    }

    pub fn advice_column(&mut self) -> (c: Column)
        requires
            old(self).advice < usize::MAX,
        ensures
            c == (Column { kind: ColumnKind::Advice, index: old(self).advice }),
            *final(self) == (ConstraintSystem { advice: (old(self).advice + 1) as usize, ..*old(self) }),
            final(self).extends(*old(self)),
    {
        let index: usize = self.advice;
        self.advice = index + 1;
        Column { kind: ColumnKind::Advice, index }
    }

    pub fn fixed_column(&mut self) -> (c: Column)
        requires
            old(self).fixed < usize::MAX,
        ensures
            c == (Column { kind: ColumnKind::Fixed, index: old(self).fixed }),
            *final(self) == (ConstraintSystem { fixed: (old(self).fixed + 1) as usize, ..*old(self) }),
            final(self).extends(*old(self)),
    {
        let index: usize = self.fixed;
        self.fixed = index + 1;
        Column { kind: ColumnKind::Fixed, index }
    }

    pub fn instance_column(&mut self) -> (c: Column)
        requires
            old(self).instance < usize::MAX,
        ensures
            c == (Column { kind: ColumnKind::Instance, index: old(self).instance }),
            *final(self) == (ConstraintSystem {
                instance: (old(self).instance + 1) as usize,
                ..*old(self)
            }),
            final(self).extends(*old(self)),
    {
        let index: usize = self.instance;
        self.instance = index + 1;
        Column { kind: ColumnKind::Instance, index }
    }

    pub fn lookup_table_column(&mut self) -> (t: TableColumn)
        requires
            old(self).tables < usize::MAX,
        ensures
            t == TableColumn(old(self).tables),
            *final(self) == (ConstraintSystem { tables: (old(self).tables + 1) as usize, ..*old(self) }),
            final(self).extends(*old(self)),
    {
        let index: usize = self.tables;
        self.tables = index + 1;
        TableColumn(index)
    }

    pub fn enable_equality(&mut self, column: Column)
        ensures
            final(self).linked(column),
            final(self).same_columns(*old(self)),
            final(self).rules@ == old(self).rules@,
            final(self).extends(*old(self)),
    {
        self.equality.push(column);
        assert(self.equality@[self.equality@.len() - 1] == column);
        assert forall|c: Column| old(self).linked(c) implies #[trigger] self.linked(c) by {
            let i = old(self).equality@.index_of(c);
            assert(self.equality@[i] == c);
        }
    }

    /// Lets `column` hold constants; its cells then take part in copy constraints.
    pub fn enable_constant(&mut self, column: Column)
        ensures
            final(self).has_constants(),
            final(self).linked(column),
            final(self).advice == old(self).advice,
            final(self).fixed == old(self).fixed,
            final(self).instance == old(self).instance,
            final(self).tables == old(self).tables,
            final(self).constants@ == old(self).constants@.push(column),
            final(self).rules@ == old(self).rules@,
            final(self).extends(*old(self)),
    {
        self.enable_equality(column);
        let ghost mid = *self;
        self.constants.push(column);
        assert(self.extends(mid));
        proof {
            self.lemma_extends_trans(mid, *old(self));
        }
    }

    fn push_rule(&mut self, rule: Rule) -> (s: Selector)
        ensures
            s.0 == old(self).rules@.len(),
            final(self).same_columns(*old(self)),
            final(self).rules@ == old(self).rules@.push(rule),
            final(self).extends(*old(self)),
            forall|setup: Setup| #[trigger]
                setup.cs.extends(*final(self)) ==> setup.cs.rules@[s.0 as int] == rule,
    {
        let s: Selector = Selector(self.rules.len());
        self.rules.push(rule);
        assert forall|setup: Setup| #[trigger] setup.cs.extends(*self) implies setup.cs.rules@[s.0 as int]
            == rule by {
            assert(self.rules@[s.0 as int] == rule);
        }
        s
    }

    /// A gate of one polynomial, and the selector that switches it on.
    pub fn gate(&mut self, poly: Expression) -> (s: Selector)
        ensures
            s.0 == old(self).rules@.len(),
            final(self).same_columns(*old(self)),
            final(self).rules@.len() == old(self).rules@.len() + 1,
            final(self).extends(*old(self)),
            forall|setup: Setup|
                setup.cs.extends(*final(self)) ==> #[trigger] setup.rests(s),
            forall|setup: Setup, env: Assignment, r: int, o: int|
                setup.cs.extends(*final(self)) ==> (#[trigger] setup.holds(s, env, r, o)
                    <==> poly.eval(env, r, o) % modulus() == 0),
    {
        let mut polys: Vec<Expression> = Vec::new();
        polys.push(poly);
        let s: Selector = self.push_rule(Rule::Gate(polys));
        assert forall|setup: Setup, env: Assignment, r: int, o: int|
            setup.cs.extends(*self) implies (#[trigger] setup.holds(s, env, r, o) <==> poly.eval(
            env,
            r,
            o,
        ) % modulus() == 0) by {
            assert(setup.cs.rules@[s.0 as int] == Rule::Gate(polys));
            assert(polys@.len() == 1 && polys@[0] == poly);
            if setup.holds(s, env, r, o) {
                assert(polys@[0].eval(env, r, o) % modulus() == 0);
            }
            if poly.eval(env, r, o) % modulus() == 0 {
                assert forall|j: int| 0 <= j < polys@.len() implies (#[trigger] polys@[j]).eval(
                    env,
                    r,
                    o,
                ) % modulus() == 0 by {
                    assert(j == 0);
                }
            }
        }
        s
    }

    /// A gate of two polynomials, and the selector that switches it on.
    pub fn gate_pair(&mut self, first: Expression, second: Expression) -> (s: Selector)
        ensures
            s.0 == old(self).rules@.len(),
            final(self).same_columns(*old(self)),
            final(self).rules@.len() == old(self).rules@.len() + 1,
            final(self).extends(*old(self)),
            forall|setup: Setup|
                setup.cs.extends(*final(self)) ==> #[trigger] setup.rests(s),
            forall|setup: Setup, env: Assignment, r: int, o: int|
                setup.cs.extends(*final(self)) ==> (#[trigger] setup.holds(s, env, r, o)
                    <==> first.eval(env, r, o) % modulus() == 0 && second.eval(env, r, o)
                    % modulus() == 0),
    {
        let mut polys: Vec<Expression> = Vec::new();
        polys.push(first);
        polys.push(second);
        let s: Selector = self.push_rule(Rule::Gate(polys));
        assert forall|setup: Setup, env: Assignment, r: int, o: int|
            setup.cs.extends(*self) implies (#[trigger] setup.holds(s, env, r, o) <==> first.eval(
            env,
            r,
            o,
        ) % modulus() == 0 && second.eval(env, r, o) % modulus() == 0) by {
            assert(setup.cs.rules@[s.0 as int] == Rule::Gate(polys));
            assert(polys@.len() == 2 && polys@[0] == first && polys@[1] == second);
            if setup.holds(s, env, r, o) {
                assert(polys@[0].eval(env, r, o) % modulus() == 0);
                assert(polys@[1].eval(env, r, o) % modulus() == 0);
            }
            if first.eval(env, r, o) % modulus() == 0 && second.eval(env, r, o) % modulus() == 0 {
                assert forall|j: int| 0 <= j < polys@.len() implies (#[trigger] polys@[j]).eval(
                    env,
                    r,
                    o,
                ) % modulus() == 0 by {
                    assert(j == 0 || j == 1);
                }
            }
        }
        s
    }

    /// A gate of three polynomials, and the selector that switches it on.
    pub fn gate_triple(&mut self, first: Expression, second: Expression, third: Expression) -> (s:
        Selector)
        ensures
            s.0 == old(self).rules@.len(),
            final(self).same_columns(*old(self)),
            final(self).rules@.len() == old(self).rules@.len() + 1,
            final(self).extends(*old(self)),
            forall|setup: Setup|
                setup.cs.extends(*final(self)) ==> #[trigger] setup.rests(s),
            forall|setup: Setup, env: Assignment, r: int, o: int|
                setup.cs.extends(*final(self)) ==> (#[trigger] setup.holds(s, env, r, o)
                    <==> first.eval(env, r, o) % modulus() == 0 && second.eval(env, r, o)
                    % modulus() == 0 && third.eval(env, r, o) % modulus() == 0),
    {
        let mut polys: Vec<Expression> = Vec::new();
        polys.push(first);
        polys.push(second);
        polys.push(third);
        let s: Selector = self.push_rule(Rule::Gate(polys));
        assert forall|setup: Setup, env: Assignment, r: int, o: int|
            setup.cs.extends(*self) implies (#[trigger] setup.holds(s, env, r, o) <==> first.eval(
            env,
            r,
            o,
        ) % modulus() == 0 && second.eval(env, r, o) % modulus() == 0 && third.eval(env, r, o)
            % modulus() == 0) by {
            assert(setup.cs.rules@[s.0 as int] == Rule::Gate(polys));
            assert(polys@.len() == 3 && polys@[0] == first && polys@[1] == second && polys@[2]
                == third);
            if setup.holds(s, env, r, o) {
                assert(polys@[0].eval(env, r, o) % modulus() == 0);
                assert(polys@[1].eval(env, r, o) % modulus() == 0);
                assert(polys@[2].eval(env, r, o) % modulus() == 0);
            }
            if first.eval(env, r, o) % modulus() == 0 && second.eval(env, r, o) % modulus() == 0
                && third.eval(env, r, o) % modulus() == 0 {
                assert forall|j: int| 0 <= j < polys@.len() implies (#[trigger] polys@[j]).eval(
                    env,
                    r,
                    o,
                ) % modulus() == 0 by {
                    assert(j == 0 || j == 1 || j == 2);
                }
            }
        }
        s
    }

    /// A lookup of one expression, and the selector that switches it on.
    pub fn lookup(&mut self, expression: Expression, default: Fr, table: TableColumn) -> (s: Selector)
        ensures
            s.0 == old(self).rules@.len(),
            final(self).same_columns(*old(self)),
            final(self).rules@.len() == old(self).rules@.len() + 1,
            final(self).extends(*old(self)),
            forall|setup: Setup|
                setup.cs.extends(*final(self)) ==> (#[trigger] setup.rests(s) <==> (setup.tables)(
                    table.0 as int,
                ).contains(default@)),
            forall|setup: Setup, env: Assignment, r: int, o: int|
                setup.cs.extends(*final(self)) ==> (#[trigger] setup.holds(s, env, r, o)
                    <==> (setup.tables)(table.0 as int).contains(
                    expression.eval(env, r, o) % modulus(),
                )),
    {
        let mut inputs: Vec<LookupInput> = Vec::new();
        inputs.push(LookupInput { expression, default, table });
        let ghost input = inputs@[0];
        let s: Selector = self.push_rule(Rule::Lookup(inputs));
        assert(inputs@.len() == 1 && inputs@[0] == input);
        assert forall|setup: Setup| setup.cs.extends(*self) implies (#[trigger] setup.rests(s)
            <==> (setup.tables)(table.0 as int).contains(default@)) by {
            let column = (setup.tables)(table.0 as int);
            if setup.rests(s) {
                let k = choose|k: int| #[trigger] is_default_row(setup.tables, inputs@, k);
                assert(inputs@[0].table == table);
                assert(column[k] == default@);
            }
            if column.contains(default@) {
                let k = column.index_of(default@);
                assert(is_default_row(setup.tables, inputs@, k));
            }
        }
        assert forall|setup: Setup, env: Assignment, r: int, o: int|
            setup.cs.extends(*self) implies (#[trigger] setup.holds(s, env, r, o)
            <==> (setup.tables)(table.0 as int).contains(expression.eval(env, r, o) % modulus())) by {
            let column = (setup.tables)(table.0 as int);
            let v = expression.eval(env, r, o) % modulus();
            if setup.holds(s, env, r, o) {
                let k = choose|k: int| #[trigger]
                    is_table_row(setup.tables, inputs@, env, r, o, k);
                assert(inputs@[0].table == table);
                assert(column[k] == v);
            }
            if column.contains(v) {
                let k = column.index_of(v);
                assert(is_table_row(setup.tables, inputs@, env, r, o, k));
            }
        }
        s
    }

    /// A lookup of two expressions in one row of two table columns, and the selector that
    /// switches it on.
    pub fn lookup_pair(
        &mut self,
        first: Expression,
        first_default: Fr,
        first_table: TableColumn,
        second: Expression,
        second_default: Fr,
        second_table: TableColumn,
    ) -> (s: Selector)
        ensures
            s.0 == old(self).rules@.len(),
            final(self).same_columns(*old(self)),
            final(self).rules@.len() == old(self).rules@.len() + 1,
            final(self).extends(*old(self)),
            forall|setup: Setup|
                setup.cs.extends(*final(self)) ==> (#[trigger] setup.rests(s) <==> has_pair(
                    (setup.tables)(first_table.0 as int),
                    (setup.tables)(second_table.0 as int),
                    first_default@,
                    second_default@,
                )),
            forall|setup: Setup, env: Assignment, r: int, o: int|
                setup.cs.extends(*final(self)) ==> (#[trigger] setup.holds(s, env, r, o)
                    <==> has_pair(
                    (setup.tables)(first_table.0 as int),
                    (setup.tables)(second_table.0 as int),
                    first.eval(env, r, o) % modulus(),
                    second.eval(env, r, o) % modulus(),
                )),
    {
        let mut inputs: Vec<LookupInput> = Vec::new();
        inputs.push(LookupInput { expression: first, default: first_default, table: first_table });
        inputs.push(
            LookupInput { expression: second, default: second_default, table: second_table },
        );
        let ghost in0 = inputs@[0];
        let ghost in1 = inputs@[1];
        let s: Selector = self.push_rule(Rule::Lookup(inputs));
        assert(inputs@.len() == 2 && inputs@[0] == in0 && inputs@[1] == in1);
        assert forall|setup: Setup| setup.cs.extends(*self) implies (#[trigger] setup.rests(s)
            <==> has_pair(
            (setup.tables)(first_table.0 as int),
            (setup.tables)(second_table.0 as int),
            first_default@,
            second_default@,
        )) by {
            let xs = (setup.tables)(first_table.0 as int);
            let ys = (setup.tables)(second_table.0 as int);
            let (x, y) = (first_default@, second_default@);
            if setup.rests(s) {
                let k = choose|k: int| #[trigger] is_default_row(setup.tables, inputs@, k);
                assert(inputs@[0].table == first_table && inputs@[1].table == second_table);
                assert(xs[k] == x && ys[k] == y);
            }
            if has_pair(xs, ys, x, y) {
                let k = choose|k: int|
                    0 <= k < xs.len() && k < ys.len() && #[trigger] xs[k] == x && ys[k] == y;
                assert(is_default_row(setup.tables, inputs@, k));
            }
        }
        assert forall|setup: Setup, env: Assignment, r: int, o: int|
            setup.cs.extends(*self) implies (#[trigger] setup.holds(s, env, r, o) <==> has_pair(
            (setup.tables)(first_table.0 as int),
            (setup.tables)(second_table.0 as int),
            first.eval(env, r, o) % modulus(),
            second.eval(env, r, o) % modulus(),
        )) by {
            let xs = (setup.tables)(first_table.0 as int);
            let ys = (setup.tables)(second_table.0 as int);
            let x = first.eval(env, r, o) % modulus();
            let y = second.eval(env, r, o) % modulus();
            if setup.holds(s, env, r, o) {
                let k = choose|k: int| #[trigger]
                    is_table_row(setup.tables, inputs@, env, r, o, k);
                assert(inputs@[0].table == first_table && inputs@[1].table == second_table);
                assert(xs[k] == x && ys[k] == y);
            }
            if has_pair(xs, ys, x, y) {
                let k = choose|k: int|
                    0 <= k < xs.len() && k < ys.len() && #[trigger] xs[k] == x && ys[k] == y;
                assert(is_table_row(setup.tables, inputs@, env, r, o, k));
            }
        }
        s
    }
}

/// Some row of two table columns holds the pair.
pub open spec fn has_pair(xs: Seq<int>, ys: Seq<int>, x: int, y: int) -> bool {
    exists|k: int| 0 <= k < xs.len() && k < ys.len() && #[trigger] xs[k] == x && ys[k] == y
}

/// What extends a system extends everything that this one extends.
pub broadcast proof fn lemma_extends_through(
    top: ConstraintSystem,
    mid: ConstraintSystem,
    base: ConstraintSystem,
)
    requires
        #[trigger] top.extends(mid),
        #[trigger] mid.extends(base),
    ensures
        top.extends(base),
{
    top.lemma_extends_trans(mid, base);
}

/// A later system keeps the columns of copy constraints.
pub broadcast proof fn lemma_extends_linked(
    top: ConstraintSystem,
    base: ConstraintSystem,
    column: Column,
)
    requires
        #[trigger] top.extends(base),
        #[trigger] base.linked(column),
    ensures
        top.linked(column),
{
}

pub broadcast group group_extends {
    lemma_extends_through,
    lemma_extends_linked,
}

} // verus!
