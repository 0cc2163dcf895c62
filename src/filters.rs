use crate::database::{find_column, find_nuc_column, Column, Database, lemma_find_column_in, lemma_find_nuc_column_in};
use crate::nuc_code::NucCode;
use vstd::prelude::*;

verus! {

/// Why a filter could not be evaluated.
#[derive(Clone, Copy, Debug, PartialEq, Eq, Structural)]
pub enum EvalError {
    /// The filter names a metadata column that the database lacks.
    MissingColumn,
    /// The filter compares a column with a value of another type.
    WrongColumnType,
    /// The filter names a genome position whose symbol column was not loaded.
    MissingNucColumn,
}

/// True where every child is true; true everywhere without children.
pub struct And {
    pub children: Vec<Filter>,
}

/// True where some child is true; false everywhere without children.
pub struct Or {
    pub children: Vec<Filter>,
}

/// True where the child is false.
pub struct Neg {
    pub child: Box<Filter>,
}

/// True where the string column holds exactly `value`; false where it is null.
pub struct StrEq {
    pub column: String,
    pub value: String,
}

/// True where the integer column holds a value within the bounds, both
/// inclusive and each optional; false where it is null.
pub struct IntBetw {
    pub column: String,
    pub from: Option<i32>,
    pub to: Option<i32>,
}

/// An [`IntBetw`] over a date column, with the bounds in days since 1970-01-01.
pub struct DateBetw {
    pub int_betw: IntBetw,
}

/// True where the sequence has the symbol `value` at the genome position `position`.
pub struct NucEq {
    pub position: u32,
    pub value: NucCode,
}

/// True where `n` of the children are true (`exactly`) or at least `n` are.
pub struct NOf {
    pub n: u32,
    pub exactly: bool,
    pub children: Vec<Filter>,
}

/// A filter over the sequences of a database.
pub enum Filter {
    And(And),
    Or(Or),
    Neg(Neg),
    StrEq(StrEq),
    IntBetw(IntBetw),
    DateBetw(DateBetw),
    NucEq(NucEq),
    NOf(NOf),
}

/// `n` copies of `b`.
pub open spec fn constant_mask(n: nat, b: bool) -> Seq<bool> {
    Seq::new(n, |i: int| b)
}

/// How many of the masks are true at row `i`.
pub open spec fn count_true(ms: Seq<Seq<bool>>, i: int) -> nat
    decreases ms.len(),
{
    if ms.len() == 0 {
        0
    } else {
        count_true(ms.drop_last(), i) + if ms.last()[i] { 1nat } else { 0nat }
    }
}

/// Whether an integer cell lies within optional inclusive bounds; null never does.
pub open spec fn int_within(x: Option<i32>, from: Option<i32>, to: Option<i32>) -> bool {
    match x {
        None => false,
        Some(v) => (from matches Some(f) ==> v >= f) && (to matches Some(t) ==> v <= t),
    }
}

pub open spec fn eval_str_eq(column: Seq<char>, value: Seq<char>, db: Database) -> Result<Seq<bool>, EvalError> {
    match find_column(db.metadata@, column) {
        None => Err(EvalError::MissingColumn),
        Some(Column::Int(_)) => Err(EvalError::WrongColumnType),
        Some(Column::Str(data)) => Ok(Seq::new(data@.len(), |i: int| data@[i] matches Some(s) && s@ == value)),
    }
}

pub open spec fn eval_int_betw(column: Seq<char>, from: Option<i32>, to: Option<i32>, db: Database) -> Result<Seq<bool>, EvalError> {
    match find_column(db.metadata@, column) {
        None => Err(EvalError::MissingColumn),
        Some(Column::Str(_)) => Err(EvalError::WrongColumnType),
        Some(Column::Int(data)) => Ok(Seq::new(data@.len(), |i: int| int_within(data@[i], from, to))),
    }
}

pub open spec fn eval_nuc_eq(position: u32, value: NucCode, db: Database) -> Result<Seq<bool>, EvalError> {
    match find_nuc_column(db.nuc_columns@, position) {
        None => Err(EvalError::MissingNucColumn),
        Some(data) => Ok(Seq::new(data.len(), |i: int| data[i] == value)),
    }
}

/// What a filter evaluates to: one boolean per sequence, or the first error
/// met when the children are evaluated in order.
pub open spec fn eval(f: Filter, db: Database) -> Result<Seq<bool>, EvalError>
    decreases f,
{
    let n = db.number_entries as nat;
    match f {
        Filter::And(a) => if a.children@.len() == 0 {
            Ok(constant_mask(n, true))
        } else {
            match eval_all(a.children@, db) {
                Err(e) => Err(e),
                Ok(ms) => Ok(Seq::new(n, |i: int| forall|j: int| 0 <= j < ms.len() ==> #[trigger] ms[j][i])),
            }
        },
        Filter::Or(o) => if o.children@.len() == 0 {
            Ok(constant_mask(n, false))
        } else {
            match eval_all(o.children@, db) {
                Err(e) => Err(e),
                Ok(ms) => Ok(Seq::new(n, |i: int| exists|j: int| 0 <= j < ms.len() && #[trigger] ms[j][i])),
            }
        },
        Filter::Neg(g) => match eval(*g.child, db) {
            Err(e) => Err(e),
            Ok(m) => Ok(m.map_values(|b: bool| !b)),
        },
        Filter::StrEq(s) => eval_str_eq(s.column@, s.value@, db),
        Filter::IntBetw(b) => eval_int_betw(b.column@, b.from, b.to, db),
        Filter::DateBetw(d) => eval_int_betw(d.int_betw.column@, d.int_betw.from, d.int_betw.to, db),
        Filter::NucEq(e) => eval_nuc_eq(e.position, e.value, db),
        Filter::NOf(o) => if o.n > o.children@.len() {
            Ok(constant_mask(n, false))
        } else if o.n == 0 {
            Ok(constant_mask(n, true))
        } else {
            match eval_all(o.children@, db) {
                Err(e) => Err(e),
                Ok(ms) => Ok(Seq::new(n, |i: int| if o.exactly { count_true(ms, i) == o.n } else { count_true(ms, i) >= o.n })),
            }
        },
    }
}

/// The masks of a list of filters, or the first error among them.
pub open spec fn eval_all(cs: Seq<Filter>, db: Database) -> Result<Seq<Seq<bool>>, EvalError>
    decreases cs,
{
    if cs.len() == 0 {
        Ok(Seq::empty())
    } else {
        match eval_all(cs.drop_last(), db) {
            Err(e) => Err(e),
            Ok(ms) => match eval(cs.last(), db) {
                Err(e) => Err(e),
                Ok(m) => Ok(ms.push(m)),
            },
        }
    }
}

/// The contents of each mask.
pub open spec fn mask_views(v: Seq<Vec<bool>>) -> Seq<Seq<bool>> {
    v.map_values(|m: Vec<bool>| m@)
}

/// Whether `r` is the outcome that `spec` describes.
pub open spec fn agrees(r: Result<Vec<bool>, EvalError>, spec: Result<Seq<bool>, EvalError>) -> bool {
    match r {
        Ok(v) => spec == Ok::<Seq<bool>, EvalError>(v@),
        Err(e) => spec == Err::<Seq<bool>, EvalError>(e),
    }
}

/// Evaluates the filters in order and stops at the first error.
fn evaluate_all(cs: &Vec<Filter>, database: &Database) -> (r: Result<Vec<Vec<bool>>, EvalError>)
    requires
        database.wf(),
    ensures
        match r {
            Ok(v) => eval_all(cs@, *database) == Ok::<Seq<Seq<bool>>, EvalError>(mask_views(v@))
                && v@.len() == cs@.len()
                && forall|j: int| 0 <= j < v@.len() ==> (#[trigger] v@[j])@.len() == database.number_entries,
            Err(e) => eval_all(cs@, *database) == Err::<Seq<Seq<bool>>, EvalError>(e),
        },
    decreases cs,
{
    let mut masks: Vec<Vec<bool>> = Vec::new();
    let mut i: usize = 0;
    proof {
        assert(cs@.subrange(0, 0) =~= Seq::<Filter>::empty());
        assert(mask_views(masks@) =~= Seq::<Seq<bool>>::empty());
    }
    while i < cs.len()
        invariant
            database.wf(),
            i <= cs@.len(),
            masks@.len() == i,
            eval_all(cs@.subrange(0, i as int), *database) == Ok::<Seq<Seq<bool>>, EvalError>(mask_views(masks@)),
            forall|j: int| 0 <= j < masks@.len() ==> (#[trigger] masks@[j])@.len() == database.number_entries,
        decreases cs@.len() - i,
    {
        let ghost pre = cs@.subrange(0, i as int);
        let ghost post = cs@.subrange(0, i + 1);
        proof {
            assert(post.drop_last() == pre);
            assert(post.last() == cs@[i as int]);
            assert(decreases_to!(cs => cs@));
            assert(decreases_to!(cs@ => cs@[i as int]));
        }
        match cs[i].evaluate(database) {
            Ok(m) => {
                let ghost before = masks@;
                masks.push(m);
                proof {
                    assert(mask_views(masks@) =~= mask_views(before).push(m@));
                }
            },
            Err(e) => {
                proof {
                    lemma_eval_all_prefix_err(cs@, *database, i as int + 1);
                }
                return Err(e);
            },
        }
        i = i + 1;
    }
    proof {
        assert(cs@.subrange(0, i as int) == cs@);
    }
    Ok(masks)
}

/// An error in a prefix of the filters is the error of the whole list.
proof fn lemma_eval_all_prefix_err(cs: Seq<Filter>, db: Database, n: int)
    requires
        0 <= n <= cs.len(),
        eval_all(cs.subrange(0, n), db) is Err,
    ensures
        eval_all(cs, db) == eval_all(cs.subrange(0, n), db),
    decreases cs.len(),
{
    if n < cs.len() {
        assert(cs.drop_last().subrange(0, n) == cs.subrange(0, n));
        lemma_eval_all_prefix_err(cs.drop_last(), db, n);
    } else {
        assert(cs.subrange(0, n) == cs);
    }
}

fn constant(n: usize, b: bool) -> (r: Vec<bool>)
    ensures
        r@ == constant_mask(n as nat, b),
{
    let mut v: Vec<bool> = Vec::with_capacity(n);
    while v.len() < n
        invariant
            v@.len() <= n,
            forall|i: int| 0 <= i < v@.len() ==> v@[i] == b,
        decreases n - v@.len(),
    {
        v.push(b);
    }
    proof {
        assert(v@ =~= constant_mask(n as nat, b));
    }
    v
}

impl And {
    pub fn evaluate(&self, database: &Database) -> (r: Result<Vec<bool>, EvalError>)
        requires
            database.wf(),
        ensures
            agrees(r, eval(Filter::And(*self), *database)),
        decreases self,
    {
        let n = database.number_entries;
        if self.children.len() == 0 {
            return Ok(constant(n, true));
        }
        let masks = match evaluate_all(&self.children, database) {
            Ok(m) => m,
            Err(e) => return Err(e),
        };
        let ghost ms = mask_views(masks@);
        let mut result: Vec<bool> = Vec::with_capacity(n);
        let mut i: usize = 0;
        while i < n
            invariant
                n == database.number_entries,
                ms == mask_views(masks@),
                forall|j: int| 0 <= j < masks@.len() ==> (#[trigger] masks@[j])@.len() == n,
                i <= n,
                result@ == Seq::new(i as nat, |k: int| forall|j: int| 0 <= j < ms.len() ==> #[trigger] ms[j][k]),
            decreases n - i,
        {
            let mut b = true;
            let mut j: usize = 0;
            while j < masks.len()
                invariant
                    i < n,
                    ms == mask_views(masks@),
                    forall|j: int| 0 <= j < masks@.len() ==> (#[trigger] masks@[j])@.len() == n,
                    j <= masks@.len(),
                    b == forall|k: int| 0 <= k < j ==> #[trigger] ms[k][i as int],
                decreases masks@.len() - j,
            {
                proof {
                    assert(ms[j as int] == masks@[j as int]@);
                }
                if !masks[j][i] {
                    b = false;
                }
                j = j + 1;
            }
            result.push(b);
            proof {
                assert(result@ =~= Seq::new((i + 1) as nat, |k: int| forall|j: int| 0 <= j < ms.len() ==> #[trigger] ms[j][k]));
            }
            i = i + 1;
        }
        Ok(result)
    }
}

impl Or {
    pub fn evaluate(&self, database: &Database) -> (r: Result<Vec<bool>, EvalError>)
        requires
            database.wf(),
        ensures
            agrees(r, eval(Filter::Or(*self), *database)),
        decreases self,
    {
        let n = database.number_entries;
        if self.children.len() == 0 {
            return Ok(constant(n, false));
        }
        let masks = match evaluate_all(&self.children, database) {
            Ok(m) => m,
            Err(e) => return Err(e),
        };
        let ghost ms = mask_views(masks@);
        let mut result: Vec<bool> = Vec::with_capacity(n);
        let mut i: usize = 0;
        while i < n
            invariant
                n == database.number_entries,
                ms == mask_views(masks@),
                forall|j: int| 0 <= j < masks@.len() ==> (#[trigger] masks@[j])@.len() == n,
                i <= n,
                result@ == Seq::new(i as nat, |k: int| exists|j: int| 0 <= j < ms.len() && #[trigger] ms[j][k]),
            decreases n - i,
        {
            let mut b = false;
            let mut j: usize = 0;
            while j < masks.len()
                invariant
                    i < n,
                    ms == mask_views(masks@),
                    forall|j: int| 0 <= j < masks@.len() ==> (#[trigger] masks@[j])@.len() == n,
                    j <= masks@.len(),
                    b == exists|k: int| 0 <= k < j && #[trigger] ms[k][i as int],
                decreases masks@.len() - j,
            {
                proof {
                    assert(ms[j as int] == masks@[j as int]@);
                }
                if masks[j][i] {
                    b = true;
                }
                j = j + 1;
            }
            result.push(b);
            proof {
                assert(result@ =~= Seq::new((i + 1) as nat, |k: int| exists|j: int| 0 <= j < ms.len() && #[trigger] ms[j][k]));
            }
            i = i + 1;
        }
        Ok(result)
    }
}

impl Neg {
    pub fn evaluate(&self, database: &Database) -> (r: Result<Vec<bool>, EvalError>)
        requires
            database.wf(),
        ensures
            agrees(r, eval(Filter::Neg(*self), *database)),
        decreases self,
    {
        let m = match self.child.evaluate(database) {
            Ok(m) => m,
            Err(e) => return Err(e),
        };
        let mut result: Vec<bool> = Vec::with_capacity(m.len());
        let mut i: usize = 0;
        while i < m.len()
            invariant
                i <= m@.len(),
                result@ == m@.subrange(0, i as int).map_values(|b: bool| !b),
            decreases m@.len() - i,
        {
            result.push(!m[i]);
            proof {
                assert(m@.subrange(0, i + 1).map_values(|b: bool| !b) =~= m@.subrange(0, i as int).map_values(|b: bool| !b).push(!m@[i as int]));
            }
            i = i + 1;
        }
        proof {
            assert(m@.subrange(0, i as int) == m@);
        }
        Ok(result)
    }
}

impl StrEq {
    pub fn evaluate(&self, database: &Database) -> (r: Result<Vec<bool>, EvalError>)
        ensures
            agrees(r, eval(Filter::StrEq(*self), *database)),
    {
        match database.column(&self.column) {
            None => Err(EvalError::MissingColumn),
            Some(Column::Int(_)) => Err(EvalError::WrongColumnType),
            Some(Column::Str(data)) => {
                let mut result: Vec<bool> = Vec::with_capacity(data.len());
                let mut i: usize = 0;
                while i < data.len()
                    invariant
                        i <= data@.len(),
                        result@ == Seq::new(i as nat, |k: int| data@[k] matches Some(s) && s@ == self.value@),
                    decreases data@.len() - i,
                {
                    let b = match &data[i] {
                        Some(s) => *s == self.value,
                        None => false,
                    };
                    result.push(b);
                    proof {
                        assert(result@ =~= Seq::new((i + 1) as nat, |k: int| data@[k] matches Some(s) && s@ == self.value@));
                    }
                    i = i + 1;
                }
                Ok(result)
            },
        }
    }
}

impl IntBetw {
    pub fn evaluate(&self, database: &Database) -> (r: Result<Vec<bool>, EvalError>)
        ensures
            agrees(r, eval_int_betw(self.column@, self.from, self.to, *database)),
    {
        match database.column(&self.column) {
            None => Err(EvalError::MissingColumn),
            Some(Column::Str(_)) => Err(EvalError::WrongColumnType),
            Some(Column::Int(data)) => {
                let mut result: Vec<bool> = Vec::with_capacity(data.len());
                let mut i: usize = 0;
                while i < data.len()
                    invariant
                        i <= data@.len(),
                        result@ == Seq::new(i as nat, |k: int| int_within(data@[k], self.from, self.to)),
                    decreases data@.len() - i,
                {
                    let b = match data[i] {
                        None => false,
                        Some(v) => {
                            let above = match self.from {
                                Some(f) => v >= f,
                                None => true,
                            };
                            let below = match self.to {
                                Some(t) => v <= t,
                                None => true,
                            };
                            above && below
                        },
                    };
                    result.push(b);
                    proof {
                        assert(result@ =~= Seq::new((i + 1) as nat, |k: int| int_within(data@[k], self.from, self.to)));
                    }
                    i = i + 1;
                }
                Ok(result)
            },
        }
    }
}

impl DateBetw {
    pub fn evaluate(&self, database: &Database) -> (r: Result<Vec<bool>, EvalError>)
        ensures
            agrees(r, eval(Filter::DateBetw(*self), *database)),
    {
        self.int_betw.evaluate(database)
    }
}

impl NucEq {
    pub fn evaluate(&self, database: &Database) -> (r: Result<Vec<bool>, EvalError>)
        ensures
            agrees(r, eval(Filter::NucEq(*self), *database)),
    {
        match database.nuc_column(self.position) {
            None => Err(EvalError::MissingNucColumn),
            Some(data) => {
                let mut result: Vec<bool> = Vec::with_capacity(data.len());
                let mut i: usize = 0;
                while i < data.len()
                    invariant
                        i <= data@.len(),
                        result@ == Seq::new(i as nat, |k: int| data@[k] == self.value),
                    decreases data@.len() - i,
                {
                    result.push(data[i] == self.value);
                    proof {
                        assert(result@ =~= Seq::new((i + 1) as nat, |k: int| data@[k] == self.value));
                    }
                    i = i + 1;
                }
                proof {
                    let d = find_nuc_column(database.nuc_columns@, self.position)->0;
                    assert(d == data@);
                    assert(eval_nuc_eq(self.position, self.value, *database) is Ok);
                    assert(result@ =~= eval_nuc_eq(self.position, self.value, *database)->Ok_0);
                }
                Ok(result)
            },
        }
    }
}

impl NOf {
    pub fn evaluate(&self, database: &Database) -> (r: Result<Vec<bool>, EvalError>)
        requires
            database.wf(),
        ensures
            agrees(r, eval(Filter::NOf(*self), *database)),
        decreases self,
    {
        let n = database.number_entries;
        if self.n as usize > self.children.len() {
            return Ok(constant(n, false));
        }
        if self.n == 0 {
            return Ok(constant(n, true));
        }
        let masks = match evaluate_all(&self.children, database) {
            Ok(m) => m,
            Err(e) => return Err(e),
        };
        let ghost ms = mask_views(masks@);
        let mut result: Vec<bool> = Vec::with_capacity(n);
        let mut i: usize = 0;
        while i < n
            invariant
                n == database.number_entries,
                ms == mask_views(masks@),
                forall|j: int| 0 <= j < masks@.len() ==> (#[trigger] masks@[j])@.len() == n,
                i <= n,
                result@ == Seq::new(i as nat, |k: int| if self.exactly { count_true(ms, k) == self.n } else { count_true(ms, k) >= self.n }),
            decreases n - i,
        {
            let mut number_trues: usize = 0;
            let mut j: usize = 0;
            while j < masks.len()
                invariant
                    i < n,
                    ms == mask_views(masks@),
                    forall|j: int| 0 <= j < masks@.len() ==> (#[trigger] masks@[j])@.len() == n,
                    j <= masks@.len(),
                    number_trues == count_true(ms.subrange(0, j as int), i as int),
                    number_trues <= j,
                decreases masks@.len() - j,
            {
                proof {
                    assert(ms[j as int] == masks@[j as int]@);
                    assert(ms.subrange(0, j + 1).drop_last() == ms.subrange(0, j as int));
                    assert(ms.subrange(0, j + 1).last() == ms[j as int]);
                }
                if masks[j][i] {
                    number_trues = number_trues + 1;
                }
                j = j + 1;
            }
            proof {
                assert(ms.subrange(0, j as int) == ms);
            }
            let b = if self.exactly { number_trues == self.n as usize } else { number_trues >= self.n as usize };
            result.push(b);
            proof {
                assert(result@ =~= Seq::new((i + 1) as nat, |k: int| if self.exactly { count_true(ms, k) == self.n } else { count_true(ms, k) >= self.n }));
            }
            i = i + 1;
        }
        Ok(result)
    }
}

impl Filter {
    /// Evaluates the filter to one boolean per sequence. Every child is
    /// evaluated in full before the results are combined.
    pub fn evaluate(&self, database: &Database) -> (r: Result<Vec<bool>, EvalError>)
        requires
            database.wf(),
        ensures
            agrees(r, eval(*self, *database)),
            r matches Ok(v) ==> v@.len() == database.number_entries,
        decreases self,
    {
        proof {
            lemma_eval_len(*self, *database);
        }
        match self {
            Filter::And(a) => a.evaluate(database),
            Filter::Or(o) => o.evaluate(database),
            Filter::Neg(g) => g.evaluate(database),
            Filter::StrEq(s) => s.evaluate(database),
            Filter::IntBetw(b) => b.evaluate(database),
            Filter::DateBetw(d) => d.evaluate(database),
            Filter::NucEq(e) => e.evaluate(database),
            Filter::NOf(o) => o.evaluate(database),
        }
    }
}

/// Every mask that a filter evaluates to has one entry per sequence.
pub proof fn lemma_eval_len(f: Filter, db: Database)
    requires
        db.wf(),
    ensures
        eval(f, db) matches Ok(m) ==> m.len() == db.number_entries,
    decreases f,
{
    match f {
        Filter::Neg(g) => {
            lemma_eval_len(*g.child, db);
        },
        Filter::StrEq(s) => {
            lemma_find_column_in(db.metadata@, s.column@);
        },
        Filter::IntBetw(b) => {
            lemma_find_column_in(db.metadata@, b.column@);
        },
        Filter::DateBetw(d) => {
            lemma_find_column_in(db.metadata@, d.int_betw.column@);
        },
        Filter::NucEq(e) => {
            lemma_find_nuc_column_in(db.nuc_columns@, e.position);
        },
        _ => {},
    }
}

/// Without children, `And` is true and `Or` is false on every sequence; `NOf`
/// with `n == 0` is true everywhere, and with `n` above the number of children
/// it is false everywhere.
pub proof fn lemma_degenerate_filters(db: Database, a: And, o: Or, none: NOf, too_many: NOf)
    requires
        a.children@.len() == 0,
        o.children@.len() == 0,
        none.n == 0,
        too_many.n > too_many.children@.len(),
    ensures
        eval(Filter::And(a), db) == Ok::<Seq<bool>, EvalError>(constant_mask(db.number_entries as nat, true)),
        eval(Filter::Or(o), db) == Ok::<Seq<bool>, EvalError>(constant_mask(db.number_entries as nat, false)),
        eval(Filter::NOf(none), db) == Ok::<Seq<bool>, EvalError>(constant_mask(db.number_entries as nat, true)),
        eval(Filter::NOf(too_many), db) == Ok::<Seq<bool>, EvalError>(constant_mask(db.number_entries as nat, false)),
{
}

/// Negating a filter twice gives back the filter's result.
pub proof fn lemma_double_negation(f: Filter, outer: Neg, inner: Neg, db: Database)
    requires
        *outer.child == Filter::Neg(inner),
        *inner.child == f,
    ensures
        eval(Filter::Neg(outer), db) == eval(f, db),
{
    let once = eval(Filter::Neg(inner), db);
    assert(once == match eval(f, db) {
        Err(e) => Err(e),
        Ok(m) => Ok::<Seq<bool>, EvalError>(m.map_values(|b: bool| !b)),
    });
    match eval(f, db) {
        Ok(m) => {
            let twice = eval(Filter::Neg(outer), db);
            assert(twice == Ok::<Seq<bool>, EvalError>(once->Ok_0.map_values(|b: bool| !b)));
            assert(once->Ok_0.map_values(|b: bool| !b) =~= m);
        },
        Err(_) => {},
    }
}

/// A filter on the country Switzerland.
pub fn ex0() -> (r: StrEq)
    ensures
        r.column@ == "country"@,
        r.value@ == "Switzerland"@,
{
    StrEq { column: "country".to_owned(), value: "Switzerland".to_owned() }
}

/// A filter on the symbol `A` at position 25407.
pub fn ex2() -> (r: NucEq)
    ensures
        r.position == 25407,
        r.value == NucCode::A,
{
    NucEq { position: 25407, value: NucCode::A }
}

} // verus!
