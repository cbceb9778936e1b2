//! Compatibility rules: a severity, two attribute fields and a comparison.
//! A rule reads the attributes of an ordered pair of elements and updates
//! that pair's cell of the score matrix.
use vstd::prelude::*;
use crate::text::{chars_of, in_list, list_contains, same_chars, trim, trimmed};

verus! {

/// The element attribute table: each element id with its `(field, value)` pairs.
pub type Attributes = Vec<(String, Vec<(String, String)>)>;

/// No two entries of the attribute table share an element id.
pub open spec fn unique_ids(data: Seq<(String, Vec<(String, String)>)>) -> bool {
    forall|i: int, j: int| 0 <= i < data.len() && 0 <= j < data.len() && i != j ==> data[i].0@ != data[j].0@
}

/// The strength and sign of a rule, from the strongest positive bias to the
/// strongest negative one.
#[derive(Clone, Copy, Debug, PartialEq, Eq, Structural)]
pub enum RuleSeverity {
    Force,
    Prefer,
    Standard,
    PreferExclude,
    ForceExclude,
}

/// How the source value is compared with the target value.
#[derive(Clone, Copy, Debug, PartialEq, Eq, Structural)]
pub enum RuleOperand {
    /// The two values are equal.
    Match,
    /// The target value is one entry of the comma-separated source value.
    Include,
}

#[derive(Clone, Debug)]
pub struct Rule {
    pub severity: RuleSeverity,
    pub field: String,
    pub target_field: String,
    pub operand: RuleOperand,
}

/// A rule refers to an element or a field that the attribute table lacks.
#[derive(Clone, Debug)]
pub enum LookupError {
    MissingElement(String),
    MissingField(String, String),
}

/// The weight of each severity. The hard severities carry the extreme values
/// of `i8`; they only mark a rule as hard.
pub open spec fn weight(s: RuleSeverity) -> int {
    match s {
        RuleSeverity::Force => i8::MAX as int,
        RuleSeverity::Prefer => 2,
        RuleSeverity::Standard => 1,
        RuleSeverity::PreferExclude => -2,
        RuleSeverity::ForceExclude => i8::MIN as int,
    }
}

/// Force and ForceExclude establish hard exclusions; the others add weight.
pub open spec fn is_hard(s: RuleSeverity) -> bool {
    s == RuleSeverity::Force || s == RuleSeverity::ForceExclude
}

impl RuleSeverity {
    pub fn get_score(&self) -> (r: i8)
        ensures
            r == weight(*self),
    {
        match self {
            RuleSeverity::Force => i8::MAX,
            RuleSeverity::Prefer => 2,
            RuleSeverity::Standard => 1,
            RuleSeverity::PreferExclude => -2,
            RuleSeverity::ForceExclude => i8::MIN,
        }
    }
}

/// A cell after a soft rule added `w` to it: the sum where it fits in
/// `i16`, the nearest bound of `i16` where it does not.
pub open spec fn soft_add(cell: i16, w: int) -> i16 {
    if cell + w > i16::MAX {
        i16::MAX
    } else if cell + w < i16::MIN {
        i16::MIN
    } else {
        (cell + w) as i16
    }
}

/// A cell after a rule of severity `s` was applied to it.
pub open spec fn applied_cell(s: RuleSeverity, cell: i16) -> i16 {
    if is_hard(s) {
        i16::MIN
    } else {
        soft_add(cell, weight(s))
    }
}

/// `i` is the first entry of `pairs` with key `key`.
pub open spec fn first_key<V>(pairs: Seq<(String, V)>, key: Seq<char>, i: int) -> bool {
    &&& 0 <= i < pairs.len()
    &&& pairs[i].0@ == key
    &&& forall|j: int| 0 <= j < i ==> pairs[j].0@ != key
}

/// The fields of element `id`, from its first entry in the table.
pub open spec fn element_fields(data: Seq<(String, Vec<(String, String)>)>, id: Seq<char>) -> Option<
    Seq<(String, String)>,
> {
    if exists|i: int| first_key(data, id, i) {
        Some(data[choose|i: int| first_key(data, id, i)].1@)
    } else {
        None
    }
}

/// The value of `field` among `fields`, from its first entry.
pub open spec fn field_value(fields: Seq<(String, String)>, field: Seq<char>) -> Option<Seq<char>> {
    if exists|j: int| first_key(fields, field, j) {
        Some(fields[choose|j: int| first_key(fields, field, j)].1@)
    } else {
        None
    }
}

/// The value of `field` for element `id`, if the table holds one.
pub open spec fn attribute(data: Seq<(String, Vec<(String, String)>)>, id: Seq<char>, field: Seq<
    char,
>) -> Option<Seq<char>> {
    match element_fields(data, id) {
        Some(fields) => field_value(fields, field),
        None => None,
    }
}

/// Whether the trimmed source value and the trimmed target value satisfy
/// the comparison.
pub open spec fn compare(op: RuleOperand, value: Seq<char>, target: Seq<char>) -> bool {
    match op {
        RuleOperand::Match => trimmed(value) == trimmed(target),
        RuleOperand::Include => in_list(trimmed(value), trimmed(target)),
    }
}

/// A Force rule excludes the pairs that fail its condition; every other rule
/// acts on the pairs that meet it.
pub open spec fn gate(s: RuleSeverity, checked: bool) -> bool {
    if s == RuleSeverity::Force {
        !checked
    } else {
        checked
    }
}

/// A matrix with cell `(x, y)` replaced by `v`.
pub open spec fn set_cell(m: Seq<Seq<i16>>, x: int, y: int, v: i16) -> Seq<Seq<i16>> {
    m.update(x, m[x].update(y, v))
}

/// The rows of a matrix as sequences.
pub open spec fn cells(m: Seq<Vec<i16>>) -> Seq<Seq<i16>> {
    m.map_values(|row: Vec<i16>| row@)
}

pub trait RuleActions {
    /// What `check` finds for the ordered pair `(id, target)`: `None` where
    /// the table lacks one of the two values.
    spec fn check_spec(&self, id: Seq<char>, target: Seq<char>, values: Seq<
        (String, Vec<(String, String)>),
    >) -> Option<bool>;

    /// The value that `apply` writes into a cell that held `cell`.
    spec fn apply_spec(&self, cell: i16) -> i16;

    /// Whether `check_and_apply` applies the rule to a pair whose check
    /// gave `checked`.
    spec fn acts_on(&self, checked: bool) -> bool;

    /// Whether the rule's condition holds from `id` to `target`.
    fn check(&self, id: &str, target: &str, values: &Attributes) -> (r: Result<bool, LookupError>)
        ensures
            match r {
                Ok(b) => self.check_spec(id@, target@, values@) == Some(b),
                Err(_) => self.check_spec(id@, target@, values@) is None,
            },
    ;

    /// Updates cell `(x, y)` by the rule's severity.
    fn apply(&self, x: usize, y: usize, connections: &mut Vec<Vec<i16>>)
        requires
            x < old(connections)@.len(),
            y < old(connections)@[x as int]@.len(),
        ensures
            cells(final(connections)@) == set_cell(
                cells(old(connections)@),
                x as int,
                y as int,
                self.apply_spec(old(connections)@[x as int]@[y as int]),
            ),
    ;

    /// Checks the pair and applies the rule where its severity says so.
    fn check_and_apply(
        &self,
        id: &str,
        target: &str,
        values: &Attributes,
        x: usize,
        y: usize,
        connections: &mut Vec<Vec<i16>>,
    ) -> (r: Result<(), LookupError>)
        requires
            x < old(connections)@.len(),
            y < old(connections)@[x as int]@.len(),
        ensures
            r is Ok <==> self.check_spec(id@, target@, values@) is Some,
            r is Err ==> cells(final(connections)@) == cells(old(connections)@),
            r is Ok ==> cells(final(connections)@) == if self.acts_on(
                self.check_spec(id@, target@, values@)->Some_0,
            ) {
                set_cell(
                    cells(old(connections)@),
                    x as int,
                    y as int,
                    self.apply_spec(old(connections)@[x as int]@[y as int]),
                )
            } else {
                cells(old(connections)@)
            },
    ;
}

/// The first entry of `pairs` whose key is `key`.
fn find_key<V>(pairs: &Vec<(String, V)>, key: &String) -> (r: Option<usize>)
    ensures
        match r {
            Some(i) => first_key(pairs@, key@, i as int),
            None => forall|i: int| 0 <= i < pairs@.len() ==> pairs@[i].0@ != key@,
        },
{
    let mut i: usize = 0;
    while i < pairs.len()
        invariant
            i <= pairs@.len(),
            forall|j: int| 0 <= j < i ==> pairs@[j].0@ != key@,
        decreases pairs.len() - i,
    {
        if pairs[i].0 == *key {
            return Some(i);
        }
        i += 1;
    }
    None
}

proof fn lemma_first_key_unique<V>(pairs: Seq<(String, V)>, key: Seq<char>, i: int, j: int)
    requires
        first_key(pairs, key, i),
        first_key(pairs, key, j),
    ensures
        i == j,
{
}

/// The value of `field` for element `id`.
pub fn lookup<'a>(values: &'a Attributes, id: &str, field: &str) -> (r: Result<&'a String, LookupError>)
    ensures
        match r {
            Ok(v) => attribute(values@, id@, field@) == Some(v@),
            Err(_) => attribute(values@, id@, field@) is None,
        },
        r matches Err(LookupError::MissingElement(x)) ==> x@ == id@ && element_fields(
            values@,
            id@,
        ) is None,
        r matches Err(LookupError::MissingField(x, f)) ==> x@ == id@ && f@ == field@
            && element_fields(values@, id@) is Some,
{
    let id_key = String::from_str(id);
    match find_key(values, &id_key) {
        None => Err(LookupError::MissingElement(id_key)),
        Some(i) => {
            proof {
                let c = choose|k: int| first_key(values@, id@, k);
                lemma_first_key_unique(values@, id@, i as int, c);
            }
            let fields = &values[i].1;
            let field_key = String::from_str(field);
            match find_key(fields, &field_key) {
                None => Err(LookupError::MissingField(id_key, field_key)),
                Some(j) => {
                    proof {
                        let c = choose|k: int| first_key(fields@, field@, k);
                        lemma_first_key_unique(fields@, field@, j as int, c);
                    }
                    Ok(&fields[j].1)
                },
            }
        },
    }
}

impl RuleActions for Rule {
    open spec fn check_spec(&self, id: Seq<char>, target: Seq<char>, values: Seq<
        (String, Vec<(String, String)>),
    >) -> Option<bool> {
        match (attribute(values, id, self.field@), attribute(values, target, self.target_field@)) {
            (Some(v), Some(t)) => Some(compare(self.operand, v, t)),
            _ => None,
        }
    }

    open spec fn apply_spec(&self, cell: i16) -> i16 {
        applied_cell(self.severity, cell)
    }

    open spec fn acts_on(&self, checked: bool) -> bool {
        gate(self.severity, checked)
    }

    fn check(&self, id: &str, target: &str, values: &Attributes) -> (r: Result<bool, LookupError>) {
        let value = match lookup(values, id, self.field.as_str()) {
            Ok(v) => v,
            Err(e) => return Err(e),
        };
        let target_value = match lookup(values, target, self.target_field.as_str()) {
            Ok(v) => v,
            Err(e) => return Err(e),
        };
        let value = chars_of(trim(value.as_str()));
        let target_value = chars_of(trim(target_value.as_str()));
        match self.operand {
            RuleOperand::Match => Ok(same_chars(&value, &target_value)),
            RuleOperand::Include => Ok(list_contains(&value, &target_value)),
        }
    }

    fn apply(&self, x: usize, y: usize, connections: &mut Vec<Vec<i16>>) {
        let cell = connections[x][y];
        let v: i16 = match self.severity {
            RuleSeverity::Force | RuleSeverity::ForceExclude => i16::MIN,
            _ => {
                let w = self.severity.get_score() as i16;
                if w > 0 && cell > i16::MAX - w {
                    i16::MAX
                } else if w < 0 && cell < i16::MIN - w {
                    i16::MIN
                } else {
                    cell + w
                }
            },
        };
        let mut row = connections[x].clone();
        row.set(y, v);
        connections.set(x, row);
        assert(cells(connections@) =~= set_cell(
            cells(old(connections)@),
            x as int,
            y as int,
            v,
        ));
    }

    fn check_and_apply(
        &self,
        id: &str,
        target: &str,
        values: &Attributes,
        x: usize,
        y: usize,
        connections: &mut Vec<Vec<i16>>,
    ) -> (r: Result<(), LookupError>) {
        let checked = match self.check(id, target, values) {
            Ok(b) => b,
            Err(e) => return Err(e),
        };
        let act = match self.severity {
            RuleSeverity::Force => !checked,
            _ => checked,
        };
        if act {
            self.apply(x, y, connections);
        }
        Ok(())
    }
}

} // verus!
