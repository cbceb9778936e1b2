//! The score matrix over a fixed ordering of the elements, built by applying
//! rules to every ordered pair.
use vstd::prelude::*;
use crate::rules::{
    applied_cell, cells, element_fields, first_key, gate, is_hard, unique_ids, Attributes,
    LookupError, Rule, RuleActions, RuleSeverity,
};

verus! {

/// `a` sorts before `b` or equals it, comparing characters by code point.
pub open spec fn lex_le(a: Seq<char>, b: Seq<char>) -> bool
    decreases a.len(),
{
    if a.len() == 0 {
        true
    } else if b.len() == 0 {
        false
    } else if a[0] != b[0] {
        (a[0] as u32) < (b[0] as u32)
    } else {
        lex_le(a.drop_first(), b.drop_first())
    }
}

/// The character sequences are in ascending order.
pub open spec fn sorted_names(s: Seq<Seq<char>>) -> bool {
    forall|i: int, j: int| 0 <= i < j < s.len() ==> lex_le(s[i], s[j])
}

/// Relies on `slice::sort` on `String`s: the same strings, in ascending
/// order. `String`s compare their UTF-8 bytes lexicographically, which orders
/// them as their sequences of code points.
#[verifier::external_body]
fn sort_strings(v: &mut Vec<String>)
    ensures
        names(final(v)@).to_multiset() == names(old(v)@).to_multiset(),
        sorted_names(names(final(v)@)),
{
    v.sort()
}

/// `o` holds the element ids of the table in ascending order.
pub open spec fn is_fixed_order(data: Seq<(String, Vec<(String, String)>)>, o: Seq<Seq<char>>) -> bool {
    o.to_multiset() == names(ids(data)).to_multiset() && sorted_names(o)
}

/// The fixed ordering of the elements of a table: its ids, sorted.
pub open spec fn fixed_order_of(data: Seq<(String, Vec<(String, String)>)>) -> Seq<Seq<char>> {
    choose|o: Seq<Seq<char>>| is_fixed_order(data, o)
}

proof fn lemma_lex_antisymmetric(a: Seq<char>, b: Seq<char>)
    requires
        lex_le(a, b),
        lex_le(b, a),
    ensures
        a == b,
    decreases a.len(),
{
    if a.len() > 0 && b.len() > 0 {
        if a[0] == b[0] {
            lemma_lex_antisymmetric(a.drop_first(), b.drop_first());
            assert(a =~= seq![a[0]] + a.drop_first());
            assert(b =~= seq![b[0]] + b.drop_first());
        }
    } else {
        assert(a =~= b);
    }
}

/// Two sorted sequences with the same members are equal.
proof fn lemma_sorted_unique(s1: Seq<Seq<char>>, s2: Seq<Seq<char>>)
    requires
        s1.to_multiset() == s2.to_multiset(),
        sorted_names(s1),
        sorted_names(s2),
    ensures
        s1 == s2,
    decreases s1.len(),
{
    s1.to_multiset_ensures();
    s2.to_multiset_ensures();
    if s1.len() == 0 {
        assert(s1 =~= s2);
    } else {
        assert(s1.contains(s1[0]));
        assert(s1.to_multiset().count(s1[0]) > 0);
        assert(s2.to_multiset().count(s1[0]) > 0);
        assert(s2.contains(s1[0]));
        assert(s2.contains(s2[0]));
        assert(s2.to_multiset().count(s2[0]) > 0);
        assert(s1.to_multiset().count(s2[0]) > 0);
        assert(s1.contains(s2[0]));
        let j = choose|j: int| 0 <= j < s2.len() && s2[j] == s1[0];
        let i = choose|i: int| 0 <= i < s1.len() && s1[i] == s2[0];
        if j != 0 && i != 0 {
            lemma_lex_antisymmetric(s1[0], s2[0]);
        }
        assert(s1[0] == s2[0]);
        assert(s1.remove(0) =~= s1.drop_first());
        assert(s2.remove(0) =~= s2.drop_first());
        lemma_sorted_unique(s1.drop_first(), s2.drop_first());
        assert forall|k: int| 0 <= k < s1.len() implies s1[k] == s2[k] by {
            if k > 0 {
                assert(s1[k] == s1.drop_first()[k - 1]);
                assert(s2[k] == s2.drop_first()[k - 1]);
            }
        }
        assert(s1 =~= s2);
    }
}

/// The character sequences of a list of strings.
pub open spec fn names(s: Seq<String>) -> Seq<Seq<char>> {
    s.map_values(|x: String| x@)
}

/// The element ids of an attribute table, in table order.
pub open spec fn ids(data: Seq<(String, Vec<(String, String)>)>) -> Seq<String> {
    data.map_values(|e: (String, Vec<(String, String)>)| e.0)
}

/// The matrix before any rule: the Standard weight off the diagonal and the
/// exclusion sentinel on it.
pub open spec fn initial_matrix(n: nat) -> Seq<Seq<i16>> {
    Seq::new(n, |x: int| Seq::new(n, |y: int| if x == y { i16::MIN } else { 1i16 }))
}

/// A soft rule leaves a pair alone once either direction is excluded: cell
/// `(x, y)` of `m`, or its mirror as the rule finds it.
pub open spec fn skipped(s: RuleSeverity, m: Seq<Seq<i16>>, x: int, y: int, mirror: i16) -> bool {
    !is_hard(s) && (m[x][y] == i16::MIN || mirror == i16::MIN)
}

/// Cell `(x, y)` after `rule` visited it, with the mirror cell `(y, x)`
/// holding `mirror` at that moment.
pub open spec fn cell_after(
    rule: Rule,
    data: Seq<(String, Vec<(String, String)>)>,
    order: Seq<Seq<char>>,
    m: Seq<Seq<i16>>,
    x: int,
    y: int,
    mirror: i16,
) -> i16 {
    if !skipped(rule.severity, m, x, y, mirror) && gate(
        rule.severity,
        rule.check_spec(order[x], order[y], data)->Some_0,
    ) {
        applied_cell(rule.severity, m[x][y])
    } else {
        m[x][y]
    }
}

/// The mirror cell `(y, x)` as the rule finds it when it reaches `(x, y)`:
/// the rule visits the pairs row by row, so the mirror was visited already
/// where `y < x`.
pub open spec fn mirror_seen(
    rule: Rule,
    data: Seq<(String, Vec<(String, String)>)>,
    order: Seq<Seq<char>>,
    m: Seq<Seq<i16>>,
    x: int,
    y: int,
) -> i16 {
    if y < x {
        cell_after(rule, data, order, m, y, x, m[x][y])
    } else {
        m[y][x]
    }
}

/// Cell `(x, y)` after `rule` was applied to matrix `m` over the ordering `order`.
pub open spec fn rule_cell(
    rule: Rule,
    data: Seq<(String, Vec<(String, String)>)>,
    order: Seq<Seq<char>>,
    m: Seq<Seq<i16>>,
    x: int,
    y: int,
) -> i16 {
    cell_after(rule, data, order, m, x, y, mirror_seen(rule, data, order, m, x, y))
}

/// Every pair that `rule` does not skip has both attribute values it reads.
pub open spec fn rule_resolves(
    rule: Rule,
    data: Seq<(String, Vec<(String, String)>)>,
    order: Seq<Seq<char>>,
    m: Seq<Seq<i16>>,
) -> bool {
    forall|x: int, y: int|
        0 <= x < order.len() && 0 <= y < order.len() && !skipped(
            rule.severity,
            m,
            x,
            y,
            mirror_seen(rule, data, order, m, x, y),
        ) ==> (#[trigger] rule.check_spec(order[x], order[y], data)) is Some
}

/// Matrix `m` after `rule` was applied to every ordered pair.
pub open spec fn applied_matrix(
    rule: Rule,
    data: Seq<(String, Vec<(String, String)>)>,
    order: Seq<Seq<char>>,
    m: Seq<Seq<i16>>,
) -> Seq<Seq<i16>> {
    Seq::new(
        m.len(),
        |x: int| Seq::new(m.len(), |y: int| rule_cell(rule, data, order, m, x, y)),
    )
}

/// A square matrix of side `n` with the sentinel on its diagonal.
pub open spec fn square_with_diagonal(m: Seq<Seq<i16>>, n: nat) -> bool {
    &&& m.len() == n
    &&& forall|x: int| 0 <= x < n ==> (#[trigger] m[x]).len() == n
    &&& forall|x: int| 0 <= x < n ==> (#[trigger] m[x])[x] == i16::MIN
}

/// Pairs excluded in neither direction, an element never with itself.
pub open spec fn linked(m: Seq<Seq<i16>>, r: int, c: int) -> bool {
    r != c && m[r][c] != i16::MIN && m[c][r] != i16::MIN
}

/// `l` is the candidate list of `row`: `row` itself, then in ascending order
/// every element linked with it.
pub open spec fn candidate_list(m: Seq<Seq<i16>>, row: int, l: Seq<usize>) -> bool {
    &&& l.len() >= 1
    &&& l[0] == row
    &&& forall|i: int, j: int| 1 <= i < j < l.len() ==> l[i] < l[j]
    &&& forall|i: int| 1 <= i < l.len() ==> 0 <= #[trigger] l[i] < m.len() && linked(m, row, l[i] as int)
    &&& forall|c: int|
        0 <= c < m.len() && #[trigger] linked(m, row, c) ==> exists|i: int|
            1 <= i < l.len() && l[i] == c
}

/// No two distinct members of the group exclude each other.
pub open spec fn feasible(m: Seq<Seq<i16>>, g: Seq<usize>) -> bool {
    forall|i: int, j: int|
        0 <= i < g.len() && 0 <= j < g.len() && i != j ==> #[trigger] m[g[i] as int][g[j] as int]
            != i16::MIN
}

/// Sum of the cells from member `x` to members `0..k` of the group, `x` itself left out.
pub open spec fn row_score(m: Seq<Seq<i16>>, g: Seq<usize>, x: int, k: int) -> int
    decreases k,
{
    if k <= 0 {
        0
    } else {
        row_score(m, g, x, k - 1) + if k - 1 == x {
            0
        } else {
            m[g[x] as int][g[k - 1] as int] as int
        }
    }
}

/// Sum of the rows of members `0..k` of the group.
pub open spec fn rows_score(m: Seq<Seq<i16>>, g: Seq<usize>, k: int) -> int
    decreases k,
{
    if k <= 0 {
        0
    } else {
        rows_score(m, g, k - 1) + row_score(m, g, k - 1, g.len() as int)
    }
}

/// The score of a group: its cells over all ordered pairs of distinct members.
pub open spec fn group_score(m: Seq<Seq<i16>>, g: Seq<usize>) -> int {
    rows_score(m, g, g.len() as int)
}

pub struct Connections {
    pub matrix: Vec<Vec<i16>>,
    pub fixed_order: Vec<String>,
}

impl Connections {
    /// The matrix as sequences.
    pub open spec fn grid(&self) -> Seq<Seq<i16>> {
        cells(self.matrix@)
    }

    pub open spec fn wf(&self) -> bool {
        square_with_diagonal(self.grid(), self.fixed_order@.len())
    }

    pub fn len(&self) -> (r: usize)
        ensures
            r == self.fixed_order@.len(),
    {
        self.fixed_order.len()
    }

    /// Fixes the ordering of the elements, sorted by id, and sets up the
    /// matrix before any rule.
    pub fn from_data(data: &Attributes) -> (r: Connections)
        ensures
            r.wf(),
            names(r.fixed_order@) == fixed_order_of(data@),
            r.fixed_order@.len() == data@.len(),
            r.grid() == initial_matrix(data@.len()),
    {
        let mut fixed_order: Vec<String> = Vec::new();
        let mut i: usize = 0;
        while i < data.len()
            invariant
                i <= data@.len(),
                fixed_order@ == ids(data@).subrange(0, i as int),
            decreases data.len() - i,
        {
            fixed_order.push(data[i].0.clone());
            assert(ids(data@).subrange(0, i + 1) =~= ids(data@).subrange(0, i as int).push(
                data@[i as int].0,
            ));
            i += 1;
        }
        assert(fixed_order@ =~= ids(data@));
        sort_strings(&mut fixed_order);
        let size = data.len();
        let standard = RuleSeverity::Standard.get_score() as i16;
        let mut matrix: Vec<Vec<i16>> = Vec::new();
        let mut x: usize = 0;
        while x < size
            invariant
                size == data@.len(),
                standard == 1,
                x <= size,
                cells(matrix@) =~= initial_matrix(size as nat).subrange(0, x as int),
            decreases size - x,
        {
            let mut row: Vec<i16> = Vec::new();
            let mut y: usize = 0;
            while y < size
                invariant
                    standard == 1,
                    x < size,
                    y <= size,
                    row@ =~= initial_matrix(size as nat)[x as int].subrange(0, y as int),
                decreases size - y,
            {
                if x == y {
                    row.push(i16::MIN);
                } else {
                    row.push(standard);
                }
                y += 1;
            }
            assert(row@ =~= initial_matrix(size as nat)[x as int]);
            let ghost before = matrix@;
            matrix.push(row);
            assert(cells(matrix@) =~= cells(before).push(row@));
            assert(initial_matrix(size as nat).subrange(0, x + 1) =~= initial_matrix(
                size as nat,
            ).subrange(0, x as int).push(initial_matrix(size as nat)[x as int]));
            x += 1;
        }
        proof {
            let o = names(fixed_order@);
            assert(is_fixed_order(data@, o));
            lemma_sorted_unique(o, fixed_order_of(data@));
            assert(o.len() == data@.len()) by {
                o.to_multiset_ensures();
                names(ids(data@)).to_multiset_ensures();
            }
        }
        Connections { matrix, fixed_order }
    }

    /// Applies `rule` to every ordered pair of elements, row by row. A soft
    /// rule skips a pair once either direction is excluded; a hard rule never
    /// skips. Whatever the outcome, an excluded cell stays excluded.
    pub fn apply(&mut self, rule: &Rule, fields: &Attributes) -> (r: Result<(), LookupError>)
        requires
            old(self).wf(),
        ensures
            final(self).wf(),
            final(self).fixed_order@ == old(self).fixed_order@,
            forall|x: int, y: int|
                0 <= x < old(self).fixed_order@.len() && 0 <= y < old(self).fixed_order@.len()
                    && old(self).grid()[x][y] == i16::MIN ==> #[trigger] final(self).grid()[x][y]
                    == i16::MIN,
            !is_hard(rule.severity) ==> forall|x: int, y: int|
                0 <= x < old(self).fixed_order@.len() && 0 <= y < old(self).fixed_order@.len() && (
                old(self).grid()[x][y] == i16::MIN || old(self).grid()[y][x] == i16::MIN)
                    ==> #[trigger] final(self).grid()[x][y] == old(self).grid()[x][y],
            r is Ok <==> rule_resolves(*rule, fields@, names(old(self).fixed_order@), old(self).grid()),
            r is Ok ==> final(self).grid() == applied_matrix(
                *rule,
                fields@,
                names(old(self).fixed_order@),
                old(self).grid(),
            ),
    {
        let ghost m0 = self.grid();
        let ghost order = names(self.fixed_order@);
        let size = self.fixed_order.len();
        let hard = match rule.severity {
            RuleSeverity::Force | RuleSeverity::ForceExclude => true,
            _ => false,
        };
        let mut x: usize = 0;
        while x < size
            invariant
                size == order.len(),
                m0.len() == size,
                hard == is_hard(rule.severity),
                x <= size,
                self.fixed_order@ == old(self).fixed_order@,
                order == names(old(self).fixed_order@),
                m0 == old(self).grid(),
                square_with_diagonal(m0, size as nat),
                square_with_diagonal(self.grid(), size as nat),
                forall|i: int, j: int|
                    0 <= i < size && 0 <= j < size ==> #[trigger] self.grid()[i][j] == if i < x {
                        rule_cell(*rule, fields@, order, m0, i, j)
                    } else {
                        m0[i][j]
                    },
                forall|i: int, j: int|
                    0 <= i < size && 0 <= j < size && m0[i][j] == i16::MIN ==> #[trigger] self.grid()[i][j]
                        == i16::MIN,
                !hard ==> forall|i: int, j: int|
                    0 <= i < size && 0 <= j < size && (m0[i][j] == i16::MIN || m0[j][i] == i16::MIN)
                        ==> #[trigger] self.grid()[i][j] == m0[i][j],
                forall|i: int, j: int|
                    0 <= i < x && 0 <= j < size && !skipped(
                        rule.severity,
                        m0,
                        i,
                        j,
                        mirror_seen(*rule, fields@, order, m0, i, j),
                    ) ==> (#[trigger] rule.check_spec(order[i], order[j], fields@)) is Some,
            decreases size - x,
        {
            let mut y: usize = 0;
            while y < size
                invariant
                    size == order.len(),
                    m0.len() == size,
                    hard == is_hard(rule.severity),
                    x < size,
                    y <= size,
                    self.fixed_order@ == old(self).fixed_order@,
                    order == names(old(self).fixed_order@),
                    m0 == old(self).grid(),
                    square_with_diagonal(m0, size as nat),
                    square_with_diagonal(self.grid(), size as nat),
                    forall|i: int, j: int|
                        0 <= i < size && 0 <= j < size ==> #[trigger] self.grid()[i][j] == if i < x
                            || (i == x && j < y) {
                            rule_cell(*rule, fields@, order, m0, i, j)
                        } else {
                            m0[i][j]
                        },
                    forall|i: int, j: int|
                        0 <= i < size && 0 <= j < size && m0[i][j] == i16::MIN
                            ==> #[trigger] self.grid()[i][j] == i16::MIN,
                    !hard ==> forall|i: int, j: int|
                        0 <= i < size && 0 <= j < size && (m0[i][j] == i16::MIN || m0[j][i]
                            == i16::MIN) ==> #[trigger] self.grid()[i][j] == m0[i][j],
                    forall|i: int, j: int|
                        0 <= i < size && 0 <= j < size && (i < x || (i == x && j < y))
                            && !skipped(
                            rule.severity,
                            m0,
                            i,
                            j,
                            mirror_seen(*rule, fields@, order, m0, i, j),
                        ) ==> (#[trigger] rule.check_spec(order[i], order[j], fields@)) is Some,
                decreases size - y,
            {
                assert(self.grid()[x as int] == self.matrix@[x as int]@);
                assert(self.grid()[y as int] == self.matrix@[y as int]@);
                let skip = !hard && (self.matrix[x][y] == i16::MIN || self.matrix[y][x]
                    == i16::MIN);
                let ghost mirror = mirror_seen(*rule, fields@, order, m0, x as int, y as int);
                assert(skip == skipped(rule.severity, m0, x as int, y as int, mirror)) by {
                    assert(self.grid()[x as int][y as int] == self.matrix@[x as int]@[y as int]);
                    assert(self.grid()[y as int][x as int] == self.matrix@[y as int]@[x as int]);
                    assert(self.grid()[y as int][x as int] == mirror);
                }
                if !skip {
                    assert(order[x as int] == self.fixed_order@[x as int]@);
                    assert(order[y as int] == self.fixed_order@[y as int]@);
                    let ghost before = self.grid();
                    let res = rule.check_and_apply(
                        self.fixed_order[x].as_str(),
                        self.fixed_order[y].as_str(),
                        fields,
                        x,
                        y,
                        &mut self.matrix,
                    );
                    if res.is_err() {
                        assert(!rule_resolves(*rule, fields@, order, m0));
                        assert(cells(self.matrix@) == before);
                        return res;
                    }
                    assert(square_with_diagonal(self.grid(), size as nat)) by {
                        assert forall|i: int| 0 <= i < size implies (#[trigger] self.grid()[i])[i]
                            == i16::MIN by {
                            assert(before[i][i] == i16::MIN);
                        }
                    }
                }
                y += 1;
            }
            x += 1;
        }
        assert(self.grid() =~= applied_matrix(*rule, fields@, order, m0)) by {
            assert forall|i: int| 0 <= i < size implies #[trigger] self.grid()[i] =~= applied_matrix(
                *rule,
                fields@,
                order,
                m0,
            )[i] by {
                assert forall|j: int| 0 <= j < size implies self.grid()[i][j] == applied_matrix(
                    *rule,
                    fields@,
                    order,
                    m0,
                )[i][j] by {
                    assert(self.grid()[i][j] == rule_cell(*rule, fields@, order, m0, i, j));
                }
            }
        }
        Ok(())
    }

    /// Whether the group is feasible and, if so, its score: the sum of its
    /// cells over every ordered pair of distinct members. An infeasible group
    /// scores `i32::MIN`.
    pub fn calc_score(&self, group: &Vec<usize>) -> (r: (bool, i32))
        requires
            self.wf(),
            group@.len() <= 256,
            forall|i: int| 0 <= i < group@.len() ==> #[trigger] group@[i] < self.fixed_order@.len(),
        ensures
            r.0 == feasible(self.grid(), group@),
            r.0 ==> r.1 == group_score(self.grid(), group@),
            !r.0 ==> r.1 == i32::MIN,
    {
        let ghost m = self.grid();
        let ghost g = group@;
        let mut score: i32 = 0;
        let size = group.len();
        let mut x: usize = 0;
        while x < size
            invariant
                size == g.len() <= 256,
                m == self.grid(),
                g == group@,
                self.wf(),
                forall|i: int| 0 <= i < g.len() ==> #[trigger] g[i] < self.fixed_order@.len(),
                x <= size,
                score == rows_score(m, g, x as int),
                -32767 * (x * 256) <= score <= 32767 * (x * 256),
                forall|i: int, j: int|
                    0 <= i < x && 0 <= j < size && i != j ==> #[trigger] m[g[i] as int][g[j] as int]
                        != i16::MIN,
            decreases size - x,
        {
            let mut y: usize = 0;
            while y < size
                invariant
                    size == g.len() <= 256,
                    m == self.grid(),
                    g == group@,
                    self.wf(),
                    forall|i: int| 0 <= i < g.len() ==> #[trigger] g[i] < self.fixed_order@.len(),
                    x < size,
                    y <= size,
                    score == rows_score(m, g, x as int) + row_score(m, g, x as int, y as int),
                    -32767 * (x * 256 + y) <= score <= 32767 * (x * 256 + y),
                    forall|i: int, j: int|
                        0 <= i < size && 0 <= j < size && i != j && (i < x || (i == x && j < y))
                            ==> #[trigger] m[g[i] as int][g[j] as int] != i16::MIN,
                decreases size - y,
            {
                if x != y {
                    let a = group[x];
                    let b = group[y];
                    assert(m[a as int] == self.matrix@[a as int]@);
                    let cell = self.matrix[a][b];
                    if cell == i16::MIN {
                        assert(!feasible(m, g)) by {
                            assert(m[g[x as int] as int][g[y as int] as int] == i16::MIN);
                        }
                        return (false, i32::MIN);
                    }
                    score = score + cell as i32;
                }
                y += 1;
            }
            x += 1;
        }
        (true, score)
    }

    /// For each element in order, its candidate list: the element itself,
    /// then every element that it is linked with.
    pub fn possible_connections(&self) -> (r: Vec<Vec<usize>>)
        requires
            self.wf(),
        ensures
            r@.len() == self.fixed_order@.len(),
            forall|row: int|
                0 <= row < r@.len() ==> candidate_list(self.grid(), row, #[trigger] r@[row]@),
    {
        let ghost m = self.grid();
        let size = self.fixed_order.len();
        let mut possible: Vec<Vec<usize>> = Vec::new();
        let mut row: usize = 0;
        while row < size
            invariant
                size == self.fixed_order@.len(),
                m == self.grid(),
                self.wf(),
                row <= size,
                possible@.len() == row,
                forall|r: int| 0 <= r < row ==> candidate_list(m, r, #[trigger] possible@[r]@),
            decreases size - row,
        {
            let mut list: Vec<usize> = Vec::new();
            list.push(row);
            let mut col: usize = 0;
            while col < size
                invariant
                    size == self.fixed_order@.len(),
                    m == self.grid(),
                    self.wf(),
                    row < size,
                    col <= size,
                    list@.len() >= 1,
                    list@[0] == row,
                    forall|i: int, j: int| 1 <= i < j < list@.len() ==> list@[i] < list@[j],
                    forall|i: int|
                        1 <= i < list@.len() ==> #[trigger] list@[i] < col && linked(
                            m,
                            row as int,
                            list@[i] as int,
                        ),
                    forall|c: int|
                        0 <= c < col && #[trigger] linked(m, row as int, c) ==> exists|i: int|
                            1 <= i < list@.len() && list@[i] == c,
                decreases size - col,
            {
                assert(m[row as int] == self.matrix@[row as int]@);
                assert(m[col as int] == self.matrix@[col as int]@);
                if row != col && self.matrix[row][col] != i16::MIN && self.matrix[col][row]
                    != i16::MIN {
                    let ghost before = list@;
                    list.push(col);
                    assert forall|c: int|
                        0 <= c < col + 1 && #[trigger] linked(m, row as int, c) implies exists|i: int|
                        1 <= i < list@.len() && list@[i] == c by {
                        if c == col {
                            assert(list@[list@.len() - 1] == c);
                        } else {
                            let i = choose|i: int| 1 <= i < before.len() && before[i] == c;
                            assert(list@[i] == c);
                        }
                    }
                }
                col += 1;
            }
            possible.push(list);
            row += 1;
        }
        possible
    }
}

/// What a candidate list states entry by entry.
pub proof fn lemma_candidate_list_facts(m: Seq<Seq<i16>>, row: int, l: Seq<usize>)
    requires
        candidate_list(m, row, l),
    ensures
        forall|i: int| 1 <= i < l.len() ==> (#[trigger] l[i] as int) < m.len(),
        forall|i: int, j: int| 1 <= i < j < l.len() ==> l[i] < l[j],
{
}

/// The matrix after the rules were applied in order to the initial matrix.
pub open spec fn built_matrix(
    rules: Seq<Rule>,
    data: Seq<(String, Vec<(String, String)>)>,
    order: Seq<Seq<char>>,
) -> Seq<Seq<i16>>
    decreases rules.len(),
{
    if rules.len() == 0 {
        initial_matrix(order.len())
    } else {
        applied_matrix(rules.last(), data, order, built_matrix(rules.drop_last(), data, order))
    }
}

/// Each rule finds the attribute values it reads, on the matrix that the
/// rules before it built.
pub open spec fn rules_resolve(
    rules: Seq<Rule>,
    data: Seq<(String, Vec<(String, String)>)>,
    order: Seq<Seq<char>>,
) -> bool {
    forall|k: int|
        0 <= k < rules.len() ==> rule_resolves(
            rules[k],
            data,
            order,
            #[trigger] built_matrix(rules.subrange(0, k), data, order),
        )
}

impl Connections {
    /// Builds the matrix of an attribute table and applies the rules in order.
    /// Fails on the first rule that reads a value the table lacks.
    pub fn build(data: &Attributes, rules: &Vec<Rule>) -> (r: Result<Connections, LookupError>)
        requires
            unique_ids(data@),
        ensures
            r is Ok <==> rules_resolve(rules@, data@, fixed_order_of(data@)),
            r matches Ok(c) ==> {
                &&& c.wf()
                &&& c.fixed_order@.len() == data@.len()
                &&& names(c.fixed_order@) == fixed_order_of(data@)
                &&& c.grid() == built_matrix(rules@, data@, fixed_order_of(data@))
            },
    {
        let ghost order = fixed_order_of(data@);
        let mut c = Connections::from_data(data);
        assert(rules@.subrange(0, 0) =~= Seq::<Rule>::empty());
        let mut k: usize = 0;
        while k < rules.len()
            invariant
                k <= rules@.len(),
                c.wf(),
                c.fixed_order@.len() == data@.len(),
                names(c.fixed_order@) == order,
                order == fixed_order_of(data@),
                c.grid() == built_matrix(rules@.subrange(0, k as int), data@, order),
                forall|j: int|
                    0 <= j < k ==> rule_resolves(
                        rules@[j],
                        data@,
                        order,
                        #[trigger] built_matrix(rules@.subrange(0, j), data@, order),
                    ),
            decreases rules.len() - k,
        {
            let ghost before = c.grid();
            let res = c.apply(&rules[k], data);
            if res.is_err() {
                return Err(res.unwrap_err());
            }
            assert(rules@.subrange(0, k + 1).drop_last() =~= rules@.subrange(0, k as int));
            assert(rules@.subrange(0, k + 1).last() == rules@[k as int]);
            k += 1;
        }
        assert(rules@.subrange(0, rules@.len() as int) =~= rules@);
        Ok(c)
    }
}

/// List `a` comes before list `b` in the search: shorter lists first, and
/// lists of equal length by their anchor.
pub open spec fn anchor_before(a: Seq<usize>, b: Seq<usize>) -> bool {
    a.len() < b.len() || (a.len() == b.len() && a[0] < b[0])
}

/// `a` holds the candidate list of every element, the most constrained
/// element first.
pub open spec fn is_anchor_order(m: Seq<Seq<i16>>, a: Seq<Seq<usize>>) -> bool {
    &&& a.len() == m.len()
    &&& forall|i: int|
        0 <= i < a.len() ==> (#[trigger] a[i]).len() >= 1 && (a[i][0] as int) < m.len()
            && candidate_list(m, a[i][0] as int, a[i])
    &&& forall|i: int, j: int| 0 <= i < j < a.len() ==> anchor_before(a[i], a[j])
}

/// The views of a list of lists.
pub open spec fn list_views(a: Seq<Vec<usize>>) -> Seq<Seq<usize>> {
    a.map_values(|v: Vec<usize>| v@)
}

impl Connections {
    /// The candidate lists sorted by length, ascending; lists of equal length
    /// stay in element order.
    pub fn anchor_order(&self) -> (r: Vec<Vec<usize>>)
        requires
            self.wf(),
        ensures
            is_anchor_order(self.grid(), list_views(r@)),
    {
        let ghost m = self.grid();
        let lists = self.possible_connections();
        let mut out: Vec<Vec<usize>> = Vec::new();
        let mut row: usize = 0;
        while row < lists.len()
            invariant
                m == self.grid(),
                lists@.len() == m.len(),
                forall|r: int| 0 <= r < lists@.len() ==> candidate_list(m, r, #[trigger] lists@[r]@),
                row <= lists@.len(),
                out@.len() == row,
                forall|i: int|
                    0 <= i < out@.len() ==> (#[trigger] out@[i])@.len() >= 1 && (out@[i]@[0] as int)
                        < row && candidate_list(m, out@[i]@[0] as int, out@[i]@),
                forall|i: int, j: int| 0 <= i < j < out@.len() ==> anchor_before(out@[i]@, out@[j]@),
            decreases lists.len() - row,
        {
            let x = copy_list(&lists[row]);
            let mut p: usize = 0;
            while p < out.len() && out[p].len() <= x.len()
                invariant
                    p <= out@.len(),
                    forall|i: int| 0 <= i < p ==> out@[i]@.len() <= x@.len(),
                decreases out.len() - p,
            {
                p += 1;
            }
            let ghost before = out@;
            out.insert(p, x);
            assert forall|i: int, j: int| 0 <= i < j < out@.len() implies anchor_before(
                out@[i]@,
                out@[j]@,
            ) by {
                if j < p {
                    assert(out@[i] == before[i] && out@[j] == before[j]);
                } else if j == p {
                    assert(out@[i] == before[i]);
                } else if i < p {
                    assert(out@[i] == before[i] && out@[j] == before[j - 1]);
                    if j - 1 > p {
                        assert(anchor_before(before[p as int]@, before[j - 1]@));
                    }
                    assert(before[p as int]@.len() > x@.len());
                } else if i == p {
                    assert(out@[j] == before[j - 1]);
                    if j - 1 > p {
                        assert(anchor_before(before[p as int]@, before[j - 1]@));
                    }
                    assert(before[p as int]@.len() > x@.len());
                } else {
                    assert(out@[i] == before[i - 1] && out@[j] == before[j - 1]);
                }
            }
            assert forall|i: int| 0 <= i < out@.len() implies (#[trigger] out@[i])@.len() >= 1 && (
            out@[i]@[0] as int) < row + 1 && candidate_list(m, out@[i]@[0] as int, out@[i]@) by {
                if i < p {
                    assert(out@[i] == before[i]);
                } else if i > p {
                    assert(out@[i] == before[i - 1]);
                }
            }
            row += 1;
        }
        assert(list_views(out@).len() == out@.len());
        assert forall|i: int| 0 <= i < out@.len() implies #[trigger] list_views(out@)[i] == out@[i]@ by {}
        out
    }
}

/// A copy of a list.
pub(crate) fn copy_list(g: &Vec<usize>) -> (r: Vec<usize>)
    ensures
        r@ == g@,
{
    let mut r: Vec<usize> = Vec::new();
    let mut i: usize = 0;
    while i < g.len()
        invariant
            i <= g@.len(),
            r@ == g@.subrange(0, i as int),
        decreases g.len() - i,
    {
        r.push(g[i]);
        assert(g@.subrange(0, i + 1) =~= g@.subrange(0, i as int).push(g@[i as int]));
        i += 1;
    }
    assert(g@.subrange(0, g@.len() as int) =~= g@);
    r
}

proof fn lemma_built_shape(
    rules: Seq<Rule>,
    data: Seq<(String, Vec<(String, String)>)>,
    order: Seq<Seq<char>>,
)
    ensures
        built_matrix(rules, data, order).len() == order.len(),
        forall|x: int|
            0 <= x < order.len() ==> (#[trigger] built_matrix(rules, data, order)[x]).len()
                == order.len(),
    decreases rules.len(),
{
    if rules.len() > 0 {
        lemma_built_shape(rules.drop_last(), data, order);
    }
}

/// Whatever rules are applied, in whatever order, no element is ever paired
/// with itself: every diagonal cell holds the exclusion sentinel.
pub proof fn lemma_diagonal_stays_excluded(
    rules: Seq<Rule>,
    data: Seq<(String, Vec<(String, String)>)>,
    order: Seq<Seq<char>>,
    e: int,
)
    requires
        0 <= e < order.len(),
    ensures
        built_matrix(rules, data, order)[e][e] == i16::MIN,
    decreases rules.len(),
{
    lemma_built_shape(rules, data, order);
    if rules.len() > 0 {
        lemma_diagonal_stays_excluded(rules.drop_last(), data, order, e);
        lemma_built_shape(rules.drop_last(), data, order);
    }
}

/// Once a cell holds the exclusion sentinel, every later rule leaves it there:
/// a soft rule skips the pair, a hard rule can only set the sentinel again.
pub proof fn lemma_exclusion_permanent(
    rules: Seq<Rule>,
    data: Seq<(String, Vec<(String, String)>)>,
    order: Seq<Seq<char>>,
    k: int,
    x: int,
    y: int,
)
    requires
        0 <= k <= rules.len(),
        0 <= x < order.len(),
        0 <= y < order.len(),
        built_matrix(rules.subrange(0, k), data, order)[x][y] == i16::MIN,
    ensures
        built_matrix(rules, data, order)[x][y] == i16::MIN,
    decreases rules.len() - k,
{
    if k < rules.len() {
        let before = rules.subrange(0, k);
        let after = rules.subrange(0, k + 1);
        assert(after.drop_last() =~= before);
        lemma_built_shape(before, data, order);
        assert(built_matrix(after, data, order)[x][y] == i16::MIN);
        lemma_exclusion_permanent(rules, data, order, k + 1, x, y);
    } else {
        assert(rules.subrange(0, k) =~= rules);
    }
}

/// Two tables with the same entries, in any order and with distinct ids,
/// give each element the same fields.
proof fn lemma_same_fields(
    d1: Seq<(String, Vec<(String, String)>)>,
    d2: Seq<(String, Vec<(String, String)>)>,
    id: Seq<char>,
)
    requires
        d1.to_multiset() == d2.to_multiset(),
        unique_ids(d1),
        unique_ids(d2),
    ensures
        element_fields(d1, id) == element_fields(d2, id),
{
    d1.to_multiset_ensures();
    d2.to_multiset_ensures();
    if exists|i: int| first_key(d1, id, i) {
        let i = choose|i: int| first_key(d1, id, i);
        assert(d1.to_multiset().count(d1[i]) > 0);
        assert(d2.contains(d1[i]));
        let j = choose|j: int| 0 <= j < d2.len() && d2[j] == d1[i];
        assert(first_key(d2, id, j));
        let c = choose|c: int| first_key(d2, id, c);
        assert(c == j);
    } else if exists|j: int| first_key(d2, id, j) {
        let j = choose|j: int| first_key(d2, id, j);
        assert(d2.to_multiset().count(d2[j]) > 0);
        assert(d1.contains(d2[j]));
        let i = choose|i: int| 0 <= i < d1.len() && d1[i] == d2[j];
        assert(first_key(d1, id, i));
    }
}

/// The sorted ids of two tables with the same entries are the same members.
proof fn lemma_same_ids(d1: Seq<(String, Vec<(String, String)>)>, d2: Seq<(String, Vec<(String, String)>)>)
    requires
        d1.to_multiset() == d2.to_multiset(),
        unique_ids(d1),
        unique_ids(d2),
    ensures
        names(ids(d1)).to_multiset() == names(ids(d2)).to_multiset(),
{
    let n1 = names(ids(d1));
    let n2 = names(ids(d2));
    d1.to_multiset_ensures();
    d2.to_multiset_ensures();
    n1.to_multiset_ensures();
    n2.to_multiset_ensures();
    assert(n1.no_duplicates());
    assert(n2.no_duplicates());
    n1.lemma_multiset_has_no_duplicates();
    n2.lemma_multiset_has_no_duplicates();
    assert forall|x: Seq<char>| n1.contains(x) <==> n2.contains(x) by {
        if n1.contains(x) {
            let i = choose|i: int| 0 <= i < n1.len() && n1[i] == x;
            assert(d1.to_multiset().count(d1[i]) > 0);
            let j = choose|j: int| 0 <= j < d2.len() && d2[j] == d1[i];
            assert(n2[j] == x);
        }
        if n2.contains(x) {
            let j = choose|j: int| 0 <= j < n2.len() && n2[j] == x;
            assert(d2.to_multiset().count(d2[j]) > 0);
            let i = choose|i: int| 0 <= i < d1.len() && d1[i] == d2[j];
            assert(n1[i] == x);
        }
    }
    assert(n1.to_multiset() =~= n2.to_multiset()) by {
        assert forall|x: Seq<char>| n1.to_multiset().count(x) == n2.to_multiset().count(x) by {
            if n1.contains(x) {
                assert(n1.to_multiset().contains(x));
                assert(n2.to_multiset().contains(x));
            }
        }
    }
}

/// Rules build the same matrix on two tables that give each element the same fields.
proof fn lemma_same_build(
    rules: Seq<Rule>,
    d1: Seq<(String, Vec<(String, String)>)>,
    d2: Seq<(String, Vec<(String, String)>)>,
    order: Seq<Seq<char>>,
)
    requires
        forall|id: Seq<char>| #[trigger] element_fields(d1, id) == element_fields(d2, id),
    ensures
        built_matrix(rules, d1, order) == built_matrix(rules, d2, order),
    decreases rules.len(),
{
    assert forall|r: Rule, a: Seq<char>, b: Seq<char>| #[trigger] r.check_spec(a, b, d1) == r.check_spec(a, b, d2) by {
        assert(element_fields(d1, a) == element_fields(d2, a));
        assert(element_fields(d1, b) == element_fields(d2, b));
    }
    if rules.len() > 0 {
        lemma_same_build(rules.drop_last(), d1, d2, order);
        let m = built_matrix(rules.drop_last(), d1, order);
        assert(applied_matrix(rules.last(), d1, order, m) =~~= applied_matrix(rules.last(), d2, order, m));
    }
}

/// Building twice from tables with the same entries, whatever their order,
/// with the same rules gives the same ordering and the same matrix: the
/// sorted ids admit one ordering only, and lookups find the same fields.
pub proof fn lemma_build_repeatable(
    first_table: Seq<(String, Vec<(String, String)>)>,
    second_table: Seq<(String, Vec<(String, String)>)>,
    rules: Seq<Rule>,
    first: Connections,
    second: Connections,
)
    requires
        first_table.to_multiset() == second_table.to_multiset(),
        unique_ids(first_table),
        unique_ids(second_table),
        is_fixed_order(first_table, names(first.fixed_order@)),
        is_fixed_order(second_table, names(second.fixed_order@)),
        first.grid() == built_matrix(rules, first_table, names(first.fixed_order@)),
        second.grid() == built_matrix(rules, second_table, names(second.fixed_order@)),
    ensures
        names(first.fixed_order@) == names(second.fixed_order@),
        first.grid() == second.grid(),
{
    lemma_same_ids(first_table, second_table);
    lemma_sorted_unique(names(first.fixed_order@), names(second.fixed_order@));
    assert forall|id: Seq<char>| #[trigger] element_fields(first_table, id) == element_fields(second_table, id) by {
        lemma_same_fields(first_table, second_table, id);
    }
    lemma_same_build(rules, first_table, second_table, names(first.fixed_order@));
}

} // verus!
