//! The input of one run, its result, and the run itself: build the matrix
//! from the rules, then search for the best partition.
use vstd::prelude::*;
use crate::connections::{
    built_matrix, fixed_order_of, is_anchor_order, list_views, rules_resolve, Connections,
};
use crate::rules::{unique_ids, Attributes, LookupError, Rule};
use crate::search::{
    calc_max_combinations, is_plan, lemma_partition_valid, none_placed, plan_score, quota_wf, stuck_path,
    valid_partition,
    NoViableOutput,
};

verus! {

#[derive(Clone, Debug)]
pub struct MatchingData {
    /// Field id with the text that describes the field.
    pub fields: Vec<(String, String)>,
    /// Element id with its `(field id, value)` pairs.
    pub elements: Attributes,
    /// The rules, applied in this order.
    pub rules: Vec<Rule>,
    /// Group size with the number of groups of that size still allowed; a
    /// negative number means no limit.
    pub outputs: Vec<(usize, i16)>,
}

impl MatchingData {
    pub fn new() -> (r: Self)
        ensures
            r.fields@.len() == 0,
            r.elements@.len() == 0,
            r.rules@.len() == 0,
            r.outputs@.len() == 0,
    {
        MatchingData {
            fields: Vec::new(),
            elements: Vec::new(),
            rules: Vec::new(),
            outputs: Vec::new(),
        }
    }
}

impl Default for MatchingData {
    fn default() -> (r: Self)
        ensures
            r.fields@.len() == 0,
            r.elements@.len() == 0,
            r.rules@.len() == 0,
            r.outputs@.len() == 0,
    {
        MatchingData::new()
    }
}

/// The best partition found: its total score and its groups of element
/// indices into the fixed ordering.
#[derive(Clone, Debug)]
pub struct MatchingResult {
    pub score: i32,
    pub connections: Vec<Vec<usize>>,
}

/// Why a run stopped without a result.
#[derive(Clone, Debug)]
pub enum MatchError {
    /// A rule reads an element or a field that the attribute table lacks.
    Lookup(LookupError),
    /// A group remains that no size of the quota table can take any more.
    NoViableOutput,
}

/// What the search returns over the matrix `m` and the anchor lists `a`.
pub open spec fn search_outcome(
    m: Seq<Seq<i16>>,
    a: Seq<Seq<usize>>,
    q: Seq<(usize, i16)>,
    r: Result<MatchingResult, MatchError>,
) -> bool {
    let placed = none_placed(m.len());
    &&& (r matches Err(MatchError::NoViableOutput)) <==> exists|p: Seq<Seq<usize>>|
        stuck_path(m, a, 0, placed, q, p)
    &&& r matches Ok(res) ==> {
        &&& (res.score == i32::MIN <==> !exists|p: Seq<Seq<usize>>| is_plan(m, a, 0, placed, q, p))
        &&& res.score == i32::MIN ==> res.connections@.len() == 0
        &&& res.score != i32::MIN ==> {
            &&& is_plan(m, a, 0, placed, q, list_views(res.connections@))
            &&& valid_partition(m, q, list_views(res.connections@))
            &&& res.score == plan_score(m, list_views(res.connections@))
            &&& forall|p: Seq<Seq<usize>>|
                is_plan(m, a, 0, placed, q, p) ==> plan_score(m, p) <= res.score
        }
    }
}

/// `r` is what the search returns over the matrix built from `data`, with
/// the anchor lists `a` in the order that the search walks them.
pub open spec fn run_outcome(
    data: MatchingData,
    a: Seq<Seq<usize>>,
    r: Result<MatchingResult, MatchError>,
) -> bool {
    let m = built_matrix(data.rules@, data.elements@, fixed_order_of(data.elements@));
    is_anchor_order(m, a) && search_outcome(m, a, data.outputs@, r)
}

/// Builds the matrix from the elements and the rules, then finds the best
/// partition of the elements under the quota table, trying the most
/// constrained elements first. A score of `i32::MIN` means that no
/// partition exists.
pub fn process(matching_data: &MatchingData) -> (r: Result<MatchingResult, MatchError>)
    requires
        unique_ids(matching_data.elements@),
        matching_data.elements@.len() <= 255,
        quota_wf(matching_data.outputs@),
    ensures
        (r matches Err(MatchError::Lookup(_))) <==> !rules_resolve(
            matching_data.rules@,
            matching_data.elements@,
            fixed_order_of(matching_data.elements@),
        ),
        rules_resolve(
            matching_data.rules@,
            matching_data.elements@,
            fixed_order_of(matching_data.elements@),
        ) ==> exists|a: Seq<Seq<usize>>| #[trigger] run_outcome(*matching_data, a, r),
{
    let connections = match Connections::build(&matching_data.elements, &matching_data.rules) {
        Ok(c) => c,
        Err(e) => return Err(MatchError::Lookup(e)),
    };
    let ghost m = connections.grid();
    let anchors = connections.anchor_order();
    let ghost a = list_views(anchors@);
    let n = connections.len();
    let mut ignore: Vec<bool> = Vec::new();
    let mut i: usize = 0;
    while i < n
        invariant
            i <= n,
            ignore@ == none_placed(i as nat),
        decreases n - i,
    {
        ignore.push(false);
        assert(ignore@ =~= none_placed((i + 1) as nat));
        i += 1;
    }
    let res = calc_max_combinations(&connections, &anchors, 0, ignore, &matching_data.outputs);
    proof {
        if res is Ok {
            let (score, groups) = res->Ok_0;
            if score != i32::MIN {
                lemma_partition_valid(m, a, matching_data.outputs@, list_views(groups@));
            }
        }
    }
    let r = match res {
        Ok((score, groups)) => Ok(MatchingResult { score, connections: groups }),
        Err(NoViableOutput) => Err(MatchError::NoViableOutput),
    };
    assert(run_outcome(*matching_data, a, r));
    r
}

} // verus!
