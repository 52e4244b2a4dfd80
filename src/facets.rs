use vstd::prelude::*;

use crate::assembly::str_eq;

verus! {

pub const FACET_DIRECTION: &'static str = "Direction";

pub const FACET_EFFECT_SIZE: &'static str = "Effect Size";

pub const FACET_CCRE_CATEGORY: &'static str = "cCRE Category";

pub const FACET_CCRE_OVERLAP: &'static str = "cCRE Overlap";

pub const FACET_SIGNIFICANCE: &'static str = "Significance";

pub const FACET_GRNA_TYPE: &'static str = "gRNA Type";

pub const FACET_TYPE_DISCRETE: &'static str = "FacetType.DISCRETE";

/// The side of an observation that a facet applies to.
#[derive(Copy, Clone, Debug, PartialEq, Eq, Hash, Structural)]
pub enum FacetCoverage {
    Target,
    Source,
}

/// The range of a numeric facet: minimum and maximum, as IEEE-754 `f32` bit
/// patterns.
#[derive(Copy, Clone, Debug, PartialEq, Eq, Structural)]
pub struct FacetRange(pub u32, pub u32);

/// A facet of the catalog. `coverage`, `range` and `values` are filled in
/// when the facet is legalized for a run.
#[derive(Clone, Debug)]
pub struct Facet {
    pub id: u64,
    pub name: String,
    pub facet_type: String,
    pub description: String,
    pub coverage: Option<Vec<FacetCoverage>>,
    pub range: Option<FacetRange>,
    pub values: Option<Vec<(u64, String)>>,
}

/// One value of a discrete facet.
#[derive(Clone, Debug)]
pub struct FacetValue {
    pub id: u64,
    pub value: String,
    pub facet_id: u64,
}

/// Mathematical model of a facet.
pub struct FacetModel {
    pub id: u64,
    pub name: Seq<char>,
    pub facet_type: Seq<char>,
    pub description: Seq<char>,
    pub coverage: Option<Seq<FacetCoverage>>,
    pub range: Option<FacetRange>,
    pub values: Option<Seq<(u64, Seq<char>)>>,
}

/// The model of a list of facet values.
pub open spec fn values_view(v: Seq<(u64, String)>) -> Seq<(u64, Seq<char>)> {
    v.map_values(|e: (u64, String)| (e.0, e.1@))
}

impl View for Facet {
    type V = FacetModel;

    open spec fn view(&self) -> FacetModel {
        FacetModel {
            id: self.id,
            name: self.name@,
            facet_type: self.facet_type@,
            description: self.description@,
            coverage: match self.coverage {
                Some(c) => Some(c@),
                None => None,
            },
            range: self.range,
            values: match self.values {
                Some(v) => Some(values_view(v@)),
                None => None,
            },
        }
    }
}

/// The names of the facets a run may report, in order.
pub open spec fn allowlist() -> Seq<Seq<char>> {
    seq![
        FACET_DIRECTION@,
        FACET_EFFECT_SIZE@,
        FACET_CCRE_CATEGORY@,
        FACET_CCRE_OVERLAP@,
        FACET_SIGNIFICANCE@,
        FACET_GRNA_TYPE@,
    ]
}

/// The sides every allowed facet applies to.
pub open spec fn both_sides() -> Seq<FacetCoverage> {
    seq![FacetCoverage::Target, FacetCoverage::Source]
}

/// The facets a run may report, each with the sides it applies to.
pub fn facet_set() -> (r: Vec<(&'static str, Vec<FacetCoverage>)>)
    ensures
        r@.len() == allowlist().len(),
        forall|i: int|
            0 <= i < r@.len() ==> (#[trigger] r@[i]).0@ == allowlist()[i] && r@[i].1@
                == both_sides(),
{
    let mut r: Vec<(&'static str, Vec<FacetCoverage>)> = Vec::new();
    r.push((FACET_DIRECTION, vec![FacetCoverage::Target, FacetCoverage::Source]));
    r.push((FACET_EFFECT_SIZE, vec![FacetCoverage::Target, FacetCoverage::Source]));
    r.push((FACET_CCRE_CATEGORY, vec![FacetCoverage::Target, FacetCoverage::Source]));
    r.push((FACET_CCRE_OVERLAP, vec![FacetCoverage::Target, FacetCoverage::Source]));
    r.push((FACET_SIGNIFICANCE, vec![FacetCoverage::Target, FacetCoverage::Source]));
    r.push((FACET_GRNA_TYPE, vec![FacetCoverage::Target, FacetCoverage::Source]));
    proof {
        assert forall|i: int| 0 <= i < r@.len() implies (#[trigger] r@[i]).0@ == allowlist()[i]
            && r@[i].1@ == both_sides() by {
            assert(r@[i].1@ =~= both_sides());
        }
    }
    r
}

/// Whether `name` is one of the allowed facets.
pub fn is_allowed(name: &str) -> (r: bool)
    ensures
        r == allowlist().contains(name@),
{
    let set = facet_set();
    let mut i: usize = 0;
    while i < set.len()
        invariant
            i <= set@.len(),
            set@.len() == allowlist().len(),
            forall|k: int|
                0 <= k < set@.len() ==> (#[trigger] set@[k]).0@ == allowlist()[k],
            forall|k: int| 0 <= k < i ==> allowlist()[k] != name@,
        decreases set@.len() - i,
    {
        if str_eq(set[i].0, name) {
            proof {
                assert(allowlist()[i as int] == name@);
            }
            return true;
        }
        i = i + 1;
    }
    false
}

/// The catalog values of the facet `facet_id` that the run has observed, in
/// catalog order.
pub open spec fn observed_values(values: Seq<FacetValue>, facet_id: u64, observed: Set<u64>) -> Seq<
    (u64, Seq<char>),
>
    decreases values.len(),
{
    if values.len() == 0 {
        seq![]
    } else {
        let rest = observed_values(values.drop_last(), facet_id, observed);
        let v = values.last();
        if v.facet_id == facet_id && observed.contains(v.id) {
            rest.push((v.id, v.value@))
        } else {
            rest
        }
    }
}

/// What a catalog facet becomes in a run's output, if it is reported: allowed
/// facets apply to both sides; a discrete one carries exactly its observed
/// values and is dropped when there are none; effect size and significance
/// carry their ranges.
pub open spec fn legalized(
    f: FacetModel,
    values: Seq<FacetValue>,
    observed: Set<u64>,
    effect_size_range: FacetRange,
    significance_range: FacetRange,
) -> Option<FacetModel> {
    if !allowlist().contains(f.name) {
        None
    } else {
        let g = FacetModel { coverage: Some(both_sides()), ..f };
        if f.facet_type == FACET_TYPE_DISCRETE@ {
            let vs = observed_values(values, f.id, observed);
            if vs.len() == 0 {
                None
            } else {
                Some(FacetModel { values: Some(vs), ..g })
            }
        } else if f.name == FACET_EFFECT_SIZE@ {
            Some(FacetModel { range: Some(effect_size_range), ..g })
        } else if f.name == FACET_SIGNIFICANCE@ {
            Some(FacetModel { range: Some(significance_range), ..g })
        } else {
            Some(g)
        }
    }
}

/// The reported facets of a catalog, in catalog order.
pub open spec fn legalized_all(
    facets: Seq<FacetModel>,
    values: Seq<FacetValue>,
    observed: Set<u64>,
    effect_size_range: FacetRange,
    significance_range: FacetRange,
) -> Seq<FacetModel>
    decreases facets.len(),
{
    if facets.len() == 0 {
        seq![]
    } else {
        let rest = legalized_all(
            facets.drop_last(),
            values,
            observed,
            effect_size_range,
            significance_range,
        );
        match legalized(facets.last(), values, observed, effect_size_range, significance_range) {
            Some(g) => rest.push(g),
            None => rest,
        }
    }
}

/// The models of a list of facets.
pub open spec fn facets_view(v: Seq<Facet>) -> Seq<FacetModel> {
    v.map_values(|f: Facet| f@)
}

/// Copies a list of facet values.
fn copy_values(v: &Vec<(u64, String)>) -> (r: Vec<(u64, String)>)
    ensures
        values_view(r@) == values_view(v@),
{
    let mut r: Vec<(u64, String)> = Vec::new();
    let mut i: usize = 0;
    while i < v.len()
        invariant
            i <= v@.len(),
            values_view(r@) == values_view(v@.subrange(0, i as int)),
        decreases v@.len() - i,
    {
        let ghost before = r@;
        let c = v[i].1.clone();
        r.push((v[i].0, c));
        proof {
            assert(r@ == before.push((v@[i as int].0, c)));
            assert(values_view(v@.subrange(0, i + 1)) =~= values_view(v@.subrange(0, i as int)).push(
                (v@[i as int].0, v@[i as int].1@),
            ));
            assert(values_view(r@) =~= values_view(before).push((v@[i as int].0, c@)));
        }
        i = i + 1;
    }
    proof {
        assert(v@.subrange(0, i as int) =~= v@);
    }
    r
}

/// Copies a facet, field by field.
pub fn copy_facet(f: &Facet) -> (r: Facet)
    ensures
        r@ == f@,
{
    Facet {
        id: f.id,
        name: f.name.clone(),
        facet_type: f.facet_type.clone(),
        description: f.description.clone(),
        coverage: match &f.coverage {
            Some(c) => Some(c.clone()),
            None => None,
        },
        range: f.range,
        values: match &f.values {
            Some(v) => Some(copy_values(v)),
            None => None,
        },
    }
}

/// The catalog values of the facet `facet_id` that the run has observed, in
/// catalog order.
pub fn observed_facet_values(values: &Vec<FacetValue>, facet_id: u64, observed: &Vec<u64>) -> (r: Vec<
    (u64, String),
>)
    ensures
        values_view(r@) == observed_values(values@, facet_id, observed@.to_set()),
{
    let mut r: Vec<(u64, String)> = Vec::new();
    let mut i: usize = 0;
    while i < values.len()
        invariant
            i <= values@.len(),
            values_view(r@) == observed_values(
                values@.subrange(0, i as int),
                facet_id,
                observed@.to_set(),
            ),
        decreases values@.len() - i,
    {
        let v = &values[i];
        proof {
            assert(values@.subrange(0, i + 1).drop_last() =~= values@.subrange(0, i as int));
        }
        if v.facet_id == facet_id && crate::regeffects::contains_id(observed, v.id) {
            r.push((v.id, v.value.clone()));
            proof {
                assert(values_view(r@) =~= observed_values(
                    values@.subrange(0, i + 1),
                    facet_id,
                    observed@.to_set(),
                ));
            }
        }
        i = i + 1;
    }
    proof {
        assert(values@.subrange(0, i as int) =~= values@);
    }
    r
}

/// What one catalog facet becomes in the run's output, if it is reported.
pub fn legalize_facet(
    f: &Facet,
    values: &Vec<FacetValue>,
    observed: &Vec<u64>,
    effect_size_range: FacetRange,
    significance_range: FacetRange,
) -> (r: Option<Facet>)
    ensures
        match legalized(f@, values@, observed@.to_set(), effect_size_range, significance_range) {
            Some(g) => r matches Some(h) && h@ == g,
            None => r is None,
        },
{
    if !is_allowed(f.name.as_str()) {
        return None;
    }
    let mut g = copy_facet(f);
    g.coverage = Some(vec![FacetCoverage::Target, FacetCoverage::Source]);
    proof {
        assert(g.coverage->0@ =~= both_sides());
    }
    if str_eq(f.facet_type.as_str(), FACET_TYPE_DISCRETE) {
        let vs = observed_facet_values(values, f.id, observed);
        if vs.len() == 0 {
            None
        } else {
            g.values = Some(vs);
            Some(g)
        }
    } else if str_eq(f.name.as_str(), FACET_EFFECT_SIZE) {
        g.range = Some(effect_size_range);
        Some(g)
    } else if str_eq(f.name.as_str(), FACET_SIGNIFICANCE) {
        g.range = Some(significance_range);
        Some(g)
    } else {
        Some(g)
    }
}

/// The facets a run reports, in catalog order: each catalog facet as
/// `legalize_facet` makes it, those it drops left out.
pub fn legalize_facets(
    all_facets: &Vec<Facet>,
    values: &Vec<FacetValue>,
    observed: &Vec<u64>,
    effect_size_range: FacetRange,
    significance_range: FacetRange,
) -> (r: Vec<Facet>)
    ensures
        facets_view(r@) == legalized_all(
            facets_view(all_facets@),
            values@,
            observed@.to_set(),
            effect_size_range,
            significance_range,
        ),
{
    let mut r: Vec<Facet> = Vec::new();
    let mut i: usize = 0;
    while i < all_facets.len()
        invariant
            i <= all_facets@.len(),
            facets_view(r@) == legalized_all(
                facets_view(all_facets@.subrange(0, i as int)),
                values@,
                observed@.to_set(),
                effect_size_range,
                significance_range,
            ),
        decreases all_facets@.len() - i,
    {
        proof {
            assert(facets_view(all_facets@.subrange(0, i + 1)).drop_last() =~= facets_view(
                all_facets@.subrange(0, i as int),
            ));
            assert(facets_view(all_facets@.subrange(0, i + 1)).last() == all_facets@[i as int]@);
        }
        match legalize_facet(
            &all_facets[i],
            values,
            observed,
            effect_size_range,
            significance_range,
        ) {
            Some(g) => {
                r.push(g);
                proof {
                    assert(facets_view(r@) =~= legalized_all(
                        facets_view(all_facets@.subrange(0, i + 1)),
                        values@,
                        observed@.to_set(),
                        effect_size_range,
                        significance_range,
                    ));
                }
            },
            None => {},
        }
        i = i + 1;
    }
    proof {
        assert(all_facets@.subrange(0, i as int) =~= all_facets@);
    }
    r
}

/// An entry is among a facet's observed values exactly when some catalog value
/// of that facet, observed in the run, carries it.
pub proof fn lemma_observed_values_members(values: Seq<FacetValue>, facet_id: u64, observed: Set<u64>)
    ensures
        forall|e: (u64, Seq<char>)|
            #[trigger] observed_values(values, facet_id, observed).contains(e) <==> exists|k: int|
                0 <= k < values.len() && (#[trigger] values[k]).facet_id == facet_id
                    && observed.contains(values[k].id) && e == (values[k].id, values[k].value@),
        observed_values(values, facet_id, observed).len() == 0 <==> forall|k: int|
            0 <= k < values.len() ==> !((#[trigger] values[k]).facet_id == facet_id
                && observed.contains(values[k].id)),
    decreases values.len(),
{
    if values.len() > 0 {
        let init = values.drop_last();
        let last = values.len() - 1;
        lemma_observed_values_members(init, facet_id, observed);
        let rest = observed_values(init, facet_id, observed);
        let all = observed_values(values, facet_id, observed);
        assert forall|e: (u64, Seq<char>)|
            #[trigger] all.contains(e) <==> exists|k: int|
                0 <= k < values.len() && (#[trigger] values[k]).facet_id == facet_id
                    && observed.contains(values[k].id) && e == (values[k].id, values[k].value@) by {
            if all.contains(e) {
                if rest.contains(e) {
                    let k = choose|k: int|
                        0 <= k < init.len() && (#[trigger] init[k]).facet_id == facet_id
                            && observed.contains(init[k].id) && e == (init[k].id, init[k].value@);
                    assert(values[k] == init[k]);
                } else {
                    assert(all == rest.push((values[last].id, values[last].value@)));
                    assert(all.last() == e) by {
                        let i = choose|i: int| 0 <= i < all.len() && all[i] == e;
                        if i < rest.len() {
                            assert(rest[i] == all[i]);
                        }
                    }
                }
            } else {
                assert forall|k: int| 0 <= k < values.len() && #[trigger] values[k].facet_id == facet_id
                    && observed.contains(values[k].id) implies e != (values[k].id, values[k].value@) by {
                    if k < last {
                        assert(values[k] == init[k]);
                        if e == (values[k].id, values[k].value@) {
                            assert(rest.contains(e));
                            assert(all == rest.push((values[last].id, values[last].value@)) || all == rest);
                            let i = choose|i: int| 0 <= i < rest.len() && rest[i] == e;
                            assert(all[i] == e);
                        }
                    } else {
                        assert(all.last() == (values[last].id, values[last].value@));
                    }
                }
            }
        }
        if all.len() == 0 {
            assert forall|k: int| 0 <= k < values.len() implies !((#[trigger] values[k]).facet_id
                == facet_id && observed.contains(values[k].id)) by {
                if k < last {
                    assert(values[k] == init[k]);
                }
            }
        } else {
            let e = all[0];
            assert(all.contains(e));
        }
    }
}

/// A discrete facet of the allowlist is reported exactly when the run has
/// observed at least one of its catalog values, and then with exactly the
/// observed ones, never the rest of the catalog.
pub proof fn lemma_discrete_facet_legalized(
    f: FacetModel,
    values: Seq<FacetValue>,
    observed: Set<u64>,
    effect_size_range: FacetRange,
    significance_range: FacetRange,
)
    requires
        allowlist().contains(f.name),
        f.facet_type == FACET_TYPE_DISCRETE@,
    ensures
        legalized(f, values, observed, effect_size_range, significance_range) is None
            <==> forall|k: int|
            0 <= k < values.len() ==> !((#[trigger] values[k]).facet_id == f.id && observed.contains(
                values[k].id,
            )),
        legalized(f, values, observed, effect_size_range, significance_range) matches Some(g) ==> {
            &&& g.id == f.id
            &&& g.name == f.name
            &&& g.values matches Some(vs) && forall|e: (u64, Seq<char>)|
                #[trigger] vs.contains(e) <==> exists|k: int|
                    0 <= k < values.len() && (#[trigger] values[k]).facet_id == f.id
                        && observed.contains(values[k].id) && e == (values[k].id, values[k].value@)
        },
{
    lemma_observed_values_members(values, f.id, observed);
}

} // verus!
