use vstd::prelude::*;

use crate::aggregate::{distinct_ordinals, AggregationError, BucketIndex, Observation};
use crate::assembly::{
    assembly_lengths, filter_view, filtered, find_chrom, is_table, lemma_find_chrom_bounds,
    select_assembly, str_eq, AssemblyError, Chromosome,
};
use crate::coverage::{chromosome_output, CoverageData};
use crate::facets::{
    facets_view, legalize_facets, legalized_all, Facet, FacetModel, FacetRange, FacetValue,
    FACET_CCRE_CATEGORY, FACET_CCRE_OVERLAP, FACET_DIRECTION, FACET_GRNA_TYPE,
};

verus! {

/// Why a run could not build its artifact.
#[derive(Copy, Clone, Debug, PartialEq, Eq, Structural)]
pub enum BuildError {
    /// The bucket size is zero.
    InvalidBucketSize,
    /// The assembly name is not a supported one.
    UnknownAssembly,
    /// The catalog lacks a facet that the aggregation reads.
    MissingFacet,
    /// An observation lacks a numeric facet.
    Aggregation(AggregationError),
}

/// The id of the first facet of the catalog with the given name.
pub open spec fn facet_id_named(facets: Seq<FacetModel>, name: Seq<char>) -> Option<u64>
    decreases facets.len(),
{
    if facets.len() == 0 {
        None
    } else {
        match facet_id_named(facets.drop_last(), name) {
            Some(id) => Some(id),
            None => if facets.last().name == name {
                Some(facets.last().id)
            } else {
                None
            },
        }
    }
}

/// The ids of the facets whose values a source contributes: cCRE overlap,
/// cCRE category and gRNA type, if the catalog has all three.
pub open spec fn source_facet_ids(facets: Seq<FacetModel>) -> Option<Seq<u64>> {
    match (
        facet_id_named(facets, FACET_CCRE_OVERLAP@),
        facet_id_named(facets, FACET_CCRE_CATEGORY@),
        facet_id_named(facets, FACET_GRNA_TYPE@),
    ) {
        (Some(a), Some(b), Some(c)) => Some(seq![a, b, c]),
        _ => None,
    }
}

/// Looks a facet's id up by name.
pub fn find_facet_id(facets: &Vec<Facet>, name: &str) -> (r: Option<u64>)
    ensures
        r == facet_id_named(facets_view(facets@), name@),
{
    let mut i: usize = 0;
    while i < facets.len()
        invariant
            i <= facets@.len(),
            facet_id_named(facets_view(facets@.subrange(0, i as int)), name@) is None,
        decreases facets@.len() - i,
    {
        proof {
            assert(facets_view(facets@.subrange(0, i + 1)).drop_last() =~= facets_view(
                facets@.subrange(0, i as int),
            ));
            assert(facets_view(facets@.subrange(0, i + 1)).last() == facets@[i as int]@);
        }
        if str_eq(facets[i].name.as_str(), name) {
            proof {
                lemma_facet_id_prefix(facets_view(facets@), name@, i as int + 1);
                assert(facets_view(facets@.subrange(0, i + 1)) =~= facets_view(facets@).subrange(
                    0,
                    i + 1,
                ));
            }
            return Some(facets[i].id);
        }
        i = i + 1;
    }
    proof {
        assert(facets@.subrange(0, i as int) =~= facets@);
    }
    None
}

/// A match found in a prefix is the match of the whole catalog.
proof fn lemma_facet_id_prefix(facets: Seq<FacetModel>, name: Seq<char>, n: int)
    requires
        0 <= n <= facets.len(),
        facet_id_named(facets.subrange(0, n), name) is Some,
    ensures
        facet_id_named(facets, name) == facet_id_named(facets.subrange(0, n), name),
    decreases facets.len() - n,
{
    if n < facets.len() {
        assert(facets.subrange(0, n + 1).drop_last() =~= facets.subrange(0, n));
        lemma_facet_id_prefix(facets, name, n + 1);
    } else {
        assert(facets.subrange(0, n) =~= facets);
    }
}

/// The chromosomes of a whole assembly table, or of one of them, carry
/// distinct ordinals.
proof fn lemma_filtered_distinct(table: Seq<Chromosome>, lengths: Seq<u32>, filter: Option<Seq<char>>)
    requires
        is_table(table, lengths),
    ensures
        distinct_ordinals(filtered(table, filter)),
{
    let r = filtered(table, filter);
    assert forall|p: int, q: int|
        0 <= p < r.len() && 0 <= q < r.len() && p != q implies (#[trigger] r[p]).index
        != (#[trigger] r[q]).index by {
        assert(table[p].index == p && table[q].index == q);
    }
}

/// Builds a run's artifact from the catalog and the observations in scope.
/// The chromosomes are those of the assembly, or the one that `chromo` names;
/// every observation is aggregated into the buckets of its sources and targets;
/// the facets are the catalog's as legalized against the values observed in
/// the run and the numeric ranges given.
pub fn build_data(
    assembly_name: &str,
    chromo: Option<&str>,
    bucket_size: u32,
    all_facets: &Vec<Facet>,
    all_values: &Vec<FacetValue>,
    observations: &Vec<Observation>,
    effect_size_range: FacetRange,
    significance_range: FacetRange,
) -> (r: Result<CoverageData, BuildError>)
    ensures
        bucket_size == 0 ==> r == Err::<CoverageData, _>(BuildError::InvalidBucketSize),
        bucket_size > 0 && assembly_lengths(assembly_name@) is None ==> r == Err::<
            CoverageData,
            _,
        >(BuildError::UnknownAssembly),
        bucket_size > 0 && assembly_lengths(assembly_name@) is Some && (facet_id_named(
            facets_view(all_facets@),
            FACET_DIRECTION@,
        ) is None || source_facet_ids(facets_view(all_facets@)) is None) ==> r == Err::<
            CoverageData,
            _,
        >(BuildError::MissingFacet),
        r == Err::<CoverageData, _>(BuildError::InvalidBucketSize) ==> bucket_size == 0,
        r == Err::<CoverageData, _>(BuildError::UnknownAssembly) ==> assembly_lengths(
            assembly_name@,
        ) is None,
        r == Err::<CoverageData, _>(BuildError::MissingFacet) ==> facet_id_named(
            facets_view(all_facets@),
            FACET_DIRECTION@,
        ) is None || source_facet_ids(facets_view(all_facets@)) is None,
        r matches Err(BuildError::Aggregation(_)) ==> exists|k: int|
            0 <= k < observations@.len() && ((#[trigger] observations@[k]).effect_size is None
                || observations@[k].significance is None),
        r is Ok ==> bucket_size > 0 && assembly_lengths(assembly_name@) is Some && forall|k: int|
            0 <= k < observations@.len() ==> (#[trigger] observations@[k]).effect_size is Some
                && observations@[k].significance is Some,
        r matches Ok(cov) ==> exists|index: BucketIndex|
            {
                &&& index.wf()
                &&& index.bucket_size == bucket_size
                &&& (exists|table: Seq<Chromosome>|
                    is_table(table, assembly_lengths(assembly_name@)->0) && index.chroms@
                        == filtered(table, filter_view(chromo)))
                &&& Some(index.direction_facet) == facet_id_named(
                    facets_view(all_facets@),
                    FACET_DIRECTION@,
                )
                &&& Some(index.source_facets@) == source_facet_ids(facets_view(all_facets@))
                &&& (exists|start: BucketIndex|
                    start.wf() && start.is_empty() && start.applied_all(&index, observations@))
                &&& forall|k: int|
                    0 <= k < observations@.len() ==> index.linked_by(#[trigger] observations@[k])
                &&& index.facet_ids@.to_set() == index.all_payload_ids(observations@)
                &&& cov@.facets == legalized_all(
                    facets_view(all_facets@),
                    all_values@,
                    index.facet_ids@.to_set(),
                    effect_size_range,
                    significance_range,
                )
                &&& cov@.chromosomes.len() == index.chroms@.len()
                &&& forall|p: int|
                    0 <= p < index.chroms@.len() ==> #[trigger] cov@.chromosomes[p]
                        == chromosome_output(&index, p)
            },
{
    if bucket_size == 0 {
        return Err(BuildError::InvalidBucketSize);
    }
    let chroms = match select_assembly(assembly_name, chromo) {
        Ok(c) => c,
        Err(AssemblyError::UnknownAssembly) => return Err(BuildError::UnknownAssembly),
    };
    let ghost table = choose|table: Seq<Chromosome>|
        is_table(table, assembly_lengths(assembly_name@)->0) && chroms@ == filtered(
            table,
            filter_view(chromo),
        );
    proof {
        lemma_filtered_distinct(table, assembly_lengths(assembly_name@)->0, filter_view(chromo));
    }
    let direction = match find_facet_id(all_facets, FACET_DIRECTION) {
        Some(id) => id,
        None => return Err(BuildError::MissingFacet),
    };
    let overlap = match find_facet_id(all_facets, FACET_CCRE_OVERLAP) {
        Some(id) => id,
        None => return Err(BuildError::MissingFacet),
    };
    let category = match find_facet_id(all_facets, FACET_CCRE_CATEGORY) {
        Some(id) => id,
        None => return Err(BuildError::MissingFacet),
    };
    let grna = match find_facet_id(all_facets, FACET_GRNA_TYPE) {
        Some(id) => id,
        None => return Err(BuildError::MissingFacet),
    };
    let source_facets = vec![overlap, category, grna];
    proof {
        assert(source_facets@ =~= seq![overlap, category, grna]);
    }
    let mut index = BucketIndex::new(chroms, bucket_size, direction, source_facets);
    let ghost start = index;
    match index.add_observations(observations) {
        Ok(()) => {},
        Err(e) => return Err(BuildError::Aggregation(e)),
    }
    proof {
        assert(start.facet_ids@.to_set() =~= Set::<u64>::empty());
        assert(start.wf() && start.is_empty() && start.applied_all(&index, observations@));
        assert(index.facet_ids@.to_set() =~= start.all_payload_ids(observations@));
        lemma_all_payload_ids_frame(&start, &index, observations@);
    }
    let facets = legalize_facets(
        all_facets,
        all_values,
        &index.facet_ids,
        effect_size_range,
        significance_range,
    );
    let cov = index.coverage_data(facets);
    Ok(cov)
}

/// The payload ids of observations depend only on the arena's chromosomes,
/// bucket size and facet configuration.
proof fn lemma_all_payload_ids_frame(a: &BucketIndex, b: &BucketIndex, obs: Seq<Observation>)
    requires
        a.chroms@ == b.chroms@,
        a.bucket_size == b.bucket_size,
        a.direction_facet == b.direction_facet,
        a.source_facets@ == b.source_facets@,
    ensures
        a.all_payload_ids(obs) == b.all_payload_ids(obs),
    decreases obs.len(),
{
    if obs.len() > 0 {
        lemma_all_payload_ids_frame(a, b, obs.drop_last());
    }
}

} // verus!
