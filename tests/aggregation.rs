use cov_viz::aggregate::{AggregationError, BucketIndex, FacetLink, Observation, SourceFeature, TargetFeature};
use cov_viz::assembly::{bucket_count, select_assembly, AssemblyError, Chromosome};
use cov_viz::regeffects::Bucket;

const DIRECTION: u64 = 1;
const OVERLAP: u64 = 2;
const CATEGORY: u64 = 3;
const GRNA: u64 = 4;

fn index_for(assembly: &str, chromo: Option<&str>, bucket_size: u32) -> BucketIndex {
    let chroms = select_assembly(assembly, chromo).unwrap();
    BucketIndex::new(chroms, bucket_size, DIRECTION, vec![OVERLAP, CATEGORY, GRNA])
}

fn source(chrom: &str, start: u32, facets: Vec<FacetLink>) -> SourceFeature {
    SourceFeature { id: 100, chrom: chrom.to_string(), start, facets }
}

fn target(chrom: &str, start: u32, end: u32, strand: &str) -> TargetFeature {
    TargetFeature { id: 200, chrom: chrom.to_string(), start, end, strand: strand.to_string() }
}

fn observation(sources: Vec<SourceFeature>, targets: Vec<TargetFeature>) -> Observation {
    Observation {
        id: 9,
        effect_size: Some(1.5f32.to_bits()),
        significance: Some(0.01f32.to_bits()),
        facets: vec![FacetLink { value_id: 7, facet_id: DIRECTION }],
        sources,
        targets,
    }
}

fn sorted(mut v: Vec<u64>) -> Vec<u64> {
    v.sort();
    v
}

#[test]
fn bucket_count_rounds_up() {
    assert_eq!(bucket_count(248_956_422, 2_000_000), 125);
    assert_eq!(bucket_count(4_000_000, 2_000_000), 2);
    assert_eq!(bucket_count(4_000_001, 2_000_000), 3);
    assert_eq!(bucket_count(0, 2_000_000), 0);
    assert_eq!(bucket_count(16_569, 2_000_000), 1);
    assert_eq!(bucket_count(u32::MAX, 1), u32::MAX);
}

#[test]
fn every_chromosome_gets_its_bucket_count() {
    for assembly in ["GRCH37", "GRCH38"] {
        let index = index_for(assembly, None, 1_000_000);
        assert_eq!(index.chroms.len(), 25);
        for (p, c) in index.chroms.iter().enumerate() {
            let n = ((c.length as u64 + 999_999) / 1_000_000) as usize;
            assert_eq!(index.sources[p].len(), n);
            assert_eq!(index.targets[p].len(), n);
        }
    }
}

#[test]
fn assemblies_resolve_in_ordinal_order() {
    let g38 = select_assembly("GRCH38", None).unwrap();
    assert_eq!(g38.len(), 25);
    assert_eq!(g38[0].name, "1");
    assert_eq!(g38[0].length, 248_956_422);
    assert_eq!(g38[22].name, "X");
    assert_eq!(g38[24].name, "MT");
    assert_eq!(g38[24].index, 24);
    let g37 = select_assembly("GRCH37", None).unwrap();
    assert_eq!(g37[0].length, 249_250_621);
    assert_eq!(g37[23].name, "Y");
    assert_eq!(g37[23].length, 59_373_566);
}

#[test]
fn unknown_assembly_is_refused() {
    assert_eq!(select_assembly("hg19", None).unwrap_err(), AssemblyError::UnknownAssembly);
    assert_eq!(select_assembly("grch38", Some("chr1")).unwrap_err(), AssemblyError::UnknownAssembly);
}

#[test]
fn chromosome_filter_keeps_one_chromosome() {
    let with_prefix: Vec<Chromosome> = select_assembly("GRCH38", Some("chr7")).unwrap();
    assert_eq!(with_prefix.len(), 1);
    assert_eq!(with_prefix[0].name, "7");
    assert_eq!(with_prefix[0].index, 6);
    assert_eq!(with_prefix[0].length, 159_345_973);
    let bare = select_assembly("GRCH38", Some("7")).unwrap();
    assert_eq!(bare.len(), 1);
    assert_eq!(bare[0].name, "7");
    assert!(select_assembly("GRCH38", Some("chrZ")).unwrap().is_empty());
}

#[test]
fn single_source_without_target() {
    let mut index = index_for("GRCH38", None, 2_000_000);
    assert_eq!(index.sources[0].len(), 125);
    let obs = observation(vec![source("chr1", 1_000_001, vec![])], vec![]);
    let payload = index.add_observation(&obs).unwrap();
    assert_eq!(payload.0, vec![7]);
    let bucket = &index.sources[0][0];
    assert_eq!(bucket.facets.len(), 1);
    assert_eq!(bucket.facets[0].0, vec![7]);
    assert_eq!(f32::from_bits(bucket.facets[0].1), 1.5);
    assert_eq!(f32::from_bits(bucket.facets[0].2), 0.01);
    assert!(bucket.associated_buckets.is_empty());
    for p in 0..index.chroms.len() {
        for (i, d) in index.sources[p].iter().enumerate() {
            if !(p == 0 && i == 0) {
                assert!(d.facets.is_empty());
            }
        }
        assert!(index.targets[p].iter().all(|d| d.facets.is_empty()));
    }
    let cov = index.coverage_data(vec![]);
    assert_eq!(cov.chromosomes.len(), 25);
    assert_eq!(cov.chromosomes[0].chrom, "1");
    assert_eq!(cov.chromosomes[0].source_intervals.len(), 1);
    assert_eq!(cov.chromosomes[0].source_intervals[0].start, 1);
    assert!(cov.chromosomes.iter().all(|c| c.target_intervals.is_empty()));
    assert_eq!(index.facet_ids, vec![7]);
}

#[test]
fn source_and_target_are_linked_both_ways() {
    let mut index = index_for("GRCH38", None, 2_000_000);
    let obs = observation(
        vec![source("chr1", 5_000_000, vec![])],
        vec![target("chr2", 9_000_000, 9_500_000, "+")],
    );
    index.add_observation(&obs).unwrap();
    let s = &index.sources[0][2];
    let t = &index.targets[1][4];
    assert_eq!(s.associated_buckets, vec![Bucket(1, 4)]);
    assert_eq!(t.associated_buckets, vec![Bucket(0, 2)]);
    assert_eq!(s.facets.len(), 1);
    assert_eq!(t.facets.len(), 1);
    assert!(index.sources[1][4].facets.is_empty());
    assert!(index.targets[0][2].facets.is_empty());
}

#[test]
fn payloads_accumulate_and_links_are_sets() {
    let mut index = index_for("GRCH38", None, 2_000_000);
    let obs = observation(
        vec![source("chr1", 10, vec![]), source("chr1", 20, vec![])],
        vec![target("chr1", 30, 40, "+"), target("chr3", 2_000_000, 2_000_100, "+")],
    );
    index.add_observation(&obs).unwrap();
    index.add_observation(&obs).unwrap();
    let s = &index.sources[0][0];
    assert_eq!(s.facets.len(), 2);
    assert_eq!(s.associated_buckets.len(), 2);
    assert!(s.associated_buckets.contains(&Bucket(0, 0)));
    assert!(s.associated_buckets.contains(&Bucket(2, 1)));
    let t = &index.targets[2][1];
    assert_eq!(t.facets.len(), 2);
    assert_eq!(t.associated_buckets, vec![Bucket(0, 0)]);
}

#[test]
fn minus_strand_target_anchors_at_its_end() {
    let mut index = index_for("GRCH38", None, 1_000);
    let obs = observation(vec![], vec![target("chr1", 500, 2_500, "-"), target("chr2", 500, 2_500, "+")]);
    index.add_observation(&obs).unwrap();
    assert_eq!(index.targets[0][2].facets.len(), 1);
    assert!(index.targets[0][0].facets.is_empty());
    assert_eq!(index.targets[1][0].facets.len(), 1);
    assert!(index.targets[1][2].facets.is_empty());
}

#[test]
fn filter_drops_sources_on_other_chromosomes() {
    let mut index = index_for("GRCH38", Some("chr7"), 2_000_000);
    assert_eq!(index.chroms.len(), 1);
    assert_eq!(index.sources[0].len(), 80);
    let obs = observation(
        vec![source("chr1", 10, vec![FacetLink { value_id: 50, facet_id: OVERLAP }])],
        vec![target("chr7", 4_100_000, 4_200_000, "+")],
    );
    index.add_observation(&obs).unwrap();
    let t = &index.targets[0][2];
    assert_eq!(t.facets.len(), 1);
    assert_eq!(t.facets[0].0, vec![7]);
    assert!(t.associated_buckets.is_empty());
    assert!(index.sources[0].iter().all(|d| d.facets.is_empty()));
    let cov = index.coverage_data(vec![]);
    assert_eq!(cov.chromosomes.len(), 1);
    assert_eq!(cov.chromosomes[0].chrom, "7");
    assert_eq!(cov.chromosomes[0].target_intervals.len(), 1);
    assert_eq!(cov.chromosomes[0].target_intervals[0].start, 4_000_001);
}

#[test]
fn unknown_chromosomes_and_positions_past_the_end_are_skipped() {
    let mut index = index_for("GRCH38", None, 2_000_000);
    let obs = observation(
        vec![source("chrUn_KI270302v1", 10, vec![]), source("chrMT", 3_000_000, vec![])],
        vec![target("chr22_KI270731v1_random", 10, 20, "+")],
    );
    let payload = index.add_observation(&obs).unwrap();
    assert_eq!(payload.0, vec![7]);
    for p in 0..index.chroms.len() {
        assert!(index.sources[p].iter().all(|d| d.facets.is_empty()));
        assert!(index.targets[p].iter().all(|d| d.facets.is_empty()));
    }
}

#[test]
fn payload_joins_direction_and_source_facets() {
    let mut index = index_for("GRCH38", None, 2_000_000);
    let mut obs = observation(
        vec![
            source("chr1", 10, vec![FacetLink { value_id: 50, facet_id: OVERLAP }, FacetLink { value_id: 60, facet_id: 99 }]),
            source("chr2", 10, vec![FacetLink { value_id: 70, facet_id: GRNA }, FacetLink { value_id: 50, facet_id: OVERLAP }]),
        ],
        vec![],
    );
    obs.facets.push(FacetLink { value_id: 80, facet_id: OVERLAP });
    let payload = index.add_observation(&obs).unwrap();
    assert_eq!(sorted(payload.0.clone()), vec![7, 50, 70]);
    assert_eq!(sorted(index.facet_ids.clone()), vec![7, 50, 70]);
}

#[test]
fn missing_numeric_facets_are_refused() {
    let mut index = index_for("GRCH38", None, 2_000_000);
    let mut obs = observation(vec![source("chr1", 10, vec![])], vec![]);
    obs.effect_size = None;
    assert_eq!(index.add_observation(&obs).unwrap_err(), AggregationError::MissingEffectSize(9));
    obs.effect_size = Some(0);
    obs.significance = None;
    assert_eq!(index.add_observation(&obs).unwrap_err(), AggregationError::MissingSignificance(9));
    assert!(index.sources[0][0].facets.is_empty());
    assert!(index.facet_ids.is_empty());
}

#[test]
fn batch_stops_at_first_incomplete_observation() {
    let mut index = index_for("GRCH38", None, 2_000_000);
    let good = observation(vec![source("chr1", 10, vec![])], vec![]);
    let mut bad = observation(vec![source("chr1", 10, vec![])], vec![]);
    bad.significance = None;
    assert!(index.add_observations(&vec![good.clone(), good.clone()]).is_ok());
    assert_eq!(index.sources[0][0].facets.len(), 2);
    assert_eq!(
        index.add_observations(&vec![good.clone(), bad]).unwrap_err(),
        AggregationError::MissingSignificance(9)
    );
}
