use std::collections::HashMap;

use cov_viz::args::{read_args, ArgsError, DATABASE_URL_KEY, DEFAULT_BUCKET_SIZE};
use cov_viz::codec::DecodeError;
use cov_viz::coverage::{ChromosomeData, CoverageData, Interval};
use cov_viz::facets::{
    facet_set, legalize_facets, Facet, FacetCoverage, FacetRange, FacetValue, FACET_CCRE_CATEGORY,
    FACET_CCRE_OVERLAP, FACET_DIRECTION, FACET_EFFECT_SIZE, FACET_GRNA_TYPE, FACET_SIGNIFICANCE,
    FACET_TYPE_DISCRETE,
};
use cov_viz::options::output_file_name;
use cov_viz::pipeline::{build_data, BuildError};
use cov_viz::aggregate::{AggregationError, FacetLink, Observation, SourceFeature, TargetFeature};
use cov_viz::regeffects::{Bucket, RegEffectData, RegEffectFacets};

fn facet(id: u64, name: &str, kind: &str) -> Facet {
    Facet {
        id,
        name: name.to_string(),
        facet_type: kind.to_string(),
        description: format!("about {}", name),
        coverage: None,
        range: None,
        values: None,
    }
}

fn value(id: u64, text: &str, facet_id: u64) -> FacetValue {
    FacetValue { id, value: text.to_string(), facet_id }
}

fn catalog() -> (Vec<Facet>, Vec<FacetValue>) {
    let facets = vec![
        facet(1, FACET_DIRECTION, FACET_TYPE_DISCRETE),
        facet(2, FACET_EFFECT_SIZE, "FacetType.NUMERIC"),
        facet(3, FACET_CCRE_CATEGORY, FACET_TYPE_DISCRETE),
        facet(4, FACET_CCRE_OVERLAP, FACET_TYPE_DISCRETE),
        facet(5, FACET_SIGNIFICANCE, "FacetType.NUMERIC"),
        facet(6, FACET_GRNA_TYPE, FACET_TYPE_DISCRETE),
        facet(7, "Raw p value", "FacetType.NUMERIC"),
    ];
    let values = vec![
        value(10, "Depleted Only", 1),
        value(11, "Enriched Only", 1),
        value(12, "Non-significant", 1),
        value(30, "pELS", 3),
        value(31, "dELS", 3),
        value(40, "cCRE", 4),
        value(60, "Positive Control", 6),
    ];
    (facets, values)
}

fn sample() -> CoverageData {
    let mut data = RegEffectData::new();
    data.add_facets(RegEffectFacets(vec![7, 50], 1.5f32.to_bits(), 0.01f32.to_bits()));
    data.add_facets(RegEffectFacets(vec![], (-0.25f32).to_bits(), 1e-30f32.to_bits()));
    data.update_buckets(&vec![Bucket(3, 17), Bucket(0, 0)]);
    let mut facets = catalog().0;
    facets[0].coverage = Some(vec![FacetCoverage::Target, FacetCoverage::Source]);
    facets[0].values = Some(vec![(10, "Depleted Only".to_string()), (12, "Non-significant é".to_string())]);
    facets[1].range = Some(FacetRange((-3.5f32).to_bits(), 2.0f32.to_bits()));
    CoverageData {
        facets,
        chromosomes: vec![
            ChromosomeData {
                chrom: "1".to_string(),
                bucket_size: 2_000_000,
                source_intervals: vec![Interval::new(1, data.clone()), Interval::new(4_000_001, RegEffectData::new())],
                target_intervals: vec![],
            },
            ChromosomeData {
                chrom: "X".to_string(),
                bucket_size: 2_000_000,
                source_intervals: vec![],
                target_intervals: vec![Interval::new(2_000_001, data)],
            },
        ],
    }
}

fn assert_same(a: &CoverageData, b: &CoverageData) {
    assert_eq!(format!("{:?}", a), format!("{:?}", b));
}

#[test]
fn round_trip_of_a_full_artifact() {
    let cov = sample();
    let bytes = cov.serialize();
    let back = CoverageData::deserialize(&bytes).unwrap();
    assert_same(&cov, &back);
    assert_eq!(back.serialize(), bytes);
}

#[test]
fn round_trip_of_an_empty_artifact() {
    let cov = CoverageData { facets: vec![], chromosomes: vec![] };
    let bytes = cov.serialize();
    assert_eq!(bytes, vec![0u8; 16]);
    let back = CoverageData::deserialize(&bytes).unwrap();
    assert!(back.facets.is_empty());
    assert!(back.chromosomes.is_empty());
}

#[test]
fn encoding_is_little_endian_with_counted_strings() {
    let cov = CoverageData {
        facets: vec![],
        chromosomes: vec![ChromosomeData {
            chrom: "MT".to_string(),
            bucket_size: 0x0102_0304,
            source_intervals: vec![],
            target_intervals: vec![],
        }],
    };
    let mut expected: Vec<u8> = vec![0, 0, 0, 0, 0, 0, 0, 0];
    expected.extend([1, 0, 0, 0, 0, 0, 0, 0]);
    expected.extend([2, 0, 0, 0, 0, 0, 0, 0, b'M', b'T']);
    expected.extend([4, 3, 2, 1]);
    expected.extend([0u8; 16]);
    assert_eq!(cov.serialize(), expected);
}

#[test]
fn truncated_or_padded_bytes_are_refused() {
    let bytes = sample().serialize();
    assert_eq!(CoverageData::deserialize(&bytes[..bytes.len() - 1].to_vec()).unwrap_err(), DecodeError::Malformed);
    let mut padded = bytes.clone();
    padded.push(0);
    assert_eq!(CoverageData::deserialize(&padded).unwrap_err(), DecodeError::TrailingBytes);
    assert_eq!(CoverageData::deserialize(&vec![]).unwrap_err(), DecodeError::Malformed);
}

#[test]
fn invalid_text_is_refused() {
    let cov = CoverageData {
        facets: vec![],
        chromosomes: vec![ChromosomeData {
            chrom: "ab".to_string(),
            bucket_size: 1,
            source_intervals: vec![],
            target_intervals: vec![],
        }],
    };
    let mut bytes = cov.serialize();
    assert_eq!(bytes[24], b'a');
    bytes[24] = 0xff;
    assert_eq!(CoverageData::deserialize(&bytes).unwrap_err(), DecodeError::Malformed);
    bytes[24] = b'c';
    assert_eq!(CoverageData::deserialize(&bytes).unwrap().chromosomes[0].chrom, "cb");
}

#[test]
fn bad_option_tag_is_refused() {
    let cov = CoverageData { facets: vec![facet(1, "a", "b")], chromosomes: vec![] };
    let mut bytes = cov.serialize();
    let tag = 8 + 8 + (8 + 1) * 2 + (8 + 7);
    assert_eq!(bytes[tag], 0);
    bytes[tag] = 2;
    assert_eq!(CoverageData::deserialize(&bytes).unwrap_err(), DecodeError::Malformed);
}

#[test]
fn facet_set_lists_the_allowed_facets() {
    let set = facet_set();
    let names: Vec<&str> = set.iter().map(|e| e.0).collect();
    assert_eq!(
        names,
        vec![FACET_DIRECTION, FACET_EFFECT_SIZE, FACET_CCRE_CATEGORY, FACET_CCRE_OVERLAP, FACET_SIGNIFICANCE, FACET_GRNA_TYPE]
    );
    for e in &set {
        assert_eq!(e.1, vec![FacetCoverage::Target, FacetCoverage::Source]);
    }
}

#[test]
fn facets_carry_only_observed_values() {
    let (facets, values) = catalog();
    let er = FacetRange(0.5f32.to_bits(), 4.0f32.to_bits());
    let sr = FacetRange(0f32.to_bits(), 1f32.to_bits());
    let out = legalize_facets(&facets, &values, &vec![12, 40, 99], er, sr);
    let names: Vec<&str> = out.iter().map(|f| f.name.as_str()).collect();
    assert_eq!(names, vec![FACET_DIRECTION, FACET_EFFECT_SIZE, FACET_CCRE_OVERLAP, FACET_SIGNIFICANCE]);
    assert_eq!(out[0].values, Some(vec![(12, "Non-significant".to_string())]));
    assert_eq!(out[0].coverage, Some(vec![FacetCoverage::Target, FacetCoverage::Source]));
    assert_eq!(out[1].range, Some(er));
    assert_eq!(out[1].values, None);
    assert_eq!(out[2].values, Some(vec![(40, "cCRE".to_string())]));
    assert_eq!(out[3].range, Some(sr));
    assert_eq!(out[0].description, "about Direction");
}

#[test]
fn no_observed_value_drops_every_discrete_facet() {
    let (facets, values) = catalog();
    let r = FacetRange(0, 0);
    let out = legalize_facets(&facets, &values, &vec![], r, r);
    let names: Vec<&str> = out.iter().map(|f| f.name.as_str()).collect();
    assert_eq!(names, vec![FACET_EFFECT_SIZE, FACET_SIGNIFICANCE]);
}

fn obs(id: u64, effect: Option<f32>) -> Observation {
    Observation {
        id,
        effect_size: effect.map(|e| e.to_bits()),
        significance: Some(0.01f32.to_bits()),
        facets: vec![FacetLink { value_id: 10, facet_id: 1 }],
        sources: vec![SourceFeature {
            id: 500,
            chrom: "chr1".to_string(),
            start: 1_000_001,
            facets: vec![FacetLink { value_id: 30, facet_id: 3 }],
        }],
        targets: vec![TargetFeature {
            id: 600,
            chrom: "chr1".to_string(),
            start: 7_000_000,
            end: 7_000_500,
            strand: "+".to_string(),
        }],
    }
}

#[test]
fn build_data_runs_the_whole_pipeline() {
    let (facets, values) = catalog();
    let r = FacetRange(0, 0);
    let cov = build_data("GRCH38", Some("chr1"), 2_000_000, &facets, &values, &vec![obs(1, Some(1.5))], r, r).unwrap();
    assert_eq!(cov.chromosomes.len(), 1);
    let c = &cov.chromosomes[0];
    assert_eq!(c.chrom, "1");
    assert_eq!(c.bucket_size, 2_000_000);
    assert_eq!(c.source_intervals.len(), 1);
    assert_eq!(c.source_intervals[0].start, 1);
    assert_eq!(c.source_intervals[0].values.associated_buckets, vec![Bucket(0, 3)]);
    assert_eq!(c.target_intervals.len(), 1);
    assert_eq!(c.target_intervals[0].start, 6_000_001);
    assert_eq!(c.target_intervals[0].values.associated_buckets, vec![Bucket(0, 0)]);
    let names: Vec<&str> = cov.facets.iter().map(|f| f.name.as_str()).collect();
    assert_eq!(names, vec![FACET_DIRECTION, FACET_EFFECT_SIZE, FACET_CCRE_CATEGORY, FACET_SIGNIFICANCE]);
    assert_eq!(cov.facets[2].values, Some(vec![(30, "pELS".to_string())]));
    let back = CoverageData::deserialize(&cov.serialize()).unwrap();
    assert_same(&cov, &back);
}

#[test]
fn build_data_errors() {
    let (facets, values) = catalog();
    let r = FacetRange(0, 0);
    let o = vec![obs(1, Some(1.5))];
    assert_eq!(build_data("GRCH38", None, 0, &facets, &values, &o, r, r).unwrap_err(), BuildError::InvalidBucketSize);
    assert_eq!(build_data("GRCh99", None, 10, &facets, &values, &o, r, r).unwrap_err(), BuildError::UnknownAssembly);
    assert_eq!(build_data("GRCH37", None, 10, &facets[1..].to_vec(), &values, &o, r, r).unwrap_err(), BuildError::MissingFacet);
    let missing_grna: Vec<Facet> = facets.iter().filter(|f| f.name != FACET_GRNA_TYPE).cloned().collect();
    assert_eq!(build_data("GRCH37", None, 10, &missing_grna, &values, &o, r, r).unwrap_err(), BuildError::MissingFacet);
    assert_eq!(
        build_data("GRCH37", None, 2_000_000, &facets, &values, &vec![obs(1, Some(1.0)), obs(2, None)], r, r).unwrap_err(),
        BuildError::Aggregation(AggregationError::MissingEffectSize(2))
    );
}

fn env(url: Option<&str>) -> HashMap<String, String> {
    let mut env = HashMap::new();
    env.insert("HOME".to_string(), "/root".to_string());
    if let Some(url) = url {
        env.insert(DATABASE_URL_KEY.to_string(), url.to_string());
    }
    env
}

fn strings(v: &[&str]) -> Vec<String> {
    v.iter().map(|s| s.to_string()).collect()
}

#[test]
fn read_args_defaults() {
    let args = strings(&["prog", "out", "EXPR1", "GRCH38"]);
    let env = env(Some("postgres://x"));
    let o = read_args(&args, &env).unwrap();
    assert_eq!(o.output_location, "out");
    assert_eq!(o.experiment_accession_id, "EXPR1");
    assert_eq!(o.assembly_name, "GRCH38");
    assert_eq!(o.connection_string, "postgres://x");
    assert_eq!(o.bucket_size, DEFAULT_BUCKET_SIZE);
    assert_eq!(o.bucket_size, 2_000_000);
    assert!(o.chromo.is_none());
}

#[test]
fn read_args_with_size_and_chromosome() {
    let args = strings(&["prog", "out", "EXPR1", "GRCH37", "unused", "+5000", "chr7"]);
    let env = env(Some("u"));
    let o = read_args(&args, &env).unwrap();
    assert_eq!(o.bucket_size, 5000);
    assert_eq!(o.chromo.unwrap(), "chr7");
}

#[test]
fn read_args_errors() {
    let env = env(Some("u"));
    assert_eq!(read_args(&strings(&["prog", "out", "E"]), &env).err(), Some(ArgsError::MissingArgument));
    let no_url = self::env(None);
    assert_eq!(read_args(&strings(&["prog", "out", "E", "G"]), &no_url).err(), Some(ArgsError::MissingDatabaseUrl));
    for bad in ["abc", "", "0", "-5", "4294967296", "12 "] {
        let args = strings(&["prog", "out", "E", "G", "x", bad]);
        assert_eq!(read_args(&args, &env).err(), Some(ArgsError::InvalidBucketSize), "{}", bad);
    }
    let args = strings(&["prog", "out", "E", "G", "x", "4294967295"]);
    assert_eq!(read_args(&args, &env).unwrap().bucket_size, u32::MAX);
}

#[test]
fn output_file_names() {
    assert_eq!(output_file_name(Some("chr7"), "ecd"), "level2_7.ecd");
    assert_eq!(output_file_name(Some("chrX"), "fd"), "level2_X.fd");
    assert_eq!(output_file_name(Some("12"), "bin"), "level2_12.bin");
    assert_eq!(output_file_name(None, "ecd"), "level1.ecd");
}
