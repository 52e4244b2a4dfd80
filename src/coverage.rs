use vstd::prelude::*;

use crate::aggregate::BucketIndex;
use crate::assembly::spec_bucket_count;
use crate::facets::{facets_view, Facet, FacetModel};
use crate::regeffects::{RegEffectData, RegEffectDataModel};

verus! {

/// A non-empty bucket of the output: its first position (one-based) and its
/// aggregate.
#[derive(Clone, Debug)]
pub struct Interval {
    pub start: u32,
    pub values: RegEffectData,
}

/// Mathematical model of an interval.
pub struct IntervalModel {
    pub start: nat,
    pub values: RegEffectDataModel,
}

impl View for Interval {
    type V = IntervalModel;

    open spec fn view(&self) -> IntervalModel {
        IntervalModel { start: self.start as nat, values: self.values@ }
    }
}

impl Interval {
    pub fn new(start: u32, values: RegEffectData) -> (r: Self)
        ensures
            r.start == start,
            r.values == values,
    {
        Interval { start, values }
    }
}

/// The output for one chromosome: its name, the bucket size, and its non-empty
/// source and target buckets in position order.
#[derive(Clone, Debug)]
pub struct ChromosomeData {
    pub chrom: String,
    pub bucket_size: u32,
    pub source_intervals: Vec<Interval>,
    pub target_intervals: Vec<Interval>,
}

/// Mathematical model of a chromosome's output.
pub struct ChromosomeDataModel {
    pub chrom: Seq<char>,
    pub bucket_size: u32,
    pub source_intervals: Seq<IntervalModel>,
    pub target_intervals: Seq<IntervalModel>,
}

/// The models of a list of intervals.
pub open spec fn intervals_view(v: Seq<Interval>) -> Seq<IntervalModel> {
    v.map_values(|i: Interval| i@)
}

impl View for ChromosomeData {
    type V = ChromosomeDataModel;

    open spec fn view(&self) -> ChromosomeDataModel {
        ChromosomeDataModel {
            chrom: self.chrom@,
            bucket_size: self.bucket_size,
            source_intervals: intervals_view(self.source_intervals@),
            target_intervals: intervals_view(self.target_intervals@),
        }
    }
}

/// The artifact of one run: the reported facets, then each chromosome's
/// output in order.
#[derive(Clone, Debug)]
pub struct CoverageData {
    pub facets: Vec<Facet>,
    pub chromosomes: Vec<ChromosomeData>,
}

/// Mathematical model of the artifact.
pub struct CoverageDataModel {
    pub facets: Seq<FacetModel>,
    pub chromosomes: Seq<ChromosomeDataModel>,
}

/// The models of a list of chromosome outputs.
pub open spec fn chromosomes_view(v: Seq<ChromosomeData>) -> Seq<ChromosomeDataModel> {
    v.map_values(|c: ChromosomeData| c@)
}

impl View for CoverageData {
    type V = CoverageDataModel;

    open spec fn view(&self) -> CoverageDataModel {
        CoverageDataModel {
            facets: facets_view(self.facets@),
            chromosomes: chromosomes_view(self.chromosomes@),
        }
    }
}

/// The models of a bucket array.
pub open spec fn data_view(v: Seq<RegEffectData>) -> Seq<RegEffectDataModel> {
    v.map_values(|d: RegEffectData| d@)
}

/// The interval of bucket `idx` of a bucket array.
pub open spec fn interval_at(data: Seq<RegEffectDataModel>, bucket_size: nat, idx: int) -> IntervalModel {
    IntervalModel { start: (idx * bucket_size + 1) as nat, values: data[idx] }
}

/// The intervals of a bucket array: one for each bucket with at least one
/// payload, starting at the bucket's index times the bucket size, plus one.
pub open spec fn intervals_of(data: Seq<RegEffectDataModel>, bucket_size: nat) -> Seq<IntervalModel>
    decreases data.len(),
{
    if data.len() == 0 {
        seq![]
    } else {
        let rest = intervals_of(data.drop_last(), bucket_size);
        let i = data.len() - 1;
        if data.last().facets.len() > 0 {
            rest.push(interval_at(data, bucket_size, i))
        } else {
            rest
        }
    }
}

/// The first position of a bucket of a chromosome fits in `u32`.
proof fn lemma_start_fits(i: nat, length: nat, bucket_size: nat)
    requires
        bucket_size > 0,
        i < spec_bucket_count(length, bucket_size),
    ensures
        i * bucket_size + 1 <= length,
{
    assert(i * bucket_size + 1 <= length) by (nonlinear_arith)
        requires
            bucket_size > 0,
            i < (length + bucket_size - 1) as nat / bucket_size,
    {
        assert((i + 1) * bucket_size <= (length + bucket_size - 1) as nat);
    }
}

/// The intervals of one side of one chromosome.
pub fn intervals(data: &Vec<RegEffectData>, bucket_size: u32, length: u32) -> (r: Vec<Interval>)
    requires
        bucket_size > 0,
        data@.len() == spec_bucket_count(length as nat, bucket_size as nat),
    ensures
        intervals_view(r@) == intervals_of(data_view(data@), bucket_size as nat),
{
    let mut r: Vec<Interval> = Vec::new();
    let mut i: usize = 0;
    while i < data.len()
        invariant
            i <= data@.len(),
            bucket_size > 0,
            data@.len() == spec_bucket_count(length as nat, bucket_size as nat),
            intervals_view(r@) == intervals_of(
                data_view(data@.subrange(0, i as int)),
                bucket_size as nat,
            ),
        decreases data@.len() - i,
    {
        proof {
            assert(data_view(data@.subrange(0, i + 1)).drop_last() =~= data_view(
                data@.subrange(0, i as int),
            ));
            assert(data_view(data@.subrange(0, i + 1)).last() == data@[i as int]@);
        }
        if data[i].facets.len() > 0 {
            proof {
                lemma_start_fits(i as nat, length as nat, bucket_size as nat);
                assert(i * bucket_size <= u32::MAX && i < u32::MAX) by (nonlinear_arith)
                    requires
                        i * bucket_size + 1 <= length,
                        length <= u32::MAX,
                        bucket_size >= 1,
                ;
            }
            let start = (i as u32) * bucket_size + 1;
            r.push(Interval::new(start, data[i].duplicate()));
            proof {
                assert(intervals_view(r@) =~= intervals_of(
                    data_view(data@.subrange(0, i + 1)),
                    bucket_size as nat,
                ));
            }
        }
        i = i + 1;
    }
    proof {
        assert(data@.subrange(0, i as int) =~= data@);
    }
    r
}

/// Every interval starts at its bucket's index times the bucket size, plus
/// one, and holds that bucket's aggregate, which has at least one payload.
pub proof fn lemma_interval_starts(data: Seq<RegEffectDataModel>, bucket_size: nat)
    ensures
        forall|k: int|
            0 <= k < intervals_of(data, bucket_size).len() ==> exists|idx: int|
                0 <= idx < data.len() && #[trigger] intervals_of(data, bucket_size)[k] == interval_at(
                    data,
                    bucket_size,
                    idx,
                ) && data[idx].facets.len() > 0,
    decreases data.len(),
{
    if data.len() > 0 {
        let init = data.drop_last();
        lemma_interval_starts(init, bucket_size);
        let rest = intervals_of(init, bucket_size);
        let all = intervals_of(data, bucket_size);
        assert forall|k: int| 0 <= k < all.len() implies exists|idx: int|
            0 <= idx < data.len() && #[trigger] all[k] == interval_at(data, bucket_size, idx)
                && data[idx].facets.len() > 0 by {
            if k < rest.len() {
                let idx = choose|idx: int|
                    0 <= idx < init.len() && #[trigger] rest[k] == interval_at(init, bucket_size, idx)
                        && init[idx].facets.len() > 0;
                assert(all[k] == rest[k]);
                assert(init[idx] == data[idx]);
                assert(interval_at(init, bucket_size, idx) == interval_at(data, bucket_size, idx));
                assert(0 <= idx < data.len() && all[k] == interval_at(data, bucket_size, idx)
                    && data[idx].facets.len() > 0);
            } else {
                let idx = data.len() - 1;
                assert(data.last().facets.len() > 0);
                assert(all[k] == interval_at(data, bucket_size, idx));
                assert(0 <= idx < data.len() && all[k] == interval_at(data, bucket_size, idx)
                    && data[idx].facets.len() > 0);
            }
        }
    }
}

/// The output of one chromosome of an arena.
pub open spec fn chromosome_output(index: &BucketIndex, p: int) -> ChromosomeDataModel {
    ChromosomeDataModel {
        chrom: index.chroms@[p].name@,
        bucket_size: index.bucket_size,
        source_intervals: intervals_of(data_view(index.sources@[p]@), index.bucket_size as nat),
        target_intervals: intervals_of(data_view(index.targets@[p]@), index.bucket_size as nat),
    }
}

impl BucketIndex {
    /// The artifact of the run: the given facets, then for each chromosome its
    /// non-empty source and target buckets as intervals.
    pub fn coverage_data(&self, facets: Vec<Facet>) -> (r: CoverageData)
        requires
            self.wf(),
        ensures
            r@.facets == facets_view(facets@),
            r@.chromosomes.len() == self.chroms@.len(),
            forall|p: int|
                0 <= p < self.chroms@.len() ==> #[trigger] r@.chromosomes[p] == chromosome_output(
                    self,
                    p,
                ),
    {
        let mut chromosomes: Vec<ChromosomeData> = Vec::new();
        let mut p: usize = 0;
        while p < self.chroms.len()
            invariant
                self.wf(),
                p <= self.chroms@.len(),
                chromosomes@.len() == p,
                forall|q: int|
                    0 <= q < p ==> #[trigger] chromosomes@[q]@ == chromosome_output(self, q),
            decreases self.chroms@.len() - p,
        {
            let c = self.chroms[p];
            proof {
                assert(self.sources@[p as int]@.len() == spec_bucket_count(
                    c.length as nat,
                    self.bucket_size as nat,
                ));
            }
            let data = ChromosomeData {
                chrom: c.name.to_owned(),
                bucket_size: self.bucket_size,
                source_intervals: intervals(&self.sources[p], self.bucket_size, c.length),
                target_intervals: intervals(&self.targets[p], self.bucket_size, c.length),
            };
            chromosomes.push(data);
            p = p + 1;
        }
        let r = CoverageData { facets, chromosomes };
        proof {
            assert forall|q: int| 0 <= q < self.chroms@.len() implies #[trigger] r@.chromosomes[q]
                == chromosome_output(self, q) by {
                assert(r@.chromosomes[q] == chromosomes@[q]@);
            }
        }
        r
    }
}

} // verus!
