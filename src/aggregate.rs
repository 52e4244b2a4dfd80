use vstd::prelude::*;

use crate::assembly::{
    bucket_count, chrom_key, chrom_position, filtered, find_chrom, is_table, lemma_find_chrom_bounds,
    spec_bucket_count, str_eq, Chromosome,
};
use crate::regeffects::{
    contains_bucket, contains_id, insert_id, Bucket, RegEffectData, RegEffectFacets,
    RegEffectFacetsModel,
};

verus! {

/// A link from an observation or a feature to one discrete facet value.
#[derive(Copy, Clone, Debug, PartialEq, Eq, Structural)]
pub struct FacetLink {
    pub value_id: u64,
    pub facet_id: u64,
}

/// A source feature of an observation: its chromosome name (with or without
/// `chr`), the lower bound of its range and its discrete facet values.
#[derive(Clone, Debug)]
pub struct SourceFeature {
    pub id: u64,
    pub chrom: String,
    pub start: u32,
    pub facets: Vec<FacetLink>,
}

/// A target feature of an observation: its chromosome name, the bounds of its
/// half-open range and its strand (`-` for the minus strand).
#[derive(Clone, Debug)]
pub struct TargetFeature {
    pub id: u64,
    pub chrom: String,
    pub start: u32,
    pub end: u32,
    pub strand: String,
}

/// One observation with everything the aggregation reads of it. The numeric
/// facets are IEEE-754 `f32` bit patterns.
#[derive(Clone, Debug)]
pub struct Observation {
    pub id: u64,
    pub effect_size: Option<u32>,
    pub significance: Option<u32>,
    pub facets: Vec<FacetLink>,
    pub sources: Vec<SourceFeature>,
    pub targets: Vec<TargetFeature>,
}

/// Why an observation could not be aggregated.
#[derive(Copy, Clone, Debug, PartialEq, Eq, Structural)]
pub enum AggregationError {
    /// The observation has no effect size.
    MissingEffectSize(u64),
    /// The observation has no significance.
    MissingSignificance(u64),
}

/// The value ids of the links whose facet is in `allowed`.
pub open spec fn link_ids(links: Seq<FacetLink>, allowed: Set<u64>) -> Set<u64>
    decreases links.len(),
{
    if links.len() == 0 {
        Set::empty()
    } else {
        let rest = link_ids(links.drop_last(), allowed);
        if allowed.contains(links.last().facet_id) {
            rest.insert(links.last().value_id)
        } else {
            rest
        }
    }
}

/// The bucket that a position on the chromosome named `chrom` falls in, if the
/// chromosome is in `chroms` and the position lies within its buckets.
pub open spec fn key_of(chroms: Seq<Chromosome>, bucket_size: u32, chrom: Seq<char>, pos: u32) -> Option<Bucket> {
    match find_chrom(chroms, chrom_key(chrom)) {
        Some(p) => if (pos / bucket_size) < spec_bucket_count(
            chroms[p].length as nat,
            bucket_size as nat,
        ) {
            Some(Bucket(chroms[p].index as usize, (pos / bucket_size) as u32))
        } else {
            None
        },
        None => None,
    }
}

/// The bucket of a source: the one holding the lower bound of its range.
pub open spec fn source_key(chroms: Seq<Chromosome>, bucket_size: u32, s: SourceFeature) -> Option<Bucket> {
    key_of(chroms, bucket_size, s.chrom@, s.start)
}

/// The anchor of a target: the upper bound of its range on the minus strand,
/// the lower bound otherwise.
pub open spec fn target_anchor(t: TargetFeature) -> u32 {
    if t.strand@ == "-"@ {
        t.end
    } else {
        t.start
    }
}

/// The bucket of a target: the one holding its anchor.
pub open spec fn target_key(chroms: Seq<Chromosome>, bucket_size: u32, t: TargetFeature) -> Option<Bucket> {
    key_of(chroms, bucket_size, t.chrom@, target_anchor(t))
}

/// The buckets of the sources that fall in the run's chromosomes.
pub open spec fn source_keys(chroms: Seq<Chromosome>, bucket_size: u32, srcs: Seq<SourceFeature>) -> Set<Bucket>
    decreases srcs.len(),
{
    if srcs.len() == 0 {
        Set::empty()
    } else {
        let rest = source_keys(chroms, bucket_size, srcs.drop_last());
        match source_key(chroms, bucket_size, srcs.last()) {
            Some(b) => rest.insert(b),
            None => rest,
        }
    }
}

/// The buckets of the targets that fall in the run's chromosomes.
pub open spec fn target_keys(chroms: Seq<Chromosome>, bucket_size: u32, tgts: Seq<TargetFeature>) -> Set<Bucket>
    decreases tgts.len(),
{
    if tgts.len() == 0 {
        Set::empty()
    } else {
        let rest = target_keys(chroms, bucket_size, tgts.drop_last());
        match target_key(chroms, bucket_size, tgts.last()) {
            Some(b) => rest.insert(b),
            None => rest,
        }
    }
}

/// The discrete facet values that the sources surviving in the run's
/// chromosomes carry, restricted to the facets in `allowed`.
pub open spec fn source_ids(
    chroms: Seq<Chromosome>,
    bucket_size: u32,
    srcs: Seq<SourceFeature>,
    allowed: Set<u64>,
) -> Set<u64>
    decreases srcs.len(),
{
    if srcs.len() == 0 {
        Set::empty()
    } else {
        let rest = source_ids(chroms, bucket_size, srcs.drop_last(), allowed);
        if source_key(chroms, bucket_size, srcs.last()) is Some {
            rest.union(link_ids(srcs.last().facets@, allowed))
        } else {
            rest
        }
    }
}

/// No two chromosomes of the list share an ordinal.
pub open spec fn distinct_ordinals(chroms: Seq<Chromosome>) -> bool {
    forall|p: int, q: int|
        0 <= p < chroms.len() && 0 <= q < chroms.len() && p != q ==> (#[trigger] chroms[p]).index
            != (#[trigger] chroms[q]).index
}

/// The key of bucket `i` of the chromosome at position `p`.
pub open spec fn key_at(chroms: Seq<Chromosome>, p: int, i: int) -> Bucket {
    Bucket(chroms[p].index as usize, i as u32)
}

/// The aggregate of bucket `i` of the chromosome at position `p`.
pub open spec fn slot(buckets: Seq<Vec<RegEffectData>>, p: int, i: int) -> RegEffectData {
    buckets[p]@[i]
}

/// How one bucket changes under one observation: a bucket it touches gains the
/// payload and the links; any other bucket stays as it was.
pub open spec fn bucket_after(
    before: RegEffectData,
    after: RegEffectData,
    hit: bool,
    payload: RegEffectFacetsModel,
    links: Set<Bucket>,
) -> bool {
    if hit {
        &&& after@.facets == before@.facets.push(payload)
        &&& after.associated() == before.associated().union(links)
    } else {
        after == before
    }
}

/// Every bucket of `buckets` lists no associated bucket twice.
pub open spec fn buckets_wf(buckets: Seq<Vec<RegEffectData>>) -> bool {
    forall|p: int, i: int|
        0 <= p < buckets.len() && 0 <= i < buckets[p]@.len() ==> (#[trigger] slot(buckets, p, i)).wf()
}

/// Key `j` of `keys` is bucket `keys[j].1` of the chromosome at position
/// `pos[j]`, within the bucket array `buckets`.
pub open spec fn key_placed(
    chroms: Seq<Chromosome>,
    buckets: Seq<Vec<RegEffectData>>,
    keys: Seq<Bucket>,
    pos: Seq<usize>,
    j: int,
) -> bool {
    &&& pos[j] < chroms.len()
    &&& pos[j] < buckets.len()
    &&& keys[j] == key_at(chroms, pos[j] as int, keys[j].1 as int)
    &&& (keys[j].1 as int) < buckets[pos[j] as int]@.len()
}

/// `keys` are distinct buckets of the chromosomes `chroms`, each at the position
/// that `pos` gives, and each within the bucket array `buckets`.
pub open spec fn keys_placed(
    chroms: Seq<Chromosome>,
    buckets: Seq<Vec<RegEffectData>>,
    keys: Seq<Bucket>,
    pos: Seq<usize>,
) -> bool {
    &&& keys.no_duplicates()
    &&& pos.len() == keys.len()
    &&& forall|j: int| 0 <= j < keys.len() ==> #[trigger] key_placed(chroms, buckets, keys, pos, j)
}

/// Appends `payload` to each bucket named by `keys` and links each of them to
/// `links`.
fn touch_buckets(
    buckets: &mut Vec<Vec<RegEffectData>>,
    Ghost(chroms): Ghost<Seq<Chromosome>>,
    keys: &Vec<Bucket>,
    pos: &Vec<usize>,
    payload: &RegEffectFacets,
    links: &Vec<Bucket>,
)
    requires
        old(buckets)@.len() == chroms.len(),
        distinct_ordinals(chroms),
        forall|p: int| 0 <= p < chroms.len() ==> old(buckets)@[p]@.len() <= u32::MAX,
        buckets_wf(old(buckets)@),
        keys_placed(chroms, old(buckets)@, keys@, pos@),
    ensures
        final(buckets)@.len() == old(buckets)@.len(),
        forall|p: int| 0 <= p < chroms.len() ==> final(buckets)@[p]@.len() == old(buckets)@[p]@.len(),
        buckets_wf(final(buckets)@),
        forall|p: int, i: int|
            0 <= p < chroms.len() && 0 <= i < old(buckets)@[p]@.len() ==> bucket_after(
                slot(old(buckets)@, p, i),
                #[trigger] slot(final(buckets)@, p, i),
                keys@.to_set().contains(key_at(chroms, p, i)),
                payload@,
                links@.to_set(),
            ),
{
    let mut k: usize = 0;
    while k < keys.len()
        invariant
            k <= keys@.len(),
            buckets@.len() == chroms.len(),
            old(buckets)@.len() == chroms.len(),
            distinct_ordinals(chroms),
            forall|p: int| 0 <= p < chroms.len() ==> buckets@[p]@.len() == old(buckets)@[p]@.len(),
            forall|p: int| 0 <= p < chroms.len() ==> old(buckets)@[p]@.len() <= u32::MAX,
            buckets_wf(buckets@),
            keys_placed(chroms, old(buckets)@, keys@, pos@),
            forall|p: int, i: int|
                0 <= p < chroms.len() && 0 <= i < old(buckets)@[p]@.len() ==> bucket_after(
                    slot(old(buckets)@, p, i),
                    #[trigger] slot(buckets@, p, i),
                    keys@.subrange(0, k as int).contains(key_at(chroms, p, i)),
                    payload@,
                    links@.to_set(),
                ),
        decreases keys@.len() - k,
    {
        proof {
            assert(key_placed(chroms, old(buckets)@, keys@, pos@, k as int));
        }
        let p = pos[k];
        let i = keys[k].1 as usize;
        let ghost before = buckets@;
        let ghost key = keys@[k as int];
        proof {
            assert(keys@[k as int] == key_at(chroms, p as int, i as int));
            assert(slot(before, p as int, i as int).wf());
            assert(!keys@.subrange(0, k as int).contains(key)) by {
                if keys@.subrange(0, k as int).contains(key) {
                    let j = choose|j: int| 0 <= j < k && keys@.subrange(0, k as int)[j] == key;
                    assert(keys@[j] == keys@[k as int]);
                }
            }
            assert(slot(before, p as int, i as int) == slot(old(buckets)@, p as int, i as int));
        }
        buckets[p][i].add_facets(payload.duplicate());
        let ghost mid = buckets@[p as int]@[i as int];
        buckets[p][i].update_buckets(links);
        proof {
            let now = slot(buckets@, p as int, i as int);
            let was = slot(before, p as int, i as int);
            assert(mid.associated_buckets@ == was.associated_buckets@);
            assert(now@.facets == mid@.facets);
            assert(now@.facets == was@.facets.push(payload@));
            assert(now.associated() == was.associated().union(links@.to_set()));
        }
        proof {
            assert forall|q: int, j: int|
                0 <= q < chroms.len() && 0 <= j < old(buckets)@[q]@.len() implies bucket_after(
                    slot(old(buckets)@, q, j),
                    #[trigger] slot(buckets@, q, j),
                    keys@.subrange(0, k + 1).contains(key_at(chroms, q, j)),
                    payload@,
                    links@.to_set(),
                ) by {
                let head = keys@.subrange(0, k as int);
                assert(keys@.subrange(0, k + 1) =~= head.push(key));
                vstd::seq_lib::lemma_seq_contains_after_push(head, key, key_at(chroms, q, j));
                if q == p && j == i {
                    assert(key_at(chroms, q, j) == key);
                    assert(!head.contains(key_at(chroms, q, j)));
                    assert(slot(before, q, j) == slot(old(buckets)@, q, j));
                } else {
                    assert(key_at(chroms, q, j) != key) by {
                        if q != p {
                            assert(chroms[q].index != chroms[p as int].index);
                        }
                    }
                    assert(slot(buckets@, q, j) == slot(before, q, j));
                }
            }
            assert forall|q: int, j: int|
                0 <= q < buckets@.len() && 0 <= j < buckets@[q]@.len() implies (#[trigger] slot(buckets@, q, j)).wf() by {
                if !(q == p && j == i) {
                    assert(slot(buckets@, q, j) == slot(before, q, j));
                }
            }
        }
        k = k + 1;
    }
    proof {
        assert(keys@.subrange(0, k as int) =~= keys@);
        assert forall|b: Bucket| keys@.contains(b) <==> #[trigger] keys@.to_set().contains(b) by {}
    }
}

/// Adds to `ids` the value ids of the links whose facet is in `allowed`.
fn add_link_ids(ids: &mut Vec<u64>, links: &Vec<FacetLink>, allowed: &Vec<u64>)
    requires
        old(ids)@.no_duplicates(),
    ensures
        final(ids)@.no_duplicates(),
        final(ids)@.to_set() == old(ids)@.to_set().union(link_ids(links@, allowed@.to_set())),
{
    let mut k: usize = 0;
    while k < links.len()
        invariant
            k <= links@.len(),
            ids@.no_duplicates(),
            ids@.to_set() == old(ids)@.to_set().union(
                link_ids(links@.subrange(0, k as int), allowed@.to_set()),
            ),
        decreases links@.len() - k,
    {
        let l = links[k];
        proof {
            assert(links@.subrange(0, k + 1).drop_last() =~= links@.subrange(0, k as int));
        }
        if contains_id(allowed, l.facet_id) {
            insert_id(ids, l.value_id);
        }
        proof {
            assert(ids@.to_set() =~= old(ids)@.to_set().union(
                link_ids(links@.subrange(0, k + 1), allowed@.to_set()),
            ));
        }
        k = k + 1;
    }
    proof {
        assert(links@.subrange(0, k as int) =~= links@);
    }
}

/// Adds every id of `src` to `dst`.
fn union_ids(dst: &mut Vec<u64>, src: &Vec<u64>)
    requires
        old(dst)@.no_duplicates(),
    ensures
        final(dst)@.no_duplicates(),
        final(dst)@.to_set() == old(dst)@.to_set().union(src@.to_set()),
{
    let mut k: usize = 0;
    while k < src.len()
        invariant
            k <= src@.len(),
            dst@.no_duplicates(),
            dst@.to_set() == old(dst)@.to_set().union(src@.subrange(0, k as int).to_set()),
        decreases src@.len() - k,
    {
        insert_id(dst, src[k]);
        proof {
            assert(src@.subrange(0, k + 1) =~= src@.subrange(0, k as int).push(src@[k as int]));
            src@.subrange(0, k as int).lemma_push_to_set_commute(src@[k as int]);
            assert(dst@.to_set() =~= old(dst)@.to_set().union(src@.subrange(0, k + 1).to_set()));
        }
        k = k + 1;
    }
    proof {
        assert(src@.subrange(0, k as int) =~= src@);
    }
}

/// One more placed key keeps the keys placed.
proof fn lemma_keys_placed_push(
    chroms: Seq<Chromosome>,
    buckets: Seq<Vec<RegEffectData>>,
    keys: Seq<Bucket>,
    pos: Seq<usize>,
    b: Bucket,
    p: usize,
)
    requires
        keys_placed(chroms, buckets, keys, pos),
        !keys.contains(b),
        p < chroms.len(),
        p < buckets.len(),
        b == key_at(chroms, p as int, b.1 as int),
        (b.1 as int) < buckets[p as int]@.len(),
    ensures
        keys_placed(chroms, buckets, keys.push(b), pos.push(p)),
{
    lemma_push_no_duplicates(keys, b);
    let keys2 = keys.push(b);
    let pos2 = pos.push(p);
    assert forall|j: int| 0 <= j < keys2.len() implies #[trigger] key_placed(chroms, buckets, keys2, pos2, j) by {
        if j < keys.len() {
            assert(key_placed(chroms, buckets, keys, pos, j));
            assert(keys2[j] == keys[j]);
            assert(pos2[j] == pos[j]);
        }
    }
}

/// Placement depends only on the lengths of the bucket arrays.
proof fn lemma_keys_placed_same_shape(
    chroms: Seq<Chromosome>,
    a: Seq<Vec<RegEffectData>>,
    b: Seq<Vec<RegEffectData>>,
    keys: Seq<Bucket>,
    pos: Seq<usize>,
)
    requires
        keys_placed(chroms, a, keys, pos),
        a.len() == b.len(),
        forall|p: int| 0 <= p < a.len() ==> (#[trigger] a[p])@.len() == b[p]@.len(),
    ensures
        keys_placed(chroms, b, keys, pos),
{
    assert forall|j: int| 0 <= j < keys.len() implies #[trigger] key_placed(chroms, b, keys, pos, j) by {
        assert(key_placed(chroms, a, keys, pos, j));
        assert(a[pos[j] as int]@.len() == b[pos[j] as int]@.len());
    }
}

/// Pushing an element that a duplicate-free sequence lacks keeps it
/// duplicate-free.
proof fn lemma_push_no_duplicates<A>(s: Seq<A>, x: A)
    requires
        s.no_duplicates(),
        !s.contains(x),
    ensures
        s.push(x).no_duplicates(),
{
    assert forall|i: int, j: int| 0 <= i < s.len() + 1 && 0 <= j < s.len() + 1 && i != j implies s.push(x)[i] != s.push(x)[j] by {
        if i == s.len() {
            assert(s[j] == s.push(x)[j]);
        } else if j == s.len() {
            assert(s[i] == s.push(x)[i]);
        }
    }
}

/// A chromosome never has more buckets than base pairs.
proof fn lemma_bucket_count_bound(length: nat, bucket_size: nat)
    requires
        bucket_size > 0,
    ensures
        spec_bucket_count(length, bucket_size) <= length,
{
    assert((length + bucket_size - 1) as nat / bucket_size <= length) by (nonlinear_arith)
        requires
            bucket_size > 0,
    {
        if length == 0 {
            assert((bucket_size - 1) as nat / bucket_size == 0);
        } else {
            assert((length + bucket_size - 1) as nat <= length * bucket_size);
        }
    }
}

/// The bucket arena of one run: for each chromosome of the run, in order, one
/// aggregate per bucket on the source side and one on the target side, plus
/// every discrete facet value that the run has observed.
pub struct BucketIndex {
    pub bucket_size: u32,
    pub chroms: Vec<Chromosome>,
    /// The facet whose values are an observation's own discrete facets.
    pub direction_facet: u64,
    /// The facets whose values a source contributes.
    pub source_facets: Vec<u64>,
    pub sources: Vec<Vec<RegEffectData>>,
    pub targets: Vec<Vec<RegEffectData>>,
    pub facet_ids: Vec<u64>,
}

impl BucketIndex {
    /// Each chromosome has one bucket per `bucket_size` base pairs, rounded up,
    /// on both sides; the sets the arena holds list no element twice.
    pub open spec fn wf(&self) -> bool {
        &&& self.bucket_size > 0
        &&& distinct_ordinals(self.chroms@)
        &&& self.sources@.len() == self.chroms@.len()
        &&& self.targets@.len() == self.chroms@.len()
        &&& forall|p: int|
            0 <= p < self.chroms@.len() ==> {
                &&& (#[trigger] self.sources@[p])@.len() == spec_bucket_count(
                    self.chroms@[p].length as nat,
                    self.bucket_size as nat,
                )
                &&& self.targets@[p]@.len() == self.sources@[p]@.len()
            }
        &&& buckets_wf(self.sources@)
        &&& buckets_wf(self.targets@)
        &&& self.facet_ids@.no_duplicates()
    }

    /// The discrete facet values an observation carries into its payload: its
    /// own direction values and the allowed values of its surviving sources.
    pub open spec fn payload_ids(&self, obs: Observation) -> Set<u64> {
        link_ids(obs.facets@, set![self.direction_facet]).union(
            source_ids(self.chroms@, self.bucket_size, obs.sources@, self.source_facets@.to_set()),
        )
    }

    /// How the arena `after` relates to `self` once `obs` has been added with
    /// `payload`: each source bucket of the observation gains the payload and
    /// the links to all its target buckets, each target bucket gains the
    /// payload and the links to all its source buckets, and no other bucket
    /// changes.
    pub open spec fn applied(&self, after: &Self, obs: Observation, payload: RegEffectFacetsModel) -> bool {
        let skeys = source_keys(self.chroms@, self.bucket_size, obs.sources@);
        let tkeys = target_keys(self.chroms@, self.bucket_size, obs.targets@);
        &&& after.sources@.len() == self.sources@.len()
        &&& after.targets@.len() == self.targets@.len()
        &&& forall|p: int|
            0 <= p < self.chroms@.len() ==> (#[trigger] after.sources@[p])@.len()
                == self.sources@[p]@.len()
        &&& forall|p: int|
            0 <= p < self.chroms@.len() ==> (#[trigger] after.targets@[p])@.len()
                == self.targets@[p]@.len()
        &&& forall|p: int, i: int|
            0 <= p < self.chroms@.len() && 0 <= i < self.sources@[p]@.len() ==> bucket_after(
                slot(self.sources@, p, i),
                #[trigger] slot(after.sources@, p, i),
                skeys.contains(key_at(self.chroms@, p, i)),
                payload,
                tkeys,
            )
        &&& forall|p: int, i: int|
            0 <= p < self.chroms@.len() && 0 <= i < self.targets@[p]@.len() ==> bucket_after(
                slot(self.targets@, p, i),
                #[trigger] slot(after.targets@, p, i),
                tkeys.contains(key_at(self.chroms@, p, i)),
                payload,
                skeys,
            )
    }

    /// If bucket `i` of the chromosome at position `p` is a source bucket of
    /// `obs` and bucket `j` of the one at position `q` a target bucket, each
    /// lists the other among its associated buckets.
    pub open spec fn linked_at(&self, obs: Observation, p: int, i: int, q: int, j: int) -> bool {
        let skeys = source_keys(self.chroms@, self.bucket_size, obs.sources@);
        let tkeys = target_keys(self.chroms@, self.bucket_size, obs.targets@);
        0 <= p < self.chroms@.len() && 0 <= i < self.sources@[p]@.len() && 0 <= q
            < self.chroms@.len() && 0 <= j < self.targets@[q]@.len() && skeys.contains(
            key_at(self.chroms@, p, i),
        ) && tkeys.contains(key_at(self.chroms@, q, j)) ==> slot(
            self.sources@,
            p,
            i,
        ).associated().contains(key_at(self.chroms@, q, j)) && slot(
            self.targets@,
            q,
            j,
        ).associated().contains(key_at(self.chroms@, p, i))
    }

    /// Every source bucket of `obs` is linked to every target bucket of `obs`,
    /// and every target bucket to every source bucket.
    pub open spec fn linked_by(&self, obs: Observation) -> bool {
        forall|p: int, i: int, q: int, j: int| #[trigger] self.linked_at(obs, p, i, q, j)
    }

    /// `after` has the shape of `self` and no bucket of it has lost a link.
    pub open spec fn links_kept(&self, after: &Self) -> bool {
        &&& after.chroms@ == self.chroms@
        &&& after.bucket_size == self.bucket_size
        &&& after.direction_facet == self.direction_facet
        &&& after.source_facets@ == self.source_facets@
        &&& after.sources@.len() == self.sources@.len()
        &&& after.targets@.len() == self.targets@.len()
        &&& forall|p: int|
            0 <= p < self.chroms@.len() ==> (#[trigger] after.sources@[p])@.len()
                == self.sources@[p]@.len()
        &&& forall|p: int|
            0 <= p < self.chroms@.len() ==> (#[trigger] after.targets@[p])@.len()
                == self.targets@[p]@.len()
        &&& forall|p: int, i: int|
            0 <= p < self.chroms@.len() && 0 <= i < self.sources@[p]@.len() ==> slot(
                self.sources@,
                p,
                i,
            ).associated().subset_of(#[trigger] slot(after.sources@, p, i).associated())
        &&& forall|p: int, i: int|
            0 <= p < self.chroms@.len() && 0 <= i < self.targets@[p]@.len() ==> slot(
                self.targets@,
                p,
                i,
            ).associated().subset_of(#[trigger] slot(after.targets@, p, i).associated())
    }

    /// No bucket holds a payload or a link, and no facet value has been
    /// observed.
    pub open spec fn is_empty(&self) -> bool {
        &&& self.facet_ids@.len() == 0
        &&& forall|p: int, i: int|
            0 <= p < self.chroms@.len() && 0 <= i < self.sources@[p]@.len() ==> (#[trigger] slot(
                self.sources@,
                p,
                i,
            ))@.facets.len() == 0 && slot(self.sources@, p, i)@.associated_buckets.len() == 0
        &&& forall|p: int, i: int|
            0 <= p < self.chroms@.len() && 0 <= i < self.targets@[p]@.len() ==> (#[trigger] slot(
                self.targets@,
                p,
                i,
            ))@.facets.len() == 0 && slot(self.targets@, p, i)@.associated_buckets.len() == 0
    }

    /// `other` has the chromosomes, bucket size and facet configuration of
    /// `self`.
    pub open spec fn same_config(&self, other: &Self) -> bool {
        &&& other.chroms@ == self.chroms@
        &&& other.bucket_size == self.bucket_size
        &&& other.direction_facet == self.direction_facet
        &&& other.source_facets@ == self.source_facets@
    }

    /// `after` is what `self` becomes once the observations have been added
    /// in order, each with a payload of its own numeric facets and of the
    /// discrete facet values it carries.
    pub open spec fn applied_all(&self, after: &Self, obs: Seq<Observation>) -> bool
        decreases obs.len(),
    {
        if obs.len() == 0 {
            *after == *self
        } else {
            exists|mid: BucketIndex, payload: RegEffectFacetsModel|
                {
                    &&& self.applied_all(&mid, obs.drop_last())
                    &&& self.same_config(&mid)
                    &&& obs.last().effect_size == Some(payload.effect_size)
                    &&& obs.last().significance == Some(payload.significance)
                    &&& payload.ids.to_set() == self.payload_ids(obs.last())
                    &&& #[trigger] mid.applied(after, obs.last(), payload)
                }
        }
    }

    /// The discrete facet values that the observations carry into their
    /// payloads.
    pub open spec fn all_payload_ids(&self, obs: Seq<Observation>) -> Set<u64>
        decreases obs.len(),
    {
        if obs.len() == 0 {
            Set::empty()
        } else {
            self.all_payload_ids(obs.drop_last()).union(self.payload_ids(obs.last()))
        }
    }

    /// Adds the observations in order. The first one that lacks its effect size
    /// or significance stops the run with its error.
    pub fn add_observations(&mut self, obs: &Vec<Observation>) -> (r: Result<(), AggregationError>)
        requires
            old(self).wf(),
        ensures
            final(self).wf(),
            old(self).links_kept(final(self)),
            r is Err <==> exists|k: int|
                0 <= k < obs@.len() && ((#[trigger] obs@[k]).effect_size is None
                    || obs@[k].significance is None),
            r is Ok ==> old(self).applied_all(final(self), obs@),
            r is Ok ==> forall|k: int| 0 <= k < obs@.len() ==> final(self).linked_by(#[trigger] obs@[k]),
            r is Ok ==> final(self).facet_ids@.to_set() == old(self).facet_ids@.to_set().union(
                old(self).all_payload_ids(obs@),
            ),
    {
        let mut k: usize = 0;
        while k < obs.len()
            invariant
                k <= obs@.len(),
                self.wf(),
                old(self).links_kept(self),
                forall|m: int|
                    0 <= m < k ==> (#[trigger] obs@[m]).effect_size is Some
                        && obs@[m].significance is Some,
                forall|m: int| 0 <= m < k ==> self.linked_by(#[trigger] obs@[m]),
                old(self).applied_all(self, obs@.subrange(0, k as int)),
                self.facet_ids@.to_set() == old(self).facet_ids@.to_set().union(
                    old(self).all_payload_ids(obs@.subrange(0, k as int)),
                ),
            decreases obs@.len() - k,
        {
            let ghost before = *self;
            match self.add_observation(&obs[k]) {
                Ok(payload) => {
                    proof {
                        lemma_applied_links(&before, self, obs@[k as int], payload@);
                        assert forall|m: int| 0 <= m < k + 1 implies self.linked_by(#[trigger] obs@[m]) by {
                            if m < k {
                                lemma_linked_kept(&before, self, obs@[m]);
                            }
                        }
                        lemma_links_kept_trans(old(self), &before, self);
                        assert(old(self).payload_ids(obs@[k as int]) == before.payload_ids(obs@[k as int]));
                        let sub = obs@.subrange(0, k + 1);
                        assert(sub.drop_last() =~= obs@.subrange(0, k as int));
                        assert(sub.last() == obs@[k as int]);
                        assert(before.applied(self, sub.last(), payload@));
                        assert(old(self).applied_all(self, sub));
                        assert(obs@.subrange(0, k + 1).drop_last() =~= obs@.subrange(0, k as int));
                        assert(self.facet_ids@.to_set() =~= old(self).facet_ids@.to_set().union(
                            old(self).all_payload_ids(obs@.subrange(0, k + 1)),
                        ));
                    }
                },
                Err(e) => {
                    proof {
                        assert(obs@[k as int].effect_size is None || obs@[k as int].significance is None);
                    }
                    return Err(e);
                },
            }
            k = k + 1;
        }
        proof {
            assert(obs@.subrange(0, k as int) =~= obs@);
        }
        Ok(())
    }

    /// An empty arena for the given chromosomes.
    pub fn new(chroms: Vec<Chromosome>, bucket_size: u32, direction_facet: u64, source_facets: Vec<u64>) -> (r: Self)
        requires
            bucket_size > 0,
            distinct_ordinals(chroms@),
        ensures
            r.wf(),
            r.chroms@ == chroms@,
            r.bucket_size == bucket_size,
            r.direction_facet == direction_facet,
            r.source_facets@ == source_facets@,
            r.is_empty(),
    {
        let mut sources: Vec<Vec<RegEffectData>> = Vec::new();
        let mut targets: Vec<Vec<RegEffectData>> = Vec::new();
        let mut p: usize = 0;
        while p < chroms.len()
            invariant
                p <= chroms@.len(),
                bucket_size > 0,
                sources@.len() == p,
                targets@.len() == p,
                forall|q: int|
                    0 <= q < p ==> {
                        &&& (#[trigger] sources@[q])@.len() == spec_bucket_count(
                            chroms@[q].length as nat,
                            bucket_size as nat,
                        )
                        &&& targets@[q]@.len() == sources@[q]@.len()
                    },
                forall|q: int, i: int|
                    0 <= q < p && 0 <= i < sources@[q]@.len() ==> (#[trigger] slot(
                        sources@,
                        q,
                        i,
                    )).wf() && slot(sources@, q, i)@.facets.len() == 0 && slot(
                        sources@,
                        q,
                        i,
                    )@.associated_buckets.len() == 0 && slot(targets@, q, i).wf() && slot(
                        targets@,
                        q,
                        i,
                    )@.facets.len() == 0 && slot(targets@, q, i)@.associated_buckets.len() == 0,
            decreases chroms@.len() - p,
        {
            let n = bucket_count(chroms[p].length, bucket_size);
            let mut s: Vec<RegEffectData> = Vec::new();
            let mut t: Vec<RegEffectData> = Vec::new();
            let mut i: u32 = 0;
            while i < n
                invariant
                    i <= n,
                    s@.len() == i,
                    t@.len() == i,
                    forall|j: int|
                        0 <= j < i ==> (#[trigger] s@[j]).wf() && s@[j]@.facets.len() == 0
                            && s@[j]@.associated_buckets.len() == 0 && t@[j].wf()
                            && t@[j]@.facets.len() == 0 && t@[j]@.associated_buckets.len() == 0,
                decreases n - i,
            {
                s.push(RegEffectData::new());
                t.push(RegEffectData::new());
                i = i + 1;
            }
            let ghost prev_s = sources@;
            let ghost prev_t = targets@;
            sources.push(s);
            targets.push(t);
            proof {
                assert forall|q: int, i: int|
                    0 <= q < p + 1 && 0 <= i < sources@[q]@.len() implies (#[trigger] slot(
                        sources@,
                        q,
                        i,
                    )).wf() && slot(sources@, q, i)@.facets.len() == 0 && slot(
                        sources@,
                        q,
                        i,
                    )@.associated_buckets.len() == 0 && slot(targets@, q, i).wf() && slot(
                        targets@,
                        q,
                        i,
                    )@.facets.len() == 0 && slot(targets@, q, i)@.associated_buckets.len() == 0 by {
                    if q == p {
                        assert(slot(sources@, q, i) == s@[i]);
                        assert(slot(targets@, q, i) == t@[i]);
                    } else {
                        assert(sources@[q] == prev_s[q]);
                        assert(targets@[q] == prev_t[q]);
                        assert(slot(sources@, q, i) == slot(prev_s, q, i));
                        assert(slot(targets@, q, i) == slot(prev_t, q, i));
                    }
                }
            }
            p = p + 1;
        }
        proof {
            assert(buckets_wf(sources@));
            assert forall|q: int, i: int|
                0 <= q < targets@.len() && 0 <= i < targets@[q]@.len() implies (#[trigger] slot(
                    targets@,
                    q,
                    i,
                )).wf() by {
                assert(slot(sources@, q, i).wf());
            }
        }
        let r = BucketIndex {
            bucket_size,
            chroms,
            direction_facet,
            source_facets,
            sources,
            targets,
            facet_ids: Vec::new(),
        };
        proof {
            assert forall|q: int, i: int|
                0 <= q < r.chroms@.len() && 0 <= i < r.targets@[q]@.len() implies (#[trigger] slot(
                    r.targets@,
                    q,
                    i,
                ))@.facets.len() == 0 && slot(r.targets@, q, i)@.associated_buckets.len() == 0 by {
                assert(slot(r.sources@, q, i).wf());
            }
        }
        r
    }

    /// Adds one observation. Its payload (its direction values and the allowed
    /// values of its surviving sources, with its effect size and significance)
    /// is appended to every bucket that one of its sources or targets falls in;
    /// each source bucket is linked to every target bucket and the other way
    /// round. Sources and targets on chromosomes outside the run, or beyond a
    /// chromosome's end, are skipped. An observation without effect size or
    /// significance is refused and leaves the arena as it was.
    pub fn add_observation(&mut self, obs: &Observation) -> (r: Result<RegEffectFacets, AggregationError>)
        requires
            old(self).wf(),
        ensures
            final(self).wf(),
            final(self).chroms@ == old(self).chroms@,
            final(self).bucket_size == old(self).bucket_size,
            final(self).direction_facet == old(self).direction_facet,
            final(self).source_facets@ == old(self).source_facets@,
            obs.effect_size is None ==> r == Err::<RegEffectFacets, _>(
                AggregationError::MissingEffectSize(obs.id),
            ),
            obs.effect_size is Some && obs.significance is None ==> r == Err::<RegEffectFacets, _>(
                AggregationError::MissingSignificance(obs.id),
            ),
            r is Err <==> obs.effect_size is None || obs.significance is None,
            r is Err ==> *final(self) == *old(self),
            r matches Ok(payload) ==> {
                &&& obs.effect_size == Some(payload.1)
                &&& obs.significance == Some(payload.2)
                &&& payload.wf()
                &&& payload@.ids.to_set() == old(self).payload_ids(*obs)
                &&& old(self).applied(final(self), *obs, payload@)
                &&& final(self).facet_ids@.to_set() == old(self).facet_ids@.to_set().union(
                    old(self).payload_ids(*obs),
                )
            },
    {
        let effect_size = match obs.effect_size {
            Some(e) => e,
            None => return Err(AggregationError::MissingEffectSize(obs.id)),
        };
        let significance = match obs.significance {
            Some(s) => s,
            None => return Err(AggregationError::MissingSignificance(obs.id)),
        };
        let ghost chroms = self.chroms@;
        let ghost bs = self.bucket_size;
        let ghost allowed = self.source_facets@.to_set();
        let mut ids: Vec<u64> = Vec::new();
        let direction = vec![self.direction_facet];
        add_link_ids(&mut ids, &obs.facets, &direction);
        proof {
            assert(direction@.to_set() =~= set![self.direction_facet]);
        }
        let ghost dir_ids = link_ids(obs.facets@, set![self.direction_facet]);
        let mut src_keys: Vec<Bucket> = Vec::new();
        let mut src_pos: Vec<usize> = Vec::new();
        let mut k: usize = 0;
        while k < obs.sources.len()
            invariant
                *self == *old(self),
                self.wf(),
                chroms == self.chroms@,
                bs == self.bucket_size,
                allowed == self.source_facets@.to_set(),
                k <= obs.sources@.len(),
                ids@.no_duplicates(),
                ids@.to_set() == dir_ids.union(
                    source_ids(chroms, bs, obs.sources@.subrange(0, k as int), allowed),
                ),
                src_keys@.to_set() == source_keys(chroms, bs, obs.sources@.subrange(0, k as int)),
                keys_placed(chroms, self.sources@, src_keys@, src_pos@),
            decreases obs.sources@.len() - k,
        {
            let src = &obs.sources[k];
            proof {
                assert(obs.sources@.subrange(0, k + 1).drop_last() =~= obs.sources@.subrange(0, k as int));
            }
            match self.locate(src.chrom.as_str(), src.start) {
                Some((p, b)) => {
                    if !contains_bucket(&src_keys, b) {
                        proof {
                            src_keys@.lemma_push_to_set_commute(b);
                            lemma_keys_placed_push(chroms, self.sources@, src_keys@, src_pos@, b, p);
                        }
                        src_keys.push(b);
                        src_pos.push(p);
                    } else {
                        proof {
                            assert(src_keys@.to_set().insert(b) =~= src_keys@.to_set());
                        }
                    }
                    add_link_ids(&mut ids, &src.facets, &self.source_facets);
                    proof {
                        assert(ids@.to_set() =~= dir_ids.union(
                            source_ids(chroms, bs, obs.sources@.subrange(0, k + 1), allowed),
                        ));
                    }
                },
                None => {},
            }
            k = k + 1;
        }
        proof {
            assert(obs.sources@.subrange(0, k as int) =~= obs.sources@);
        }
        let mut tgt_keys: Vec<Bucket> = Vec::new();
        let mut tgt_pos: Vec<usize> = Vec::new();
        let mut k: usize = 0;
        while k < obs.targets.len()
            invariant
                *self == *old(self),
                self.wf(),
                chroms == self.chroms@,
                bs == self.bucket_size,
                k <= obs.targets@.len(),
                tgt_keys@.to_set() == target_keys(chroms, bs, obs.targets@.subrange(0, k as int)),
                keys_placed(chroms, self.sources@, tgt_keys@, tgt_pos@),
            decreases obs.targets@.len() - k,
        {
            let tgt = &obs.targets[k];
            proof {
                assert(obs.targets@.subrange(0, k + 1).drop_last() =~= obs.targets@.subrange(0, k as int));
            }
            let anchor = if str_eq(tgt.strand.as_str(), "-") {
                tgt.end
            } else {
                tgt.start
            };
            match self.locate(tgt.chrom.as_str(), anchor) {
                Some((p, b)) => {
                    if !contains_bucket(&tgt_keys, b) {
                        proof {
                            tgt_keys@.lemma_push_to_set_commute(b);
                            lemma_keys_placed_push(chroms, self.sources@, tgt_keys@, tgt_pos@, b, p);
                        }
                        tgt_keys.push(b);
                        tgt_pos.push(p);
                    } else {
                        proof {
                            assert(tgt_keys@.to_set().insert(b) =~= tgt_keys@.to_set());
                        }
                    }
                },
                None => {},
            }
            k = k + 1;
        }
        proof {
            assert(obs.targets@.subrange(0, k as int) =~= obs.targets@);
            assert forall|p: int| 0 <= p < chroms.len() implies self.sources@[p]@.len() <= u32::MAX
                && self.targets@[p]@.len() <= u32::MAX by {
                lemma_bucket_count_bound(chroms[p].length as nat, bs as nat);
            }
            lemma_keys_placed_same_shape(chroms, self.sources@, self.targets@, tgt_keys@, tgt_pos@);
            lemma_keys_placed_same_shape(chroms, self.sources@, self.sources@, src_keys@, src_pos@);
        }
        let payload = RegEffectFacets(ids, effect_size, significance);
        touch_buckets(&mut self.targets, Ghost(chroms), &tgt_keys, &tgt_pos, &payload, &src_keys);
        touch_buckets(&mut self.sources, Ghost(chroms), &src_keys, &src_pos, &payload, &tgt_keys);
        union_ids(&mut self.facet_ids, &payload.0);
        Ok(payload)
    }

    /// The position of the chromosome and the bucket that a position on the
    /// chromosome named `chrom` falls in.
    fn locate(&self, chrom: &str, pos: u32) -> (r: Option<(usize, Bucket)>)
        requires
            self.wf(),
        ensures
            match key_of(self.chroms@, self.bucket_size, chrom@, pos) {
                Some(b) => r matches Some((p, b2)) && b2 == b && p < self.chroms@.len() && b
                    == key_at(self.chroms@, p as int, b.1 as int) && (b.1 as int)
                    < self.sources@[p as int]@.len(),
                None => r is None,
            },
    {
        match chrom_position(&self.chroms, chrom) {
            Some(p) => {
                proof {
                    lemma_find_chrom_bounds(self.chroms@, chrom_key(chrom@));
                }
                let i = pos / self.bucket_size;
                proof {
                    assert(find_chrom(self.chroms@, chrom_key(chrom@)) == Some(p as int));
                    assert(self.sources@[p as int]@.len() == spec_bucket_count(
                        self.chroms@[p as int].length as nat,
                        self.bucket_size as nat,
                    ));
                }
                if (i as usize) < self.sources[p].len() {
                    Some((p, Bucket(self.chroms[p].index as usize, i)))
                } else {
                    None
                }
            },
            None => None,
        }
    }
}

/// Once an observation has been added, each of its source buckets is linked to
/// each of its target buckets, and each target bucket to each source bucket;
/// no bucket loses a link.
pub proof fn lemma_applied_links(
    before: &BucketIndex,
    after: &BucketIndex,
    obs: Observation,
    payload: RegEffectFacetsModel,
)
    requires
        before.wf(),
        after.chroms@ == before.chroms@,
        after.bucket_size == before.bucket_size,
        after.direction_facet == before.direction_facet,
        after.source_facets@ == before.source_facets@,
        before.applied(after, obs, payload),
    ensures
        after.linked_by(obs),
        before.links_kept(after),
{
    let skeys = source_keys(before.chroms@, before.bucket_size, obs.sources@);
    let tkeys = target_keys(before.chroms@, before.bucket_size, obs.targets@);
    assert forall|p: int, i: int, q: int, j: int| #[trigger] after.linked_at(obs, p, i, q, j) by {
        if 0 <= p < after.chroms@.len() && 0 <= q < after.chroms@.len() {
            assert(after.sources@[p]@.len() == before.sources@[p]@.len());
            assert(after.targets@[q]@.len() == before.targets@[q]@.len());
        }
    }
    assert forall|p: int, i: int|
        0 <= p < before.chroms@.len() && 0 <= i < before.sources@[p]@.len() implies slot(
            before.sources@,
            p,
            i,
        ).associated().subset_of(#[trigger] slot(after.sources@, p, i).associated()) by {}
    assert forall|p: int, i: int|
        0 <= p < before.chroms@.len() && 0 <= i < before.targets@[p]@.len() implies slot(
            before.targets@,
            p,
            i,
        ).associated().subset_of(#[trigger] slot(after.targets@, p, i).associated()) by {}
}

/// Links that an arena holds stay when no bucket loses a link.
pub proof fn lemma_linked_kept(before: &BucketIndex, after: &BucketIndex, obs: Observation)
    requires
        before.linked_by(obs),
        before.links_kept(after),
    ensures
        after.linked_by(obs),
{
    let skeys = source_keys(before.chroms@, before.bucket_size, obs.sources@);
    let tkeys = target_keys(before.chroms@, before.bucket_size, obs.targets@);
    assert forall|p: int, i: int, q: int, j: int| #[trigger] after.linked_at(obs, p, i, q, j) by {
        if 0 <= p < after.chroms@.len() && 0 <= q < after.chroms@.len() {
            assert(after.sources@[p]@.len() == before.sources@[p]@.len());
            assert(after.targets@[q]@.len() == before.targets@[q]@.len());
            assert(before.linked_at(obs, p, i, q, j));
        }
    }
}

/// Keeping links carries over from one arena to the next.
proof fn lemma_links_kept_trans(a: &BucketIndex, b: &BucketIndex, c: &BucketIndex)
    requires
        a.links_kept(b),
        b.links_kept(c),
    ensures
        a.links_kept(c),
{
    assert forall|p: int| 0 <= p < a.chroms@.len() implies (#[trigger] c.sources@[p])@.len()
        == a.sources@[p]@.len() by {
        assert(b.sources@[p]@.len() == a.sources@[p]@.len());
    }
    assert forall|p: int| 0 <= p < a.chroms@.len() implies (#[trigger] c.targets@[p])@.len()
        == a.targets@[p]@.len() by {
        assert(b.targets@[p]@.len() == a.targets@[p]@.len());
    }
    assert forall|p: int, i: int|
        0 <= p < a.chroms@.len() && 0 <= i < a.sources@[p]@.len() implies slot(
            a.sources@,
            p,
            i,
        ).associated().subset_of(#[trigger] slot(c.sources@, p, i).associated()) by {
        assert(b.sources@[p]@.len() == a.sources@[p]@.len());
        assert(slot(a.sources@, p, i).associated().subset_of(slot(b.sources@, p, i).associated()));
        assert(slot(b.sources@, p, i).associated().subset_of(slot(c.sources@, p, i).associated()));
    }
    assert forall|p: int, i: int|
        0 <= p < a.chroms@.len() && 0 <= i < a.targets@[p]@.len() implies slot(
            a.targets@,
            p,
            i,
        ).associated().subset_of(#[trigger] slot(c.targets@, p, i).associated()) by {
        assert(b.targets@[p]@.len() == a.targets@[p]@.len());
        assert(slot(a.targets@, p, i).associated().subset_of(slot(b.targets@, p, i).associated()));
        assert(slot(b.targets@, p, i).associated().subset_of(slot(c.targets@, p, i).associated()));
    }
}

/// Each chromosome of a well-formed arena has, on each side, its length
/// divided by the bucket size, rounded up, buckets: enough to cover every base
/// pair, and one fewer would not be.
pub proof fn lemma_bucket_counts(index: &BucketIndex)
    requires
        index.wf(),
    ensures
        forall|p: int|
            0 <= p < index.chroms@.len() ==> {
                let n = (#[trigger] index.sources@[p])@.len();
                &&& n == spec_bucket_count(index.chroms@[p].length as nat, index.bucket_size as nat)
                &&& index.targets@[p]@.len() == n
                &&& n * index.bucket_size >= index.chroms@[p].length
                &&& n == 0 || (n - 1) * index.bucket_size < index.chroms@[p].length
            },
{
    assert forall|p: int| 0 <= p < index.chroms@.len() implies {
        let n = (#[trigger] index.sources@[p])@.len();
        &&& n == spec_bucket_count(index.chroms@[p].length as nat, index.bucket_size as nat)
        &&& index.targets@[p]@.len() == n
        &&& n * index.bucket_size >= index.chroms@[p].length
        &&& n == 0 || (n - 1) * index.bucket_size < index.chroms@[p].length
    } by {
        lemma_bucket_count_ceiling(index.chroms@[p].length as nat, index.bucket_size as nat);
    }
}

/// The bucket count is the ceiling of the length over the bucket size.
pub proof fn lemma_bucket_count_ceiling(length: nat, bucket_size: nat)
    requires
        bucket_size > 0,
    ensures
        spec_bucket_count(length, bucket_size) * bucket_size >= length,
        spec_bucket_count(length, bucket_size) == 0 || (spec_bucket_count(length, bucket_size) - 1)
            * bucket_size < length,
{
    let n = spec_bucket_count(length, bucket_size);
    assert(n * bucket_size >= length && (n == 0 || (n - 1) * bucket_size < length)) by (nonlinear_arith)
        requires
            bucket_size > 0,
            n == (length + bucket_size - 1) as nat / bucket_size,
    {
        let t = (length + bucket_size - 1) as nat;
        assert(t == n * bucket_size + t % bucket_size);
        assert(t % bucket_size < bucket_size);
    }
}

/// Under a chromosome filter only the named chromosome remains, with or
/// without its `chr`; a source on any other chromosome falls in no bucket,
/// whatever the rest of its observation holds.
pub proof fn lemma_chromosome_filter(
    table: Seq<Chromosome>,
    lengths: Seq<u32>,
    filter: Seq<char>,
    bucket_size: u32,
    s: SourceFeature,
)
    requires
        is_table(table, lengths),
    ensures
        filtered(table, Some(filter)).len() <= 1,
        forall|p: int|
            0 <= p < filtered(table, Some(filter)).len() ==> (#[trigger] filtered(
                table,
                Some(filter),
            )[p]).name@ == chrom_key(filter),
        chrom_key(s.chrom@) != chrom_key(filter) ==> source_key(
            filtered(table, Some(filter)),
            bucket_size,
            s,
        ) is None,
{
    lemma_find_chrom_bounds(table, chrom_key(filter));
    let r = filtered(table, Some(filter));
    lemma_find_chrom_bounds(r, chrom_key(s.chrom@));
    if chrom_key(s.chrom@) != chrom_key(filter) {
        assert forall|i: int| 0 <= i < r.len() implies (#[trigger] r[i]).name@ != chrom_key(s.chrom@) by {}
        if let Some(p) = find_chrom(r, chrom_key(s.chrom@)) {
            assert(r[p].name@ == chrom_key(s.chrom@));
        }
    }
}

} // verus!
