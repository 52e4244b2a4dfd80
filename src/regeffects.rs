use vstd::prelude::*;

verus! {

/// Location of one bucket: the chromosome's ordinal and the bucket's index on it.
#[derive(Copy, Clone, Debug, PartialEq, Eq, Hash, Structural)]
pub struct Bucket(pub usize, pub u32);

/// The payload that one observation leaves in one bucket: the discrete facet
/// value ids, then the effect size and the significance as IEEE-754 `f32`
/// bit patterns.
#[derive(Clone, Debug)]
pub struct RegEffectFacets(pub Vec<u64>, pub u32, pub u32);

/// Mathematical model of a payload.
pub struct RegEffectFacetsModel {
    pub ids: Seq<u64>,
    pub effect_size: u32,
    pub significance: u32,
}

impl View for RegEffectFacets {
    type V = RegEffectFacetsModel;

    open spec fn view(&self) -> RegEffectFacetsModel {
        RegEffectFacetsModel { ids: self.0@, effect_size: self.1, significance: self.2 }
    }
}

impl RegEffectFacets {
    /// The id list holds no id twice.
    pub open spec fn wf(&self) -> bool {
        self.0@.no_duplicates()
    }

    /// Copies the payload, keeping every field.
    pub fn duplicate(&self) -> (r: RegEffectFacets)
        ensures
            r@ == self@,
    {
        RegEffectFacets(self.0.clone(), self.1, self.2)
    }
}

/// The aggregate of one bucket: every payload appended to it, in order of
/// arrival, and the set of buckets it is linked to by a shared observation.
#[derive(Clone, Debug)]
pub struct RegEffectData {
    pub facets: Vec<RegEffectFacets>,
    pub associated_buckets: Vec<Bucket>,
}

/// The models of a list of payloads.
pub open spec fn payloads_view(v: Seq<RegEffectFacets>) -> Seq<RegEffectFacetsModel> {
    v.map_values(|f: RegEffectFacets| f@)
}

/// Mathematical model of a bucket aggregate.
pub struct RegEffectDataModel {
    pub facets: Seq<RegEffectFacetsModel>,
    pub associated_buckets: Seq<Bucket>,
}

impl View for RegEffectData {
    type V = RegEffectDataModel;

    open spec fn view(&self) -> RegEffectDataModel {
        RegEffectDataModel {
            facets: payloads_view(self.facets@),
            associated_buckets: self.associated_buckets@,
        }
    }
}

impl RegEffectData {
    /// The associated buckets form a set: none is listed twice.
    pub open spec fn wf(&self) -> bool {
        self.associated_buckets@.no_duplicates()
    }

    /// The associated buckets, as a set.
    pub open spec fn associated(&self) -> Set<Bucket> {
        self.associated_buckets@.to_set()
    }

    /// Copies the aggregate, payload by payload.
    pub fn duplicate(&self) -> (r: RegEffectData)
        ensures
            r@ == self@,
            r.associated_buckets@ == self.associated_buckets@,
    {
        let mut facets: Vec<RegEffectFacets> = Vec::new();
        let mut i: usize = 0;
        while i < self.facets.len()
            invariant
                i <= self.facets@.len(),
                facets@.len() == i,
                payloads_view(facets@) == payloads_view(self.facets@.subrange(0, i as int)),
            decreases self.facets@.len() - i,
        {
            let ghost before = facets@;
            let f = self.facets[i].duplicate();
            facets.push(f);
            proof {
                assert(facets@ == before.push(f));
                assert(self.facets@.subrange(0, i + 1) =~= self.facets@.subrange(0, i as int).push(
                    self.facets@[i as int],
                ));
                let sub = self.facets@.subrange(0, i + 1);
                assert forall|j: int| 0 <= j < i + 1 implies #[trigger] payloads_view(facets@)[j]
                    == payloads_view(sub)[j] by {
                    if j < i {
                        assert(payloads_view(before)[j] == payloads_view(
                            self.facets@.subrange(0, i as int),
                        )[j]);
                        assert(facets@[j] == before[j]);
                    } else {
                        assert(facets@[j] == f);
                        assert(sub[j] == self.facets@[i as int]);
                    }
                }
                assert(payloads_view(facets@) =~= payloads_view(sub));
            }
            i = i + 1;
        }
        proof {
            assert(self.facets@.subrange(0, i as int) =~= self.facets@);
        }
        let associated_buckets = self.associated_buckets.clone();
        proof {
            assert(associated_buckets@ =~= self.associated_buckets@);
        }
        RegEffectData { facets, associated_buckets }
    }

    /// An aggregate with no payload and no associated bucket.
    pub fn new() -> (r: Self)
        ensures
            r.wf(),
            r@.facets.len() == 0,
            r@.associated_buckets.len() == 0,
    {
        RegEffectData { facets: Vec::new(), associated_buckets: Vec::new() }
    }

    /// Appends one payload; the associated buckets stay as they were.
    pub fn add_facets(&mut self, facets: RegEffectFacets)
        ensures
            final(self)@.facets == old(self)@.facets.push(facets@),
            final(self).associated_buckets@ == old(self).associated_buckets@,
    {
        self.facets.push(facets);
        proof {
            assert(self@.facets =~= old(self)@.facets.push(facets@));
        }
    }

    /// Adds each of `new_buckets` to the associated set; the payloads stay as
    /// they were.
    pub fn update_buckets(&mut self, new_buckets: &Vec<Bucket>)
        requires
            old(self).wf(),
        ensures
            final(self).wf(),
            final(self).associated() == old(self).associated().union(new_buckets@.to_set()),
            final(self).facets@ == old(self).facets@,
    {
        let mut i: usize = 0;
        while i < new_buckets.len()
            invariant
                i <= new_buckets@.len(),
                self.wf(),
                self.facets@ == old(self).facets@,
                self.associated() == old(self).associated().union(
                    new_buckets@.subrange(0, i as int).to_set(),
                ),
            decreases new_buckets@.len() - i,
        {
            let b = new_buckets[i];
            insert_bucket(&mut self.associated_buckets, b);
            proof {
                assert(new_buckets@.subrange(0, i + 1) =~= new_buckets@.subrange(0, i as int).push(b));
                new_buckets@.subrange(0, i as int).lemma_push_to_set_commute(b);
            }
            i = i + 1;
        }
        proof {
            assert(new_buckets@.subrange(0, i as int) =~= new_buckets@);
        }
    }
}

/// Whether `b` is in the list.
pub fn contains_bucket(v: &Vec<Bucket>, b: Bucket) -> (r: bool)
    ensures
        r == v@.contains(b),
{
    let mut i: usize = 0;
    while i < v.len()
        invariant
            i <= v@.len(),
            forall|j: int| 0 <= j < i ==> v@[j] != b,
        decreases v@.len() - i,
    {
        if v[i] == b {
            return true;
        }
        i = i + 1;
    }
    false
}

/// Whether `x` is in the list.
pub fn contains_id(v: &Vec<u64>, x: u64) -> (r: bool)
    ensures
        r == v@.contains(x),
{
    let mut i: usize = 0;
    while i < v.len()
        invariant
            i <= v@.len(),
            forall|j: int| 0 <= j < i ==> v@[j] != x,
        decreases v@.len() - i,
    {
        if v[i] == x {
            return true;
        }
        i = i + 1;
    }
    false
}

/// Adds `b` to a duplicate-free list unless it is already there.
pub fn insert_bucket(v: &mut Vec<Bucket>, b: Bucket)
    requires
        old(v)@.no_duplicates(),
    ensures
        final(v)@.no_duplicates(),
        final(v)@.to_set() == old(v)@.to_set().insert(b),
        old(v)@.contains(b) ==> final(v)@ == old(v)@,
        !old(v)@.contains(b) ==> final(v)@ == old(v)@.push(b),
{
    if contains_bucket(v, b) {
        proof {
            assert(old(v)@.to_set().insert(b) =~= old(v)@.to_set());
        }
    } else {
        proof {
            v@.lemma_push_to_set_commute(b);
        }
        v.push(b);
    }
}

/// Adds `x` to a duplicate-free list unless it is already there.
pub fn insert_id(v: &mut Vec<u64>, x: u64)
    requires
        old(v)@.no_duplicates(),
    ensures
        final(v)@.no_duplicates(),
        final(v)@.to_set() == old(v)@.to_set().insert(x),
        old(v)@.contains(x) ==> final(v)@ == old(v)@,
        !old(v)@.contains(x) ==> final(v)@ == old(v)@.push(x),
{
    if contains_id(v, x) {
        proof {
            assert(old(v)@.to_set().insert(x) =~= old(v)@.to_set());
        }
    } else {
        proof {
            v@.lemma_push_to_set_commute(x);
        }
        v.push(x);
    }
}

} // verus!
