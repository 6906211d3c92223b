//! Value types describing one fact-gathering round: the individual fact
//! requests carried by an inbound event, the targets they arrive under, and
//! the per-gatherer grouping that is handed on to the resolved gatherers.

use vstd::multiset::Multiset;
use vstd::prelude::*;
use vstd::string::StrSliceExecFns;

verus! {

broadcast use {
    vstd::seq_lib::group_seq_properties,
    vstd::seq_lib::group_seq_lib_default,
    vstd::seq::Seq::group_seq_extra,
    vstd::seq_lib::group_to_multiset_ensures,
    vstd::multiset::group_multiset_axioms,
};

/// Compares two strings for character-wise equality.
pub fn str_eq(a: &str, b: &str) -> (r: bool)
    ensures
        r == (a@ == b@),
{
    let alen = a.unicode_len();
    let blen = b.unicode_len();
    if alen != blen {
        return false;
    }
    let mut i: usize = 0;
    while i < alen
        invariant
            i <= alen,
            alen == a@.len(),
            blen == b@.len(),
            alen == blen,
            forall|k: int| 0 <= k < i ==> a@[k] == b@[k],
        decreases alen - i,
    {
        let ca = a.get_char(i);
        let cb = b.get_char(i);
        if (ca as u32) != (cb as u32) {
            return false;
        }
        proof {
            vstd::utf8::char_u32_cast(ca, ca as u32);
            vstd::utf8::char_u32_cast(cb, cb as u32);
            assert(ca == cb);
        }
        i = i + 1;
    }
    proof {
        assert(a@ =~= b@);
    }
    true
}

/// Identifies one fact to collect: the backend (`gatherer`) that must produce
/// it, the check it belongs to, the fact's name and an opaque argument.
/// Immutable value, compared by structural equality.
#[derive(Clone, PartialEq, Eq, Debug)]
pub struct FactRequest {
    pub argument: String,
    pub check_id: String,
    pub gatherer: String,
    pub name: String,
}

/// Mathematical value of a [`FactRequest`]: its four strings as character
/// sequences.
#[verifier::ext_equal]
pub struct FactRequestV {
    pub argument: Seq<char>,
    pub check_id: Seq<char>,
    pub gatherer: Seq<char>,
    pub name: Seq<char>,
}

impl View for FactRequest {
    type V = FactRequestV;

    open spec fn view(&self) -> FactRequestV {
        FactRequestV {
            argument: self.argument@,
            check_id: self.check_id@,
            gatherer: self.gatherer@,
            name: self.name@,
        }
    }
}

impl DeepView for FactRequest {
    type V = FactRequestV;

    open spec fn deep_view(&self) -> FactRequestV {
        self.view()
    }
}

impl FactRequest {
    /// A verified copy: unlike the derived `Clone`, the result is known to
    /// equal the original.
    pub fn duplicate(&self) -> (r: FactRequest)
        ensures
            r == *self,
    {
        FactRequest {
            argument: self.argument.clone(),
            check_id: self.check_id.clone(),
            gatherer: self.gatherer.clone(),
            name: self.name.clone(),
        }
    }
}

/// A verified element-wise copy of a request vector: the result is known to
/// equal the original.
pub fn duplicate_requests(requests: &Vec<FactRequest>) -> (r: Vec<FactRequest>)
    ensures
        r@ == requests@,
{
    let mut r: Vec<FactRequest> = Vec::new();
    let mut i: usize = 0;
    while i < requests.len()
        invariant
            i <= requests.len(),
            r@ =~= requests@.take(i as int),
        decreases requests.len() - i,
    {
        r.push(requests[i].duplicate());
        i += 1;
    }
    proof {
        assert(requests@.take(requests.len() as int) =~= requests@);
    }
    r
}

/// One agent's slice of a broader execution request: the agent it addresses
/// and the facts that agent is asked to collect, in order. Supplied wholly by
/// the inbound event and never mutated.
#[derive(Clone, PartialEq, Eq, Debug)]
pub struct GatheringTarget {
    pub agent_id: String,
    pub fact_requests: Vec<FactRequest>,
}

/// Mathematical value of a [`GatheringTarget`].
#[verifier::ext_equal]
pub struct GatheringTargetV {
    pub agent_id: Seq<char>,
    pub fact_requests: Seq<FactRequestV>,
}

impl View for GatheringTarget {
    type V = GatheringTargetV;

    open spec fn view(&self) -> GatheringTargetV {
        GatheringTargetV { agent_id: self.agent_id@, fact_requests: self.fact_requests.deep_view() }
    }
}

impl DeepView for GatheringTarget {
    type V = GatheringTargetV;

    open spec fn deep_view(&self) -> GatheringTargetV {
        self.view()
    }
}

impl GatheringTarget {
    /// A verified copy: unlike the derived `Clone`, the result is known to
    /// equal the original.
    pub fn duplicate(&self) -> (r: GatheringTarget)
        ensures
            r@ == self@,
    {
        GatheringTarget {
            agent_id: self.agent_id.clone(),
            fact_requests: duplicate_requests(&self.fact_requests),
        }
    }
}

/// All fact requests bound for one gatherer, in the order they appeared
/// across the targets of the originating event.
#[derive(Clone, PartialEq, Eq, Debug)]
pub struct GathererRequests {
    pub gatherer: String,
    pub fact_requests: Vec<FactRequest>,
}

/// Mathematical value of a [`GathererRequests`] bucket.
#[verifier::ext_equal]
pub struct GathererRequestsV {
    pub gatherer: Seq<char>,
    pub fact_requests: Seq<FactRequestV>,
}

impl View for GathererRequests {
    type V = GathererRequestsV;

    open spec fn view(&self) -> GathererRequestsV {
        GathererRequestsV { gatherer: self.gatherer@, fact_requests: self.fact_requests.deep_view() }
    }
}

impl DeepView for GathererRequests {
    type V = GathererRequestsV;

    open spec fn deep_view(&self) -> GathererRequestsV {
        self.view()
    }
}

/// The gathering work one event means for this agent: correlation ids and the
/// matching fact requests grouped by the gatherer that must produce them.
/// Keys are unique; each bucket keeps the original relative order of its
/// requests.
#[derive(PartialEq, Eq, Debug)]
pub struct FactsGatheringRequest {
    pub execution_id: String,
    pub group_id: String,
    pub facts_requests_by_gatherer: Vec<GathererRequests>,
}

/// Mathematical value of a [`FactsGatheringRequest`].
#[verifier::ext_equal]
pub struct FactsGatheringRequestV {
    pub execution_id: Seq<char>,
    pub group_id: Seq<char>,
    pub facts_requests_by_gatherer: Seq<GathererRequestsV>,
}

impl View for FactsGatheringRequest {
    type V = FactsGatheringRequestV;

    open spec fn view(&self) -> FactsGatheringRequestV {
        FactsGatheringRequestV {
            execution_id: self.execution_id@,
            group_id: self.group_id@,
            facts_requests_by_gatherer: self.facts_requests_by_gatherer.deep_view(),
        }
    }
}

/// The requests of `reqs` whose `gatherer` field equals `gatherer`, in order.
pub open spec fn reqs_with_gatherer(reqs: Seq<FactRequestV>, gatherer: Seq<char>) -> Seq<
    FactRequestV,
> {
    reqs.filter(|r: FactRequestV| r.gatherer == gatherer)
}

/// Whether some bucket of `buckets` is keyed by `gatherer`.
pub open spec fn has_bucket(buckets: Seq<GathererRequestsV>, gatherer: Seq<char>) -> bool {
    exists|i: int| 0 <= i < buckets.len() && buckets[i].gatherer == gatherer
}

/// The requests of the first bucket keyed by `gatherer`, if any.
pub open spec fn bucket_for(buckets: Seq<GathererRequestsV>, gatherer: Seq<char>) -> Option<
    Seq<FactRequestV>,
>
    decreases buckets.len(),
{
    if buckets.len() == 0 {
        None
    } else if buckets[0].gatherer == gatherer {
        Some(buckets[0].fact_requests)
    } else {
        bucket_for(buckets.drop_first(), gatherer)
    }
}

/// Appends one request to the bucket keyed by its own `gatherer` field,
/// opening that bucket at the end if it does not exist yet.
pub open spec fn add_to_buckets(buckets: Seq<GathererRequestsV>, r: FactRequestV) -> Seq<
    GathererRequestsV,
>
    decreases buckets.len(),
{
    if buckets.len() == 0 {
        seq![GathererRequestsV { gatherer: r.gatherer, fact_requests: seq![r] }]
    } else if buckets[0].gatherer == r.gatherer {
        seq![
            GathererRequestsV {
                gatherer: buckets[0].gatherer,
                fact_requests: buckets[0].fact_requests.push(r),
            },
        ] + buckets.drop_first()
    } else {
        seq![buckets[0]] + add_to_buckets(buckets.drop_first(), r)
    }
}

/// The grouping of `reqs` by gatherer: buckets keyed by the distinct gatherer
/// names in order of first appearance, each holding its requests in order.
pub open spec fn buckets_of(reqs: Seq<FactRequestV>) -> Seq<GathererRequestsV>
    decreases reqs.len(),
{
    if reqs.len() == 0 {
        Seq::empty()
    } else {
        add_to_buckets(buckets_of(reqs.drop_last()), reqs.last())
    }
}

/// All fact requests of `targets` as one sequence, preserving target order
/// and, within one target, request order.
pub open spec fn flat_requests(targets: Seq<GatheringTargetV>) -> Seq<FactRequestV>
    decreases targets.len(),
{
    if targets.len() == 0 {
        Seq::empty()
    } else {
        flat_requests(targets.drop_last()) + targets.last().fact_requests
    }
}

/// The union of all buckets' requests, as a multiset.
pub open spec fn buckets_union(buckets: Seq<GathererRequestsV>) -> Multiset<FactRequestV>
    decreases buckets.len(),
{
    if buckets.len() == 0 {
        Multiset::empty()
    } else {
        buckets[0].fact_requests.to_multiset().add(buckets_union(buckets.drop_first()))
    }
}

/// Adding a request whose gatherer keys the bucket at `k`, and no earlier
/// bucket, appends the request to exactly that bucket.
pub proof fn lemma_add_to_buckets_at_index(buckets: Seq<GathererRequestsV>, r: FactRequestV, k: int)
    requires
        0 <= k < buckets.len(),
        buckets[k].gatherer == r.gatherer,
        forall|m: int| 0 <= m < k ==> buckets[m].gatherer != r.gatherer,
    ensures
        add_to_buckets(buckets, r) == buckets.update(
            k,
            GathererRequestsV {
                gatherer: buckets[k].gatherer,
                fact_requests: buckets[k].fact_requests.push(r),
            },
        ),
    decreases buckets.len(),
{
    let upd = GathererRequestsV {
        gatherer: buckets[k].gatherer,
        fact_requests: buckets[k].fact_requests.push(r),
    };
    if k == 0 {
        assert(add_to_buckets(buckets, r) =~= buckets.update(0, upd));
    } else {
        lemma_add_to_buckets_at_index(buckets.drop_first(), r, k - 1);
        assert(add_to_buckets(buckets, r) =~= buckets.update(k, upd));
    }
}

/// Adding a request whose gatherer keys no existing bucket opens a new
/// bucket, holding only that request, at the end.
pub proof fn lemma_add_to_buckets_new(buckets: Seq<GathererRequestsV>, r: FactRequestV)
    requires
        forall|m: int| 0 <= m < buckets.len() ==> buckets[m].gatherer != r.gatherer,
    ensures
        add_to_buckets(buckets, r) == buckets.push(
            GathererRequestsV { gatherer: r.gatherer, fact_requests: seq![r] },
        ),
    decreases buckets.len(),
{
    let nb = GathererRequestsV { gatherer: r.gatherer, fact_requests: seq![r] };
    if buckets.len() == 0 {
        assert(add_to_buckets(buckets, r) =~= buckets.push(nb));
    } else {
        lemma_add_to_buckets_new(buckets.drop_first(), r);
        assert(add_to_buckets(buckets, r) =~= buckets.push(nb));
    }
}

/// A gatherer matched by no request of `reqs` has an empty selection.
proof fn lemma_no_match_filter_empty(reqs: Seq<FactRequestV>, gatherer: Seq<char>)
    requires
        forall|k: int| 0 <= k < reqs.len() ==> reqs[k].gatherer != gatherer,
    ensures
        reqs_with_gatherer(reqs, gatherer) == Seq::<FactRequestV>::empty(),
    decreases reqs.len(),
{
    if reqs.len() > 0 {
        let dl = reqs.drop_last();
        lemma_no_match_filter_empty(dl, gatherer);
        assert(reqs =~= dl.push(reqs.last()));
        assert(reqs_with_gatherer(dl.push(reqs.last()), gatherer) == reqs_with_gatherer(
            dl,
            gatherer,
        ));
    }
}

/// How the grouping of `reqs` relates to `reqs` itself: bucket keys are
/// distinct, every bucket holds exactly the requests naming its gatherer (in
/// order), no bucket is empty, and every request has a bucket.
pub proof fn lemma_buckets_of_characterization(reqs: Seq<FactRequestV>)
    ensures
        forall|i: int, j: int|
            0 <= i < j < buckets_of(reqs).len() ==> buckets_of(reqs)[i].gatherer != buckets_of(
                reqs,
            )[j].gatherer,
        forall|i: int|
            0 <= i < buckets_of(reqs).len() ==> #[trigger] buckets_of(reqs)[i].fact_requests
                == reqs_with_gatherer(reqs, buckets_of(reqs)[i].gatherer),
        forall|k: int|
            0 <= k < reqs.len() ==> #[trigger] has_bucket(buckets_of(reqs), reqs[k].gatherer),
        forall|i: int|
            0 <= i < buckets_of(reqs).len() ==> #[trigger] buckets_of(
                reqs,
            )[i].fact_requests.len() > 0,
    decreases reqs.len(),
{
    if reqs.len() > 0 {
        let dl = reqs.drop_last();
        let r = reqs.last();
        let prev = buckets_of(dl);
        let bs = buckets_of(reqs);
        lemma_buckets_of_characterization(dl);
        assert(reqs =~= dl.push(r));
        assert(bs == add_to_buckets(prev, r));
        if has_bucket(prev, r.gatherer) {
            let k = choose|k: int| 0 <= k < prev.len() && prev[k].gatherer == r.gatherer;
            lemma_add_to_buckets_at_index(prev, r, k);
            assert forall|i: int| 0 <= i < bs.len() implies #[trigger] bs[i].fact_requests
                == reqs_with_gatherer(reqs, bs[i].gatherer) by {
                assert(reqs_with_gatherer(dl.push(r), bs[i].gatherer) == if bs[i].gatherer
                    == r.gatherer {
                    reqs_with_gatherer(dl, bs[i].gatherer).push(r)
                } else {
                    reqs_with_gatherer(dl, bs[i].gatherer)
                });
            }
            assert forall|k2: int| 0 <= k2 < reqs.len() implies #[trigger] has_bucket(
                bs,
                reqs[k2].gatherer,
            ) by {
                if k2 < reqs.len() - 1 {
                    assert(dl[k2] == reqs[k2]);
                    assert(has_bucket(prev, dl[k2].gatherer));
                    let w = choose|w: int|
                        0 <= w < prev.len() && prev[w].gatherer == dl[k2].gatherer;
                    assert(bs[w].gatherer == prev[w].gatherer);
                } else {
                    assert(bs[k].gatherer == r.gatherer);
                }
            }
        } else {
            lemma_add_to_buckets_new(prev, r);
            assert forall|k2: int| 0 <= k2 < dl.len() implies dl[k2].gatherer != r.gatherer by {
                assert(has_bucket(prev, dl[k2].gatherer));
            }
            lemma_no_match_filter_empty(dl, r.gatherer);
            assert forall|i: int| 0 <= i < bs.len() implies #[trigger] bs[i].fact_requests
                == reqs_with_gatherer(reqs, bs[i].gatherer) by {
                assert(reqs_with_gatherer(dl.push(r), bs[i].gatherer) == if bs[i].gatherer
                    == r.gatherer {
                    reqs_with_gatherer(dl, bs[i].gatherer).push(r)
                } else {
                    reqs_with_gatherer(dl, bs[i].gatherer)
                });
                if bs[i].gatherer == r.gatherer {
                    assert(bs[i].fact_requests =~= Seq::<FactRequestV>::empty().push(r));
                }
            }
            assert forall|k2: int| 0 <= k2 < reqs.len() implies #[trigger] has_bucket(
                bs,
                reqs[k2].gatherer,
            ) by {
                if k2 < reqs.len() - 1 {
                    assert(dl[k2] == reqs[k2]);
                    assert(has_bucket(prev, dl[k2].gatherer));
                    let w = choose|w: int|
                        0 <= w < prev.len() && prev[w].gatherer == dl[k2].gatherer;
                    assert(bs[w].gatherer == prev[w].gatherer);
                } else {
                    assert(bs[bs.len() - 1].gatherer == r.gatherer);
                }
            }
        }
    }
}

/// Adding one request to the buckets adds exactly that request to their
/// union.
proof fn lemma_add_to_buckets_union(buckets: Seq<GathererRequestsV>, r: FactRequestV)
    ensures
        buckets_union(add_to_buckets(buckets, r)) == buckets_union(buckets).insert(r),
    decreases buckets.len(),
{
    if buckets.len() == 0 {
        let nb = GathererRequestsV { gatherer: r.gatherer, fact_requests: seq![r] };
        assert(seq![nb].drop_first() =~= Seq::<GathererRequestsV>::empty());
        assert(seq![r] =~= Seq::<FactRequestV>::empty().push(r));
        vstd::multiset::lemma_multiset_empty_len(Seq::<FactRequestV>::empty().to_multiset());
        assert(buckets_union(add_to_buckets(buckets, r)) =~= buckets_union(buckets).insert(r));
    } else if buckets[0].gatherer == r.gatherer {
        let upd = GathererRequestsV {
            gatherer: buckets[0].gatherer,
            fact_requests: buckets[0].fact_requests.push(r),
        };
        assert((seq![upd] + buckets.drop_first())[0] == upd);
        assert((seq![upd] + buckets.drop_first()).drop_first() =~= buckets.drop_first());
        assert(buckets_union(add_to_buckets(buckets, r)) =~= buckets_union(buckets).insert(r));
    } else {
        lemma_add_to_buckets_union(buckets.drop_first(), r);
        assert((seq![buckets[0]] + add_to_buckets(buckets.drop_first(), r))[0] == buckets[0]);
        assert((seq![buckets[0]] + add_to_buckets(buckets.drop_first(), r)).drop_first()
            =~= add_to_buckets(buckets.drop_first(), r));
        assert(buckets_union(add_to_buckets(buckets, r)) =~= buckets_union(buckets).insert(r));
    }
}

/// The union of all buckets of the grouping of `reqs` is exactly the multiset
/// of `reqs`.
proof fn lemma_buckets_of_union(reqs: Seq<FactRequestV>)
    ensures
        buckets_union(buckets_of(reqs)) == reqs.to_multiset(),
    decreases reqs.len(),
{
    if reqs.len() == 0 {
        vstd::multiset::lemma_multiset_empty_len(reqs.to_multiset());
        assert(buckets_union(buckets_of(reqs)) =~= reqs.to_multiset());
    } else {
        let dl = reqs.drop_last();
        lemma_buckets_of_union(dl);
        lemma_add_to_buckets_union(buckets_of(dl), reqs.last());
        assert(reqs =~= dl.push(reqs.last()));
    }
}

/// Grouping partition law: grouping the fact requests of any targets by
/// gatherer neither drops, duplicates nor misfiles a request. The union of
/// all buckets, as a multiset, is exactly the multiset of all requests across
/// the targets; bucket keys are distinct, so no request lands in two buckets;
/// and each bucket holds only requests naming its own gatherer.
pub proof fn lemma_grouping_partitions_requests(targets: Seq<GatheringTargetV>)
    ensures
        buckets_union(buckets_of(flat_requests(targets))) == flat_requests(targets).to_multiset(),
        forall|i: int, j: int|
            0 <= i < j < buckets_of(flat_requests(targets)).len() ==> buckets_of(
                flat_requests(targets),
            )[i].gatherer != buckets_of(flat_requests(targets))[j].gatherer,
        forall|i: int, k: int|
            0 <= i < buckets_of(flat_requests(targets)).len() && 0 <= k < buckets_of(
                flat_requests(targets),
            )[i].fact_requests.len() ==> #[trigger] buckets_of(
                flat_requests(targets),
            )[i].fact_requests[k].gatherer == buckets_of(flat_requests(targets))[i].gatherer,
{
    let reqs = flat_requests(targets);
    let bs = buckets_of(reqs);
    lemma_buckets_of_union(reqs);
    lemma_buckets_of_characterization(reqs);
    assert forall|i: int, k: int|
        0 <= i < bs.len() && 0 <= k < bs[i].fact_requests.len() implies #[trigger] bs[i].fact_requests[k].gatherer
        == bs[i].gatherer by {
        assert(bs[i].fact_requests == reqs_with_gatherer(reqs, bs[i].gatherer));
    }
}

/// The first bucket keyed by `k`, and no earlier one, decides the bucket
/// lookup.
proof fn lemma_bucket_for_at_index(buckets: Seq<GathererRequestsV>, gatherer: Seq<char>, k: int)
    requires
        0 <= k < buckets.len(),
        buckets[k].gatherer == gatherer,
        forall|m: int| 0 <= m < k ==> buckets[m].gatherer != gatherer,
    ensures
        bucket_for(buckets, gatherer) == Some(buckets[k].fact_requests),
    decreases k,
{
    if k > 0 {
        lemma_bucket_for_at_index(buckets.drop_first(), gatherer, k - 1);
    }
}

/// A gatherer keying no bucket has no bucket lookup.
proof fn lemma_bucket_for_none(buckets: Seq<GathererRequestsV>, gatherer: Seq<char>)
    requires
        forall|m: int| 0 <= m < buckets.len() ==> buckets[m].gatherer != gatherer,
    ensures
        bucket_for(buckets, gatherer) is None,
    decreases buckets.len(),
{
    if buckets.len() > 0 {
        lemma_bucket_for_none(buckets.drop_first(), gatherer);
    }
}

impl FactsGatheringRequest {
    /// The requests bound for `gatherer`, if any fact request named it.
    #[verifier::loop_isolation(false)]
    pub fn requests_for_gatherer<'a>(&'a self, gatherer: &str) -> (r: Option<
        &'a Vec<FactRequest>,
    >)
        ensures
            match bucket_for(self@.facts_requests_by_gatherer, gatherer@) {
                Some(reqs) => r matches Some(v) && v.deep_view() == reqs,
                None => r matches None,
            },
    {
        let mut i: usize = 0;
        while i < self.facts_requests_by_gatherer.len()
            invariant
                i <= self.facts_requests_by_gatherer.len(),
                forall|m: int|
                    0 <= m < i ==> self@.facts_requests_by_gatherer[m].gatherer != gatherer@,
            decreases self.facts_requests_by_gatherer.len() - i,
        {
            proof {
                assert(self@.facts_requests_by_gatherer[i as int]
                    == self.facts_requests_by_gatherer@[i as int].deep_view());
            }
            if str_eq(self.facts_requests_by_gatherer[i].gatherer.as_str(), gatherer) {
                proof {
                    lemma_bucket_for_at_index(
                        self@.facts_requests_by_gatherer,
                        gatherer@,
                        i as int,
                    );
                }
                return Some(&self.facts_requests_by_gatherer[i].fact_requests);
            }
            i = i + 1;
        }
        proof {
            lemma_bucket_for_none(self@.facts_requests_by_gatherer, gatherer@);
        }
        None
    }
}

} // verus!
