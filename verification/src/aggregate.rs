//! Aggregation of record sequences into a map of per-key statistics, and the
//! merge of two such maps; merging partial maps of any grouping gives the
//! one-pass aggregate of the whole.

use crate::keymap::{key_map_model, KeyMap};
use crate::record::{empty_model, model_add, model_merge, Record, RecordModel};
use vstd::prelude::*;

verus! {

/// The mathematical content of an exec key map.
pub open spec fn map_view(m: Map<Seq<u8>, Record>) -> Map<Seq<u8>, RecordModel> {
    m.map_values(|r: Record| r@)
}

/// Folds one keyed value into a map of statistics.
pub open spec fn agg_step(m: Map<Seq<u8>, RecordModel>, k: Seq<u8>, v: int) -> Map<
    Seq<u8>,
    RecordModel,
> {
    let base = if m.contains_key(k) {
        m[k]
    } else {
        empty_model()
    };
    m.insert(k, model_add(base, v))
}

/// The per-key statistics of a sequence of keyed values, folded in order.
pub open spec fn agg_map(recs: Seq<(Seq<u8>, int)>) -> Map<Seq<u8>, RecordModel>
    decreases recs.len(),
{
    if recs.len() == 0 {
        Map::empty()
    } else {
        agg_step(agg_map(recs.drop_last()), recs.last().0, recs.last().1)
    }
}

/// Pointwise merge of two maps of statistics; a key held by one side alone
/// keeps its statistics unchanged.
pub open spec fn merge_maps(a: Map<Seq<u8>, RecordModel>, b: Map<Seq<u8>, RecordModel>) -> Map<
    Seq<u8>,
    RecordModel,
> {
    Map::new(
        |k: Seq<u8>| a.contains_key(k) || b.contains_key(k),
        |k: Seq<u8>|
            if a.contains_key(k) && b.contains_key(k) {
                model_merge(a[k], b[k])
            } else if b.contains_key(k) {
                b[k]
            } else {
                a[k]
            },
    )
}

pub open spec fn values_in_range(recs: Seq<(Seq<u8>, int)>) -> bool {
    forall|i: int| 0 <= i < recs.len() ==> -9999 <= (#[trigger] recs[i]).1 <= 9999
}

/// Statistics that can only have come from values in tenths range: the count
/// is positive and bounded, and the extremes and the sum are bounded by it.
pub open spec fn model_wf(r: RecordModel, cap: int) -> bool {
    &&& 1 <= r.count <= cap
    &&& -9999 <= r.min <= 9999
    &&& -9999 <= r.max <= 9999
    &&& -9999 * r.count <= r.sum <= 9999 * r.count
}

pub open spec fn map_wf(m: Map<Seq<u8>, RecordModel>, cap: int) -> bool {
    forall|k: Seq<u8>| m.contains_key(k) ==> model_wf(#[trigger] m[k], cap)
}

/// Aggregating in-range values keeps every entry well formed, with counts
/// bounded by the number of records.
pub proof fn lemma_agg_map_wf(recs: Seq<(Seq<u8>, int)>)
    requires
        values_in_range(recs),
    ensures
        map_wf(agg_map(recs), recs.len() as int),
    decreases recs.len(),
{
    if recs.len() > 0 {
        let r0 = recs.drop_last();
        assert(forall|i: int| 0 <= i < r0.len() ==> r0[i] == recs[i]);
        lemma_agg_map_wf(r0);
        let m0 = agg_map(r0);
        let k = recs.last().0;
        let v = recs.last().1;
        assert(-9999 <= v <= 9999);
        let m1 = agg_step(m0, k, v);
        assert forall|x: Seq<u8>| m1.contains_key(x) implies model_wf(
            m1[x],
            recs.len() as int,
        ) by {
            if x == k {
                if m0.contains_key(k) {
                    assert(model_wf(m0[k], r0.len() as int));
                }
            } else {
                assert(m0.contains_key(x) && m1[x] == m0[x]);
                assert(model_wf(m0[x], r0.len() as int));
            }
        }
    }
}

/// Folding one value into a merged map is the same as folding it into the
/// right-hand side first.
proof fn lemma_step_merge_comm(
    a: Map<Seq<u8>, RecordModel>,
    b: Map<Seq<u8>, RecordModel>,
    k: Seq<u8>,
    v: int,
)
    requires
        -9999 <= v <= 9999,
    ensures
        agg_step(merge_maps(a, b), k, v) == merge_maps(a, agg_step(b, k, v)),
{
    let l = agg_step(merge_maps(a, b), k, v);
    let r = merge_maps(a, agg_step(b, k, v));
    assert forall|x: Seq<u8>| l.contains_key(x) implies r.contains_key(x) && l[x] == r[x] by {
        if x == k {
            if a.contains_key(k) && b.contains_key(k) {
                assert(l[k] == model_add(model_merge(a[k], b[k]), v));
                assert(r[k] == model_merge(a[k], model_add(b[k], v)));
            } else if a.contains_key(k) {
                assert(l[k] == model_add(a[k], v));
                assert(r[k] == model_merge(a[k], model_add(empty_model(), v)));
            } else if b.contains_key(k) {
                assert(l[k] == model_add(b[k], v));
            } else {
                assert(l[k] == model_add(empty_model(), v));
            }
        }
    }
    assert(l =~= r);
}

/// Aggregating two groups of records separately and merging the results
/// gives the one-pass aggregate of their concatenation.
pub proof fn lemma_agg_map_concat(r1: Seq<(Seq<u8>, int)>, r2: Seq<(Seq<u8>, int)>)
    requires
        values_in_range(r1),
        values_in_range(r2),
    ensures
        agg_map(r1 + r2) == merge_maps(agg_map(r1), agg_map(r2)),
    decreases r2.len(),
{
    if r2.len() == 0 {
        assert(r1 + r2 =~= r1);
        assert(merge_maps(agg_map(r1), agg_map(r2)) =~= agg_map(r1));
    } else {
        let r2p = r2.drop_last();
        assert(forall|i: int| 0 <= i < r2p.len() ==> r2p[i] == r2[i]);
        lemma_agg_map_concat(r1, r2p);
        assert((r1 + r2).drop_last() =~= r1 + r2p);
        let k = r2.last().0;
        let v = r2.last().1;
        assert(agg_map(r1 + r2) == agg_step(agg_map(r1 + r2p), k, v));
        lemma_step_merge_comm(agg_map(r1), agg_map(r2p), k, v);
    }
}

/// Viewing an updated exec map is updating the viewed map.
pub proof fn lemma_map_view_insert(m: Map<Seq<u8>, Record>, k: Seq<u8>, r: Record)
    ensures
        map_view(m.insert(k, r)) == map_view(m).insert(k, r@),
{
    assert(map_view(m.insert(k, r)) =~= map_view(m).insert(k, r@));
}

/// Two maps of statistics whose shared keys overflow neither the count nor
/// the sum of a record.
pub open spec fn mergeable(a: Map<Seq<u8>, RecordModel>, b: Map<Seq<u8>, RecordModel>) -> bool {
    forall|k: Seq<u8>|
        a.contains_key(k) && b.contains_key(k) ==> {
            &&& (#[trigger] a[k]).count + b[k].count <= u64::MAX
            &&& i128::MIN <= a[k].sum + b[k].sum <= i128::MAX
        }
}

/// The part of `b` whose keys lie in `done`.
pub open spec fn restrict_keys(b: Map<Seq<u8>, RecordModel>, done: Set<Seq<u8>>) -> Map<
    Seq<u8>,
    RecordModel,
> {
    Map::new(|k: Seq<u8>| b.contains_key(k) && done.contains(k), |k: Seq<u8>| b[k])
}



/// The keys among the first `i` entries of `keys`.
pub open spec fn keys_before(keys: Seq<Vec<u8>>, i: int) -> Set<Seq<u8>> {
    Set::new(|k: Seq<u8>| exists|j: int| 0 <= j < i && #[trigger] keys[j]@ == k)
}

/// Merges every entry of `local` into `global`, as if each of `local`'s
/// values had been added to `global` directly; leaves `global` unchanged and
/// answers `false` exactly when some shared key would overflow a count or a
/// sum.
pub fn merge_from(global: &mut KeyMap, local: &KeyMap) -> (r: bool)
    ensures
        r == mergeable(map_view(key_map_model(*old(global))), map_view(key_map_model(*local))),
        r ==> map_view(key_map_model(*final(global))) == merge_maps(
            map_view(key_map_model(*old(global))),
            map_view(key_map_model(*local)),
        ),
        !r ==> key_map_model(*final(global)) == key_map_model(*old(global)),
{
    let ghost a = map_view(key_map_model(*global));
    let ghost b = map_view(key_map_model(*local));
    let keys = local.keys();
    let n = keys.len();
    let mut i: usize = 0;
    while i < n
        invariant
            n == keys@.len(),
            i <= n,
            *global == *old(global),
            a == map_view(key_map_model(*global)),
            b == map_view(key_map_model(*local)),
            forall|j: int|
                0 <= j < keys@.len() ==> key_map_model(*local).contains_key(#[trigger] keys@[j]@),
            forall|k: Seq<u8>|
                key_map_model(*local).contains_key(k) ==> exists|j: int|
                    0 <= j < keys@.len() && #[trigger] keys@[j]@ == k,
            forall|j: int|
                0 <= j < i ==> !a.contains_key(#[trigger] keys@[j]@) || {
                    &&& a[keys@[j]@].count + b[keys@[j]@].count <= u64::MAX
                    &&& i128::MIN <= a[keys@[j]@].sum + b[keys@[j]@].sum <= i128::MAX
                },
        decreases n - i,
    {
        let k = &keys[i];
        let ghost ks = keys@[i as int]@;
        match local.get(k.as_slice()) {
            Some(lr) => {
                match global.get(k.as_slice()) {
                    Some(gr) => {
                        proof {
                            assert(a.contains_key(ks) && b.contains_key(ks));
                            assert(a[ks] == gr@ && b[ks] == lr@);
                        }
                        if gr.count > u64::MAX - lr.count {
                            proof {
                                assert(a[ks].count + b[ks].count > u64::MAX);
                                assert(!mergeable(a, b));
                            }
                            return false;
                        }
                        if gr.sum > 0 && lr.sum > i128::MAX - gr.sum {
                            proof {
                                assert(a[ks].sum + b[ks].sum > i128::MAX);
                                assert(!mergeable(a, b));
                            }
                            return false;
                        }
                        if gr.sum < 0 && lr.sum < i128::MIN - gr.sum {
                            proof {
                                assert(a[ks].sum + b[ks].sum < i128::MIN);
                                assert(!mergeable(a, b));
                            }
                            return false;
                        }
                    },
                    None => {},
                }
            },
            None => {
                proof {
                    assert(key_map_model(*local).contains_key(ks));
                    assert(false);
                }
            },
        }
        i = i + 1;
    }
    proof {
        assert forall|k: Seq<u8>|
            a.contains_key(k) && b.contains_key(k) implies {
            &&& (#[trigger] a[k]).count + b[k].count <= u64::MAX
            &&& i128::MIN <= a[k].sum + b[k].sum <= i128::MAX
        } by {
            let j = choose|j: int| 0 <= j < keys@.len() && #[trigger] keys@[j]@ == k;
            assert(keys@[j]@ == k);
        }
        assert(mergeable(a, b));
    }
    let mut p: usize = 0;
    while p < n
        invariant
            n == keys@.len(),
            p <= n,
            mergeable(a, b),
            a == map_view(key_map_model(*old(global))),
            b == map_view(key_map_model(*local)),
            forall|j: int|
                0 <= j < keys@.len() ==> key_map_model(*local).contains_key(#[trigger] keys@[j]@),
            forall|k: Seq<u8>|
                key_map_model(*local).contains_key(k) ==> exists|j: int|
                    0 <= j < keys@.len() && #[trigger] keys@[j]@ == k,
            forall|j1: int, j2: int| 0 <= j1 < j2 < keys@.len() ==> keys@[j1]@ != keys@[j2]@,
            map_view(key_map_model(*global)) == merge_maps(a, restrict_keys(b, keys_before(keys@, p as int))),
        decreases n - p,
    {
        let ghost before = keys_before(keys@, p as int);
        let ghost cur = map_view(key_map_model(*global));
        let k = &keys[p];
        let ghost ks = keys@[p as int]@;
        proof {
            assert(b.contains_key(ks));
            assert forall|j: int| 0 <= j < p implies keys@[j]@ != ks by {}
            assert(!before.contains(ks));
            assert(restrict_keys(b, before).contains_key(ks) == false);
            assert(cur.contains_key(ks) == a.contains_key(ks));
            if a.contains_key(ks) {
                assert(cur[ks] == a[ks]);
            }
        }
        match local.get(k.as_slice()) {
            Some(lr) => {
                proof {
                    assert(lr@ == b[ks]);
                }
                let merged = match global.get(k.as_slice()) {
                    Some(gr) => {
                        let mut m = gr;
                        proof {
                            assert(a.contains_key(ks));
                            assert(gr@ == a[ks]);
                        }
                        m.merge(&lr);
                        m
                    },
                    None => lr,
                };
                proof {
                    if a.contains_key(ks) {
                        assert(merged@ == model_merge(a[ks], b[ks]));
                    } else {
                        assert(merged@ == b[ks]);
                    }
                }
                let kv = vstd::slice::slice_to_vec(k.as_slice());
                let ghost mprev = key_map_model(*global);
                global.insert(kv, merged);
                proof {
                    assert(kv@ == ks);
                    assert(key_map_model(*global) == mprev.insert(ks, merged));
                    lemma_map_view_insert(mprev, ks, merged);
                    let after = keys_before(keys@, p + 1);
                    assert(after.contains(ks));
                    assert forall|k2: Seq<u8>| k2 != ks implies after.contains(k2)
                        == before.contains(k2) by {
                        if before.contains(k2) {
                            let j = choose|j: int| 0 <= j < p && #[trigger] keys@[j]@ == k2;
                            assert(0 <= j < p + 1 && keys@[j]@ == k2);
                        }
                        if after.contains(k2) {
                            let j = choose|j: int| 0 <= j < p + 1 && #[trigger] keys@[j]@ == k2;
                            if j < p {
                                assert(0 <= j < p && keys@[j]@ == k2);
                            } else {
                                assert(keys@[j]@ == ks);
                            }
                        }
                    }
                    let lhs = map_view(key_map_model(*global));
                    let rhs = merge_maps(a, restrict_keys(b, after));
                    assert(lhs == cur.insert(ks, merged@));
                    assert forall|k2: Seq<u8>| lhs.contains_key(k2) == rhs.contains_key(k2) && (
                        lhs.contains_key(k2) ==> lhs[k2] == rhs[k2]) by {
                        if k2 == ks {
                            assert(rhs.contains_key(ks));
                            if a.contains_key(ks) {
                                assert(rhs[ks] == model_merge(a[ks], b[ks]));
                            } else {
                                assert(rhs[ks] == b[ks]);
                            }
                        } else {
                            assert(restrict_keys(b, after).contains_key(k2) == restrict_keys(
                                b,
                                before,
                            ).contains_key(k2));
                            if restrict_keys(b, after).contains_key(k2) {
                                assert(restrict_keys(b, after)[k2] == restrict_keys(b, before)[k2]);
                            }
                            assert(lhs[k2] == cur[k2] || !lhs.contains_key(k2));
                        }
                    }
                    assert(lhs =~= rhs);
                }
            },
            None => {
                proof {
                    assert(key_map_model(*local).contains_key(ks));
                    assert(false);
                }
            },
        }
        p = p + 1;
    }
    proof {
        let full = keys_before(keys@, n as int);
        assert forall|k: Seq<u8>| #[trigger] b.contains_key(k) implies full.contains(k) by {
            assert(key_map_model(*local).contains_key(k));
        }
        assert(restrict_keys(b, full) =~= b);
    }
    true
}

} // verus!
