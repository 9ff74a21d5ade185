//! The reporter: keys in strict byte-lexicographic order, each with its
//! minimum, truncating average and maximum rendered in tenths.

use crate::aggregate::map_view;
use crate::bytes::{lemma_lex_irrefl, lemma_lex_total, lemma_lex_trans, lex_less, lex_lt};
use crate::keymap::{key_map_model, KeyMap};
use crate::numeric::render_tenths;
use crate::record::{trunc_div, Record, RecordModel};
use vstd::multiset::Multiset;
use vstd::prelude::*;

verus! {

/// Separator between the key and the statistics.
pub const COLON: u8 = 58;

/// Space after the colon.
pub const SPACE: u8 = 32;

/// Separator between minimum, average and maximum.
pub const SLASH: u8 = 47;

pub open spec fn views_of(s: Seq<Vec<u8>>) -> Seq<Seq<u8>> {
    s.map_values(|v: Vec<u8>| v@)
}

pub open spec fn sorted_le(ks: Seq<Seq<u8>>) -> bool {
    forall|i: int, j: int|
        0 <= i < j < ks.len() ==> lex_lt(#[trigger] ks[i], #[trigger] ks[j]) || ks[i] == ks[j]
}

pub open spec fn strictly_sorted(ks: Seq<Seq<u8>>) -> bool {
    forall|i: int, j: int| 0 <= i < j < ks.len() ==> lex_lt(#[trigger] ks[i], #[trigger] ks[j])
}

/// Sorts keys into byte-lexicographic order, keeping exactly the same keys.
pub fn sorted_keys(keys: Vec<Vec<u8>>) -> (r: Vec<Vec<u8>>)
    ensures
        views_of(r@).to_multiset() == views_of(keys@).to_multiset(),
        sorted_le(views_of(r@)),
{
    broadcast use vstd::seq_lib::group_to_multiset_ensures;

    let mut rest = keys;
    let mut out: Vec<Vec<u8>> = Vec::new();
    proof {
        assert(views_of(out@) =~= Seq::<Seq<u8>>::empty());
        assert(views_of(out@).to_multiset().add(views_of(rest@).to_multiset()) =~= views_of(
            keys@,
        ).to_multiset());
    }
    while rest.len() > 0
        invariant
            views_of(out@).to_multiset().add(views_of(rest@).to_multiset()) == views_of(
                keys@,
            ).to_multiset(),
            sorted_le(views_of(out@)),
            forall|i: int, j: int|
                0 <= i < views_of(out@).len() && 0 <= j < views_of(rest@).len() ==> lex_lt(
                    #[trigger] views_of(out@)[i],
                    #[trigger] views_of(rest@)[j],
                ) || views_of(out@)[i] == views_of(rest@)[j],
        decreases rest@.len(),
    {
        let ghost vr = views_of(rest@);
        let n = rest.len();
        let mut m: usize = 0;
        let mut t: usize = 1;
        proof {
            lemma_lex_irrefl(vr[0]);
        }
        while t < n
            invariant
                n == rest@.len(),
                m < n,
                t <= n,
                vr == views_of(rest@),
                forall|idx: int| 0 <= idx < t ==> !lex_lt(#[trigger] vr[idx], vr[m as int]),
            decreases n - t,
        {
            let less = lex_less(
                vstd::slice::slice_index_get(&rest, t).as_slice(),
                vstd::slice::slice_index_get(&rest, m).as_slice(),
            );
            if less {
                proof {
                    let old_m = m as int;
                    assert forall|idx: int| 0 <= idx < t + 1 implies !lex_lt(
                        #[trigger] vr[idx],
                        vr[t as int],
                    ) by {
                        if idx < t {
                            lemma_lex_total(vr[idx], vr[old_m]);
                            if lex_lt(vr[idx], vr[t as int]) {
                                if lex_lt(vr[old_m], vr[idx]) {
                                    lemma_lex_trans(vr[t as int], vr[old_m], vr[idx]);
                                    lemma_lex_trans(vr[idx], vr[t as int], vr[idx]);
                                    lemma_lex_irrefl(vr[idx]);
                                } else {
                                    assert(vr[old_m] == vr[idx]);
                                    lemma_lex_trans(vr[idx], vr[t as int], vr[idx]);
                                    lemma_lex_irrefl(vr[idx]);
                                }
                            }
                        } else {
                            lemma_lex_irrefl(vr[t as int]);
                        }
                    }
                }
                m = t;
            } else {
                proof {
                    assert forall|idx: int| 0 <= idx < t + 1 implies !lex_lt(
                        #[trigger] vr[idx],
                        vr[m as int],
                    ) by {}
                }
            }
            t = t + 1;
        }
        proof {
            assert forall|idx: int| 0 <= idx < n implies lex_lt(vr[m as int], #[trigger] vr[idx])
                || vr[m as int] == vr[idx] by {
                lemma_lex_total(vr[m as int], vr[idx]);
            }
        }
        let ghost vo = views_of(out@);
        let x = rest.remove(m);
        out.push(x);
        proof {
            assert(views_of(rest@) =~= vr.remove(m as int));
            assert(views_of(out@) =~= vo.push(x@));
            assert(x@ == vr[m as int]);
            vr.to_multiset_ensures();
            vo.to_multiset_ensures();
            assert(vr.remove(m as int).to_multiset() =~= vr.to_multiset().remove(x@));
            assert(vo.push(x@).to_multiset() =~= vo.to_multiset().insert(x@));
            assert(vr.to_multiset().count(x@) > 0) by {
                assert(vr.contains(x@));
            }
            assert(vo.to_multiset().insert(x@).add(vr.to_multiset().remove(x@)) =~= vo.to_multiset(
            ).add(vr.to_multiset()));
            assert forall|i: int, j: int|
                0 <= i < j < views_of(out@).len() implies lex_lt(
                #[trigger] views_of(out@)[i],
                #[trigger] views_of(out@)[j],
            ) || views_of(out@)[i] == views_of(out@)[j] by {
                if j == views_of(out@).len() - 1 {
                    assert(views_of(out@)[i] == vo[i]);
                    assert(views_of(out@)[j] == vr[m as int]);
                }
            }
            assert forall|i: int, j: int|
                0 <= i < views_of(out@).len() && 0 <= j < views_of(rest@).len() implies lex_lt(
                #[trigger] views_of(out@)[i],
                #[trigger] views_of(rest@)[j],
            ) || views_of(out@)[i] == views_of(rest@)[j] by {
                let jr = if j < m { j } else { j + 1 };
                assert(views_of(rest@)[j] == vr[jr]);
                if i < vo.len() {
                    assert(views_of(out@)[i] == vo[i]);
                } else {
                    assert(views_of(out@)[i] == vr[m as int]);
                }
            }
        }
    }
    proof {
        assert(views_of(rest@).to_multiset() =~= Multiset::<Seq<u8>>::empty());
        assert(views_of(out@).to_multiset().add(views_of(rest@).to_multiset()) =~= views_of(
            out@,
        ).to_multiset());
    }
    out
}

/// One output line: the key, a colon and space, then minimum, truncating
/// average and maximum in tenths, separated by slashes.
pub open spec fn line_spec(k: Seq<u8>, r: RecordModel) -> Seq<u8> {
    k + seq![COLON, SPACE] + render_tenths(r.min) + seq![SLASH] + render_tenths(
        trunc_div(r.sum, r.count),
    ) + seq![SLASH] + render_tenths(r.max)
}

fn build_line(key: &[u8], rec: &Record) -> (out: Vec<u8>)
    requires
        rec@.count > 0,
        rec@.sum > i128::MIN,
    ensures
        out@ == line_spec(key@, rec@),
{
    let mut out = vstd::slice::slice_to_vec(key);
    out.push(COLON);
    out.push(SPACE);
    let mut part = crate::numeric::format(rec.min as i128);
    out.append(&mut part);
    out.push(SLASH);
    let mut part2 = crate::numeric::format(rec.avg());
    out.append(&mut part2);
    out.push(SLASH);
    let mut part3 = crate::numeric::format(rec.max as i128);
    out.append(&mut part3);
    proof {
        assert(out@ =~= line_spec(key@, rec@));
    }
    out
}

/// Statistics fit to report: every key has seen at least one value, so the
/// average is defined.
pub open spec fn reportable(v: Map<Seq<u8>, RecordModel>) -> bool {
    forall|k: Seq<u8>|
        v.contains_key(k) ==> (#[trigger] v[k]).count > 0 && v[k].sum > i128::MIN
}

/// Exactly the keys of `dom`, in strict byte-lexicographic order.
pub open spec fn is_sorted_keys_of(ks: Seq<Seq<u8>>, dom: Set<Seq<u8>>) -> bool {
    &&& strictly_sorted(ks)
    &&& forall|i: int| 0 <= i < ks.len() ==> dom.contains(#[trigger] ks[i])
    &&& forall|k: Seq<u8>| dom.contains(k) ==> #[trigger] ks.contains(k)
}

/// The lines of the report of `v`: one line per key, sorted by key.
pub open spec fn is_report_of(lines: Seq<Seq<u8>>, v: Map<Seq<u8>, RecordModel>) -> bool {
    exists|ks: Seq<Seq<u8>>|
        {
            &&& #[trigger] is_sorted_keys_of(ks, v.dom())
            &&& lines.len() == ks.len()
            &&& forall|i: int| 0 <= i < ks.len() ==> lines[i] == line_spec(#[trigger] ks[i], v[ks[i]])
        }
}

/// Renders the report of a map of statistics: one line per key in strict
/// key order; `None` exactly when some key's average is undefined.
pub fn report(m: &KeyMap) -> (r: Option<Vec<Vec<u8>>>)
    ensures
        match r {
            Some(lines) => reportable(map_view(key_map_model(*m))) && is_report_of(
                views_of(lines@),
                map_view(key_map_model(*m)),
            ),
            None => !reportable(map_view(key_map_model(*m))),
        },
{
    broadcast use vstd::seq_lib::group_to_multiset_ensures;

    let ghost v = map_view(key_map_model(*m));
    let keys = m.keys();
    let ghost vk = views_of(keys@);
    proof {
        assert(forall|i: int| 0 <= i < vk.len() ==> v.contains_key(#[trigger] vk[i]));
        assert forall|k: Seq<u8>| v.contains_key(k) implies #[trigger] vk.contains(k) by {
            let i = choose|i: int| 0 <= i < keys@.len() && #[trigger] keys@[i]@ == k;
            assert(vk[i] == k);
        }
        assert(vk.no_duplicates());
    }
    let sorted = sorted_keys(keys);
    let ghost ks = views_of(sorted@);
    proof {
        assert forall|k: Seq<u8>| #[trigger] ks.contains(k) == vk.contains(k) by {
            assert(ks.contains(k) == (ks.to_multiset().count(k) > 0));
            assert(vk.contains(k) == (vk.to_multiset().count(k) > 0));
        }
        vk.lemma_multiset_has_no_duplicates();
        ks.lemma_multiset_has_no_duplicates_conv();
        assert forall|i: int, j: int| 0 <= i < j < ks.len() implies lex_lt(
            #[trigger] ks[i],
            #[trigger] ks[j],
        ) by {
            assert(ks[i] != ks[j]);
        }
        assert forall|i: int| 0 <= i < ks.len() implies v.dom().contains(#[trigger] ks[i]) by {
            assert(ks.contains(ks[i]));
            assert(vk.contains(ks[i]));
            assert(v.contains_key(ks[i]));
        }
        assert forall|k: Seq<u8>| v.dom().contains(k) implies #[trigger] ks.contains(k) by {
            assert(v.contains_key(k));
            assert(vk.contains(k));
        }
        assert(is_sorted_keys_of(ks, v.dom()));
    }
    let count = sorted.len();
    let mut lines: Vec<Vec<u8>> = Vec::new();
    let mut i: usize = 0;
    while i < count
        invariant
            count == sorted@.len(),
            i <= count,
            ks == views_of(sorted@),
            v == map_view(key_map_model(*m)),
            forall|j: int| 0 <= j < ks.len() ==> v.contains_key(#[trigger] ks[j]),
            lines@.len() == i,
            forall|j: int|
                0 <= j < i ==> (#[trigger] lines@[j])@ == line_spec(ks[j], v[ks[j]]),
            forall|j: int|
                0 <= j < i ==> (#[trigger] ks[j]).len() >= 0 && v[ks[j]].count > 0 && v[ks[j]].sum
                    > i128::MIN,
        decreases count - i,
    {
        let key = vstd::slice::slice_index_get(&sorted, i);
        match m.get(key.as_slice()) {
            Some(rec) => {
                proof {
                    assert(rec@ == v[ks[i as int]]);
                }
                if rec.count == 0 || rec.sum == i128::MIN {
                    proof {
                        assert(v.contains_key(ks[i as int]));
                        assert(!reportable(v));
                    }
                    return None;
                }
                let line = build_line(key.as_slice(), &rec);
                lines.push(line);
            },
            None => {
                proof {
                    assert(v.contains_key(ks[i as int]));
                    assert(false);
                }
            },
        }
        i = i + 1;
    }
    proof {
        assert forall|k: Seq<u8>| v.contains_key(k) implies (#[trigger] v[k]).count > 0 && v[k].sum
            > i128::MIN by {
            assert(ks.contains(k));
            let j = choose|j: int| 0 <= j < ks.len() && ks[j] == k;
            assert(v[ks[j]].count > 0);
        }
        assert(reportable(v));
        assert(views_of(lines@).len() == ks.len());
        assert forall|j: int| 0 <= j < ks.len() implies views_of(lines@)[j] == line_spec(
            #[trigger] ks[j],
            v[ks[j]],
        ) by {
            assert(views_of(lines@)[j] == lines@[j]@);
        }
        assert(is_report_of(views_of(lines@), v));
    }
    Some(lines)
}

/// A set of keys has exactly one strictly sorted arrangement.
pub proof fn lemma_sorted_keys_unique(ks1: Seq<Seq<u8>>, ks2: Seq<Seq<u8>>, dom: Set<Seq<u8>>)
    requires
        is_sorted_keys_of(ks1, dom),
        is_sorted_keys_of(ks2, dom),
    ensures
        ks1 == ks2,
    decreases ks1.len(),
{
    if ks1.len() == 0 {
        if ks2.len() > 0 {
            assert(dom.contains(ks2[0]));
            assert(ks1.contains(ks2[0]));
        }
        assert(ks1 =~= ks2);
    } else {
        assert(dom.contains(ks1[0]));
        assert(ks2.contains(ks1[0]));
        assert(ks2.len() > 0);
        let h1 = ks1[0];
        let h2 = ks2[0];
        assert(dom.contains(h2));
        assert(ks1.contains(h2));
        let i2 = choose|i: int| 0 <= i < ks2.len() && ks2[i] == h1;
        let i1 = choose|i: int| 0 <= i < ks1.len() && ks1[i] == h2;
        if h1 != h2 {
            assert(i1 > 0 && i2 > 0);
            assert(lex_lt(h1, ks1[i1]));
            assert(lex_lt(h2, ks2[i2]));
            lemma_lex_trans(h1, h2, h1);
            lemma_lex_irrefl(h1);
        }
        let t1 = ks1.subrange(1, ks1.len() as int);
        let t2 = ks2.subrange(1, ks2.len() as int);
        let dom2 = dom.remove(h1);
        assert forall|i: int| 0 <= i < t1.len() implies dom2.contains(#[trigger] t1[i]) by {
            assert(t1[i] == ks1[i + 1]);
            assert(lex_lt(h1, ks1[i + 1]));
            lemma_lex_irrefl(h1);
        }
        assert forall|i: int| 0 <= i < t2.len() implies dom2.contains(#[trigger] t2[i]) by {
            assert(t2[i] == ks2[i + 1]);
            assert(lex_lt(h2, ks2[i + 1]));
            lemma_lex_irrefl(h2);
        }
        assert forall|k: Seq<u8>| dom2.contains(k) implies #[trigger] t1.contains(k) by {
            assert(dom.contains(k));
            assert(ks1.contains(k));
            let i = choose|i: int| 0 <= i < ks1.len() && ks1[i] == k;
            assert(i > 0);
            assert(t1[i - 1] == k);
        }
        assert forall|k: Seq<u8>| dom2.contains(k) implies #[trigger] t2.contains(k) by {
            assert(dom.contains(k));
            assert(ks2.contains(k));
            let i = choose|i: int| 0 <= i < ks2.len() && ks2[i] == k;
            assert(i > 0);
            assert(t2[i - 1] == k);
        }
        assert(strictly_sorted(t1)) by {
            assert(forall|i: int, j: int|
                0 <= i < j < t1.len() ==> lex_lt(#[trigger] t1[i], #[trigger] t1[j]));
        }
        assert(strictly_sorted(t2)) by {
            assert(forall|i: int, j: int|
                0 <= i < j < t2.len() ==> lex_lt(#[trigger] t2[i], #[trigger] t2[j]));
        }
        lemma_sorted_keys_unique(t1, t2, dom2);
        assert(ks1.len() == ks2.len());
        assert forall|i: int| 0 <= i < ks1.len() implies ks1[i] == ks2[i] by {
            if i > 0 {
                assert(ks1[i] == t1[i - 1]);
                assert(ks2[i] == t2[i - 1]);
            }
        }
        assert(ks1 =~= ks2);
    }
}

/// The report of a map of statistics is unique: however it was computed, the
/// same statistics give byte-for-byte the same lines.
pub proof fn lemma_report_unique(
    l1: Seq<Seq<u8>>,
    l2: Seq<Seq<u8>>,
    v: Map<Seq<u8>, RecordModel>,
)
    requires
        is_report_of(l1, v),
        is_report_of(l2, v),
    ensures
        l1 == l2,
{
    let ks1 = choose|ks: Seq<Seq<u8>>|
        {
            &&& #[trigger] is_sorted_keys_of(ks, v.dom())
            &&& l1.len() == ks.len()
            &&& forall|i: int| 0 <= i < ks.len() ==> l1[i] == line_spec(#[trigger] ks[i], v[ks[i]])
        };
    let ks2 = choose|ks: Seq<Seq<u8>>|
        {
            &&& #[trigger] is_sorted_keys_of(ks, v.dom())
            &&& l2.len() == ks.len()
            &&& forall|i: int| 0 <= i < ks.len() ==> l2[i] == line_spec(#[trigger] ks[i], v[ks[i]])
        };
    lemma_sorted_keys_unique(ks1, ks2, v.dom());
    assert forall|i: int| 0 <= i < l1.len() implies l1[i] == l2[i] by {
        assert(l1[i] == line_spec(ks1[i], v[ks1[i]]));
        assert(l2[i] == line_spec(ks2[i], v[ks2[i]]));
    }
    assert(l1 =~= l2);
}

} // verus!
