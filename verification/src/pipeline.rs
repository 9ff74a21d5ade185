//! The whole pipeline, run serially: partition the buffer on newlines, scan
//! every chunk, merge the partial maps and render the report. Its contract
//! depends on the buffer alone, never on the partition count: splitting work
//! differently cannot change the result.

use crate::aggregate::{
    agg_map, lemma_agg_map_concat, lemma_agg_map_wf, map_view, merge_from, merge_maps, mergeable,
    model_wf, values_in_range,
};
use crate::bytes::{find_byte, lemma_find_byte, lemma_find_byte_is, NL, SEMI};
use crate::keymap::{key_map_model, KeyMap};
use crate::numeric::{lemma_token_value_range, token_value, valid_token};
use crate::partition::partition;
use crate::report::{is_report_of, report, reportable, views_of};
use crate::scan::{records_of, scan, wf_records, FormatError};
use vstd::prelude::*;

verus! {

/// A slice of whole records (empty, or ending in a newline) composes: what
/// follows it is well formed exactly when the whole is, and its records come
/// first in the records of the whole.
pub proof fn lemma_scan_split(c: Seq<u8>, d: Seq<u8>)
    requires
        c.len() == 0 || c[c.len() - 1] == NL,
    ensures
        wf_records(c + d) == (wf_records(c) && wf_records(d)),
        wf_records(c) ==> records_of(c + d) == records_of(c) + records_of(d),
    decreases c.len(),
{
    if c.len() == 0 {
        assert(c + d =~= d);
        assert(records_of(c) + records_of(d) =~= records_of(d));
    } else {
        let s = c + d;
        lemma_find_byte(c, SEMI);
        lemma_find_byte(c, NL);
        lemma_find_byte(s, SEMI);
        lemma_find_byte(s, NL);
        match find_byte(c, SEMI) {
            None => {
                assert(!wf_records(c));
                match find_byte(s, SEMI) {
                    None => {
                        assert(!wf_records(s));
                    },
                    Some(sep) => {
                        assert forall|j: int| 0 <= j < c.len() implies s[j] != SEMI by {
                            assert(s[j] == c[j]);
                        }
                        assert(sep >= c.len());
                        match find_byte(s, NL) {
                            None => {
                                assert(s[c.len() - 1] == NL);
                            },
                            Some(nl) => {
                                assert(s[c.len() - 1] == NL);
                                assert(nl <= c.len() - 1);
                                assert(nl < sep);
                                assert(!wf_records(s));
                            },
                        }
                    },
                }
            },
            Some(sep_c) => {
                assert(s[sep_c] == c[sep_c]);
                assert forall|j: int| 0 <= j < sep_c implies s[j] != SEMI by {
                    assert(s[j] == c[j]);
                }
                lemma_find_byte_is(s, SEMI, sep_c);
                match find_byte(c, NL) {
                    None => {
                        assert(c[c.len() - 1] == NL);
                    },
                    Some(nl_c) => {
                        assert(s[nl_c] == c[nl_c]);
                        assert forall|j: int| 0 <= j < nl_c implies s[j] != NL by {
                            assert(s[j] == c[j]);
                        }
                        lemma_find_byte_is(s, NL, nl_c);
                        if nl_c < sep_c {
                            assert(!wf_records(c));
                            assert(!wf_records(s));
                        } else {
                            assert(nl_c != sep_c);
                            let tok_c = c.subrange(sep_c + 1, nl_c);
                            let tok_s = s.subrange(sep_c + 1, nl_c);
                            assert(tok_c =~= tok_s);
                            let rest_c = c.subrange(nl_c + 1, c.len() as int);
                            let rest_s = s.subrange(nl_c + 1, s.len() as int);
                            assert(rest_s =~= rest_c + d);
                            assert(rest_c.len() == 0 || rest_c[rest_c.len() - 1] == NL);
                            lemma_scan_split(rest_c, d);
                            assert(wf_records(c) == (valid_token(tok_c) && wf_records(rest_c)));
                            assert(wf_records(s) == (valid_token(tok_s) && wf_records(rest_s)));
                            if wf_records(c) {
                                assert(c.subrange(0, sep_c) =~= s.subrange(0, sep_c));
                                assert(records_of(s) == seq![
                                    (s.subrange(0, sep_c), token_value(tok_s)),
                                ] + records_of(rest_s));
                                assert(records_of(c) == seq![
                                    (c.subrange(0, sep_c), token_value(tok_c)),
                                ] + records_of(rest_c));
                                assert(records_of(s) =~= records_of(c) + records_of(d));
                            }
                        }
                    },
                }
            },
        }
    }
}

/// A slice of whole records holds at least four bytes per record, and every
/// record's value lies in tenths range.
pub proof fn lemma_records_of_wf(s: Seq<u8>)
    requires
        wf_records(s),
    ensures
        records_of(s).len() * 4 <= s.len(),
        values_in_range(records_of(s)),
    decreases s.len(),
{
    lemma_find_byte(s, SEMI);
    lemma_find_byte(s, NL);
    if s.len() == 0 {
    } else {
        match find_byte(s, SEMI) {
            None => {},
            Some(sep) => match find_byte(s, NL) {
                Some(nl) => {
                    let tok = s.subrange(sep + 1, nl);
                    assert(tok.len() >= 3);
                    lemma_token_value_range(tok);
                    let rest = s.subrange(nl + 1, s.len() as int);
                    lemma_records_of_wf(rest);
                    let recs = records_of(s);
                    assert(recs == seq![(s.subrange(0, sep), token_value(tok))] + records_of(
                        rest,
                    ));
                    assert(recs.len() == 1 + records_of(rest).len());
                    assert(nl + 1 >= 5);
                    assert forall|i: int| 0 <= i < recs.len() implies -9999 <= (
                    #[trigger] recs[i]).1 <= 9999 by {
                        if i > 0 {
                            assert(recs[i] == records_of(rest)[i - 1]);
                        }
                    }
                },
                None => {
                    let tok = s.subrange(sep + 1, s.len() as int);
                    assert(tok.len() >= 3);
                    lemma_token_value_range(tok);
                    let recs = records_of(s);
                    assert(recs.len() == 1);
                    assert(recs[0].1 == token_value(tok));
                },
            },
        }
    }
}

/// Where the next chunk starts: at the end of the work, the buffer end.
pub open spec fn chunk_bound(ranges: Seq<(usize, usize)>, idx: int, total: int) -> int {
    if idx < ranges.len() {
        ranges[idx].0 as int
    } else {
        total
    }
}

/// Runs the whole pipeline over a buffer: partitions it into at most `parts`
/// newline-aligned chunks, scans each chunk, merges the partial statistics
/// and renders the sorted report. The result depends on the buffer alone:
/// any partition count gives the same lines.
pub fn run_pipeline(data: &[u8], parts: usize) -> (r: Result<Vec<Vec<u8>>, FormatError>)
    requires
        parts >= 1,
    ensures
        match r {
            Ok(lines) => wf_records(data@) && is_report_of(
                views_of(lines@),
                agg_map(records_of(data@)),
            ),
            Err(e) => !wf_records(data@),
        },
{
    let total = data.len();
    let ranges = partition(data, parts);
    let mut global = KeyMap::new();
    let nr = ranges.len();
    let mut idx: usize = 0;
    let ghost mut done: Seq<(Seq<u8>, int)> = Seq::empty();
    proof {
        assert(data@.subrange(0, data@.len() as int) =~= data@);
        assert(map_view(key_map_model(global)) =~= agg_map(done));
        assert(chunk_bound(ranges@, 0, total as int) == 0);
    }
    while idx < nr
        invariant
            total == data@.len(),
            nr == ranges@.len(),
            idx <= nr,
            1 <= nr,
            (#[trigger] ranges@[0]).0 == 0,
            ranges@[nr - 1].1 == total,
            forall|i: int| 0 <= i < nr - 1 ==> (#[trigger] ranges@[i]).1 == ranges@[i + 1].0,
            forall|i: int| 0 <= i < nr ==> (#[trigger] ranges@[i]).0 <= ranges@[i].1 <= total,
            forall|i: int|
                0 <= i < nr - 1 ==> (#[trigger] ranges@[i]).1 >= 1 && data@[ranges@[i].1 - 1]
                    == NL,
            wf_records(data@) == wf_records(
                data@.subrange(chunk_bound(ranges@, idx as int, total as int), total as int),
            ),
            wf_records(
                data@.subrange(chunk_bound(ranges@, idx as int, total as int), total as int),
            ) ==> records_of(data@) == done + records_of(
                data@.subrange(chunk_bound(ranges@, idx as int, total as int), total as int),
            ),
            map_view(key_map_model(global)) == agg_map(done),
            values_in_range(done),
            done.len() * 4 <= chunk_bound(ranges@, idx as int, total as int),
        decreases nr - idx,
    {
        let pr: (usize, usize) = ranges[idx];
        let start: usize = pr.0;
        let end: usize = pr.1;
        let chunk = vstd::slice::slice_subrange(data, start, end);
        let ghost sfx = data@.subrange(start as int, total as int);
        let ghost rest = data@.subrange(end as int, total as int);
        proof {
            assert(chunk_bound(ranges@, idx as int, total as int) == start as int);
            if idx + 1 < nr {
                assert(ranges@[idx as int].1 == ranges@[idx as int + 1].0);
                assert(data@[end - 1] == NL);
                assert(chunk@.len() > 0 ==> chunk@[chunk@.len() - 1] == NL);
                assert(sfx =~= chunk@ + rest);
                lemma_scan_split(chunk@, rest);
            } else {
                assert(end == total);
                assert(sfx =~= chunk@);
                assert(rest.len() == 0);
            }
        }
        match scan(chunk) {
            Err(e) => {
                proof {
                    assert(!wf_records(sfx));
                    assert(!wf_records(data@));
                }
                return Err(e);
            },
            Ok(local) => {
                let ghost recs_c = records_of(chunk@);
                proof {
                    lemma_records_of_wf(chunk@);
                    lemma_agg_map_wf(done);
                    lemma_agg_map_wf(recs_c);
                    let a = agg_map(done);
                    let b = agg_map(recs_c);
                    assert forall|k: Seq<u8>|
                        a.contains_key(k) && b.contains_key(k) implies {
                        &&& (#[trigger] a[k]).count + b[k].count <= u64::MAX
                        &&& i128::MIN <= a[k].sum + b[k].sum <= i128::MAX
                    } by {
                        assert(model_wf(a[k], done.len() as int));
                        assert(model_wf(b[k], recs_c.len() as int));
                        assert(done.len() * 4 <= start);
                        assert(recs_c.len() * 4 <= end - start);
                        assert(a[k].count + b[k].count <= done.len() + recs_c.len());
                        assert(4 * (done.len() + recs_c.len()) <= end);
                        assert(end <= usize::MAX);
                        assert(usize::MAX <= u64::MAX);
                    }
                    assert(mergeable(a, b));
                    assert(map_view(key_map_model(local)) == b);
                }
                let ok = merge_from(&mut global, &local);
                proof {
                    assert(ok);
                    lemma_agg_map_concat(done, recs_c);
                    assert(map_view(key_map_model(global)) == merge_maps(
                        agg_map(done),
                        agg_map(recs_c),
                    ));
                    assert(map_view(key_map_model(global)) == agg_map(done + recs_c));
                    let nbound = chunk_bound(ranges@, idx as int + 1, total as int);
                    assert(nbound == end as int);
                    let nsfx = data@.subrange(end as int, total as int);
                    assert(wf_records(sfx) == wf_records(nsfx));
                    if wf_records(nsfx) {
                        assert(records_of(sfx) == recs_c + records_of(nsfx));
                        assert(done + records_of(sfx) =~= (done + recs_c) + records_of(nsfx));
                    }
                    assert((done + recs_c).len() * 4 <= end);
                    assert forall|i: int| 0 <= i < (done + recs_c).len() implies -9999 <= (
                    #[trigger] (done + recs_c)[i]).1 <= 9999 by {
                        if i < done.len() {
                            assert((done + recs_c)[i] == done[i]);
                        } else {
                            assert((done + recs_c)[i] == recs_c[i - done.len()]);
                        }
                    }
                    done = done + recs_c;
                }
                idx = idx + 1;
            },
        }
    }
    proof {
        let sfx = data@.subrange(total as int, total as int);
        assert(sfx.len() == 0);
        assert(wf_records(data@));
        assert(records_of(sfx) =~= Seq::<(Seq<u8>, int)>::empty());
        assert(records_of(data@) == done + records_of(sfx));
        assert(done + records_of(sfx) =~= done);
        lemma_agg_map_wf(done);
        let v = map_view(key_map_model(global));
        assert forall|k: Seq<u8>| v.contains_key(k) implies (#[trigger] v[k]).count > 0
            && v[k].sum > i128::MIN by {
            assert(model_wf(v[k], done.len() as int));
            assert(-9999 * v[k].count >= -9999 * (usize::MAX as int));
        }
        assert(reportable(v));
    }
    match report(&global) {
        Some(lines) => Ok(lines),
        None => {
            proof {
                assert(false);
            }
            Err(FormatError { token: Vec::new() })
        },
    }
}

/// Two full-pipeline runs over the same buffer print the same lines, however
/// many chunks each one split the work into.
pub proof fn lemma_pipeline_deterministic(l1: Seq<Seq<u8>>, l2: Seq<Seq<u8>>, data: Seq<u8>)
    requires
        is_report_of(l1, agg_map(records_of(data))),
        is_report_of(l2, agg_map(records_of(data))),
    ensures
        l1 == l2,
{
    crate::report::lemma_report_unique(l1, l2, agg_map(records_of(data)));
}

} // verus!
