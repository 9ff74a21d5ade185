//! The chunk scanner: folds the `key;value` records of a byte slice into a
//! map from key to running statistics, reporting the first malformed piece
//! of input instead of guessing at it.

use crate::aggregate::{
    agg_map, agg_step, lemma_agg_map_wf, lemma_map_view_insert, map_view, model_wf,
    values_in_range,
};
use crate::bytes::{
    find_byte, lemma_find_byte_is, lemma_find_byte_none, find_first, NL, SEMI,
};
use crate::keymap::{key_map_model, KeyMap};
use crate::numeric::{lemma_token_value_range, parse, token_value, valid_token};
use crate::record::{empty_model, model_add, Record};
use vstd::prelude::*;

verus! {

/// A malformed piece of input: the whole run is abandoned, and this is the
/// offending token.
#[derive(Debug)]
pub struct FormatError {
    pub token: Vec<u8>,
}

/// Whole records only: each record is a key free of terminators, a
/// separator, and a valid value token ended by a newline; the final record
/// alone may leave the newline off.
pub open spec fn wf_records(s: Seq<u8>) -> bool
    decreases s.len(),
{
    if s.len() == 0 {
        true
    } else {
        match find_byte(s, SEMI) {
            None => false,
            Some(sep) => match find_byte(s, NL) {
                Some(nl) => {
                    if nl < sep {
                        false
                    } else if !(0 <= sep && nl < s.len()) {
                        false
                    } else {
                        valid_token(s.subrange(sep + 1, nl)) && wf_records(
                            s.subrange(nl + 1, s.len() as int),
                        )
                    }
                },
                None => valid_token(s.subrange(sep + 1, s.len() as int)),
            },
        }
    }
}

/// The records of a slice of whole records, in order: each key with the
/// tenths its token denotes.
pub open spec fn records_of(s: Seq<u8>) -> Seq<(Seq<u8>, int)>
    decreases s.len(),
{
    if s.len() == 0 {
        Seq::empty()
    } else {
        match find_byte(s, SEMI) {
            None => Seq::empty(),
            Some(sep) => match find_byte(s, NL) {
                Some(nl) => {
                    if nl < sep {
                        Seq::empty()
                    } else if !(0 <= sep && nl < s.len()) {
                        Seq::empty()
                    } else {
                        seq![(s.subrange(0, sep), token_value(s.subrange(sep + 1, nl)))]
                            + records_of(s.subrange(nl + 1, s.len() as int))
                    }
                },
                None => seq![
                    (s.subrange(0, sep), token_value(s.subrange(sep + 1, s.len() as int))),
                ],
            },
        }
    }
}

/// The offending piece of a slice that is not made of whole records: the
/// line that lacks its separator, the invalid value token, or the trailing
/// bytes in which no separator occurs.
pub open spec fn first_bad_token(s: Seq<u8>) -> Seq<u8>
    decreases s.len(),
{
    if s.len() == 0 {
        s
    } else {
        match find_byte(s, SEMI) {
            None => s,
            Some(sep) => match find_byte(s, NL) {
                Some(nl) => {
                    if nl < sep {
                        s.subrange(0, nl)
                    } else if !(0 <= sep && nl < s.len()) {
                        s
                    } else if !valid_token(s.subrange(sep + 1, nl)) {
                        s.subrange(sep + 1, nl)
                    } else {
                        first_bad_token(s.subrange(nl + 1, s.len() as int))
                    }
                },
                None => s.subrange(sep + 1, s.len() as int),
            },
        }
    }
}

/// Scans a slice of whole records into a map of per-key statistics covering
/// exactly the records of the slice; on malformed input, reports the first
/// offending token instead.
pub fn scan(data: &[u8]) -> (r: Result<KeyMap, FormatError>)
    ensures
        match r {
            Ok(m) => wf_records(data@) && map_view(key_map_model(m)) == agg_map(
                records_of(data@),
            ),
            Err(e) => !wf_records(data@) && e.token@ == first_bad_token(data@),
        },
{
    let mut map = KeyMap::new();
    let ghost mut done: Seq<(Seq<u8>, int)> = Seq::empty();
    let mut pos: usize = 0;
    let total = data.len();
    proof {
        assert(data@.len() == total as int);
        assert(data@.subrange(0, data@.len() as int) =~= data@);
        assert(map_view(key_map_model(map)) =~= agg_map(done));
    }
    loop
        invariant
            pos <= data@.len(),
            data@.len() <= usize::MAX,
            wf_records(data@) == wf_records(data@.subrange(pos as int, data@.len() as int)),
            wf_records(data@.subrange(pos as int, data@.len() as int)) ==> records_of(data@)
                == done + records_of(data@.subrange(pos as int, data@.len() as int)),
            !wf_records(data@.subrange(pos as int, data@.len() as int)) ==> first_bad_token(data@)
                == first_bad_token(data@.subrange(pos as int, data@.len() as int)),
            map_view(key_map_model(map)) == agg_map(done),
            values_in_range(done),
            done.len() * 4 <= pos,
        decreases data@.len() - pos,
    {
        let suffix = vstd::slice::slice_subrange(data, pos, data.len());
        let ghost sfx = data@.subrange(pos as int, data@.len() as int);
        let sep_o = find_first(suffix, SEMI);
        let nl_o = find_first(suffix, NL);
        proof {
            match sep_o {
                Some(i) => lemma_find_byte_is(sfx, SEMI, i as int),
                None => lemma_find_byte_none(sfx, SEMI),
            }
            match nl_o {
                Some(i) => lemma_find_byte_is(sfx, NL, i as int),
                None => lemma_find_byte_none(sfx, NL),
            }
        }
        match sep_o {
            None => {
                if suffix.len() == 0 {
                    proof {
                        assert(wf_records(sfx));
                        assert(records_of(sfx) =~= Seq::<(Seq<u8>, int)>::empty());
                        assert(done + records_of(sfx) =~= done);
                    }
                    return Ok(map);
                } else {
                    proof {
                        assert(!wf_records(sfx));
                        assert(first_bad_token(sfx) == sfx);
                    }
                    return Err(FormatError { token: vstd::slice::slice_to_vec(suffix) });
                }
            },
            Some(sep) => {
                let has_nl: bool;
                let token_end: usize;
                match nl_o {
                    Some(nl) => {
                        if nl < sep {
                            proof {
                                assert(!wf_records(sfx));
                                assert(first_bad_token(sfx) == sfx.subrange(0, nl as int));
                            }
                            let line = vstd::slice::slice_subrange(suffix, 0, nl);
                            return Err(FormatError { token: vstd::slice::slice_to_vec(line) });
                        }
                        has_nl = true;
                        token_end = nl;
                    },
                    None => {
                        has_nl = false;
                        token_end = suffix.len();
                    },
                }
                let tok = vstd::slice::slice_subrange(suffix, sep + 1, token_end);
                match parse(tok) {
                    None => {
                        proof {
                            assert(!wf_records(sfx));
                            assert(first_bad_token(sfx) == tok@);
                        }
                        return Err(FormatError { token: vstd::slice::slice_to_vec(tok) });
                    },
                    Some(v) => {
                        proof {
                            lemma_token_value_range(tok@);
                            assert(tok@.len() >= 3);
                        }
                        let key = vstd::slice::slice_subrange(suffix, 0, sep);
                        let ghost ks = sfx.subrange(0, sep as int);
                        let mut cur = match map.get(key) {
                            Some(rec) => rec,
                            None => Record::default(),
                        };
                        proof {
                            lemma_agg_map_wf(done);
                            if agg_map(done).contains_key(ks) {
                                assert(model_wf(agg_map(done)[ks], done.len() as int));
                                assert(cur@ == agg_map(done)[ks]);
                            } else {
                                assert(cur@ == empty_model());
                            }
                            assert(cur@.count <= done.len());
                            assert(-9999 * cur@.count <= cur@.sum <= 9999 * cur@.count);
                        }
                        cur.add(v);
                        let kv = vstd::slice::slice_to_vec(key);
                        let ghost mprev = key_map_model(map);
                        map.insert(kv, cur);
                        proof {
                            lemma_map_view_insert(mprev, ks, cur);
                            let done2 = done.push((ks, v as int));
                            assert(done2.drop_last() =~= done);
                            assert(done2.last() == (ks, v as int));
                            assert(agg_map(done2) == agg_step(agg_map(done), ks, v as int));
                            assert(map_view(key_map_model(map)) =~= agg_map(done2));
                            assert forall|i: int| 0 <= i < done2.len() implies -9999 <= (
                            #[trigger] done2[i]).1 <= 9999 by {
                                if i < done.len() {
                                    assert(done2[i] == done[i]);
                                }
                            }
                            done = done2;
                        }
                        if has_nl {
                            let new_pos = pos + token_end + 1;
                            proof {
                                let nsfx = data@.subrange(new_pos as int, data@.len() as int);
                                assert(nsfx =~= sfx.subrange(
                                    token_end + 1,
                                    sfx.len() as int,
                                ));
                                assert(tok@ == sfx.subrange(sep + 1, token_end as int));
                                assert(wf_records(sfx) == wf_records(nsfx));
                                assert(wf_records(nsfx) ==> records_of(sfx) == seq![
                                    (ks, v as int),
                                ] + records_of(nsfx));
                                assert(wf_records(nsfx) ==> done.drop_last() + records_of(sfx)
                                    =~= done + records_of(nsfx));
                                assert(!wf_records(nsfx) ==> first_bad_token(sfx)
                                    == first_bad_token(nsfx));
                                assert(token_end + 1 >= 5);
                            }
                            pos = new_pos;
                        } else {
                            proof {
                                assert(wf_records(sfx));
                                assert(records_of(sfx) =~= seq![(ks, v as int)]);
                                assert(done.drop_last() + records_of(sfx) =~= done);
                                let nsfx = data@.subrange(
                                    data@.len() as int,
                                    data@.len() as int,
                                );
                                assert(nsfx.len() == 0);
                                assert(sfx.len() >= 4);
                            }
                            pos = data.len();
                        }
                    },
                }
            },
        }
    }
}

} // verus!
