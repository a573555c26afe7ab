//! The series aligner: pairs the current and the previous day's readings
//! per instance, positionally, truncating to the shorter sequence. An
//! instance absent from the previous day's series is skipped entirely —
//! never an error, never a partial entry.

use crate::backend::{distinct_keys, index_of_key, lemma_index_of_key_props};
use vstd::prelude::*;

verus! {

/// One paired position: the current and the previous reading texts.
pub struct ReadingPair {
    pub curr: String,
    pub prev: String,
}

/// The mathematical shape of a paired position.
pub struct ReadingPairV {
    pub curr: Seq<char>,
    pub prev: Seq<char>,
}

impl View for ReadingPair {
    type V = ReadingPairV;

    open spec fn view(&self) -> ReadingPairV {
        ReadingPairV { curr: self.curr@, prev: self.prev@ }
    }
}

impl DeepView for ReadingPair {
    type V = ReadingPairV;

    open spec fn deep_view(&self) -> ReadingPairV {
        self.view()
    }
}

/// The payload of the first entry with the given key, if any.
pub open spec fn lookup<T>(g: Seq<(Seq<char>, T)>, k: Seq<char>) -> Option<T> {
    match index_of_key(g, k) {
        Some(i) => Some(g[i].1),
        None => None,
    }
}

/// Positional pairing truncated to the shorter sequence: positions beyond
/// it are dropped, not padded.
pub open spec fn zip_trunc(c: Seq<Seq<char>>, p: Seq<Seq<char>>) -> Seq<ReadingPairV> {
    Seq::new(
        if c.len() <= p.len() {
            c.len()
        } else {
            p.len()
        },
        |i: int| ReadingPairV { curr: c[i], prev: p[i] },
    )
}

/// Alignment of the current series against the previous one: each current
/// entry found in the previous series is paired and kept in order; the
/// others leave no trace.
pub open spec fn align_spec(
    c: Seq<(Seq<char>, Seq<Seq<char>>)>,
    p: Seq<(Seq<char>, Seq<Seq<char>>)>,
) -> Seq<(Seq<char>, Seq<ReadingPairV>)>
    decreases c.len(),
{
    if c.len() == 0 {
        Seq::<(Seq<char>, Seq<ReadingPairV>)>::empty()
    } else {
        let r = align_spec(c.drop_last(), p);
        let e = c.last();
        match lookup(p, e.0) {
            Some(pv) => r.push((e.0, zip_trunc(e.1, pv))),
            None => r,
        }
    }
}

/// Aligns the two series: the result is exactly `align_spec` of their
/// views.
pub fn align_series(
    curr: Vec<(String, Vec<String>)>,
    prev: &Vec<(String, Vec<String>)>,
) -> (r: Vec<(String, Vec<ReadingPair>)>)
    ensures
        r.deep_view() == align_spec(curr.deep_view(), prev.deep_view()),
{
    let ghost call = curr.deep_view();
    let ghost pall = prev.deep_view();
    let mut rest = curr;
    let mut out: Vec<(String, Vec<ReadingPair>)> = Vec::new();
    let ghost mut c: int = 0;
    proof {
        assert(rest.deep_view() =~= call.skip(0));
        assert(call.take(0) =~= Seq::<(Seq<char>, Seq<Seq<char>>)>::empty());
        assert(out.deep_view() =~= align_spec(call.take(0), pall));
    }
    while rest.len() > 0
        invariant
            0 <= c <= call.len(),
            rest.deep_view() == call.skip(c),
            out.deep_view() == align_spec(call.take(c), pall),
            pall == prev.deep_view(),
        decreases rest.len(),
    {
        let ghost out_pre = out.deep_view();
        let ghost rest_pre = rest.deep_view();
        proof {
            assert(rest.deep_view().len() == rest@.len());
        }
        let (k, vs) = rest.remove(0);
        let ghost kv = k@;
        let ghost vsv = vs.deep_view();
        proof {
            assert(rest_pre.len() == call.len() - c);
            assert(c < call.len());
            assert((kv, vsv) == rest_pre[0]);
            assert(call.skip(c)[0] == call[c]);
            assert forall|l: int| 0 <= l < rest.deep_view().len() implies rest.deep_view()[l]
                == rest_pre[l + 1] by {
                assert(rest.deep_view()[l] == rest@[l].deep_view());
            }
            assert(rest.deep_view() =~= call.skip(c + 1));
            assert(call.take(c + 1).drop_last() =~= call.take(c));
            assert(call.take(c + 1).last() == call[c]);
        }
        match crate::backend::find_entry(prev, &k) {
            Some(i) => {
                let ghost pvs = pall[i as int].1;
                proof {
                    assert(pall[i as int] == (prev@[i as int].0@, prev@[i as int].1.deep_view()));
                    assert(lookup(pall, kv) == Some(pvs));
                }
                let n = if vs.len() <= prev[i].1.len() {
                    vs.len()
                } else {
                    prev[i].1.len()
                };
                let mut pairs: Vec<ReadingPair> = Vec::new();
                let mut j: usize = 0;
                while j < n
                    invariant
                        0 <= j <= n,
                        i < prev@.len(),
                        n == if vsv.len() <= pvs.len() {
                            vsv.len()
                        } else {
                            pvs.len()
                        },
                        vsv == vs.deep_view(),
                        pvs == prev@[i as int].1.deep_view(),
                        vs@.len() == vsv.len(),
                        prev@[i as int].1@.len() == pvs.len(),
                        pairs.deep_view().len() == j,
                        forall|l: int|
                            0 <= l < j ==> #[trigger] pairs.deep_view()[l] == (ReadingPairV {
                                curr: vsv[l],
                                prev: pvs[l],
                            }),
                    decreases n - j,
                {
                    let ghost pairs_pre = pairs.deep_view();
                    let pr = ReadingPair { curr: vs[j].clone(), prev: prev[i].1[j].clone() };
                    proof {
                        assert(vs@[j as int]@ == vsv[j as int]);
                        assert(prev@[i as int].1@[j as int]@ == pvs[j as int]);
                    }
                    pairs.push(pr);
                    proof {
                        assert(pairs.deep_view() =~= pairs_pre.push(
                            ReadingPairV { curr: vsv[j as int], prev: pvs[j as int] },
                        ));
                    }
                    j = j + 1;
                }
                proof {
                    assert(pairs.deep_view() =~= zip_trunc(vsv, pvs));
                }
                out.push((k, pairs));
                proof {
                    assert(out.deep_view() =~= out_pre.push((kv, zip_trunc(vsv, pvs))));
                    assert(out.deep_view() =~= align_spec(call.take(c + 1), pall));
                }
            },
            None => {
                proof {
                    assert(lookup(pall, kv) is None);
                    assert(out.deep_view() =~= align_spec(call.take(c + 1), pall));
                }
            },
        }
        proof {
            c = c + 1;
        }
    }
    proof {
        assert(call.take(call.len() as int) =~= call);
    }
    out
}

proof fn lemma_lookup_push<T>(g: Seq<(Seq<char>, T)>, e: (Seq<char>, T), k: Seq<char>)
    ensures
        lookup(g.push(e), k) == if lookup(g, k) is Some {
            lookup(g, k)
        } else if e.0 == k {
            Some(e.1)
        } else {
            None::<T>
        },
    decreases g.len(),
{
    if g.len() == 0 {
        assert(g.push(e)[0] == e);
        assert(g.push(e).drop_first() =~= Seq::<(Seq<char>, T)>::empty());
        assert(index_of_key(Seq::<(Seq<char>, T)>::empty(), k) is None);
        assert(lookup(g, k) is None);
        if e.0 == k {
            assert(index_of_key(g.push(e), k) == Some(0int));
            assert(lookup(g.push(e), k) == Some(e.1));
        } else {
            assert(index_of_key(g.push(e), k) is None);
        }
    } else {
        assert(g.push(e)[0] == g[0]);
        assert(g.push(e).drop_first() =~= g.drop_first().push(e));
        lemma_lookup_push(g.drop_first(), e, k);
        if g[0].0 != k {
            match index_of_key(g.drop_first(), k) {
                Some(i) => {
                    lemma_index_of_key_props(g.drop_first(), k);
                    assert(g.drop_first()[i] == g[i + 1]);
                },
                None => {},
            }
            assert(lookup(g, k) == lookup(g.drop_first(), k));
            match index_of_key(g.drop_first().push(e), k) {
                Some(i) => {
                    lemma_index_of_key_props(g.drop_first().push(e), k);
                    assert(g.drop_first().push(e)[i] == g.push(e)[i + 1]);
                },
                None => {},
            }
            assert(lookup(g.push(e), k) == lookup(g.drop_first().push(e), k));
        }
    }
}

/// An instance appears in the aligned result exactly when it appears in
/// both input series; when it does, its records are the positional pairs
/// of the two sequences, truncated to the shorter one. In particular an
/// instance present only in the current series produces no output entry
/// at all.
pub proof fn lemma_align_membership(
    c: Seq<(Seq<char>, Seq<Seq<char>>)>,
    p: Seq<(Seq<char>, Seq<Seq<char>>)>,
    k: Seq<char>,
)
    requires
        distinct_keys(c),
    ensures
        (lookup(c, k) is Some && lookup(p, k) is Some) ==> lookup(align_spec(c, p), k) == Some(
            zip_trunc(lookup(c, k)->0, lookup(p, k)->0),
        ),
        (lookup(c, k) is None || lookup(p, k) is None) ==> lookup(align_spec(c, p), k) is None,
    decreases c.len(),
{
    if c.len() == 0 {
        assert(lookup(c, k) is None);
        assert(lookup(align_spec(c, p), k) is None);
    } else {
        let c0 = c.drop_last();
        let e = c.last();
        assert(distinct_keys(c0)) by {
            assert forall|i: int, j: int| 0 <= i < j < c0.len() implies (#[trigger] c0[i]).0 != (
            #[trigger] c0[j]).0 by {
                assert(c0[i] == c[i]);
                assert(c0[j] == c[j]);
            }
        }
        lemma_align_membership(c0, p, k);
        assert(c0.push(e) =~= c);
        lemma_lookup_push(c0, e, k);
        // the last key occurs nowhere earlier
        assert(lookup(c0, e.0) is None) by {
            lemma_index_of_key_props(c0, e.0);
            match index_of_key(c0, e.0) {
                Some(i) => {
                    assert(c0[i] == c[i]);
                    assert(c[i].0 != c[c.len() - 1].0);
                },
                None => {},
            }
        }
        lemma_align_membership(c0, p, e.0);
        match lookup(p, e.0) {
            Some(pv) => {
                let r0 = align_spec(c0, p);
                assert(align_spec(c, p) == r0.push((e.0, zip_trunc(e.1, pv))));
                lemma_lookup_push(r0, (e.0, zip_trunc(e.1, pv)), k);
            },
            None => {
                assert(align_spec(c, p) == align_spec(c0, p));
            },
        }
    }
}

} // verus!
