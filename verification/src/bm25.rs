//! The integer side of Okapi BM25 ranking: for each query term, the
//! postings that count (those of live documents), with what the score of
//! each needs. The scores themselves are floating point and are computed by
//! the caller from these values.
use vstd::prelude::*;
use crate::index::{DocModel, Index, IndexModel, Posting, is_live};
use crate::tokenizer::views;

verus! {

/// A posting of a live document, with that document's length.
#[derive(Clone, Copy, Debug, PartialEq, Eq, Structural)]
pub struct LivePosting {
    pub doc_id: u32,
    pub term_freq: u32,
    /// The document's token count, at least 1.
    pub doc_len: u32,
}

/// The postings of `ps` whose document exists and is live, in order.
pub open spec fn live_postings(docs: Seq<DocModel>, ps: Seq<Posting>) -> Seq<LivePosting>
    decreases ps.len(),
{
    if ps.len() == 0 {
        Seq::empty()
    } else {
        let rest = live_postings(docs, ps.drop_last());
        let p = ps.last();
        if p.doc_id < docs.len() && is_live(docs[p.doc_id as int]) {
            let len = docs[p.doc_id as int].len;
            rest.push(
                LivePosting {
                    doc_id: p.doc_id,
                    term_freq: p.term_freq,
                    doc_len: if len == 0 {
                        1
                    } else {
                        len
                    },
                },
            )
        } else {
            rest
        }
    }
}

/// For each query term in order (repeats included), its live postings,
/// leaving out the terms that have none. The number of a term's live
/// postings is its document frequency.
pub open spec fn query_matches(m: IndexModel, terms: Seq<Seq<char>>) -> Seq<Seq<LivePosting>>
    decreases terms.len(),
{
    if terms.len() == 0 {
        Seq::empty()
    } else {
        let rest = query_matches(m, terms.drop_last());
        let lp = live_postings(m.docs, m.postings_of(terms.last()));
        if lp.len() > 0 {
            rest.push(lp)
        } else {
            rest
        }
    }
}


proof fn lemma_live_postings_sound(docs: Seq<DocModel>, ps: Seq<Posting>)
    ensures
        forall|j: int|
            0 <= j < live_postings(docs, ps).len() ==> {
                let lp = #[trigger] live_postings(docs, ps)[j];
                &&& lp.doc_id < docs.len()
                &&& is_live(docs[lp.doc_id as int])
            },
    decreases ps.len(),
{
    if ps.len() > 0 {
        lemma_live_postings_sound(docs, ps.drop_last());
        let rest = live_postings(docs, ps.drop_last());
        let lps = live_postings(docs, ps);
        assert forall|j: int| 0 <= j < lps.len() implies {
            let lp = #[trigger] lps[j];
            &&& lp.doc_id < docs.len()
            &&& is_live(docs[lp.doc_id as int])
        } by {
            if j < rest.len() {
                assert(lps[j] == rest[j]);
            }
        }
    }
}

proof fn lemma_live_postings_complete(docs: Seq<DocModel>, ps: Seq<Posting>, k: int)
    requires
        0 <= k < ps.len(),
        ps[k].doc_id < docs.len(),
        is_live(docs[ps[k].doc_id as int]),
    ensures
        exists|j: int|
            0 <= j < live_postings(docs, ps).len() && (#[trigger] live_postings(docs, ps)[j]).doc_id
                == ps[k].doc_id && live_postings(docs, ps)[j].term_freq == ps[k].term_freq,
    decreases ps.len(),
{
    let rest = live_postings(docs, ps.drop_last());
    if k == ps.len() - 1 {
        assert(live_postings(docs, ps)[rest.len() as int].doc_id == ps[k].doc_id);
    } else {
        lemma_live_postings_complete(docs, ps.drop_last(), k);
        let j = choose|j: int|
            0 <= j < rest.len() && (#[trigger] rest[j]).doc_id == ps.drop_last()[k].doc_id
                && rest[j].term_freq == ps.drop_last()[k].term_freq;
        assert(live_postings(docs, ps)[j] == rest[j]);
    }
}

proof fn lemma_query_matches_members(m: IndexModel, terms: Seq<Seq<char>>)
    ensures
        forall|i: int|
            0 <= i < query_matches(m, terms).len() ==> exists|t: int|
                0 <= t < terms.len() && #[trigger] query_matches(m, terms)[i] == live_postings(
                    m.docs,
                    m.postings_of(terms[t]),
                ),
        forall|t: int|
            0 <= t < terms.len() && live_postings(m.docs, m.postings_of(terms[t])).len() > 0
                ==> exists|i: int|
                0 <= i < query_matches(m, terms).len() && #[trigger] query_matches(m, terms)[i]
                    == live_postings(m.docs, m.postings_of(terms[t])),
    decreases terms.len(),
{
    if terms.len() > 0 {
        let pre = terms.drop_last();
        let rest = query_matches(m, pre);
        lemma_query_matches_members(m, pre);
        let q = query_matches(m, terms);
        assert forall|i: int| 0 <= i < q.len() implies exists|t: int|
            0 <= t < terms.len() && #[trigger] q[i] == live_postings(m.docs, m.postings_of(terms[t])) by {
            if i < rest.len() {
                let t = choose|t: int|
                    0 <= t < pre.len() && #[trigger] rest[i] == live_postings(m.docs, m.postings_of(pre[t]));
                assert(q[i] == rest[i]);
                assert(terms[t] == pre[t]);
            } else {
                assert(q[i] == live_postings(m.docs, m.postings_of(terms[terms.len() - 1])));
            }
        }
        assert forall|t: int|
            0 <= t < terms.len() && live_postings(m.docs, m.postings_of(terms[t])).len() > 0 implies exists|i: int|
            0 <= i < q.len() && #[trigger] q[i] == live_postings(m.docs, m.postings_of(terms[t])) by {
            if t < pre.len() {
                assert(terms[t] == pre[t]);
                let i = choose|i: int|
                    0 <= i < rest.len() && #[trigger] rest[i] == live_postings(m.docs, m.postings_of(pre[t]));
                assert(q[i] == rest[i]);
            } else {
                assert(q[rest.len() as int] == live_postings(m.docs, m.postings_of(terms[t])));
            }
        }
    }
}

/// What ranking rests on: every posting handed to the scorer belongs to a
/// live document (tombstoned documents never surface), and every live
/// document holding any one of the query terms is handed to the scorer
/// for that term (documents matching only some terms still rank).
pub proof fn lemma_matches_sound_and_complete(m: IndexModel, terms: Seq<Seq<char>>)
    ensures
        forall|i: int, j: int|
            0 <= i < query_matches(m, terms).len() && 0 <= j < query_matches(m, terms)[i].len()
                ==> {
                let lp = #[trigger] query_matches(m, terms)[i][j];
                &&& lp.doc_id < m.docs.len()
                &&& is_live(m.docs[lp.doc_id as int])
            },
        forall|t: int, k: int|
            0 <= t < terms.len() && 0 <= k < m.postings_of(terms[t]).len()
                && (#[trigger] m.postings_of(terms[t])[k]).doc_id < m.docs.len() && is_live(
                m.docs[m.postings_of(terms[t])[k].doc_id as int],
            ) ==> exists|i: int, j: int|
                0 <= i < query_matches(m, terms).len() && 0 <= j < query_matches(m, terms)[i].len()
                    && (#[trigger] query_matches(m, terms)[i][j]).doc_id == m.postings_of(
                    terms[t],
                )[k].doc_id,
{
    lemma_query_matches_members(m, terms);
    let q = query_matches(m, terms);
    assert forall|i: int, j: int| 0 <= i < q.len() && 0 <= j < q[i].len() implies {
        let lp = #[trigger] q[i][j];
        &&& lp.doc_id < m.docs.len()
        &&& is_live(m.docs[lp.doc_id as int])
    } by {
        let t = choose|t: int|
            0 <= t < terms.len() && #[trigger] q[i] == live_postings(m.docs, m.postings_of(terms[t]));
        lemma_live_postings_sound(m.docs, m.postings_of(terms[t]));
    }
    assert forall|t: int, k: int|
        0 <= t < terms.len() && 0 <= k < m.postings_of(terms[t]).len()
            && (#[trigger] m.postings_of(terms[t])[k]).doc_id < m.docs.len() && is_live(
            m.docs[m.postings_of(terms[t])[k].doc_id as int],
        ) implies exists|i: int, j: int|
        0 <= i < q.len() && 0 <= j < q[i].len() && (#[trigger] q[i][j]).doc_id == m.postings_of(
            terms[t],
        )[k].doc_id by {
        let ps = m.postings_of(terms[t]);
        lemma_live_postings_complete(m.docs, ps, k);
        let lp = live_postings(m.docs, ps);
        let j = choose|j: int|
            0 <= j < lp.len() && (#[trigger] lp[j]).doc_id == ps[k].doc_id && lp[j].term_freq
                == ps[k].term_freq;
        let i = choose|i: int| 0 <= i < q.len() && #[trigger] q[i] == lp;
        assert(q[i][j].doc_id == ps[k].doc_id);
    }
}

/// Whether each entry of `lps` has the doc id and term frequency of some
/// posting of `ps`.
pub open spec fn drawn_from(lps: Seq<LivePosting>, ps: Seq<Posting>) -> bool {
    forall|j: int|
        0 <= j < lps.len() ==> exists|k: int|
            0 <= k < ps.len() && (#[trigger] ps[k]).doc_id == (#[trigger] lps[j]).doc_id
                && ps[k].term_freq == lps[j].term_freq
}

proof fn lemma_live_postings_carry(docs: Seq<DocModel>, ps: Seq<Posting>)
    ensures
        drawn_from(live_postings(docs, ps), ps),
        forall|j: int|
            0 <= j < live_postings(docs, ps).len() ==> {
                let lp = #[trigger] live_postings(docs, ps)[j];
                lp.doc_len == (if docs[lp.doc_id as int].len == 0 {
                    1
                } else {
                    docs[lp.doc_id as int].len
                })
            },
    decreases ps.len(),
{
    if ps.len() > 0 {
        let pre = ps.drop_last();
        lemma_live_postings_carry(docs, pre);
        let rest = live_postings(docs, pre);
        let lps = live_postings(docs, ps);
        assert forall|j: int| 0 <= j < lps.len() implies exists|k: int|
            0 <= k < ps.len() && (#[trigger] ps[k]).doc_id == (#[trigger] lps[j]).doc_id
                && ps[k].term_freq == lps[j].term_freq by {
            if j < rest.len() {
                assert(lps[j] == rest[j]);
                let k = choose|k: int|
                    0 <= k < pre.len() && (#[trigger] pre[k]).doc_id == (#[trigger] rest[j]).doc_id
                        && pre[k].term_freq == rest[j].term_freq;
                assert(ps[k] == pre[k]);
            } else {
                assert(ps[ps.len() - 1] == ps.last());
            }
        }
        assert forall|j: int| 0 <= j < lps.len() implies {
            let lp = #[trigger] lps[j];
            lp.doc_len == (if docs[lp.doc_id as int].len == 0 {
                1
            } else {
                docs[lp.doc_id as int].len
            })
        } by {
            if j < rest.len() {
                assert(lps[j] == rest[j]);
            }
        }
    }
}

/// What each posting handed to the scorer carries: every list of
/// `query_matches(m, terms)` is drawn from the postings list of one query
/// term, each of its entries having the doc id and the term frequency of a
/// posting in that list; and each entry's `doc_len` is the token count of
/// its own document (the record its doc id names), or 1 for an empty one.
pub proof fn lemma_matches_carry_their_postings(m: IndexModel, terms: Seq<Seq<char>>)
    ensures
        forall|i: int|
            0 <= i < query_matches(m, terms).len() ==> exists|t: int|
                0 <= t < terms.len() && drawn_from(
                    #[trigger] query_matches(m, terms)[i],
                    m.postings_of(#[trigger] terms[t]),
                ),
        forall|i: int, j: int|
            0 <= i < query_matches(m, terms).len() && 0 <= j < query_matches(m, terms)[i].len()
                ==> {
                let lp = #[trigger] query_matches(m, terms)[i][j];
                lp.doc_len == (if m.docs[lp.doc_id as int].len == 0 {
                    1
                } else {
                    m.docs[lp.doc_id as int].len
                })
            },
{
    assert forall|i: int| 0 <= i < query_matches(m, terms).len() implies exists|t: int|
        0 <= t < terms.len() && drawn_from(
            #[trigger] query_matches(m, terms)[i],
            m.postings_of(#[trigger] terms[t]),
        ) by {
        let t = lemma_match_list_source(m, terms, i);
        lemma_live_postings_carry(m.docs, m.postings_of(terms[t]));
    }
    assert forall|i: int, j: int|
        0 <= i < query_matches(m, terms).len() && 0 <= j < query_matches(m, terms)[i].len() implies {
        let lp = #[trigger] query_matches(m, terms)[i][j];
        lp.doc_len == (if m.docs[lp.doc_id as int].len == 0 {
            1
        } else {
            m.docs[lp.doc_id as int].len
        })
    } by {
        let t = lemma_match_list_source(m, terms, i);
        lemma_live_postings_carry(m.docs, m.postings_of(terms[t]));
    }
}

/// The query term whose live postings make up list `i` of the matches.
proof fn lemma_match_list_source(m: IndexModel, terms: Seq<Seq<char>>, i: int) -> (t: int)
    requires
        0 <= i < query_matches(m, terms).len(),
    ensures
        0 <= t < terms.len(),
        query_matches(m, terms)[i] == live_postings(m.docs, m.postings_of(terms[t])),
{
    lemma_query_matches_members(m, terms);
    choose|t: int|
        0 <= t < terms.len() && #[trigger] query_matches(m, terms)[i] == live_postings(
            m.docs,
            m.postings_of(terms[t]),
        )
}

/// The lists of `v` as mathematical values.
pub open spec fn list_views(v: Seq<Vec<LivePosting>>) -> Seq<Seq<LivePosting>> {
    v.map_values(|l: Vec<LivePosting>| l@)
}

/// The live postings of `ps` in `index`.
fn live_of(index: &Index, ps: &Vec<Posting>) -> (r: Vec<LivePosting>)
    ensures
        r@ == live_postings(index@.docs, ps@),
{
    let docs = index.docs();
    let mut r: Vec<LivePosting> = Vec::new();
    let mut i: usize = 0;
    while i < ps.len()
        invariant
            crate::index::doc_models(docs@) == index@.docs,
            i <= ps@.len(),
            r@ == live_postings(index@.docs, ps@.take(i as int)),
        decreases ps@.len() - i,
    {
        let p = ps[i];
        proof {
            assert(ps@.take(i + 1).drop_last() =~= ps@.take(i as int));
            assert(ps@.take(i + 1).last() == p);
        }
        if (p.doc_id as usize) < docs.len() {
            let d = &docs[p.doc_id as usize];
            proof {
                assert(index@.docs[p.doc_id as int] == d@);
            }
            if !d.path.as_str().is_empty() {
                let len = if d.len == 0 {
                    1
                } else {
                    d.len
                };
                r.push(LivePosting { doc_id: p.doc_id, term_freq: p.term_freq, doc_len: len });
            }
        }
        i = i + 1;
    }
    assert(ps@.take(i as int) =~= ps@);
    r
}

/// For each term of `terms` in order, the postings of live documents
/// that hold it; terms with none are left out.
pub fn term_matches(index: &Index, terms: &Vec<String>) -> (r: Vec<Vec<LivePosting>>)
    ensures
        list_views(r@) == query_matches(index@, views(terms@)),
{
    let ghost tv = views(terms@);
    let mut r: Vec<Vec<LivePosting>> = Vec::new();
    let mut i: usize = 0;
    while i < terms.len()
        invariant
            tv == views(terms@),
            i <= terms@.len(),
            list_views(r@) == query_matches(index@, tv.take(i as int)),
        decreases terms@.len() - i,
    {
        proof {
            assert(tv.take(i + 1).drop_last() =~= tv.take(i as int));
            assert(tv.take(i + 1).last() == terms@[i as int]@);
        }
        match index.postings(terms[i].as_str()) {
            Some(ps) => {
                let lp = live_of(index, ps);
                if lp.len() > 0 {
                    let ghost r0 = r@;
                    r.push(lp);
                    assert(list_views(r@) =~= list_views(r0).push(lp@));
                }
            },
            None => {
                assert(live_postings(index@.docs, index@.postings_of(terms@[i as int]@)) =~= Seq::<
                    LivePosting,
                >::empty());
            },
        }
        i = i + 1;
    }
    assert(tv.take(i as int) =~= tv);
    r
}

} // verus!
