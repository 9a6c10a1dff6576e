//! The inverted index: term -> postings (`doc_id`, `term_freq`), plus one
//! metadata record per document. Removing or re-indexing a document
//! tombstones its record (empty path, length 0) and leaves its postings in
//! place; readers skip postings of tombstoned documents.
use vstd::prelude::*;
use vstd::hash_map::StringHashMap;
use crate::tokenizer::views;

verus! {

broadcast use vstd::hash_map::group_hash_map_axioms;

/// One document that holds a term, and how often it holds it.
#[derive(Clone, Copy, Debug, PartialEq, Eq, Structural)]
pub struct Posting {
    pub doc_id: u32,
    pub term_freq: u32,
}

/// What the index keeps of one document. An empty `path` marks a
/// tombstoned (removed) document.
#[derive(Clone, Debug)]
pub struct DocMeta {
    pub path: String,
    /// Token count.
    pub len: u32,
    pub mtime: u64,
    pub size: u64,
}

/// A document record as a mathematical value.
pub struct DocModel {
    pub path: Seq<char>,
    pub len: u32,
    pub mtime: u64,
    pub size: u64,
}

impl View for DocMeta {
    type V = DocModel;

    open spec fn view(&self) -> DocModel {
        DocModel { path: self.path@, len: self.len, mtime: self.mtime, size: self.size }
    }
}

/// Whether a document record is live (not tombstoned).
pub open spec fn is_live(d: DocModel) -> bool {
    d.path.len() > 0
}

/// The records of `docs` as mathematical values.
pub open spec fn doc_models(docs: Seq<DocMeta>) -> Seq<DocModel> {
    docs.map_values(|d: DocMeta| d@)
}

/// The number of live records in `docs`.
pub open spec fn live_count(docs: Seq<DocModel>) -> nat
    decreases docs.len(),
{
    if docs.len() == 0 {
        0
    } else {
        live_count(docs.drop_last()) + if is_live(docs.last()) {
            1nat
        } else {
            0nat
        }
    }
}

/// How many times `t` occurs in `tokens`.
pub open spec fn count_of(tokens: Seq<Seq<char>>, t: Seq<char>) -> nat
    decreases tokens.len(),
{
    if tokens.len() == 0 {
        0
    } else {
        count_of(tokens.drop_last(), t) + if tokens.last() == t {
            1nat
        } else {
            0nat
        }
    }
}

/// The sum of the token counts of `docs`.
pub open spec fn len_sum(docs: Seq<DocModel>) -> nat
    decreases docs.len(),
{
    if docs.len() == 0 {
        0
    } else {
        len_sum(docs.drop_last()) + docs.last().len as nat
    }
}

/// The index as a mathematical value.
pub struct IndexModel {
    /// The postings of each term, in the order they were added.
    pub terms: Map<Seq<char>, Seq<Posting>>,
    /// The document records, by doc id.
    pub docs: Seq<DocModel>,
    /// The doc id under which each path is indexed.
    pub path_to_id: Map<Seq<char>, u32>,
    pub total_tokens: u64,
}

impl IndexModel {
    /// The postings of `t` (none if `t` was never indexed).
    pub open spec fn postings_of(self, t: Seq<char>) -> Seq<Posting> {
        if self.terms.contains_key(t) {
            self.terms[t]
        } else {
            Seq::empty()
        }
    }

    /// The consistency that every index keeps: each indexed path names a
    /// record with that path; each live record is indexed under its path;
    /// every posting names an existing record; doc ids fit in `u32`.
    pub open spec fn valid(self) -> bool {
        &&& self.docs.len() <= u32::MAX
        &&& forall|p: Seq<char>| #[trigger]
            self.path_to_id.contains_key(p) ==> {
                &&& self.path_to_id[p] < self.docs.len()
                &&& self.docs[self.path_to_id[p] as int].path == p
            }
        &&& forall|i: int|
            0 <= i < self.docs.len() && is_live(#[trigger] self.docs[i]) ==> {
                &&& self.path_to_id.contains_key(self.docs[i].path)
                &&& self.path_to_id[self.docs[i].path] == i
            }
        &&& forall|t: Seq<char>, j: int| #[trigger]
            self.terms.contains_key(t) && 0 <= j < self.terms[t].len() ==> (
            #[trigger] self.terms[t][j]).doc_id < self.docs.len()
    }

    /// Everything an index built by `add_doc` and `remove_doc` keeps: it is
    /// `valid`, its token total is the sum of its records' token counts,
    /// every indexed path is non-empty, and each postings list has strictly
    /// increasing doc ids and term frequencies of at least 1.
    pub open spec fn consistent(self) -> bool {
        &&& self.valid()
        &&& self.total_tokens == len_sum(self.docs)
        &&& forall|p: Seq<char>| #[trigger] self.path_to_id.contains_key(p) ==> p.len() > 0
        &&& forall|t: Seq<char>, i: int, j: int|
            #![trigger self.terms[t][i], self.terms[t][j]]
            self.terms.contains_key(t) && 0 <= i < j < self.terms[t].len() ==> self.terms[t][i].doc_id
                < self.terms[t][j].doc_id
        &&& forall|t: Seq<char>, i: int|
            self.terms.contains_key(t) && 0 <= i < self.terms[t].len() ==> (
            #[trigger] self.terms[t][i]).term_freq >= 1
    }

    /// The index after `remove_doc(p)`: the record indexed under `p`, if
    /// any, is tombstoned (empty path, length 0, its tokens taken off the
    /// total) and `p` is no longer indexed. Postings are left in place.
    pub open spec fn after_remove(self, p: Seq<char>) -> IndexModel {
        if self.path_to_id.contains_key(p) {
            let id = self.path_to_id[p] as int;
            if id < self.docs.len() {
                let d = self.docs[id];
                IndexModel {
                    terms: self.terms,
                    docs: self.docs.update(
                        id,
                        DocModel { path: Seq::empty(), len: 0, mtime: d.mtime, size: d.size },
                    ),
                    path_to_id: self.path_to_id.remove(p),
                    total_tokens: if self.total_tokens >= d.len {
                        (self.total_tokens - d.len) as u64
                    } else {
                        0
                    },
                }
            } else {
                IndexModel {
                    terms: self.terms,
                    docs: self.docs,
                    path_to_id: self.path_to_id.remove(p),
                    total_tokens: self.total_tokens,
                }
            }
        } else {
            self
        }
    }

    /// The index after `add_doc(p, tokens, mtime, size)`: `p` is first
    /// removed; then the document gets the fresh doc id `docs.len()`, each
    /// distinct token gets one posting for it (with its number of
    /// occurrences) appended to its list, and `p` is indexed under it.
    pub open spec fn after_add(
        self,
        p: Seq<char>,
        tokens: Seq<Seq<char>>,
        mtime: u64,
        size: u64,
    ) -> IndexModel {
        let r = self.after_remove(p);
        let id = r.docs.len();
        IndexModel {
            terms: Map::new(
                |t: Seq<char>| r.terms.contains_key(t) || count_of(tokens, t) > 0,
                |t: Seq<char>|
                    if count_of(tokens, t) > 0 {
                        r.postings_of(t).push(
                            Posting { doc_id: id as u32, term_freq: count_of(tokens, t) as u32 },
                        )
                    } else {
                        r.terms[t]
                    },
            ),
            docs: r.docs.push(DocModel { path: p, len: tokens.len() as u32, mtime, size }),
            path_to_id: r.path_to_id.insert(p, id as u32),
            total_tokens: (r.total_tokens + tokens.len()) as u64,
        }
    }
}

/// The tables behind an index.
struct Tables {
    /// Term -> its position in `term_list` and `postings`.
    term_ids: StringHashMap<usize>,
    term_list: Vec<String>,
    postings: Vec<Vec<Posting>>,
    docs: Vec<DocMeta>,
    path_to_id: StringHashMap<u32>,
    /// Every path ever indexed, in order (with repeats, and with paths no
    /// longer indexed): the indexed paths are among them.
    path_keys: Vec<String>,
    total_tokens: u64,
}

impl View for Tables {
    type V = IndexModel;

    closed spec fn view(&self) -> IndexModel {
        IndexModel {
            terms: Map::new(
                |t: Seq<char>| self.term_ids@.contains_key(t),
                |t: Seq<char>| self.postings@[self.term_ids@[t] as int]@,
            ),
            docs: doc_models(self.docs@),
            path_to_id: self.path_to_id@,
            total_tokens: self.total_tokens,
        }
    }
}

impl Tables {
    /// The term table is a bijection between the keys of `term_ids` and the
    /// positions of `term_list`, with one postings list per position.
    pub closed spec fn terms_wf(&self) -> bool {
        &&& self.term_list@.len() == self.postings@.len()
        &&& forall|t: Seq<char>| #[trigger]
            self.term_ids@.contains_key(t) ==> {
                &&& self.term_ids@[t] < self.term_list@.len()
                &&& self.term_list@[self.term_ids@[t] as int]@ == t
            }
        &&& forall|i: int|
            0 <= i < self.term_list@.len() ==> {
                &&& self.term_ids@.contains_key(#[trigger] self.term_list@[i]@)
                &&& self.term_ids@[self.term_list@[i]@] == i
            }
    }

    /// Every indexed path is among `path_keys`.
    pub closed spec fn paths_wf(&self) -> bool {
        forall|p: Seq<char>| #[trigger]
            self.path_to_id@.contains_key(p) ==> views(self.path_keys@).contains(p)
    }

    /// Well-formedness: the term table is consistent and every indexed path
    /// is recorded in `path_keys`.
    pub open spec fn wf(&self) -> bool {
        &&& self.terms_wf()
        &&& self.paths_wf()
    }

    /// The indexed paths, each once, in the order they were first indexed.
    closed spec fn path_order(&self) -> Seq<Seq<char>> {
        present_once(views(self.path_keys@), self.path_to_id@.dom())
    }

    /// The terms of the index, each once, in the order they were first
    /// indexed.
    closed spec fn term_order(&self) -> Seq<Seq<char>> {
        views(self.term_list@)
    }

    /// An empty index.
    fn new() -> (r: Tables)
        ensures
            r.wf(),
            r@.terms == Map::<Seq<char>, Seq<Posting>>::empty(),
            r@.docs == Seq::<DocModel>::empty(),
            r@.path_to_id == Map::<Seq<char>, u32>::empty(),
            r@.total_tokens == 0,
    {
        let r = Tables {
            term_ids: StringHashMap::new(),
            term_list: Vec::new(),
            postings: Vec::new(),
            docs: Vec::new(),
            path_to_id: StringHashMap::new(),
            path_keys: Vec::new(),
            total_tokens: 0,
        };
        assert(r@.terms =~= Map::<Seq<char>, Seq<Posting>>::empty());
        assert(r@.docs =~= Seq::<DocModel>::empty());
        r
    }

    /// The number of documents that are not tombstoned.
    fn live_doc_count(&self) -> (n: usize)
        ensures
            n == live_count(self@.docs),
    {
        let mut n: usize = 0;
        let mut i: usize = 0;
        while i < self.docs.len()
            invariant
                i <= self.docs@.len(),
                n == live_count(doc_models(self.docs@).take(i as int)),
                n <= i,
            decreases self.docs@.len() - i,
        {
            proof {
                let m = doc_models(self.docs@);
                assert(m.take(i + 1).drop_last() =~= m.take(i as int));
            }
            if !self.docs[i].path.as_str().is_empty() {
                n = n + 1;
            }
            i = i + 1;
        }
        assert(doc_models(self.docs@).take(i as int) =~= doc_models(self.docs@));
        n
    }

    /// The total number of tokens of the indexed documents.
    fn total_tokens(&self) -> (t: u64)
        ensures
            t == self@.total_tokens,
    {
        self.total_tokens
    }

    /// The document records, by doc id.
    fn docs(&self) -> (d: &Vec<DocMeta>)
        ensures
            doc_models(d@) == self@.docs,
    {
        &self.docs
    }

    /// The doc id under which `path` is indexed.
    fn doc_id(&self, path: &str) -> (r: Option<u32>)
        ensures
            r == (if self@.path_to_id.contains_key(path@) {
                Some(self@.path_to_id[path@])
            } else {
                None::<u32>
            }),
    {
        match self.path_to_id.get(path) {
            Some(id) => Some(*id),
            None => None,
        }
    }

    /// The postings of `term`, if it was ever indexed.
    fn postings(&self, term: &str) -> (r: Option<&Vec<Posting>>)
        requires
            self.wf(),
        ensures
            match r {
                Some(v) => self@.terms.contains_key(term@) && v@ == self@.terms[term@],
                None => !self@.terms.contains_key(term@),
            },
    {
        match self.term_ids.get(term) {
            Some(tid) => Some(&self.postings[*tid]),
            None => None,
        }
    }

    /// The terms in the order they were first indexed: each indexed term
    /// exactly once.
    fn term_list(&self) -> (r: &Vec<String>)
        requires
            self.wf(),
        ensures
            views(r@) == self.term_order(),
            views(r@).no_duplicates(),
            forall|t: Seq<char>| #[trigger] views(r@).contains(t) == self@.terms.contains_key(t),
    {
        proof {
            let v = views(self.term_list@);
            assert forall|t: Seq<char>| #[trigger] v.contains(t) == self@.terms.contains_key(t) by {
                if self@.terms.contains_key(t) {
                    assert(v[self.term_ids@[t] as int] == t);
                }
                if v.contains(t) {
                    let k = choose|k: int| 0 <= k < v.len() && v[k] == t;
                    assert(self.term_ids@.contains_key(self.term_list@[k]@));
                }
            }
            assert forall|a: int, b: int| 0 <= a < v.len() && 0 <= b < v.len() && a != b implies v[a]
                != v[b] by {
                assert(self.term_ids@[self.term_list@[a]@] == a);
                assert(self.term_ids@[self.term_list@[b]@] == b);
            }
        }
        &self.term_list
    }

    /// The indexed paths with their doc ids, in the order the paths were
    /// first indexed: each indexed path exactly once.
    fn path_entries(&self) -> (r: Vec<(String, u32)>)
        requires
            self.wf(),
        ensures
            keys_of(path_entries_of(r@)) == self.path_order(),
            forall|j: int|
                0 <= j < r@.len() ==> {
                    &&& self@.path_to_id.contains_key((#[trigger] r@[j]).0@)
                    &&& self@.path_to_id[r@[j].0@] == r@[j].1
                },
            self.path_order().no_duplicates(),
            forall|k: Seq<char>| #[trigger]
                self.path_order().contains(k) == self@.path_to_id.contains_key(k),
    {
        let ghost ks = views(self.path_keys@);
        let ghost dom = self@.path_to_id.dom();
        let mut r: Vec<(String, u32)> = Vec::new();
        let mut emitted: StringHashMap<bool> = StringHashMap::new();
        let mut i: usize = 0;
        while i < self.path_keys.len()
            invariant
                ks == views(self.path_keys@),
                dom == self@.path_to_id.dom(),
                i <= self.path_keys@.len(),
                keys_of(path_entries_of(r@)) == present_once(ks.take(i as int), dom),
                forall|k: Seq<char>| #[trigger]
                    emitted@.contains_key(k) == present_once(ks.take(i as int), dom).contains(k),
                forall|j: int|
                    0 <= j < r@.len() ==> {
                        &&& self@.path_to_id.contains_key((#[trigger] r@[j]).0@)
                        &&& self@.path_to_id[r@[j].0@] == r@[j].1
                    },
            decreases self.path_keys@.len() - i,
        {
            let k = &self.path_keys[i];
            proof {
                assert(ks.take(i + 1).drop_last() =~= ks.take(i as int));
                assert(ks.take(i + 1).last() == k@);
            }
            let ghost r0 = r@;
            let ghost before = present_once(ks.take(i as int), dom);
            match self.path_to_id.get(k.as_str()) {
                Some(id) => {
                    if !emitted.contains_key(k.as_str()) {
                        emitted.insert(k.clone(), true);
                        r.push((k.clone(), *id));
                        proof {
                            assert(keys_of(path_entries_of(r@)) =~= keys_of(path_entries_of(r0)).push(
                                k@,
                            ));
                            assert forall|x: Seq<char>| #[trigger]
                                before.push(k@).contains(x) == (before.contains(x) || x == k@) by {
                                if before.contains(x) {
                                    let q = choose|q: int| 0 <= q < before.len() && before[q] == x;
                                    assert(before.push(k@)[q] == x);
                                }
                                if before.push(k@).contains(x) && x != k@ {
                                    let q = choose|q: int|
                                        0 <= q < before.push(k@).len() && before.push(k@)[q] == x;
                                    assert(before[q] == x);
                                }
                                assert(before.push(k@)[before.len() as int] == k@);
                            }
                            assert forall|j: int| 0 <= j < r@.len() implies {
                                &&& self@.path_to_id.contains_key((#[trigger] r@[j]).0@)
                                &&& self@.path_to_id[r@[j].0@] == r@[j].1
                            } by {
                                if j < r0.len() {
                                    assert(r@[j] == r0[j]);
                                }
                            }
                        }
                    }
                },
                None => {},
            }
            i = i + 1;
        }
        proof {
            assert(ks.take(i as int) =~= ks);
            lemma_present_once(ks, dom);
            assert forall|k: Seq<char>| #[trigger]
                self.path_order().contains(k) == self@.path_to_id.contains_key(k) by {
                if self@.path_to_id.contains_key(k) {
                    assert(ks.contains(k));
                }
            }
        }
        r
    }

    /// Whether `add_doc(path, tokens, _, _)` stays within the index's limits:
    /// fewer than `u32::MAX` documents, at most `u32::MAX` tokens (so no
    /// token occurs more than `u32::MAX` times), and a token total that,
    /// once `path` is removed, still fits in `u64` with the new tokens.
    fn can_add(&self, path: &str, tokens: &Vec<String>) -> (b: bool)
        ensures
            b == (self@.docs.len() < u32::MAX && tokens@.len() <= u32::MAX
                && self@.after_remove(path@).total_tokens + tokens@.len() <= u64::MAX),
            b ==> forall|t: Seq<char>| count_of(views(tokens@), t) <= u32::MAX,
    {
        let mut total = self.total_tokens;
        match self.path_to_id.get(path) {
            Some(id) => {
                if (*id as usize) < self.docs.len() {
                    total = total.saturating_sub(self.docs[*id as usize].len as u64);
                }
            },
            None => {},
        }
        assert(total == self@.after_remove(path@).total_tokens);
        let ok = self.docs.len() < 4294967295usize && tokens.len() <= 4294967295usize
            && tokens.len() as u64 <= 18446744073709551615u64 - total;
        if ok {
            proof {
                assert forall|t: Seq<char>| count_of(views(tokens@), t) <= u32::MAX by {
                    lemma_count_le_len(views(tokens@), t);
                }
            }
        }
        ok
    }

    /// Rebuild an index from its parts (as read back from storage): the
    /// terms with their postings, the document records, the paths with their
    /// doc ids, and the token total. A term or path given twice keeps its
    /// last entry.
    fn from_parts(
        terms: Vec<(String, Vec<Posting>)>,
        docs: Vec<DocMeta>,
        paths: Vec<(String, u32)>,
        total_tokens: u64,
    ) -> (r: Tables)
        ensures
            r.wf(),
            r@ == model_of_parts(
                term_entries(terms@),
                doc_models(docs@),
                path_entries_of(paths@),
                total_tokens,
            ),
    {
        let ghost tv = term_entries(terms@);
        let ghost pv = path_entries_of(paths@);
        let mut t = Tables::new();
        let mut i: usize = 0;
        while i < terms.len()
            invariant
                tv == term_entries(terms@),
                i <= terms@.len(),
                t.wf(),
                t@.terms == map_of(tv.take(i as int)),
                t@.path_to_id == Map::<Seq<char>, u32>::empty(),
            decreases terms@.len() - i,
        {
            proof {
                assert(tv.take(i + 1).drop_last() =~= tv.take(i as int));
                assert(tv.take(i + 1).last() == tv[i as int]);
            }
            let ps = copy_postings(&terms[i].1);
            t.set_postings(&terms[i].0, ps);
            i = i + 1;
        }
        assert(tv.take(i as int) =~= tv);
        let mut j: usize = 0;
        while j < paths.len()
            invariant
                pv == path_entries_of(paths@),
                j <= paths@.len(),
                t.wf(),
                t@.terms == map_of(tv),
                t@.path_to_id == map_of(pv.take(j as int)),
            decreases paths@.len() - j,
        {
            proof {
                assert(pv.take(j + 1).drop_last() =~= pv.take(j as int));
                assert(pv.take(j + 1).last() == pv[j as int]);
            }
            t.set_path(&paths[j].0, paths[j].1);
            j = j + 1;
        }
        assert(pv.take(j as int) =~= pv);
        t.docs = docs;
        t.total_tokens = total_tokens;
        assert(t@.terms == map_of(tv));
        t
    }

    /// Make `ps` the postings of `term`, creating the term if needed.
    fn set_postings(&mut self, term: &String, ps: Vec<Posting>)
        requires
            old(self).wf(),
        ensures
            final(self).wf(),
            final(self)@.terms == old(self)@.terms.insert(term@, ps@),
            final(self)@.path_to_id == old(self)@.path_to_id,
    {
        let ghost m0 = self@;
        match self.term_ids.get(term.as_str()) {
            Some(tid_ref) => {
                let tid = *tid_ref;
                self.postings[tid] = ps;
                proof {
                    assert forall|t: Seq<char>| #[trigger]
                        self.term_ids@.contains_key(t) && t != term@ implies self.term_ids@[t]
                        != tid by {}
                    assert(self@.terms =~= m0.terms.insert(term@, ps@));
                }
            },
            None => {
                let tid = self.term_list.len();
                self.term_list.push(term.clone());
                self.postings.push(ps);
                self.term_ids.insert(term.clone(), tid);
                proof {
                    assert(self@.terms =~= m0.terms.insert(term@, ps@));
                }
            },
        }
    }

    /// Index `path` under `id`.
    fn set_path(&mut self, path: &String, id: u32)
        requires
            old(self).wf(),
        ensures
            final(self).wf(),
            final(self)@.terms == old(self)@.terms,
            final(self)@.path_to_id == old(self)@.path_to_id.insert(path@, id),
            final(self)@.docs == old(self)@.docs,
            final(self)@.total_tokens == old(self)@.total_tokens,
    {
        let ghost k0 = views(self.path_keys@);
        self.path_to_id.insert(path.clone(), id);
        self.path_keys.push(path.clone());
        proof {
            assert(views(self.path_keys@) =~= k0.push(path@));
            assert forall|p: Seq<char>| #[trigger] self.path_to_id@.contains_key(p) implies views(
                self.path_keys@,
            ).contains(p) by {
                if p == path@ {
                    assert(views(self.path_keys@)[k0.len() as int] == p);
                } else {
                    assert(k0.contains(p));
                    let q = choose|q: int| 0 <= q < k0.len() && k0[q] == p;
                    assert(views(self.path_keys@)[q] == p);
                }
            }
            assert(self@.terms =~= old(self)@.terms);
        }
    }

    /// The parts of the index, as `from_parts` takes them back: the terms
    /// (in `term_order`) with their postings, the document records, the
    /// paths (in `path_order`) with their doc ids, and the token total.
    fn to_parts(&self) -> (r: (Vec<(String, Vec<Posting>)>, Vec<DocMeta>, Vec<(String, u32)>, u64))
        requires
            self.wf(),
        ensures
            model_of_parts(term_entries(r.0@), doc_models(r.1@), path_entries_of(r.2@), r.3)
                == self@,
            keys_of(term_entries(r.0@)) == self.term_order(),
            keys_of(path_entries_of(r.2@)) == self.path_order(),
            keys_of(term_entries(r.0@)).no_duplicates(),
            keys_of(path_entries_of(r.2@)).no_duplicates(),
    {
        let tl = self.term_list();
        assert(views(self.term_list@).no_duplicates());
        let mut terms: Vec<(String, Vec<Posting>)> = Vec::new();
        let mut k: usize = 0;
        while k < self.term_list.len()
            invariant
                self.wf(),
                views(self.term_list@).no_duplicates(),
                k <= self.term_list@.len(),
                terms@.len() == k,
                forall|j: int| 0 <= j < k ==> (#[trigger] term_entries(terms@)[j]) == (
                    self.term_list@[j]@,
                    self.postings@[j]@,
                ),
            decreases self.term_list@.len() - k,
        {
            let ghost e0 = term_entries(terms@);
            terms.push((self.term_list[k].clone(), copy_postings(&self.postings[k])));
            proof {
                assert forall|j: int| 0 <= j < k + 1 implies (#[trigger] term_entries(terms@)[j]) == (
                    self.term_list@[j]@,
                    self.postings@[j]@,
                ) by {
                    if j < k {
                        assert(term_entries(terms@)[j] == e0[j]);
                    }
                }
            }
            k = k + 1;
        }
        let mut docs: Vec<DocMeta> = Vec::new();
        let mut i: usize = 0;
        while i < self.docs.len()
            invariant
                i <= self.docs@.len(),
                doc_models(docs@) == doc_models(self.docs@).take(i as int),
            decreases self.docs@.len() - i,
        {
            let d = &self.docs[i];
            let nd = DocMeta { path: d.path.clone(), len: d.len, mtime: d.mtime, size: d.size };
            assert(nd@ == self.docs@[i as int]@);
            let ghost before = docs@;
            docs.push(nd);
            assert(doc_models(docs@) =~= doc_models(before).push(nd@));
            assert(doc_models(docs@) =~= doc_models(self.docs@).take(i + 1));
            i = i + 1;
        }
        assert(doc_models(self.docs@).take(i as int) =~= doc_models(self.docs@));
        let paths = self.path_entries();
        proof {
            let tv = term_entries(terms@);
            let pv = path_entries_of(paths@);
            assert(keys_of(tv) =~= views(self.term_list@));
            assert(keys_of(tv).no_duplicates());
            lemma_map_of(tv);
            lemma_map_of(pv);
            assert forall|t: Seq<char>| #[trigger] map_of(tv).contains_key(t) == self@.terms.contains_key(t) by {
                if self@.terms.contains_key(t) {
                    let j = self.term_ids@[t] as int;
                    assert(keys_of(tv)[j] == t);
                }
                if keys_of(tv).contains(t) {
                    let j = choose|j: int| 0 <= j < keys_of(tv).len() && keys_of(tv)[j] == t;
                    assert(self.term_list@[j]@ == t);
                }
            }
            assert forall|t: Seq<char>| #[trigger] map_of(tv).contains_key(t) implies map_of(tv)[t] == self@.terms[t] by {
                let j = self.term_ids@[t] as int;
                assert(tv[j].0 == t);
            }
            assert(map_of(tv) =~= self@.terms);
            assert forall|q: Seq<char>| #[trigger] map_of(pv).contains_key(q) == self@.path_to_id.contains_key(q) by {
                assert(keys_of(pv).contains(q) == self.path_order().contains(q));
            }
            assert forall|q: Seq<char>| #[trigger] map_of(pv).contains_key(q) implies map_of(pv)[q] == self@.path_to_id[q] by {
                let j = choose|j: int| 0 <= j < keys_of(pv).len() && keys_of(pv)[j] == q;
                assert(pv[j].0 == q);
                assert(paths@[j].0@ == q);
            }
            assert(map_of(pv) =~= self@.path_to_id);
        }
        (terms, docs, paths, self.total_tokens)
    }

    /// Append `p` to the postings of `term`, creating the term if needed.
    fn append_posting(&mut self, term: &String, p: Posting)
        requires
            old(self).wf(),
        ensures
            final(self).wf(),
            final(self)@.terms == old(self)@.terms.insert(
                term@,
                old(self)@.postings_of(term@).push(p),
            ),
            final(self)@.docs == old(self)@.docs,
            final(self)@.path_to_id == old(self)@.path_to_id,
            final(self)@.total_tokens == old(self)@.total_tokens,
            old(self)@.terms.contains_key(term@) ==> final(self).term_order() == old(
                self,
            ).term_order(),
            !old(self)@.terms.contains_key(term@) ==> final(self).term_order() == old(
                self,
            ).term_order().push(term@),
    {
        let ghost m0 = self@;
        match self.term_ids.get(term.as_str()) {
            Some(tid_ref) => {
                let tid = *tid_ref;
                self.postings[tid].push(p);
                proof {
                    assert forall|t: Seq<char>| #[trigger]
                        self.term_ids@.contains_key(t) && t != term@ implies self.term_ids@[t]
                        != tid by {}
                    assert(self@.terms =~= m0.terms.insert(term@, m0.postings_of(term@).push(p)));
                }
            },
            None => {
                let tid = self.term_list.len();
                self.term_list.push(term.clone());
                self.postings.push(vec![p]);
                self.term_ids.insert(term.clone(), tid);
                proof {
                    assert(self.postings@[tid as int]@ =~= seq![p]);
                    assert(m0.postings_of(term@) =~= Seq::<Posting>::empty());
                    assert(self@.terms =~= m0.terms.insert(term@, m0.postings_of(term@).push(p)));
                    assert(views(self.term_list@) =~= views(old(self).term_list@).push(term@));
                }
            },
        }
    }

    /// Index (or re-index) a document. If `path` was already indexed, the
    /// old version is tombstoned first and a fresh doc_id is assigned.
    fn add_doc(&mut self, path: String, tokens: &Vec<String>, mtime: u64, size: u64)
        requires
            old(self).wf(),
            old(self)@.docs.len() < u32::MAX,
            old(self)@.after_remove(path@).total_tokens + tokens@.len() <= u64::MAX,
            forall|t: Seq<char>| count_of(views(tokens@), t) <= u32::MAX,
        ensures
            final(self).wf(),
            final(self)@ == old(self)@.after_add(path@, views(tokens@), mtime, size),
            old(self)@.valid() ==> final(self)@.valid(),
    {
        let ghost toks = views(tokens@);
        self.remove_doc(path.as_str());
        let ghost r = self@;
        let doc_id = self.docs.len() as u32;

        // Count each distinct token; `distinct` keeps them in order of
        // first occurrence.
        let mut tf: StringHashMap<u32> = StringHashMap::new();
        let mut distinct: Vec<String> = Vec::new();
        let mut i: usize = 0;
        while i < tokens.len()
            invariant
                toks == views(tokens@),
                i <= tokens@.len(),
                forall|t: Seq<char>| count_of(toks, t) <= u32::MAX,
                forall|t: Seq<char>|
                    #![trigger tf@.contains_key(t)]
                    #![trigger count_of(toks.take(i as int), t)]
                    tf@.contains_key(t) == (count_of(toks.take(i as int), t) > 0),
                forall|t: Seq<char>| #[trigger]
                    tf@.contains_key(t) ==> tf@[t] == count_of(toks.take(i as int), t),
                views(distinct@).no_duplicates(),
                forall|t: Seq<char>|
                    tf@.contains_key(t) == #[trigger] views(distinct@).contains(t),
            decreases tokens@.len() - i,
        {
            let t = &tokens[i];
            proof {
                assert(toks.take(i + 1).drop_last() =~= toks.take(i as int));
                assert(toks.take(i + 1).last() == t@);
                lemma_count_prefix_le(toks, i + 1, t@);
            }
            match tf.get(t.as_str()) {
                Some(n_ref) => {
                    let n = *n_ref;
                    tf.insert(t.clone(), n + 1);
                },
                None => {
                    tf.insert(t.clone(), 1);
                    let ghost d0 = views(distinct@);
                    distinct.push(t.clone());
                    proof {
                        assert(!d0.contains(t@));
                        assert(views(distinct@) =~= d0.push(t@));
                        assert forall|a: int, b: int|
                            0 <= a < views(distinct@).len() && 0 <= b < views(distinct@).len()
                                && a != b implies views(distinct@)[a] != views(distinct@)[b] by {
                            if b == d0.len() {
                                assert(d0[a] == views(distinct@)[a]);
                            } else if a == d0.len() {
                                assert(d0[b] == views(distinct@)[b]);
                            }
                        }
                        assert forall|x: Seq<char>|
                            tf@.contains_key(x) == #[trigger] views(distinct@).contains(x) by {
                            if x != t@ {
                                if d0.contains(x) {
                                    let k = choose|k: int| 0 <= k < d0.len() && d0[k] == x;
                                    assert(views(distinct@)[k] == x);
                                }
                                if views(distinct@).contains(x) {
                                    let k = choose|k: int|
                                        0 <= k < views(distinct@).len() && views(distinct@)[k]
                                            == x;
                                    assert(k < d0.len());
                                    assert(d0[k] == x);
                                }
                            } else {
                                assert(views(distinct@)[d0.len() as int] == x);
                            }
                        }
                    }
                },
            }
            i = i + 1;
        }
        assert(toks.take(i as int) =~= toks);

        // Append one posting per distinct token.
        let ghost d = views(distinct@);
        let mut j: usize = 0;
        while j < distinct.len()
            invariant
                d == views(distinct@),
                d.no_duplicates(),
                j <= distinct@.len(),
                forall|t: Seq<char>|
                    tf@.contains_key(t) == #[trigger] d.contains(t),
                forall|t: Seq<char>|
                    #![trigger tf@.contains_key(t)]
                    tf@.contains_key(t) == (count_of(toks, t) > 0),
                forall|t: Seq<char>| #[trigger]
                    tf@.contains_key(t) ==> tf@[t] == count_of(toks, t),
                doc_id == r.docs.len(),
                self.wf(),
                self@.docs == r.docs,
                self@.path_to_id == r.path_to_id,
                self@.total_tokens == r.total_tokens,
                forall|t: Seq<char>| #[trigger]
                    self@.terms.contains_key(t) == (r.terms.contains_key(t) || d.take(
                        j as int,
                    ).contains(t)),
                forall|t: Seq<char>| #[trigger]
                    self@.terms.contains_key(t) ==> self@.terms[t] == (if d.take(
                        j as int,
                    ).contains(t) {
                        r.postings_of(t).push(
                            Posting { doc_id, term_freq: count_of(toks, t) as u32 },
                        )
                    } else {
                        r.terms[t]
                    }),
            decreases distinct@.len() - j,
        {
            let t = &distinct[j];
            let ghost m0 = self@;
            proof {
                assert(d[j as int] == t@);
                assert(d.contains(t@));
                let a = d.take(j as int);
                assert(!a.contains(t@)) by {
                    if a.contains(t@) {
                        let k = choose|k: int| 0 <= k < a.len() && a[k] == t@;
                        assert(d[k] == d[j as int]);
                    }
                }
                assert(m0.postings_of(t@) == r.postings_of(t@));
            }
            let freq = match tf.get(t.as_str()) {
                Some(f) => *f,
                None => 0,
            };
            self.append_posting(t, Posting { doc_id, term_freq: freq });
            proof {
                let a = d.take(j as int);
                let b = d.take(j + 1);
                assert(b =~= a.push(t@));
                assert forall|x: Seq<char>| #[trigger] b.contains(x) == (a.contains(x) || x == t@) by {
                    if b.contains(x) {
                        let k = choose|k: int| 0 <= k < b.len() && b[k] == x;
                        if k < j {
                            assert(a[k] == x);
                        }
                    }
                    if a.contains(x) {
                        let k = choose|k: int| 0 <= k < a.len() && a[k] == x;
                        assert(b[k] == x);
                    }
                    if x == t@ {
                        assert(b[j as int] == x);
                    }
                }
            }
            j = j + 1;
        }
        let ghost target_terms = old(self)@.after_add(path@, toks, mtime, size).terms;
        proof {
            assert(d.take(j as int) =~= d);
            assert forall|t: Seq<char>| #[trigger] self@.terms.contains_key(t)
                == target_terms.contains_key(t) by {
                assert(tf@.contains_key(t) == d.contains(t));
                assert(tf@.contains_key(t) == (count_of(toks, t) > 0));
            }
            assert forall|t: Seq<char>| #[trigger] self@.terms.contains_key(t) implies self@.terms[t]
                == target_terms[t] by {
                assert(tf@.contains_key(t) == d.contains(t));
                assert(tf@.contains_key(t) == (count_of(toks, t) > 0));
            }
            assert(self@.terms =~= target_terms);
        }

        self.total_tokens = self.total_tokens + tokens.len() as u64;
        self.docs.push(DocMeta { path: path.clone(), len: tokens.len() as u32, mtime, size });
        self.set_path(&path, doc_id);
        proof {
            let target = old(self)@.after_add(path@, toks, mtime, size);
            assert(doc_models(self.docs@) =~= target.docs);
            assert(self@.terms =~= target.terms);
            assert(self@.path_to_id =~= target.path_to_id);
            assert(self@ == target);
            if old(self)@.valid() {
                lemma_after_add_valid(old(self)@, path@, toks, mtime, size);
            }
        }
    }

    /// Tombstone a doc if present: existing postings are left in place (and
    /// filtered out at query time) rather than rewritten.
    fn remove_doc(&mut self, path: &str)
        requires
            old(self).wf(),
        ensures
            final(self).wf(),
            final(self)@ == old(self)@.after_remove(path@),
            old(self)@.valid() ==> final(self)@.valid(),
            final(self).term_order() == old(self).term_order(),
    {
        let ghost m0 = self@;
        match self.path_to_id.get(path) {
            Some(id_ref) => {
                let id = *id_ref;
                if (id as usize) < self.docs.len() {
                    let i = id as usize;
                    let len = self.docs[i].len;
                    let mtime = self.docs[i].mtime;
                    let size = self.docs[i].size;
                    self.total_tokens = self.total_tokens.saturating_sub(len as u64);
                    self.docs[i] = DocMeta { path: String::new(), len: 0, mtime, size };
                }
                self.path_to_id.remove(path);
                proof {
                    let m1 = m0.after_remove(path@);
                    assert(doc_models(self.docs@) =~= m1.docs);
                    assert(self@.terms =~= m1.terms);
                    assert(self@.path_to_id =~= m1.path_to_id);
                    assert forall|p: Seq<char>| #[trigger] self.path_to_id@.contains_key(p) implies views(
                        self.path_keys@,
                    ).contains(p) by {
                        assert(old(self).path_to_id@.contains_key(p));
                    }
                    if m0.valid() {
                        lemma_after_remove_valid(m0, path@);
                    }
                }
            },
            None => {
                assert(self@.terms =~= m0.terms);
            },
        }
    }
}

/// The members of `ks` that are in `dom`, each once (at its first place),
/// in order.
pub open spec fn present_once(ks: Seq<Seq<char>>, dom: Set<Seq<char>>) -> Seq<Seq<char>>
    decreases ks.len(),
{
    if ks.len() == 0 {
        ks
    } else {
        let r = present_once(ks.drop_last(), dom);
        let k = ks.last();
        if dom.contains(k) && !r.contains(k) {
            r.push(k)
        } else {
            r
        }
    }
}

/// `present_once(ks, dom)` holds each member of `ks` in `dom`, and no other,
/// each once.
pub proof fn lemma_present_once(ks: Seq<Seq<char>>, dom: Set<Seq<char>>)
    ensures
        present_once(ks, dom).no_duplicates(),
        forall|k: Seq<char>| #[trigger]
            present_once(ks, dom).contains(k) == (ks.contains(k) && dom.contains(k)),
    decreases ks.len(),
{
    if ks.len() > 0 {
        let pre = ks.drop_last();
        lemma_present_once(pre, dom);
        let r = present_once(pre, dom);
        let x = ks.last();
        let q = present_once(ks, dom);
        assert forall|k: Seq<char>| #[trigger] q.contains(k) == (ks.contains(k) && dom.contains(k)) by {
            if pre.contains(k) {
                let j = choose|j: int| 0 <= j < pre.len() && pre[j] == k;
                assert(ks[j] == k);
            }
            if ks.contains(k) && k != x {
                let j = choose|j: int| 0 <= j < ks.len() && ks[j] == k;
                assert(pre[j] == k);
            }
            assert(ks[ks.len() - 1] == x);
            if dom.contains(x) && !r.contains(x) {
                assert(q == r.push(x));
                if r.contains(k) {
                    let j = choose|j: int| 0 <= j < r.len() && r[j] == k;
                    assert(q[j] == k);
                }
                if q.contains(k) && k != x {
                    let j = choose|j: int| 0 <= j < q.len() && q[j] == k;
                    assert(r[j] == k);
                }
                assert(q[r.len() as int] == x);
            }
        }
        if dom.contains(x) && !r.contains(x) {
            assert forall|a: int, b: int| 0 <= a < q.len() && 0 <= b < q.len() && a != b implies q[a]
                != q[b] by {
                if a == r.len() {
                    assert(q[b] == r[b]);
                } else if b == r.len() {
                    assert(q[a] == r[a]);
                } else {
                    assert(q[a] == r[a]);
                    assert(q[b] == r[b]);
                }
            }
        }
    }
}

/// The map holding the entries of `s` (a later entry overriding an earlier
/// one with the same key).
pub open spec fn map_of<V>(s: Seq<(Seq<char>, V)>) -> Map<Seq<char>, V>
    decreases s.len(),
{
    if s.len() == 0 {
        Map::empty()
    } else {
        map_of(s.drop_last()).insert(s.last().0, s.last().1)
    }
}

/// The keys of the entries of `s`, in order.
pub open spec fn keys_of<V>(s: Seq<(Seq<char>, V)>) -> Seq<Seq<char>> {
    s.map_values(|e: (Seq<char>, V)| e.0)
}

/// Term entries as mathematical values.
pub open spec fn term_entries(v: Seq<(String, Vec<Posting>)>) -> Seq<(Seq<char>, Seq<Posting>)> {
    v.map_values(|e: (String, Vec<Posting>)| (e.0@, e.1@))
}

/// Path entries as mathematical values.
pub open spec fn path_entries_of(v: Seq<(String, u32)>) -> Seq<(Seq<char>, u32)> {
    v.map_values(|e: (String, u32)| (e.0@, e.1))
}

/// The index that the given parts describe.
pub open spec fn model_of_parts(
    terms: Seq<(Seq<char>, Seq<Posting>)>,
    docs: Seq<DocModel>,
    paths: Seq<(Seq<char>, u32)>,
    total_tokens: u64,
) -> IndexModel {
    IndexModel { terms: map_of(terms), docs, path_to_id: map_of(paths), total_tokens }
}

/// The keys of `map_of(s)` are the keys of `s`; with no key twice, each
/// entry is what the map holds for its key.
proof fn lemma_map_of<V>(s: Seq<(Seq<char>, V)>)
    ensures
        forall|k: Seq<char>| #[trigger] map_of(s).contains_key(k) == keys_of(s).contains(k),
        keys_of(s).no_duplicates() ==> forall|i: int|
            0 <= i < s.len() ==> #[trigger] map_of(s)[s[i].0] == s[i].1,
    decreases s.len(),
{
    if s.len() == 0 {
        assert(keys_of(s) =~= Seq::<Seq<char>>::empty());
    } else {
        let t = s.drop_last();
        lemma_map_of(t);
        assert(map_of(s) == map_of(t).insert(s.last().0, s.last().1));
        assert(keys_of(s) =~= keys_of(t).push(s.last().0));
        assert forall|k: Seq<char>| #[trigger] map_of(s).contains_key(k) == keys_of(s).contains(k) by {
            if keys_of(t).contains(k) {
                let j = choose|j: int| 0 <= j < keys_of(t).len() && keys_of(t)[j] == k;
                assert(keys_of(s)[j] == k);
            }
            if keys_of(s).contains(k) && k != s.last().0 {
                let j = choose|j: int| 0 <= j < keys_of(s).len() && keys_of(s)[j] == k;
                assert(j < t.len());
                assert(keys_of(t)[j] == k);
            }
            if k == s.last().0 {
                assert(keys_of(s)[s.len() - 1] == k);
            }
        }
        if keys_of(s).no_duplicates() {
            assert(keys_of(t).no_duplicates()) by {
                assert forall|a: int, b: int|
                    0 <= a < keys_of(t).len() && 0 <= b < keys_of(t).len() && a != b implies keys_of(t)[a]
                    != keys_of(t)[b] by {
                    assert(keys_of(s)[a] == keys_of(t)[a]);
                    assert(keys_of(s)[b] == keys_of(t)[b]);
                }
            }
            assert forall|i: int| 0 <= i < s.len() implies #[trigger] map_of(s)[s[i].0] == s[i].1 by {
                if i < s.len() - 1 {
                    assert(keys_of(s)[i] != keys_of(s)[s.len() - 1]);
                    assert(t[i] == s[i]);
                    assert(keys_of(t)[i] == s[i].0);
                    assert(map_of(t)[t[i].0] == t[i].1);
                }
            }
        }
    }
}

/// Replacing one record changes the live count by the difference of the
/// two records' liveness.
proof fn lemma_live_count_update(s: Seq<DocModel>, i: int, x: DocModel)
    requires
        0 <= i < s.len(),
    ensures
        live_count(s.update(i, x)) + (if is_live(s[i]) { 1int } else { 0int }) == live_count(s) + (
        if is_live(x) {
            1int
        } else {
            0int
        }),
    decreases s.len(),
{
    let u = s.update(i, x);
    if i == s.len() - 1 {
        assert(u.drop_last() =~= s.drop_last());
    } else {
        lemma_live_count_update(s.drop_last(), i, x);
        assert(u.drop_last() =~= s.drop_last().update(i, x));
    }
}

/// Replacing one record changes the token sum by the difference of the two
/// records' lengths.
proof fn lemma_len_sum_update(s: Seq<DocModel>, i: int, x: DocModel)
    requires
        0 <= i < s.len(),
    ensures
        len_sum(s.update(i, x)) + s[i].len == len_sum(s) + x.len,
        len_sum(s) >= s[i].len,
    decreases s.len(),
{
    let u = s.update(i, x);
    if i == s.len() - 1 {
        assert(u.drop_last() =~= s.drop_last());
    } else {
        lemma_len_sum_update(s.drop_last(), i, x);
        assert(u.drop_last() =~= s.drop_last().update(i, x));
    }
}

/// Read after write: once `add_doc(p, tokens, mtime, size)` has run, `p`
/// is indexed under the newest doc id, whose record holds `p`, the token
/// count and the file's stamps; every distinct token's postings are its old
/// postings (kept, not rewritten) followed by one posting for the new doc
/// with the token's number of occurrences; every other term is unchanged.
pub proof fn lemma_add_then_lookup(
    m: IndexModel,
    p: Seq<char>,
    tokens: Seq<Seq<char>>,
    mtime: u64,
    size: u64,
)
    requires
        m.docs.len() < u32::MAX,
    ensures
        ({
            let a = m.after_add(p, tokens, mtime, size);
            let id = (a.docs.len() - 1) as int;
            &&& a.docs.len() == m.docs.len() + 1
            &&& a.path_to_id.contains_key(p)
            &&& a.path_to_id[p] == id
            &&& a.docs[id] == DocModel { path: p, len: tokens.len() as u32, mtime, size }
            &&& forall|t: Seq<char>|
                count_of(tokens, t) > 0 ==> #[trigger] a.postings_of(t) == m.postings_of(t).push(
                    Posting { doc_id: id as u32, term_freq: count_of(tokens, t) as u32 },
                )
            &&& forall|t: Seq<char>|
                count_of(tokens, t) == 0 ==> #[trigger] a.postings_of(t) == m.postings_of(t)
            &&& forall|q: Seq<char>|
                q != p ==> #[trigger] a.path_to_id.contains_key(q) == m.path_to_id.contains_key(q)
                    && (m.path_to_id.contains_key(q) ==> a.path_to_id[q] == m.path_to_id[q])
        }),
{
    let r = m.after_remove(p);
    let a = m.after_add(p, tokens, mtime, size);
    assert(r.terms == m.terms);
    assert(r.docs.len() == m.docs.len());
    assert forall|t: Seq<char>| count_of(tokens, t) > 0 implies #[trigger] a.postings_of(t)
        == m.postings_of(t).push(
        Posting { doc_id: (a.docs.len() - 1) as u32, term_freq: count_of(tokens, t) as u32 },
    ) by {
        assert(a.terms.contains_key(t));
    }
    assert forall|t: Seq<char>| count_of(tokens, t) == 0 implies #[trigger] a.postings_of(t)
        == m.postings_of(t) by {
        if m.terms.contains_key(t) {
            assert(a.terms.contains_key(t));
        }
    }
    assert forall|q: Seq<char>| q != p implies #[trigger] a.path_to_id.contains_key(q)
        == m.path_to_id.contains_key(q) && (m.path_to_id.contains_key(q) ==> a.path_to_id[q]
        == m.path_to_id[q]) by {
        if m.path_to_id.contains_key(p) {
            assert(r.path_to_id == m.path_to_id.remove(p));
        }
    }
}

/// Tombstoning: `remove_doc(p)` leaves every postings list as it was, stops
/// indexing `p`, and leaves every other path indexed where it was. If `p`
/// was indexed in a valid index, its record is tombstoned: empty path,
/// length 0, its tokens taken off the total, its stamps kept.
pub proof fn lemma_remove_tombstones(m: IndexModel, p: Seq<char>)
    requires
        m.valid(),
    ensures
        ({
            let r = m.after_remove(p);
            &&& r.terms == m.terms
            &&& r.docs.len() == m.docs.len()
            &&& !r.path_to_id.contains_key(p)
            &&& forall|q: Seq<char>|
                q != p ==> #[trigger] r.path_to_id.contains_key(q) == m.path_to_id.contains_key(q)
                    && (m.path_to_id.contains_key(q) ==> r.path_to_id[q] == m.path_to_id[q])
            &&& m.path_to_id.contains_key(p) ==> {
                let id = m.path_to_id[p] as int;
                &&& r.docs[id].path.len() == 0
                &&& r.docs[id].len == 0
                &&& r.docs[id].mtime == m.docs[id].mtime
                &&& r.docs[id].size == m.docs[id].size
                &&& r.total_tokens == if m.total_tokens >= m.docs[id].len {
                    m.total_tokens - m.docs[id].len
                } else {
                    0
                }
                &&& forall|i: int| 0 <= i < m.docs.len() && i != id ==> #[trigger] r.docs[i] == m.docs[i]
            }
            &&& !m.path_to_id.contains_key(p) ==> r == m
        }),
{
}

/// In a valid index no two live records share a path: re-indexing a file
/// leaves exactly one live record for it.
pub proof fn lemma_live_paths_unique(m: IndexModel, i: int, j: int)
    requires
        m.valid(),
        0 <= i < m.docs.len(),
        0 <= j < m.docs.len(),
        is_live(m.docs[i]),
        is_live(m.docs[j]),
        m.docs[i].path == m.docs[j].path,
    ensures
        i == j,
{
}

/// The live count: `remove_doc(p)` takes one live document away exactly
/// when a non-empty `p` was indexed, and `add_doc(p, ..)` then adds one
/// back exactly when `p` is non-empty.
pub proof fn lemma_live_count_after(
    m: IndexModel,
    p: Seq<char>,
    tokens: Seq<Seq<char>>,
    mtime: u64,
    size: u64,
)
    requires
        m.valid(),
    ensures
        live_count(m.after_remove(p).docs) + (if m.path_to_id.contains_key(p) && p.len() > 0 {
            1int
        } else {
            0int
        }) == live_count(m.docs),
        live_count(m.after_add(p, tokens, mtime, size).docs) == live_count(m.after_remove(p).docs)
            + (if p.len() > 0 {
            1int
        } else {
            0int
        }),
{
    let r = m.after_remove(p);
    if m.path_to_id.contains_key(p) {
        let id = m.path_to_id[p] as int;
        let d = m.docs[id];
        lemma_live_count_update(
            m.docs,
            id,
            DocModel { path: Seq::empty(), len: 0, mtime: d.mtime, size: d.size },
        );
    }
    let a = m.after_add(p, tokens, mtime, size);
    assert(a.docs.drop_last() =~= r.docs);
}

/// The token total is the sum of the records' token counts, and adding a
/// document of at most `u32::MAX` tokens or removing one keeps it so.
pub proof fn lemma_total_tokens_kept(
    m: IndexModel,
    p: Seq<char>,
    tokens: Seq<Seq<char>>,
    mtime: u64,
    size: u64,
)
    requires
        m.valid(),
        m.total_tokens == len_sum(m.docs),
    ensures
        m.after_remove(p).total_tokens == len_sum(m.after_remove(p).docs),
        tokens.len() <= u32::MAX && m.after_remove(p).total_tokens + tokens.len() <= u64::MAX
            ==> m.after_add(p, tokens, mtime, size).total_tokens == len_sum(
            m.after_add(p, tokens, mtime, size).docs,
        ),
{
    let r = m.after_remove(p);
    if m.path_to_id.contains_key(p) {
        let id = m.path_to_id[p] as int;
        let d = m.docs[id];
        lemma_len_sum_update(
            m.docs,
            id,
            DocModel { path: Seq::empty(), len: 0, mtime: d.mtime, size: d.size },
        );
    }
    let a = m.after_add(p, tokens, mtime, size);
    assert(a.docs.drop_last() =~= r.docs);
}

/// `remove_doc` keeps an index consistent.
pub proof fn lemma_remove_keeps_consistent(m: IndexModel, p: Seq<char>)
    requires
        m.consistent(),
    ensures
        m.after_remove(p).consistent(),
{
    lemma_after_remove_valid(m, p);
    lemma_total_tokens_kept(m, p, Seq::empty(), 0, 0);
}

/// `add_doc` keeps an index consistent: for a non-empty path, at most
/// `u32::MAX` tokens, fewer than `u32::MAX` records and a token total that
/// fits in `u64`, the index after it is still valid, its token total is
/// still the sum of the records' lengths, every indexed path is non-empty,
/// and each postings list still has strictly increasing doc ids (the new
/// posting names the newest record) and term frequencies of at least 1.
pub proof fn lemma_add_keeps_consistent(
    m: IndexModel,
    p: Seq<char>,
    tokens: Seq<Seq<char>>,
    mtime: u64,
    size: u64,
)
    requires
        m.consistent(),
        p.len() > 0,
        tokens.len() <= u32::MAX,
        m.docs.len() < u32::MAX,
        m.after_remove(p).total_tokens + tokens.len() <= u64::MAX,
    ensures
        m.after_add(p, tokens, mtime, size).consistent(),
{
    lemma_after_add_valid(m, p, tokens, mtime, size);
    lemma_total_tokens_kept(m, p, tokens, mtime, size);
    let r = m.after_remove(p);
    let a = m.after_add(p, tokens, mtime, size);
    let id = r.docs.len();
    assert(r.terms == m.terms);
    assert(r.docs.len() == m.docs.len());
    assert forall|q: Seq<char>| #[trigger] a.path_to_id.contains_key(q) implies q.len() > 0 by {
        if q != p {
            assert(m.path_to_id.contains_key(q));
        }
    }
    assert forall|t: Seq<char>, i: int, j: int|
        #![trigger a.terms[t][i], a.terms[t][j]]
        a.terms.contains_key(t) && 0 <= i < j < a.terms[t].len() implies a.terms[t][i].doc_id
        < a.terms[t][j].doc_id by {
        if count_of(tokens, t) > 0 {
            let old_ps = r.postings_of(t);
            assert(a.terms[t] == old_ps.push(Posting { doc_id: id as u32, term_freq: count_of(tokens, t) as u32 }));
            if j < old_ps.len() {
                assert(old_ps[i] == m.terms[t][i]);
                assert(old_ps[j] == m.terms[t][j]);
            } else {
                assert(m.terms.contains_key(t));
                assert(old_ps[i] == m.terms[t][i]);
                assert(m.terms[t][i].doc_id < m.docs.len());
            }
        } else {
            assert(a.terms[t] == m.terms[t]);
        }
    }
    assert forall|t: Seq<char>, i: int|
        a.terms.contains_key(t) && 0 <= i < a.terms[t].len() implies (
        #[trigger] a.terms[t][i]).term_freq >= 1 by {
        if count_of(tokens, t) > 0 {
            let old_ps = r.postings_of(t);
            if i < old_ps.len() {
                assert(old_ps[i] == m.terms[t][i]);
            } else {
                lemma_count_le_len(tokens, t);
            }
        } else {
            assert(a.terms[t] == m.terms[t]);
        }
    }
}

/// The inverted index: term -> postings, plus one record per document.
/// Its tables are private. An index built from `new` by `add_doc` (of
/// non-empty paths) and `remove_doc` is consistent
/// (`IndexModel::consistent`); one rebuilt by `from_parts` holds what it was
/// given.
pub struct Index {
    t: Tables,
}

impl View for Index {
    type V = IndexModel;

    closed spec fn view(&self) -> IndexModel {
        self.t@
    }
}

impl Index {
    /// The index's tables are well-formed.
    #[verifier::type_invariant]
    closed spec fn inv(&self) -> bool {
        self.t.wf()
    }

    /// The terms of the index, each once, in the order they were first
    /// indexed.
    pub closed spec fn term_order(&self) -> Seq<Seq<char>> {
        self.t.term_order()
    }

    /// The indexed paths, each once, in the order they were first indexed.
    pub closed spec fn path_order(&self) -> Seq<Seq<char>> {
        self.t.path_order()
    }

    /// An empty index.
    pub fn new() -> (r: Index)
        ensures
            r@.consistent(),
            r@.terms == Map::<Seq<char>, Seq<Posting>>::empty(),
            r@.docs == Seq::<DocModel>::empty(),
            r@.path_to_id == Map::<Seq<char>, u32>::empty(),
            r@.total_tokens == 0,
    {
        Index { t: Tables::new() }
    }

    /// The number of documents that are not tombstoned.
    pub fn live_doc_count(&self) -> (n: usize)
        ensures
            n == live_count(self@.docs),
    {
        self.t.live_doc_count()
    }

    /// The total number of tokens of the indexed documents.
    pub fn total_tokens(&self) -> (t: u64)
        ensures
            t == self@.total_tokens,
    {
        self.t.total_tokens()
    }

    /// The document records, by doc id.
    pub fn docs(&self) -> (d: &Vec<DocMeta>)
        ensures
            doc_models(d@) == self@.docs,
    {
        self.t.docs()
    }

    /// The doc id under which `path` is indexed.
    pub fn doc_id(&self, path: &str) -> (r: Option<u32>)
        ensures
            r == (if self@.path_to_id.contains_key(path@) {
                Some(self@.path_to_id[path@])
            } else {
                None::<u32>
            }),
    {
        self.t.doc_id(path)
    }

    /// The postings of `term`, if it was ever indexed.
    pub fn postings(&self, term: &str) -> (r: Option<&Vec<Posting>>)
        ensures
            match r {
                Some(v) => self@.terms.contains_key(term@) && v@ == self@.terms[term@],
                None => !self@.terms.contains_key(term@),
            },
    {
        proof {
            use_type_invariant(self);
        }
        self.t.postings(term)
    }

    /// The terms in the order they were first indexed: each indexed term
    /// exactly once.
    pub fn term_list(&self) -> (r: &Vec<String>)
        ensures
            views(r@) == self.term_order(),
            views(r@).no_duplicates(),
            forall|t: Seq<char>| #[trigger] views(r@).contains(t) == self@.terms.contains_key(t),
    {
        proof {
            use_type_invariant(self);
        }
        self.t.term_list()
    }

    /// The indexed paths with their doc ids, in the order the paths were
    /// first indexed: each indexed path exactly once.
    pub fn path_entries(&self) -> (r: Vec<(String, u32)>)
        ensures
            keys_of(path_entries_of(r@)) == self.path_order(),
            forall|j: int|
                0 <= j < r@.len() ==> {
                    &&& self@.path_to_id.contains_key((#[trigger] r@[j]).0@)
                    &&& self@.path_to_id[r@[j].0@] == r@[j].1
                },
            self.path_order().no_duplicates(),
            forall|k: Seq<char>| #[trigger]
                self.path_order().contains(k) == self@.path_to_id.contains_key(k),
    {
        proof {
            use_type_invariant(self);
        }
        self.t.path_entries()
    }

    /// Whether `add_doc(path, tokens, _, _)` stays within the index's limits:
    /// fewer than `u32::MAX` documents, at most `u32::MAX` tokens (so no
    /// token occurs more than `u32::MAX` times), and a token total that,
    /// once `path` is removed, still fits in `u64` with the new tokens.
    pub fn can_add(&self, path: &str, tokens: &Vec<String>) -> (b: bool)
        ensures
            b == (self@.docs.len() < u32::MAX && tokens@.len() <= u32::MAX
                && self@.after_remove(path@).total_tokens + tokens@.len() <= u64::MAX),
            b ==> forall|t: Seq<char>| count_of(views(tokens@), t) <= u32::MAX,
    {
        self.t.can_add(path, tokens)
    }

    /// Rebuild an index from its parts (as read back from storage): the
    /// terms with their postings, the document records, the paths with their
    /// doc ids, and the token total. The parts are taken as they are, with
    /// no check that they agree; a term or a path given twice keeps its last
    /// entry.
    pub fn from_parts(
        terms: Vec<(String, Vec<Posting>)>,
        docs: Vec<DocMeta>,
        paths: Vec<(String, u32)>,
        total_tokens: u64,
    ) -> (r: Index)
        ensures
            r@ == model_of_parts(
                term_entries(terms@),
                doc_models(docs@),
                path_entries_of(paths@),
                total_tokens,
            ),
    {
        Index { t: Tables::from_parts(terms, docs, paths, total_tokens) }
    }

    /// The parts of the index, as `from_parts` takes them back: the terms
    /// (in `term_order`) with their postings, the document records, the
    /// paths (in `path_order`) with their doc ids, and the token total.
    pub fn to_parts(&self) -> (r: (Vec<(String, Vec<Posting>)>, Vec<DocMeta>, Vec<(String, u32)>, u64))
        ensures
            model_of_parts(term_entries(r.0@), doc_models(r.1@), path_entries_of(r.2@), r.3)
                == self@,
            keys_of(term_entries(r.0@)) == self.term_order(),
            keys_of(path_entries_of(r.2@)) == self.path_order(),
            keys_of(term_entries(r.0@)).no_duplicates(),
            keys_of(path_entries_of(r.2@)).no_duplicates(),
    {
        proof {
            use_type_invariant(self);
        }
        self.t.to_parts()
    }

    /// Index (or re-index) a document. If `path` was already indexed, the
    /// old version is tombstoned first and a fresh doc_id is assigned.
    pub fn add_doc(&mut self, path: String, tokens: &Vec<String>, mtime: u64, size: u64)
        requires
            old(self)@.docs.len() < u32::MAX,
            old(self)@.after_remove(path@).total_tokens + tokens@.len() <= u64::MAX,
            forall|t: Seq<char>| count_of(views(tokens@), t) <= u32::MAX,
        ensures
            final(self)@ == old(self)@.after_add(path@, views(tokens@), mtime, size),
            old(self)@.valid() ==> final(self)@.valid(),
            old(self)@.consistent() && path@.len() > 0 && tokens@.len() <= u32::MAX
                ==> final(self)@.consistent(),
    {
        proof {
            use_type_invariant(&*self);
            if old(self)@.consistent() && path@.len() > 0 && tokens@.len() <= u32::MAX {
                lemma_add_keeps_consistent(old(self)@, path@, views(tokens@), mtime, size);
            }
        }
        let mut t = Tables::new();
        std::mem::swap(&mut t, &mut self.t);
        t.add_doc(path, tokens, mtime, size);
        self.t = t;
    }

    /// Tombstone a doc if present: existing postings are left in place (and
    /// filtered out at query time) rather than rewritten.
    pub fn remove_doc(&mut self, path: &str)
        ensures
            final(self)@ == old(self)@.after_remove(path@),
            old(self)@.valid() ==> final(self)@.valid(),
            old(self)@.consistent() ==> final(self)@.consistent(),
            final(self).term_order() == old(self).term_order(),
    {
        proof {
            use_type_invariant(&*self);
            if old(self)@.consistent() {
                lemma_remove_keeps_consistent(old(self)@, path@);
            }
        }
        let mut t = Tables::new();
        std::mem::swap(&mut t, &mut self.t);
        t.remove_doc(path);
        self.t = t;
    }
}

impl Default for Index {
    /// An empty index.
    fn default() -> (r: Index)
        ensures
            r@.terms == Map::<Seq<char>, Seq<Posting>>::empty(),
            r@.docs == Seq::<DocModel>::empty(),
            r@.path_to_id == Map::<Seq<char>, u32>::empty(),
            r@.total_tokens == 0,
    {
        Index::new()
    }
}

/// A copy of a postings list.
fn copy_postings(v: &Vec<Posting>) -> (r: Vec<Posting>)
    ensures
        r@ == v@,
{
    let mut r: Vec<Posting> = Vec::new();
    let mut i: usize = 0;
    while i < v.len()
        invariant
            i <= v@.len(),
            r@ == v@.take(i as int),
        decreases v@.len() - i,
    {
        r.push(v[i]);
        assert(r@ =~= v@.take(i + 1));
        i = i + 1;
    }
    assert(v@.take(i as int) =~= v@);
    r
}

/// A token occurs no more often than there are tokens.
proof fn lemma_count_le_len(s: Seq<Seq<char>>, t: Seq<char>)
    ensures
        count_of(s, t) <= s.len(),
    decreases s.len(),
{
    if s.len() > 0 {
        lemma_count_le_len(s.drop_last(), t);
    }
}

/// A prefix holds no more occurrences than the whole.
proof fn lemma_count_prefix_le(s: Seq<Seq<char>>, i: int, t: Seq<char>)
    requires
        0 <= i <= s.len(),
    ensures
        count_of(s.take(i), t) <= count_of(s, t),
    decreases s.len() - i,
{
    if i < s.len() {
        lemma_count_prefix_le(s, i + 1, t);
        assert(s.take(i + 1).drop_last() =~= s.take(i));
    } else {
        assert(s.take(i) =~= s);
    }
}

/// Adding a document keeps the model valid.
proof fn lemma_after_add_valid(
    m: IndexModel,
    p: Seq<char>,
    tokens: Seq<Seq<char>>,
    mtime: u64,
    size: u64,
)
    requires
        m.valid(),
        m.docs.len() < u32::MAX,
    ensures
        m.after_add(p, tokens, mtime, size).valid(),
{
    lemma_after_remove_valid(m, p);
    let r = m.after_remove(p);
    let a = m.after_add(p, tokens, mtime, size);
    let id = r.docs.len() as int;
    assert(r.docs.len() == m.docs.len());
    assert forall|q: Seq<char>| #[trigger] a.path_to_id.contains_key(q) implies {
        &&& a.path_to_id[q] < a.docs.len()
        &&& a.docs[a.path_to_id[q] as int].path == q
    } by {
        if q != p {
            assert(r.path_to_id.contains_key(q));
            assert(a.docs[r.path_to_id[q] as int] == r.docs[r.path_to_id[q] as int]);
        }
    }
    assert forall|i: int| 0 <= i < a.docs.len() && is_live(#[trigger] a.docs[i]) implies {
        &&& a.path_to_id.contains_key(a.docs[i].path)
        &&& a.path_to_id[a.docs[i].path] == i
    } by {
        if i < id {
            assert(a.docs[i] == r.docs[i]);
            assert(r.path_to_id.contains_key(r.docs[i].path));
            // p is not indexed in r, so no live record of r has path p
            assert(!r.path_to_id.contains_key(p));
            assert(r.docs[i].path != p);
        }
    }
    assert forall|t: Seq<char>, j: int| #[trigger]
        a.terms.contains_key(t) && 0 <= j < a.terms[t].len() implies (
        #[trigger] a.terms[t][j]).doc_id < a.docs.len() by {
        if count_of(tokens, t) > 0 {
            if j < r.postings_of(t).len() {
                assert(a.terms[t][j] == r.terms[t][j]);
            }
        } else {
            assert(a.terms[t] == r.terms[t]);
        }
    }
}

/// Removing a path keeps the model valid.
pub proof fn lemma_after_remove_valid(m: IndexModel, p: Seq<char>)
    requires
        m.valid(),
    ensures
        m.after_remove(p).valid(),
{
    let r = m.after_remove(p);
    if m.path_to_id.contains_key(p) {
        let id = m.path_to_id[p] as int;
        assert forall|q: Seq<char>| #[trigger] r.path_to_id.contains_key(q) implies {
            &&& r.path_to_id[q] < r.docs.len()
            &&& r.docs[r.path_to_id[q] as int].path == q
        } by {
            assert(m.path_to_id.contains_key(q));
            assert(q != p);
            assert(m.docs[m.path_to_id[q] as int].path == q);
            assert(m.path_to_id[q] as int != id);
        }
        assert forall|i: int| 0 <= i < r.docs.len() && is_live(#[trigger] r.docs[i]) implies {
            &&& r.path_to_id.contains_key(r.docs[i].path)
            &&& r.path_to_id[r.docs[i].path] == i
        } by {
            assert(i != id);
            assert(r.docs[i] == m.docs[i]);
            assert(m.path_to_id[m.docs[i].path] == i);
            assert(m.docs[i].path != p);
        }
    }
}

} // verus!
