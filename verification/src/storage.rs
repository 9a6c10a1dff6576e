//! Where the index lives on disk, and the bookkeeping of an incremental
//! refresh: which found files need (re-)tokenizing, the counts of added and
//! updated documents, and the tombstoning of files that vanished. Reading
//! and writing files is the caller's part.
use vstd::prelude::*;
use vstd::hash_map::StringHashMap;
use vstd::string::StringExecFns;
use crate::index::{Index, IndexModel, count_of, keys_of, live_count, path_entries_of};
use crate::text::chars_of;
use crate::tokenizer::views;
use crate::walker::FoundFile;

verus! {

broadcast use vstd::hash_map::group_hash_map_axioms;

/// `a` joined with the relative path `b`, as `Path::join` does it with `/`
/// as separator: a separator is put between them unless `a` is empty or
/// already ends with one.
pub open spec fn join(a: Seq<char>, b: Seq<char>) -> Seq<char> {
    if a.len() == 0 || a.last() == '/' {
        a + b
    } else {
        a + seq!['/'] + b
    }
}

/// The index file under `root`: `root/.rsearch/index.bin`.
pub open spec fn index_file_of(root: Seq<char>) -> Seq<char> {
    join(join(root, ".rsearch"@), "index.bin"@)
}

fn join_path(a: &str, b: &str) -> (r: String)
    ensures
        r@ == join(a@, b@),
{
    let cs = chars_of(a);
    let mut s = String::from_str(a);
    if cs.len() > 0 && cs[cs.len() - 1] != '/' {
        s.append("/");
        proof {
            reveal_strlit("/");
        }
    }
    s.append(b);
    s
}

/// The path of the index file under `root`.
pub fn index_path(root: &str) -> (r: String)
    ensures
        r@ == index_file_of(root@),
{
    let dir = join_path(root, ".rsearch");
    join_path(dir.as_str(), "index.bin")
}

/// What a refresh did.
#[derive(Clone, Copy, Debug, PartialEq, Eq, Structural)]
pub struct BuildStats {
    pub added: usize,
    pub updated: usize,
    pub removed: usize,
    pub total_docs: usize,
    pub elapsed_ms: u128,
}

/// Whether a found file must be (re-)tokenized: it is not indexed yet, or
/// its modification time or size differs from what the index holds.
pub open spec fn needs_index(m: IndexModel, f_path: Seq<char>, mtime: u64, size: u64) -> bool {
    if m.path_to_id.contains_key(f_path) {
        let d = m.docs[m.path_to_id[f_path] as int];
        d.mtime != mtime || d.size != size
    } else {
        true
    }
}

/// The index after removing each of `ps` in turn.
pub open spec fn remove_all(m: IndexModel, ps: Seq<Seq<char>>) -> IndexModel
    decreases ps.len(),
{
    if ps.len() == 0 {
        m
    } else {
        remove_all(m, ps.drop_last()).after_remove(ps.last())
    }
}

/// The members of `ps` not in `seen`, in order.
pub open spec fn unseen(ps: Seq<Seq<char>>, seen: Set<Seq<char>>) -> Seq<Seq<char>>
    decreases ps.len(),
{
    if ps.len() == 0 {
        ps
    } else if seen.contains(ps.last()) {
        unseen(ps.drop_last(), seen)
    } else {
        unseen(ps.drop_last(), seen).push(ps.last())
    }
}

proof fn lemma_unseen(ps: Seq<Seq<char>>, seen: Set<Seq<char>>)
    ensures
        forall|p: Seq<char>| #[trigger]
            unseen(ps, seen).contains(p) == (ps.contains(p) && !seen.contains(p)),
    decreases ps.len(),
{
    if ps.len() > 0 {
        let pre = ps.drop_last();
        lemma_unseen(pre, seen);
        assert forall|p: Seq<char>| #[trigger]
            unseen(ps, seen).contains(p) == (ps.contains(p) && !seen.contains(p)) by {
            let u = unseen(pre, seen);
            if ps.contains(p) && p != ps.last() {
                let k = choose|k: int| 0 <= k < ps.len() && ps[k] == p;
                assert(pre[k] == p);
            }
            if pre.contains(p) {
                let k = choose|k: int| 0 <= k < pre.len() && pre[k] == p;
                assert(ps[k] == p);
            }
            if !seen.contains(ps.last()) {
                let v = u.push(ps.last());
                if u.contains(p) {
                    let k = choose|k: int| 0 <= k < u.len() && u[k] == p;
                    assert(v[k] == p);
                }
                if v.contains(p) && p != ps.last() {
                    let k = choose|k: int| 0 <= k < v.len() && v[k] == p;
                    assert(u[k] == p);
                }
                assert(v[u.len() as int] == ps.last());
            }
            assert(ps[ps.len() - 1] == ps.last());
        }
    }
}

proof fn lemma_remove_all(m: IndexModel, ps: Seq<Seq<char>>)
    ensures
        m.valid() ==> remove_all(m, ps).valid(),
        forall|q: Seq<char>| #[trigger]
            remove_all(m, ps).path_to_id.contains_key(q) == (m.path_to_id.contains_key(q)
                && !ps.contains(q)),
        forall|q: Seq<char>| #[trigger]
            remove_all(m, ps).path_to_id.contains_key(q) ==> remove_all(m, ps).path_to_id[q]
                == m.path_to_id[q],
    decreases ps.len(),
{
    if ps.len() > 0 {
        let pre = ps.drop_last();
        lemma_remove_all(m, pre);
        if m.valid() {
            crate::index::lemma_after_remove_valid(remove_all(m, pre), ps.last());
        }
        assert forall|q: Seq<char>| #[trigger]
            remove_all(m, ps).path_to_id.contains_key(q) == (m.path_to_id.contains_key(q)
                && !ps.contains(q)) by {
            if pre.contains(q) {
                let k = choose|k: int| 0 <= k < pre.len() && pre[k] == q;
                assert(ps[k] == q);
            }
            if ps.contains(q) && q != ps.last() {
                let k = choose|k: int| 0 <= k < ps.len() && ps[k] == q;
                assert(pre[k] == q);
            }
            assert(ps[ps.len() - 1] == ps.last());
        }
    }
}

/// Files that vanished from disk get tombstoned: once a refresh ends, having
/// removed the unseen members of `order` (the indexed paths, in any order),
/// the paths still indexed are exactly the previously indexed paths that
/// were seen, each under the doc id it had, and a valid index is still
/// valid. When every indexed path was seen, nothing is tombstoned and the
/// index is left as it was.
pub proof fn lemma_refresh_drops_unseen(m: IndexModel, seen: Set<Seq<char>>, order: Seq<Seq<char>>)
    requires
        forall|q: Seq<char>| #[trigger] order.contains(q) == m.path_to_id.contains_key(q),
    ensures
        m.valid() ==> remove_all(m, unseen(order, seen)).valid(),
        forall|q: Seq<char>| #[trigger]
            remove_all(m, unseen(order, seen)).path_to_id.contains_key(q) == (
            m.path_to_id.contains_key(q) && seen.contains(q)),
        forall|q: Seq<char>| #[trigger]
            remove_all(m, unseen(order, seen)).path_to_id.contains_key(q) ==> remove_all(
                m,
                unseen(order, seen),
            ).path_to_id[q] == m.path_to_id[q],
        (forall|q: Seq<char>| #[trigger] m.path_to_id.contains_key(q) ==> seen.contains(q)) ==> (
        unseen(order, seen).len() == 0 && remove_all(m, unseen(order, seen)) == m),
{
    let st = unseen(order, seen);
    lemma_unseen(order, seen);
    lemma_remove_all(m, st);
    if forall|q: Seq<char>| #[trigger] m.path_to_id.contains_key(q) ==> seen.contains(q) {
        if st.len() > 0 {
            assert(st.contains(st[0]));
            assert(order.contains(st[0]));
        }
    }
}

/// What a refresh learns of one found file: its path and stamps, and its
/// tokens if its content could be read as text (`None` where it could not).
pub struct FileRead {
    pub path: Seq<char>,
    pub mtime: u64,
    pub size: u64,
    pub tokens: Option<Seq<Seq<char>>>,
}

/// The index under refresh together with the refresh's own state.
pub struct RefreshState {
    pub index: IndexModel,
    pub seen: Set<Seq<char>>,
    pub added: nat,
    pub updated: nat,
}

/// One found file in a refresh, as `visit` and then, where it asks for it
/// and the content was read, `index_file` do it: the path is seen; a file
/// that needs indexing and was read is added to the index and counted as
/// updated if its path was indexed, as added if not.
pub open spec fn refresh_step(s: RefreshState, f: FileRead) -> RefreshState {
    let seen = s.seen.insert(f.path);
    if needs_index(s.index, f.path, f.mtime, f.size) && f.tokens is Some {
        let was_indexed = s.index.path_to_id.contains_key(f.path);
        RefreshState {
            index: s.index.after_add(f.path, f.tokens->0, f.mtime, f.size),
            seen,
            added: if was_indexed { s.added } else { s.added + 1 },
            updated: if was_indexed { s.updated + 1 } else { s.updated },
        }
    } else {
        RefreshState { index: s.index, seen, added: s.added, updated: s.updated }
    }
}

/// The found files `fs` visited in turn (see `lemma_visit_then_index` for
/// how `visit` and `index_file` make each step).
pub open spec fn refresh_files(s: RefreshState, fs: Seq<FileRead>) -> RefreshState
    decreases fs.len(),
{
    if fs.len() == 0 {
        s
    } else {
        refresh_step(refresh_files(s, fs.drop_last()), fs.last())
    }
}

/// A refresh that starts on index `m` with nothing seen.
pub open spec fn refresh_start(m: IndexModel) -> RefreshState {
    RefreshState { index: m, seen: Set::empty(), added: 0, updated: 0 }
}

/// The found file `f` with what reading it gave.
pub open spec fn file_read(f: FoundFile, tokens: Option<Seq<Seq<char>>>) -> FileRead {
    FileRead { path: f.path@, mtime: f.mtime, size: f.size, tokens }
}

/// How the calls make a refresh step. `visit(f)` is the step for `f` with
/// nothing read (and, where it says no indexing is needed, the step for
/// `f` whatever was read). Where it says indexing is needed, the file has
/// then been seen and still needs indexing, and `index_file(f, tokens)`
/// after it makes the two one step for `f` with `tokens` read. So a loop
/// that visits each found file in turn and indexes the content of those
/// that need it and could be read goes through `refresh_files`.
pub proof fn lemma_visit_then_index(s: RefreshState, f: FoundFile, tokens: Seq<Seq<char>>)
    requires
        needs_index(s.index, f.path@, f.mtime, f.size),
    ensures
        refresh_step(s, file_read(f, None)).seen.contains(f.path@),
        refresh_step(s, file_read(f, None)).index == s.index,
        refresh_step(refresh_step(s, file_read(f, None)), file_read(f, Some(tokens))) == refresh_step(
            s,
            file_read(f, Some(tokens)),
        ),
{
    let s1 = refresh_step(s, file_read(f, None));
    assert(s1.seen.insert(f.path@) =~= s.seen.insert(f.path@));
}

/// A refresh over an unchanged tree changes nothing. When every indexed
/// path is among the found files, and each found file either is indexed
/// with the modification time and size its record holds or could not be
/// read, then visiting the files indexes nothing and counts nothing, every
/// indexed path is seen, and the end of the refresh tombstones nothing: the
/// index is as it was, with no document added, updated or removed.
pub proof fn lemma_unchanged_refresh(m: IndexModel, fs: Seq<FileRead>, order: Seq<Seq<char>>)
    requires
        forall|q: Seq<char>| #[trigger]
            m.path_to_id.contains_key(q) ==> exists|j: int| 0 <= j < fs.len() && (#[trigger] fs[j]).path == q,
        forall|j: int|
            0 <= j < fs.len() ==> !needs_index(m, (#[trigger] fs[j]).path, fs[j].mtime, fs[j].size)
                || fs[j].tokens is None,
        forall|q: Seq<char>| #[trigger] order.contains(q) == m.path_to_id.contains_key(q),
    ensures
        ({
            let s = refresh_files(refresh_start(m), fs);
            &&& s.index == m
            &&& s.added == 0
            &&& s.updated == 0
            &&& forall|q: Seq<char>| #[trigger] m.path_to_id.contains_key(q) ==> s.seen.contains(q)
            &&& unseen(order, s.seen).len() == 0
            &&& remove_all(s.index, unseen(order, s.seen)) == m
        }),
{
    lemma_refresh_sees_all(m, fs);
    let s = refresh_files(refresh_start(m), fs);
    assert forall|q: Seq<char>| #[trigger] m.path_to_id.contains_key(q) implies s.seen.contains(q) by {
        let j = choose|j: int| 0 <= j < fs.len() && (#[trigger] fs[j]).path == q;
    }
    lemma_refresh_drops_unseen(m, s.seen, order);
}

/// Visiting files none of which is to be indexed leaves the index and the
/// counts alone, and sees exactly the files' paths.
proof fn lemma_refresh_sees_all(m: IndexModel, fs: Seq<FileRead>)
    requires
        forall|j: int|
            0 <= j < fs.len() ==> !needs_index(m, (#[trigger] fs[j]).path, fs[j].mtime, fs[j].size)
                || fs[j].tokens is None,
    ensures
        ({
            let s = refresh_files(refresh_start(m), fs);
            &&& s.index == m
            &&& s.added == 0
            &&& s.updated == 0
            &&& forall|j: int| 0 <= j < fs.len() ==> s.seen.contains((#[trigger] fs[j]).path)
        }),
    decreases fs.len(),
{
    if fs.len() > 0 {
        let pre = fs.drop_last();
        assert forall|j: int|
            0 <= j < pre.len() implies !needs_index(m, (#[trigger] pre[j]).path, pre[j].mtime, pre[j].size)
            || pre[j].tokens is None by {
            assert(pre[j] == fs[j]);
        }
        lemma_refresh_sees_all(m, pre);
        let s = refresh_files(refresh_start(m), fs);
        assert forall|j: int| 0 <= j < fs.len() implies s.seen.contains((#[trigger] fs[j]).path) by {
            if j < pre.len() {
                assert(pre[j] == fs[j]);
            }
        }
    }
}

/// The state of an incremental refresh: the paths seen on disk so far and
/// the numbers of documents added and updated.
pub struct Refresh {
    seen: StringHashMap<bool>,
    added: usize,
    updated: usize,
}

/// A refresh as a mathematical value.
pub struct RefreshModel {
    pub seen: Set<Seq<char>>,
    pub added: nat,
    pub updated: nat,
}

impl View for Refresh {
    type V = RefreshModel;

    closed spec fn view(&self) -> RefreshModel {
        RefreshModel { seen: self.seen@.dom(), added: self.added as nat, updated: self.updated as nat }
    }
}

impl Refresh {
    /// This refresh, under way on `index`, as a `RefreshState`.
    pub open spec fn state(&self, index: IndexModel) -> RefreshState {
        RefreshState { index, seen: self@.seen, added: self@.added, updated: self@.updated }
    }

    /// A refresh that has seen nothing yet.
    pub fn new() -> (r: Refresh)
        ensures
            r@.seen == Set::<Seq<char>>::empty(),
            r@.added == 0,
            r@.updated == 0,
    {
        Refresh { seen: StringHashMap::new(), added: 0, updated: 0 }
    }

    /// Record that `f` exists on disk, and tell whether it must be
    /// (re-)tokenized. The record that `f`'s path is indexed under must
    /// exist.
    pub fn visit(&mut self, index: &Index, f: &FoundFile) -> (needs: bool)
        requires
            index@.path_to_id.contains_key(f.path@) ==> index@.path_to_id[f.path@]
                < index@.docs.len(),
        ensures
            needs == needs_index(index@, f.path@, f.mtime, f.size),
            final(self)@.seen == old(self)@.seen.insert(f.path@),
            final(self)@.added == old(self)@.added,
            final(self)@.updated == old(self)@.updated,
            final(self).state(index@) == refresh_step(old(self).state(index@), file_read(*f, None)),
            !needs ==> forall|t: Option<Seq<Seq<char>>>| #[trigger]
                refresh_step(old(self).state(index@), file_read(*f, t)) == final(self).state(index@),
    {
        self.seen.insert(f.path.clone(), true);
        match index.doc_id(f.path.as_str()) {
            Some(id) => {
                let d = &index.docs()[id as usize];
                proof {
                    assert(index@.docs[id as int] == d@);
                }
                d.mtime != f.mtime || d.size != f.size
            },
            None => true,
        }
    }

    /// Whether one more document can be counted.
    pub fn can_count(&self) -> (b: bool)
        ensures
            b == (self@.added < usize::MAX && self@.updated < usize::MAX),
    {
        self.added < usize::MAX && self.updated < usize::MAX
    }

    /// Index the content of `f`, already split into `tokens`, counting it as
    /// added if its path was not indexed and as updated if it was.
    pub fn index_file(&mut self, index: &mut Index, f: &FoundFile, tokens: &Vec<String>)
        requires
            old(index)@.docs.len() < u32::MAX,
            old(index)@.after_remove(f.path@).total_tokens + tokens@.len() <= u64::MAX,
            forall|t: Seq<char>| count_of(views(tokens@), t) <= u32::MAX,
            old(self)@.added < usize::MAX,
            old(self)@.updated < usize::MAX,
        ensures
            final(index)@ == old(index)@.after_add(f.path@, views(tokens@), f.mtime, f.size),
            final(self)@.seen == old(self)@.seen,
            old(index)@.path_to_id.contains_key(f.path@) ==> final(self)@.updated == old(self)@.updated
                + 1 && final(self)@.added == old(self)@.added,
            !old(index)@.path_to_id.contains_key(f.path@) ==> final(self)@.added == old(self)@.added
                + 1 && final(self)@.updated == old(self)@.updated,
            old(self)@.seen.contains(f.path@) && needs_index(old(index)@, f.path@, f.mtime, f.size)
                ==> final(self).state(final(index)@) == refresh_step(
                old(self).state(old(index)@),
                file_read(*f, Some(views(tokens@))),
            ),
    {
        let was_new = index.doc_id(f.path.as_str()).is_none();
        index.add_doc(f.path.clone(), tokens, f.mtime, f.size);
        if was_new {
            self.added = self.added + 1;
        } else {
            self.updated = self.updated + 1;
        }
        proof {
            if old(self)@.seen.contains(f.path@) {
                assert(old(self)@.seen.insert(f.path@) =~= old(self)@.seen);
            }
        }
    }

    /// End the refresh: tombstone every indexed path that was not seen, in
    /// the order the paths were first indexed, and report what was done.
    pub fn finish(self, index: &mut Index, elapsed_ms: u128) -> (stats: BuildStats)
        ensures
            old(index).path_order().no_duplicates(),
            forall|k: Seq<char>| #[trigger]
                old(index).path_order().contains(k) == old(index)@.path_to_id.contains_key(k),
            final(index)@ == remove_all(old(index)@, unseen(old(index).path_order(), self@.seen)),
            stats.added == self@.added,
            stats.updated == self@.updated,
            stats.removed == unseen(old(index).path_order(), self@.seen).len(),
            stats.total_docs == live_count(final(index)@.docs),
            stats.elapsed_ms == elapsed_ms,
    {
        let ghost m0 = index@;
        let ghost seen = self@.seen;
        let entries = index.path_entries();
        let ghost keys = keys_of(path_entries_of(entries@));
        let mut stale: Vec<String> = Vec::new();
        let mut i: usize = 0;
        while i < entries.len()
            invariant
                seen == self.seen@.dom(),
                keys == keys_of(path_entries_of(entries@)),
                i <= entries@.len(),
                views(stale@) == unseen(keys.take(i as int), seen),
            decreases entries@.len() - i,
        {
            proof {
                assert(keys.take(i + 1).drop_last() =~= keys.take(i as int));
                assert(keys.take(i + 1).last() == entries@[i as int].0@);
            }
            if !self.seen.contains_key(entries[i].0.as_str()) {
                let ghost s0 = views(stale@);
                stale.push(entries[i].0.clone());
                assert(views(stale@) =~= s0.push(entries@[i as int].0@));
            }
            i = i + 1;
        }
        assert(keys.take(i as int) =~= keys);
        let ghost sv = views(stale@);
        let mut j: usize = 0;
        while j < stale.len()
            invariant
                sv == views(stale@),
                j <= stale@.len(),
                index@ == remove_all(m0, sv.take(j as int)),
            decreases stale@.len() - j,
        {
            proof {
                assert(sv.take(j + 1).drop_last() =~= sv.take(j as int));
                assert(sv.take(j + 1).last() == stale@[j as int]@);
            }
            index.remove_doc(stale[j].as_str());
            j = j + 1;
        }
        assert(sv.take(j as int) =~= sv);
        BuildStats {
            added: self.added,
            updated: self.updated,
            removed: stale.len(),
            total_docs: index.live_doc_count(),
            elapsed_ms,
        }
    }
}

} // verus!
