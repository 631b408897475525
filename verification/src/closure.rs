use vstd::prelude::*;
use crate::closure_order::{
    is_walk, lemma_reaches_self, lemma_reaches_step, reaches, refers, texts_of, topological_order,
};
use crate::error::NiphasError;
use crate::narinfo::{reference_paths, NarInfo};
use crate::store_path::{
    basename_parts, basename_text, lemma_basename_parts_text, lemma_store_path_roundtrip,
    store_path_text, store_prefix, StorePath,
};
use crate::text::{push_str, push_u64, str_eq};

verus! {

/// The text of a store path, as `Display` writes it.
pub open spec fn path_text(sp: StorePath) -> Seq<char> {
    store_path_text(sp.hash@, sp.name@)
}

/// The characters of each string.
pub open spec fn texts(v: Seq<String>) -> Seq<Seq<char>> {
    Seq::new(v.len(), |i: int| v[i]@)
}

/// The texts of each store path.
pub open spec fn path_texts(v: Seq<StorePath>) -> Seq<Seq<char>> {
    Seq::new(v.len(), |i: int| path_text(v[i]))
}

/// The paths of `batch` that are new: not in `seen` and not earlier in the batch.
pub open spec fn fresh_paths(batch: Seq<Seq<char>>, seen: Seq<Seq<char>>) -> Seq<Seq<char>>
    decreases batch.len(),
{
    if batch.len() == 0 {
        Seq::empty()
    } else if seen.contains(batch[0]) {
        fresh_paths(batch.skip(1), seen)
    } else {
        seq![batch[0]] + fresh_paths(batch.skip(1), seen.push(batch[0]))
    }
}

proof fn lemma_push_no_duplicates(s: Seq<Seq<char>>, x: Seq<char>)
    requires
        s.no_duplicates(),
        !s.contains(x),
    ensures
        s.push(x).no_duplicates(),
{
    assert forall|i: int, j: int| 0 <= i < s.push(x).len() && 0 <= j < s.push(x).len() && i != j implies s.push(
        x,
    )[i] != s.push(x)[j] by {
        if i < s.len() && j < s.len() {
        } else if i < s.len() {
            assert(s[i] == s.push(x)[i]);
        } else {
            assert(s[j] == s.push(x)[j]);
        }
    }
}

/// Some `.narinfo` among the first `upto` of `ns` lists `x` as a reference.
pub open spec fn has_parent(ns: Seq<NarInfo>, upto: int, x: Seq<char>) -> bool {
    exists|i: int| 0 <= i < upto && i < ns.len() && #[trigger] reference_paths(ns[i].references@).contains(x)
}

/// The paths of `batch` that are new occur in `batch`.
proof fn lemma_fresh_in_batch(batch: Seq<Seq<char>>, seen: Seq<Seq<char>>, x: Seq<char>)
    requires
        fresh_paths(batch, seen).contains(x),
    ensures
        batch.contains(x),
    decreases batch.len(),
{
    if batch.len() > 0 {
        if seen.contains(batch[0]) {
            lemma_fresh_in_batch(batch.skip(1), seen, x);
            let w = choose|w: int| 0 <= w < batch.skip(1).len() && batch.skip(1)[w] == x;
            assert(batch[w + 1] == x);
        } else {
            let f = fresh_paths(batch.skip(1), seen.push(batch[0]));
            if x != batch[0] {
                let w = choose|w: int| 0 <= w < (seq![batch[0]] + f).len() && (seq![batch[0]] + f)[w] == x;
                assert(f[w - 1] == x);
                assert(f.contains(x));
                lemma_fresh_in_batch(batch.skip(1), seen.push(batch[0]), x);
                let w2 = choose|w2: int| 0 <= w2 < batch.skip(1).len() && batch.skip(1)[w2] == x;
                assert(batch[w2 + 1] == x);
            } else {
                assert(batch[0] == x);
            }
        }
    }
}

/// Whether `v` holds the text `s`.
fn contains_text(v: &Vec<String>, s: &str) -> (r: bool)
    ensures
        r == texts(v@).contains(s@),
{
    let mut i: usize = 0;
    while i < v.len()
        invariant
            i <= v@.len(),
            forall|k: int| 0 <= k < i ==> v@[k]@ != s@,
        decreases v@.len() - i,
    {
        if str_eq(v[i].as_str(), s) {
            proof {
                assert(texts(v@)[i as int] == s@);
            }
            return true;
        }
        i += 1;
    }
    proof {
        if texts(v@).contains(s@) {
            let k = choose|k: int| 0 <= k < texts(v@).len() && texts(v@)[k] == s@;
            assert(v@[k]@ == s@);
        }
    }
    false
}

/// Breadth-first resolution of the closure of a store path over `.narinfo` references.
///
/// The caller fetches: it asks for a batch, fetches every path of it, and hands each
/// `.narinfo` back, until the resolver is done.
pub struct ClosureResolver {
    queue: Vec<StorePath>,
    visited: Vec<String>,
    pending: Vec<String>,
    order: Vec<String>,
    narinfos: Vec<NarInfo>,
    concurrency: usize,
    root: Ghost<Seq<char>>,
}

impl ClosureResolver {
    /// The paths waiting to be batched, in order.
    pub closed spec fn queue_view(self) -> Seq<Seq<char>> {
        path_texts(self.queue@)
    }

    /// Every path ever batched.
    pub closed spec fn visited_view(self) -> Seq<Seq<char>> {
        texts(self.visited@)
    }

    /// The batched paths whose `.narinfo` has not come back yet.
    pub closed spec fn pending_view(self) -> Seq<Seq<char>> {
        texts(self.pending@)
    }

    /// The resolved paths, in the order their `.narinfo` came back.
    pub closed spec fn order_view(self) -> Seq<Seq<char>> {
        texts(self.order@)
    }

    /// The `.narinfo` of each resolved path, in the same order.
    pub closed spec fn narinfos_view(self) -> Seq<NarInfo> {
        self.narinfos@
    }

    /// The path whose closure is resolved.
    pub closed spec fn root_view(self) -> Seq<char> {
        self.root@
    }

    /// How many paths a batch takes at most.
    pub closed spec fn batch_size(self) -> nat {
        self.concurrency as nat
    }

    /// What every step keeps: no path is batched twice, every batched path is either
    /// resolved or pending, and every reference of a resolved path has been batched or
    /// is queued.
    pub closed spec fn wf(self) -> bool {
        let visited = texts(self.visited@);
        let pending = texts(self.pending@);
        let order = texts(self.order@);
        let queue = path_texts(self.queue@);
        &&& visited.no_duplicates()
        &&& order.no_duplicates()
        &&& pending.no_duplicates()
        &&& self.narinfos@.len() == self.order@.len()
        &&& forall|x: Seq<char>| #[trigger] order.contains(x) ==> visited.contains(x)
        &&& forall|x: Seq<char>| #[trigger] pending.contains(x) ==> visited.contains(x)
        &&& forall|x: Seq<char>|
            #[trigger] visited.contains(x) ==> order.contains(x) || pending.contains(x)
        &&& forall|x: Seq<char>| #[trigger] order.contains(x) ==> !pending.contains(x)
        &&& forall|i: int, j: int|
            0 <= i < self.narinfos@.len() && 0 <= j < self.narinfos@[i].references@.len() ==> {
                let p = #[trigger] reference_paths(self.narinfos@[i].references@)[j];
                visited.contains(p) || queue.contains(p)
            }
        &&& visited.contains(self.root@) || queue.contains(self.root@)
        &&& forall|k: int|
            0 <= k < order.len() && #[trigger] order[k] != self.root@ ==> has_parent(self.narinfos@, k, order[k])
        &&& forall|x: Seq<char>| #[trigger] queue.contains(x) && x != self.root@ ==> has_parent(
            self.narinfos@,
            self.narinfos@.len() as int,
            x,
        )
        &&& forall|x: Seq<char>| #[trigger] pending.contains(x) && x != self.root@ ==> has_parent(
            self.narinfos@,
            self.narinfos@.len() as int,
            x,
        )
        &&& order.len() > 0 ==> order[0] == self.root@
    }

    /// Start with only the root queued.
    pub fn new(root: &StorePath, concurrency: usize) -> (r: ClosureResolver)
        ensures
            r.wf(),
            r.queue_view() == seq![path_text(*root)],
            r.visited_view().len() == 0,
            r.pending_view().len() == 0,
            r.order_view().len() == 0,
            r.root_view() == path_text(*root),
            r.batch_size() == concurrency,
    {
        let mut queue: Vec<StorePath> = Vec::new();
        queue.push(root.clone());
        let r = ClosureResolver {
            queue,
            visited: Vec::new(),
            pending: Vec::new(),
            order: Vec::new(),
            narinfos: Vec::new(),
            concurrency,
            root: Ghost(path_text(*root)),
        };
        proof {
            assert(path_texts(r.queue@) =~= seq![path_text(*root)]);
            assert(path_texts(r.queue@)[0] == path_text(*root));
            assert(texts(r.visited@) =~= Seq::<Seq<char>>::empty());
            assert(texts(r.pending@) =~= Seq::<Seq<char>>::empty());
            assert(texts(r.order@) =~= Seq::<Seq<char>>::empty());
        }
        r
    }

    /// Takes the next batch off the queue: up to `batch_size` paths, of which the
    /// ones not batched before are marked and returned for fetching.
    pub fn next_batch(&mut self) -> (r: Vec<StorePath>)
        requires
            old(self).wf(),
        ensures
            final(self).wf(),
            ({
                let n = if old(self).queue_view().len() < old(self).batch_size() {
                    old(self).queue_view().len() as int
                } else {
                    old(self).batch_size() as int
                };
                &&& path_texts(r@) == fresh_paths(
                    old(self).queue_view().take(n),
                    old(self).visited_view(),
                )
                &&& final(self).queue_view() == old(self).queue_view().skip(n)
            }),
            final(self).visited_view() == old(self).visited_view() + path_texts(r@),
            final(self).pending_view() == old(self).pending_view() + path_texts(r@),
            final(self).order_view() == old(self).order_view(),
            final(self).narinfos_view() == old(self).narinfos_view(),
            final(self).root_view() == old(self).root_view(),
            final(self).batch_size() == old(self).batch_size(),
    {
        let ghost old_self = *self;
        let len = self.queue.len();
        let n = if len < self.concurrency {
            len
        } else {
            self.concurrency
        };
        let mut batch: Vec<StorePath> = Vec::new();
        let mut rest: Vec<StorePath> = Vec::new();
        let mut i: usize = 0;
        while i < len
            invariant
                i <= len,
                n <= len,
                len == self.queue@.len(),
                i <= n ==> batch@.len() == i && rest@.len() == 0,
                i > n ==> batch@.len() == n && rest@.len() == i - n,
                forall|k: int| 0 <= k < batch@.len() ==> path_text(#[trigger] batch@[k]) == path_text(
                    self.queue@[k],
                ),
                forall|k: int| 0 <= k < rest@.len() ==> path_text(#[trigger] rest@[k]) == path_text(
                    self.queue@[n + k],
                ),
            decreases len - i,
        {
            let c = self.queue[i].clone();
            if i < n {
                batch.push(c);
            } else {
                rest.push(c);
            }
            i += 1;
        }
        let ghost bt = path_texts(batch@);
        let ghost ov = texts(self.visited@);
        proof {
            assert(bt =~= path_texts(self.queue@).take(n as int));
            assert(path_texts(rest@) =~= path_texts(self.queue@).skip(n as int));
            assert(bt.skip(0) =~= bt);
            assert(path_texts(Seq::<StorePath>::empty()) =~= Seq::<Seq<char>>::empty());
            assert(ov + Seq::<Seq<char>>::empty() =~= ov);
        }
        self.queue = rest;
        let mut out: Vec<StorePath> = Vec::new();
        let mut k: usize = 0;
        while k < batch.len()
            invariant
                k <= batch@.len(),
                bt == path_texts(batch@),
                fresh_paths(bt, ov) == path_texts(out@) + fresh_paths(
                    bt.skip(k as int),
                    texts(self.visited@),
                ),
                texts(self.visited@) == ov + path_texts(out@),
                texts(self.pending@) == texts(old_self.pending@) + path_texts(out@),
                self.order@ == old_self.order@,
                self.narinfos@ == old_self.narinfos@,
                self.root == old_self.root,
                self.concurrency == old_self.concurrency,
                path_texts(self.queue@) == path_texts(old_self.queue@).skip(n as int),
                n <= old_self.queue@.len(),
                bt == path_texts(old_self.queue@).take(n as int),
                forall|j: int| 0 <= j < k ==> texts(self.visited@).contains(#[trigger] bt[j]),
                texts(self.visited@).no_duplicates(),
                texts(self.pending@).no_duplicates(),
                forall|x: Seq<char>|
                    #[trigger] texts(self.order@).contains(x) ==> texts(self.visited@).contains(x),
                forall|x: Seq<char>|
                    #[trigger] texts(self.pending@).contains(x) ==> texts(self.visited@).contains(x),
                forall|x: Seq<char>|
                    #[trigger] texts(self.visited@).contains(x) ==> texts(self.order@).contains(x)
                        || texts(self.pending@).contains(x),
                forall|x: Seq<char>|
                    #[trigger] texts(self.order@).contains(x) ==> !texts(self.pending@).contains(x),
                forall|x: Seq<char>|
                    #[trigger] texts(old_self.visited@).contains(x) ==> texts(self.visited@).contains(x),
            decreases batch@.len() - k,
        {
            let t = batch[k].to_string();
            let ghost before_v = texts(self.visited@);
            let ghost before_p = texts(self.pending@);
            let ghost before_o = path_texts(out@);
            proof {
                assert(bt.skip(k as int)[0] == t@);
                assert(bt.skip(k as int).skip(1) =~= bt.skip(k + 1));
            }
            if !contains_text(&self.visited, t.as_str()) {
                let mut t1 = String::new();
                push_str(&mut t1, t.as_str());
                let mut t2 = String::new();
                push_str(&mut t2, t.as_str());
                self.visited.push(t1);
                self.pending.push(t2);
                let c = batch[k].clone();
                out.push(c);
                proof {
                    assert(texts(self.visited@) =~= before_v.push(t@));
                    assert(texts(self.pending@) =~= before_p.push(t@));
                    assert(!before_p.contains(t@));
                    lemma_push_no_duplicates(before_v, t@);
                    lemma_push_no_duplicates(before_p, t@);
                    assert(path_texts(out@) =~= before_o.push(t@));
                    assert(ov + before_o.push(t@) =~= (ov + before_o).push(t@));
                    assert(texts(old_self.pending@) + before_o.push(t@) =~= (texts(old_self.pending@)
                        + before_o).push(t@));
                    assert(before_o + (seq![t@] + fresh_paths(bt.skip(k + 1), before_v.push(t@)))
                        =~= before_o.push(t@) + fresh_paths(bt.skip(k + 1), before_v.push(t@)));
                    assert forall|x: Seq<char>| #[trigger] before_v.push(t@).contains(x) <==> (
                    before_v.contains(x) || x == t@) by {
                        if before_v.push(t@).contains(x) {
                            let w = choose|w: int| 0 <= w < before_v.push(t@).len() && before_v.push(t@)[w] == x;
                            if w < before_v.len() {
                                assert(before_v[w] == x);
                            }
                        }
                        if before_v.contains(x) {
                            let w = choose|w: int| 0 <= w < before_v.len() && before_v[w] == x;
                            assert(before_v.push(t@)[w] == x);
                        }
                        if x == t@ {
                            assert(before_v.push(t@)[before_v.len() as int] == x);
                        }
                    }
                    assert forall|x: Seq<char>| #[trigger] before_p.push(t@).contains(x) <==> (
                    before_p.contains(x) || x == t@) by {
                        if before_p.push(t@).contains(x) {
                            let w = choose|w: int| 0 <= w < before_p.push(t@).len() && before_p.push(t@)[w] == x;
                            if w < before_p.len() {
                                assert(before_p[w] == x);
                            }
                        }
                        if before_p.contains(x) {
                            let w = choose|w: int| 0 <= w < before_p.len() && before_p[w] == x;
                            assert(before_p.push(t@)[w] == x);
                        }
                        if x == t@ {
                            assert(before_p.push(t@)[before_p.len() as int] == x);
                        }
                    }
                }
            }
            k += 1;
        }
        proof {
            assert(bt.skip(k as int) =~= Seq::<Seq<char>>::empty());
            assert(path_texts(out@) + Seq::<Seq<char>>::empty() =~= path_texts(out@));
            let q_old = path_texts(old_self.queue@);
            assert forall|x: Seq<char>| q_old.contains(x) implies texts(self.visited@).contains(x)
                || path_texts(self.queue@).contains(x) by {
                let w = choose|w: int| 0 <= w < q_old.len() && q_old[w] == x;
                if w < n {
                    assert(bt[w] == x);
                } else {
                    assert(path_texts(self.queue@)[w - n] == x);
                }
            }
            let q_new = path_texts(self.queue@);
            let p_old = texts(old_self.pending@);
            let pt = path_texts(out@);
            assert(pt == fresh_paths(bt, ov));
            assert forall|x: Seq<char>| #[trigger] q_new.contains(x) && x != self.root@ implies has_parent(
                self.narinfos@,
                self.narinfos@.len() as int,
                x,
            ) by {
                let w = choose|w: int| 0 <= w < q_new.len() && q_new[w] == x;
                assert(q_old[w + n] == x);
                assert(q_old.contains(x));
            }
            assert forall|x: Seq<char>| #[trigger] texts(self.pending@).contains(x) && x != self.root@ implies has_parent(
                self.narinfos@,
                self.narinfos@.len() as int,
                x,
            ) by {
                let pn = texts(self.pending@);
                let w = choose|w: int| 0 <= w < pn.len() && pn[w] == x;
                if w < p_old.len() {
                    assert(p_old[w] == x);
                    assert(p_old.contains(x));
                } else {
                    assert(pt[w - p_old.len()] == x);
                    assert(pt.contains(x));
                    lemma_fresh_in_batch(bt, ov, x);
                    let v = choose|v: int| 0 <= v < bt.len() && bt[v] == x;
                    assert(q_old[v] == x);
                    assert(q_old.contains(x));
                }
            }
            assert(texts(self.order@) == texts(old_self.order@));
        }
        out
    }

    /// Records the `.narinfo` fetched for the pending path `sp`: the path is resolved,
    /// and each reference not batched before is queued.
    pub fn on_fetched(&mut self, sp: &StorePath, narinfo: NarInfo)
        requires
            old(self).wf(),
            old(self).pending_view().contains(path_text(*sp)),
        ensures
            final(self).wf(),
            final(self).order_view() == old(self).order_view().push(path_text(*sp)),
            final(self).narinfos_view() == old(self).narinfos_view().push(narinfo),
            final(self).queue_view() == old(self).queue_view() + reference_paths(
                narinfo.references@,
            ).filter(|p: Seq<char>| !old(self).visited_view().contains(p)),
            final(self).pending_view().len() + 1 == old(self).pending_view().len(),
            forall|x: Seq<char>|
                #[trigger] final(self).pending_view().contains(x) <==> old(self).pending_view().contains(
                    x,
                ) && x != path_text(*sp),
            final(self).visited_view() == old(self).visited_view(),
            final(self).root_view() == old(self).root_view(),
            final(self).batch_size() == old(self).batch_size(),
    {
        let ghost old_self = *self;
        let ghost refs = reference_paths(narinfo.references@);
        let ghost vis = texts(self.visited@);
        let mut i: usize = 0;
        proof {
            assert(refs.take(0).filter(|p: Seq<char>| !vis.contains(p)) =~= Seq::<Seq<char>>::empty());
            assert(path_texts(self.queue@) =~= path_texts(old_self.queue@) + Seq::<Seq<char>>::empty());
        }
        while i < narinfo.references.len()
            invariant
                i <= narinfo.references@.len(),
                refs == reference_paths(narinfo.references@),
                vis == texts(self.visited@),
                self.visited@ == old_self.visited@,
                self.pending@ == old_self.pending@,
                self.order@ == old_self.order@,
                self.narinfos@ == old_self.narinfos@,
                self.root == old_self.root,
                self.concurrency == old_self.concurrency,
                old_self.wf(),
                texts(old_self.pending@).contains(path_text(*sp)),
                path_texts(self.queue@) == path_texts(old_self.queue@) + refs.take(i as int).filter(
                    |p: Seq<char>| !vis.contains(p),
                ),
            decreases narinfo.references@.len() - i,
        {
            let r = &narinfo.references[i];
            let b = r.as_str();
            let full = r.to_store_path_string();
            let ghost before = path_texts(self.queue@);
            proof {
                assert(refs[i as int] == full@);
                assert(refs.take(i + 1).drop_last() =~= refs.take(i as int));
                assert(refs.take(i + 1).last() == full@);
                reveal(Seq::filter);
            }
            if !contains_text(&self.visited, full.as_str()) {
                proof {
                    assert(full@.take(11) =~= store_prefix());
                    assert(full@.skip(11) =~= b@);
                }
                match StorePath::parse(full.as_str()) {
                    Ok(p) => {
                        proof {
                            lemma_basename_parts_text(b@);
                            assert(path_text(p) =~= full@);
                        }
                        self.queue.push(p);
                        proof {
                            assert(path_texts(self.queue@) =~= before.push(full@));
                        }
                    },
                    Err(_) => {
                        proof {
                            assert(false);
                        }
                    },
                }
            }
            i += 1;
        }
        proof {
            assert(refs.take(i as int) =~= refs);
        }
        let t = sp.to_string();
        let mut idx: usize = 0;
        while idx < self.pending.len() && !str_eq(self.pending[idx].as_str(), t.as_str())
            invariant
                idx <= self.pending@.len(),
                forall|k: int| 0 <= k < idx ==> self.pending@[k]@ != t@,
            decreases self.pending@.len() - idx,
        {
            idx += 1;
        }
        let ghost old_p = texts(self.pending@);
        proof {
            if idx == self.pending@.len() {
                let w = choose|w: int| 0 <= w < old_p.len() && old_p[w] == t@;
                assert(self.pending@[w]@ == t@);
            }
        }
        self.pending.remove(idx);
        let ghost new_p = texts(self.pending@);
        proof {
            assert(new_p =~= old_p.remove(idx as int));
            assert(old_p[idx as int] == t@);
            assert(old_p.no_duplicates());
            assert forall|x: Seq<char>| #[trigger] new_p.contains(x) <==> old_p.contains(x) && x != t@ by {
                if new_p.contains(x) {
                    let w = choose|w: int| 0 <= w < new_p.len() && new_p[w] == x;
                    let w2 = if w < idx { w } else { w + 1 };
                    assert(old_p[w2] == x);
                    assert(w2 != idx);
                    if x == t@ {
                        assert(old_p[w2] == old_p[idx as int]);
                    }
                }
                if old_p.contains(x) && x != t@ {
                    let w = choose|w: int| 0 <= w < old_p.len() && old_p[w] == x;
                    if w < idx {
                        assert(new_p[w] == x);
                    } else {
                        assert(w != idx);
                        assert(new_p[w - 1] == x);
                    }
                }
            }
            assert forall|a: int, c: int| 0 <= a < new_p.len() && 0 <= c < new_p.len() && a != c implies new_p[a]
                != new_p[c] by {
                let a2 = if a < idx { a } else { a + 1 };
                let c2 = if c < idx { c } else { c + 1 };
                assert(new_p[a] == old_p[a2]);
                assert(new_p[c] == old_p[c2]);
            }
        }
        let mut t2 = String::new();
        push_str(&mut t2, t.as_str());
        let ghost old_o = texts(self.order@);
        self.order.push(t2);
        self.narinfos.push(narinfo);
        proof {
            let o = texts(self.order@);
            assert(o =~= old_o.push(t@));
            assert(!old_o.contains(t@));
            lemma_push_no_duplicates(old_o, t@);
            assert forall|x: Seq<char>| #[trigger] o.contains(x) <==> old_o.contains(x) || x == t@ by {
                if o.contains(x) {
                    let w = choose|w: int| 0 <= w < o.len() && o[w] == x;
                    if w < old_o.len() {
                        assert(old_o[w] == x);
                    }
                }
                if old_o.contains(x) {
                    let w = choose|w: int| 0 <= w < old_o.len() && old_o[w] == x;
                    assert(o[w] == x);
                }
                if x == t@ {
                    assert(o[old_o.len() as int] == x);
                }
            }
            let q = path_texts(self.queue@);
            let q_old = path_texts(old_self.queue@);
            assert forall|x: Seq<char>| q_old.contains(x) implies q.contains(x) by {
                let w = choose|w: int| 0 <= w < q_old.len() && q_old[w] == x;
                assert(q[w] == x);
            }
            assert forall|k: int, j: int|
                0 <= k < self.narinfos@.len() && 0 <= j < self.narinfos@[k].references@.len() implies {
                let p = #[trigger] reference_paths(self.narinfos@[k].references@)[j];
                vis.contains(p) || q.contains(p)
            } by {
                let p = reference_paths(self.narinfos@[k].references@)[j];
                if k < old_self.narinfos@.len() {
                    assert(self.narinfos@[k] == old_self.narinfos@[k]);
                    if q_old.contains(p) {
                        assert(q.contains(p));
                    }
                } else {
                    assert(self.narinfos@[k] == narinfo);
                    if !vis.contains(p) {
                        let fl = refs.filter(|p: Seq<char>| !vis.contains(p));
                        assert(refs[j] == p);
                        refs.lemma_filter_contains(|p: Seq<char>| !vis.contains(p), j);
                        let w = choose|w: int| 0 <= w < fl.len() && fl[w] == p;
                        assert(q[q_old.len() + w] == p);
                    }
                }
            }
            if q_old.contains(self.root@) {
                assert(q.contains(self.root@));
            }
            let on = texts(old_self.order@);
            let ns_old = old_self.narinfos@;
            let nsn = self.narinfos@;
            assert(nsn == ns_old.push(narinfo));
            assert forall|x: Seq<char>, u: int| has_parent(ns_old, u, x) implies has_parent(nsn, u, x) by {
                let i = choose|i: int| 0 <= i < u && i < ns_old.len() && #[trigger] reference_paths(ns_old[i].references@).contains(x);
                assert(nsn[i] == ns_old[i]);
            }
            if on.len() == 0 {
                if t@ != self.root@ {
                    assert(old_p.contains(t@));
                    assert(has_parent(ns_old, ns_old.len() as int, t@));
                }
            }
            assert forall|k: int|
                0 <= k < o.len() && #[trigger] o[k] != self.root@ implies has_parent(nsn, k, o[k]) by {
                if k < on.len() {
                    assert(o[k] == on[k]);
                    assert(has_parent(ns_old, k, on[k]));
                } else {
                    assert(o[k] == t@);
                    assert(old_p.contains(t@));
                    assert(has_parent(ns_old, ns_old.len() as int, t@));
                    assert(ns_old.len() == on.len());
                }
            }
            assert forall|x: Seq<char>| #[trigger] q.contains(x) && x != self.root@ implies has_parent(
                nsn,
                nsn.len() as int,
                x,
            ) by {
                let w = choose|w: int| 0 <= w < q.len() && q[w] == x;
                if w < q_old.len() {
                    assert(q_old[w] == x);
                    assert(q_old.contains(x));
                    assert(has_parent(ns_old, ns_old.len() as int, x));
                } else {
                    let fl = refs.filter(|p: Seq<char>| !vis.contains(p));
                    assert(fl[w - q_old.len()] == x);
                    assert(fl.contains(x));
                    refs.lemma_filter_contains_rev(|p: Seq<char>| !vis.contains(p), x);
                    assert(refs.contains(x));
                    assert(nsn[ns_old.len() as int] == narinfo);
                    assert(reference_paths(nsn[ns_old.len() as int].references@).contains(x));
                }
            }
            assert forall|x: Seq<char>| #[trigger] new_p.contains(x) && x != self.root@ implies has_parent(
                nsn,
                nsn.len() as int,
                x,
            ) by {
                assert(old_p.contains(x));
                assert(has_parent(ns_old, ns_old.len() as int, x));
            }
        }
    }

    /// The error for a path whose `.narinfo` could not be fetched.
    pub fn failure(&self, sp: &StorePath, cause: &str) -> (e: NiphasError)
        ensures
            e matches NiphasError::ClosureResolution(m) && m@ == "failed to resolve "@ + path_text(
                *sp,
            ) + ": "@ + cause@,
    {
        let mut m = String::new();
        push_str(&mut m, "failed to resolve ");
        let t = sp.to_string();
        push_str(&mut m, t.as_str());
        push_str(&mut m, ": ");
        push_str(&mut m, cause);
        NiphasError::ClosureResolution(m)
    }

    /// The error for running out of time.
    pub fn timeout_error(&self, secs: u64) -> (e: NiphasError)
        ensures
            e matches NiphasError::Timeout(m) && m@ == "closure resolution timed out after "@
                + crate::text::decimal(secs as nat) + "s"@,
    {
        let mut m = String::new();
        push_str(&mut m, "closure resolution timed out after ");
        push_u64(&mut m, secs);
        push_str(&mut m, "s");
        NiphasError::Timeout(m)
    }

    /// Every resolved path is reachable from the root along references.
    proof fn lemma_root_reaches(self, k: int)
        requires
            self.wf(),
            0 <= k < self.order_view().len(),
        ensures
            reaches(self.order_view(), self.narinfos_view(), self.root_view(), self.order_view()[k]),
        decreases k,
    {
        let o = self.order_view();
        let ns = self.narinfos_view();
        if o[k] == self.root@ {
            lemma_reaches_self(o, ns, o[k]);
        } else {
            assert(has_parent(self.narinfos@, k, o[k]));
            let i = choose|i: int| 0 <= i < k && i < ns.len() && #[trigger] reference_paths(ns[i].references@).contains(o[k]);
            self.lemma_root_reaches(i);
            assert(o.contains(o[k]));
            assert(refers(o, ns, o[i], o[k]));
            lemma_reaches_step(o, ns, self.root_view(), o[i], o[k]);
        }
    }

    /// The resolved closure, once nothing is queued or pending: its paths topologically
    /// sorted (the root first, and every path before the paths it references unless
    /// they reach it back), and the `.narinfo`s in the order the paths were resolved.
    pub fn finish(self) -> (r: ResolvedClosure)
        requires
            self.wf(),
            self.queue_view().len() == 0,
            self.pending_view().len() == 0,
        ensures
            texts(r.paths@).len() == self.order_view().len(),
            texts(r.paths@).no_duplicates(),
            forall|x: Seq<char>| #[trigger] texts(r.paths@).contains(x) <==> self.order_view().contains(x),
            texts(r.paths@)[0] == self.root_view(),
            forall|a: int, b: int|
                0 <= a < r.paths@.len() && 0 <= b < r.paths@.len() && r.paths@[a]@ != r.paths@[b]@
                    && refers(self.order_view(), self.narinfos_view(), r.paths@[a]@, r.paths@[b]@)
                    && !reaches(self.order_view(), self.narinfos_view(), #[trigger] r.paths@[b]@, #[trigger] r.paths@[a]@)
                    ==> a < b,
            r.narinfos@ == self.narinfos_view(),
            texts(r.keys@) == self.order_view(),
            r.keys@.len() == r.narinfos@.len(),
    {
        proof {
            lemma_resolved_closure(self);
            assert(texts_of(self.order@) =~= self.order_view());
            assert forall|k: int| 0 <= k < self.order@.len() implies reaches(
                texts_of(self.order@),
                self.narinfos@,
                self.order@[0]@,
                #[trigger] self.order@[k]@,
            ) by {
                self.lemma_root_reaches(k);
                assert(self.order_view()[k] == self.order@[k]@);
                assert(self.order_view()[0] == self.order@[0]@);
            }
        }
        let perm = topological_order(&self.order, &self.narinfos, 0);
        let mut paths: Vec<String> = Vec::new();
        let mut k: usize = 0;
        while k < perm.len()
            invariant
                k <= perm@.len(),
                perm@.len() == self.order@.len(),
                forall|a: int| 0 <= a < perm@.len() ==> #[trigger] perm@[a] < self.order@.len(),
                paths@.len() == k,
                forall|a: int| 0 <= a < k ==> #[trigger] paths@[a]@ == self.order@[perm@[a] as int]@,
            decreases perm@.len() - k,
        {
            let mut t = String::new();
            push_str(&mut t, self.order[perm[k]].as_str());
            paths.push(t);
            k += 1;
        }
        proof {
            let o = self.order_view();
            let tp = texts(paths@);
            assert forall|a: int| 0 <= a < tp.len() implies #[trigger] tp[a] == o[perm@[a] as int] by {
                assert(paths@[a]@ == self.order@[perm@[a] as int]@);
            }
            assert forall|a: int, b: int| 0 <= a < tp.len() && 0 <= b < tp.len() && a != b implies tp[a] != tp[b] by {
                assert(perm@[a] != perm@[b]);
                assert(tp[a] == o[perm@[a] as int]);
                assert(tp[b] == o[perm@[b] as int]);
            }
            assert forall|x: Seq<char>| #[trigger] tp.contains(x) <==> o.contains(x) by {
                if tp.contains(x) {
                    let a = choose|a: int| 0 <= a < tp.len() && tp[a] == x;
                    assert(o[perm@[a] as int] == x);
                }
                if o.contains(x) {
                    let j = choose|j: int| 0 <= j < o.len() && o[j] == x;
                    let r = Seq::new(perm@.len(), |i: int| i as usize);
                    assert(perm@.contains(j as usize)) by {
                        assert forall|z: usize| perm@.contains(z) implies r.contains(z) by {
                            let w = choose|w: int| 0 <= w < perm@.len() && perm@[w] == z;
                            assert(r[z as int] == z);
                        }
                        if !perm@.contains(j as usize) {
                            assert(r[j] == j as usize);
                            assert forall|a: int, b: int| 0 <= a < r.len() && 0 <= b < r.len() && a != b implies r[a] != r[b] by {}
                            crate::closure_order::lemma_perm_covers(perm@, r, j as usize);
                        }
                    }
                    let a = choose|a: int| 0 <= a < perm@.len() && perm@[a] == j as usize;
                    assert(tp[a] == x);
                }
            }
            assert(tp[0] == o[0]);
            assert forall|a: int, b: int|
                0 <= a < paths@.len() && 0 <= b < paths@.len() && paths@[a]@ != paths@[b]@
                    && refers(o, self.narinfos_view(), paths@[a]@, paths@[b]@)
                    && !reaches(o, self.narinfos_view(), #[trigger] paths@[b]@, #[trigger] paths@[a]@)
                    implies a < b by {
                assert(paths@[a]@ == self.order@[perm@[a] as int]@);
                assert(paths@[b]@ == self.order@[perm@[b] as int]@);
            }
        }
        ResolvedClosure { narinfos: self.narinfos, keys: self.order, paths }
    }

    /// Whether every path of the closure has been resolved.
    pub fn is_done(&self) -> (r: bool)
        ensures
            r == (self.queue_view().len() == 0 && self.pending_view().len() == 0),
    {
        self.queue.len() == 0 && self.pending.len() == 0
    }
}

/// Result of resolving a full closure.
#[derive(Debug)]
pub struct ResolvedClosure {
    /// The `.narinfo` of each path of the closure (each names its store path), in the
    /// order the paths were resolved.
    pub narinfos: Vec<NarInfo>,
    /// The path each `.narinfo` was fetched for: `keys[i]` was asked for and answered
    /// by `narinfos[i]`.
    pub keys: Vec<String>,
    /// All store paths in the closure, topologically sorted: root first, and every path
    /// before the paths it references (unless they reach it back).
    pub paths: Vec<String>,
}

/// The total of `f` over the `.narinfo`s.
pub open spec fn size_total(ns: Seq<NarInfo>, nar: bool) -> int
    decreases ns.len(),
{
    if ns.len() == 0 {
        0
    } else {
        size_total(ns.drop_last(), nar) + if nar {
            ns.last().nar_size as int
        } else {
            ns.last().file_size as int
        }
    }
}

impl ResolvedClosure {
    /// The `.narinfo` fetched for `path`: the one at the first position whose key is
    /// `path`, or `None` when no key is.
    pub fn narinfo_of(&self, path: &str) -> (r: Option<&NarInfo>)
        ensures
            match r {
                Some(n) => exists|i: int|
                    0 <= i < self.keys@.len() && i < self.narinfos@.len() && #[trigger] self.keys@[i]@
                        == path@ && *n == self.narinfos@[i] && forall|j: int|
                        0 <= j < i ==> self.keys@[j]@ != path@,
                None => forall|i: int|
                    0 <= i < self.keys@.len() && i < self.narinfos@.len() ==> #[trigger] self.keys@[i]@
                        != path@,
            },
    {
        let mut i: usize = 0;
        while i < self.keys.len() && i < self.narinfos.len()
            invariant
                i <= self.keys@.len(),
                forall|j: int| 0 <= j < i ==> #[trigger] self.keys@[j]@ != path@,
            decreases self.keys@.len() - i,
        {
            if str_eq(self.keys[i].as_str(), path) {
                return Some(&self.narinfos[i]);
            }
            i += 1;
        }
        None
    }

    /// All store path strings in the closure.
    pub fn paths(&self) -> (r: &[String])
        ensures
            r@ == self.paths@,
    {
        self.paths.as_slice()
    }

    fn total(&self, nar: bool) -> (r: u64)
        requires
            size_total(self.narinfos@, nar) <= u64::MAX,
        ensures
            r == size_total(self.narinfos@, nar),
    {
        let mut sum: u64 = 0;
        let mut i: usize = 0;
        while i < self.narinfos.len()
            invariant
                i <= self.narinfos@.len(),
                size_total(self.narinfos@, nar) <= u64::MAX,
                sum == size_total(self.narinfos@.take(i as int), nar),
            decreases self.narinfos@.len() - i,
        {
            proof {
                assert(self.narinfos@.take(i + 1).drop_last() =~= self.narinfos@.take(i as int));
                lemma_size_total_prefix(self.narinfos@, nar, i + 1);
            }
            let n = &self.narinfos[i];
            sum = sum + if nar {
                n.nar_size
            } else {
                n.file_size
            };
            i += 1;
        }
        proof {
            assert(self.narinfos@.take(i as int) =~= self.narinfos@);
        }
        sum
    }

    /// Total NAR size (uncompressed) for the entire closure.
    pub fn nar_size(&self) -> (r: u64)
        requires
            size_total(self.narinfos@, true) <= u64::MAX,
        ensures
            r == size_total(self.narinfos@, true),
    {
        self.total(true)
    }

    /// Total file size (compressed) for the entire closure.
    pub fn file_size(&self) -> (r: u64)
        requires
            size_total(self.narinfos@, false) <= u64::MAX,
        ensures
            r == size_total(self.narinfos@, false),
    {
        self.total(false)
    }
}

proof fn lemma_size_total_prefix(ns: Seq<NarInfo>, nar: bool, k: int)
    requires
        0 <= k <= ns.len(),
    ensures
        size_total(ns.take(k), nar) <= size_total(ns, nar),
    decreases ns.len(),
{
    if k < ns.len() {
        assert(ns.drop_last().take(k) =~= ns.take(k));
        lemma_size_total_prefix(ns.drop_last(), nar, k);
    } else {
        assert(ns.take(k) =~= ns);
    }
}

/// When nothing is queued or pending, the resolved paths are the closure of the root:
/// the root is among them (resolved first), none appears twice, every reference of every
/// resolved path is itself resolved, and every resolved path is reachable from the root.
pub proof fn lemma_resolved_closure(r: ClosureResolver)
    requires
        r.wf(),
        r.queue_view().len() == 0,
        r.pending_view().len() == 0,
    ensures
        r.order_view().contains(r.root_view()),
        r.order_view()[0] == r.root_view(),
        forall|k: int|
            0 <= k < r.order_view().len() ==> reaches(
                r.order_view(),
                r.narinfos_view(),
                r.root_view(),
                #[trigger] r.order_view()[k],
            ),
        r.order_view().no_duplicates(),
        r.narinfos_view().len() == r.order_view().len(),
        forall|i: int, j: int|
            0 <= i < r.narinfos_view().len() && 0 <= j < r.narinfos_view()[i].references@.len()
                ==> r.order_view().contains(
                #[trigger] reference_paths(r.narinfos_view()[i].references@)[j],
            ),
{
    assert forall|x: Seq<char>| !r.queue_view().contains(x) && !r.pending_view().contains(x) by {
    }
    assert forall|i: int, j: int|
        0 <= i < r.narinfos_view().len() && 0 <= j < r.narinfos_view()[i].references@.len()
            implies r.order_view().contains(
            #[trigger] reference_paths(r.narinfos_view()[i].references@)[j],
        ) by {
        let p = reference_paths(r.narinfos_view()[i].references@)[j];
        assert(r.visited_view().contains(p) || r.queue_view().contains(p));
    }
    assert forall|k: int| 0 <= k < r.order_view().len() implies reaches(
        r.order_view(),
        r.narinfos_view(),
        r.root_view(),
        #[trigger] r.order_view()[k],
    ) by {
        r.lemma_root_reaches(k);
    }
}

/// `w` follows references, reading each path's references off `ni` (the `.narinfo` a
/// fetch of that path gives).
pub open spec fn fetched_walk(ni: spec_fn(Seq<char>) -> NarInfo, w: Seq<Seq<char>>) -> bool {
    &&& w.len() >= 1
    &&& forall|k: int|
        0 <= k < w.len() - 1 ==> reference_paths(ni(#[trigger] w[k]).references@).contains(w[k + 1])
}

/// `x` is reachable from `root` along the references that `ni` gives.
pub open spec fn fetched_reaches(ni: spec_fn(Seq<char>) -> NarInfo, root: Seq<char>, x: Seq<char>) -> bool {
    exists|w: Seq<Seq<char>>| #[trigger] fetched_walk(ni, w) && w[0] == root && w.last() == x
}

/// When each resolved path's `.narinfo` is what fetching that path gives (`ni`), the
/// resolved paths are exactly the paths reachable from the root along references: the
/// closure of the root, no more and no less.
pub proof fn lemma_resolved_is_reachable_set(r: ClosureResolver, ni: spec_fn(Seq<char>) -> NarInfo)
    requires
        r.wf(),
        r.queue_view().len() == 0,
        r.pending_view().len() == 0,
        forall|i: int| 0 <= i < r.order_view().len() ==> r.narinfos_view()[i] == ni(#[trigger] r.order_view()[i]),
    ensures
        forall|x: Seq<char>| #[trigger] r.order_view().contains(x) <==> fetched_reaches(ni, r.root_view(), x),
{
    lemma_resolved_closure(r);
    let o = r.order_view();
    let ns = r.narinfos_view();
    assert forall|x: Seq<char>| #[trigger] o.contains(x) implies fetched_reaches(ni, r.root_view(), x) by {
        let k = choose|k: int| 0 <= k < o.len() && o[k] == x;
        assert(reaches(o, ns, r.root_view(), o[k]));
        let w = choose|w: Seq<Seq<char>>| #[trigger] is_walk(o, ns, w) && w[0] == r.root_view() && w.last() == x;
        assert forall|j: int| 0 <= j < w.len() - 1 implies reference_paths(ni(#[trigger] w[j]).references@).contains(
            w[j + 1],
        ) by {
            assert(refers(o, ns, w[j], w[j + 1]));
            let i = choose|i: int|
                0 <= i < o.len() && i < ns.len() && o[i] == w[j] && #[trigger] reference_paths(
                    ns[i].references@,
                ).contains(w[j + 1]);
            assert(ns[i] == ni(o[i]));
        }
        assert(fetched_walk(ni, w));
    }
    assert forall|x: Seq<char>| fetched_reaches(ni, r.root_view(), x) implies #[trigger] o.contains(x) by {
        let w = choose|w: Seq<Seq<char>>| #[trigger] fetched_walk(ni, w) && w[0] == r.root_view() && w.last() == x;
        lemma_fetched_walk_resolved(r, ni, w, w.len() - 1);
    }
}

proof fn lemma_fetched_walk_resolved(
    r: ClosureResolver,
    ni: spec_fn(Seq<char>) -> NarInfo,
    w: Seq<Seq<char>>,
    k: int,
)
    requires
        r.wf(),
        r.queue_view().len() == 0,
        r.pending_view().len() == 0,
        forall|i: int| 0 <= i < r.order_view().len() ==> r.narinfos_view()[i] == ni(#[trigger] r.order_view()[i]),
        fetched_walk(ni, w),
        w[0] == r.root_view(),
        0 <= k < w.len(),
    ensures
        r.order_view().contains(w[k]),
    decreases k,
{
    lemma_resolved_closure(r);
    if k > 0 {
        lemma_fetched_walk_resolved(r, ni, w, k - 1);
        let o = r.order_view();
        let ns = r.narinfos_view();
        let i = choose|i: int| 0 <= i < o.len() && o[i] == w[k - 1];
        assert(ns[i] == ni(o[i]));
        assert(reference_paths(ni(w[k - 1]).references@).contains(w[k]));
        let refs = reference_paths(ns[i].references@);
        let j = choose|j: int| 0 <= j < refs.len() && refs[j] == w[k];
        assert(o.contains(reference_paths(ns[i].references@)[j]));
    }
}

} // verus!
