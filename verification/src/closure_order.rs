use vstd::prelude::*;
use crate::narinfo::{reference_paths, NarInfo};
use crate::text::str_eq;

verus! {

// ---------------------------------------------------------------------------
// The reference graph of resolved paths
// ---------------------------------------------------------------------------

/// In the closure whose paths are `paths` (with the `.narinfo`s `ns`, in the same
/// order), `p` references `q`: a `.narinfo` of `p` lists `q`, and `q` is resolved.
pub open spec fn refers(paths: Seq<Seq<char>>, ns: Seq<NarInfo>, p: Seq<char>, q: Seq<char>) -> bool {
    &&& paths.contains(q)
    &&& exists|i: int|
        0 <= i < paths.len() && i < ns.len() && paths[i] == p && #[trigger] reference_paths(
            ns[i].references@,
        ).contains(q)
}

/// `w` is a walk along references.
pub open spec fn is_walk(paths: Seq<Seq<char>>, ns: Seq<NarInfo>, w: Seq<Seq<char>>) -> bool {
    &&& w.len() >= 1
    &&& forall|k: int| 0 <= k < w.len() - 1 ==> #[trigger] refers(paths, ns, w[k], w[k + 1])
}

/// `q` is reachable from `p` along references (every path reaches itself).
pub open spec fn reaches(paths: Seq<Seq<char>>, ns: Seq<NarInfo>, p: Seq<char>, q: Seq<char>) -> bool {
    exists|w: Seq<Seq<char>>| #[trigger] is_walk(paths, ns, w) && w[0] == p && w.last() == q
}

/// The texts of strings.
pub open spec fn texts_of(v: Seq<String>) -> Seq<Seq<char>> {
    Seq::new(v.len(), |i: int| v[i]@)
}

/// A path reaches itself.
pub proof fn lemma_reaches_self(paths: Seq<Seq<char>>, ns: Seq<NarInfo>, p: Seq<char>)
    ensures
        reaches(paths, ns, p, p),
{
    let w = seq![p];
    assert(is_walk(paths, ns, w));
}

proof fn lemma_walk_step(paths: Seq<Seq<char>>, ns: Seq<NarInfo>, w: Seq<Seq<char>>, k: int)
    requires
        is_walk(paths, ns, w),
        0 <= k < w.len() - 1,
    ensures
        refers(paths, ns, w[k], w[k + 1]),
{
}

/// A walk to `q`, then a reference of `q`, is a walk to that reference.
pub(crate) proof fn lemma_reaches_step(paths: Seq<Seq<char>>, ns: Seq<NarInfo>, p: Seq<char>, q: Seq<char>, z: Seq<char>)
    requires
        reaches(paths, ns, p, q),
        refers(paths, ns, q, z),
    ensures
        reaches(paths, ns, p, z),
{
    let w = choose|w: Seq<Seq<char>>| #[trigger] is_walk(paths, ns, w) && w[0] == p && w.last() == q;
    let w2 = w.push(z);
    assert forall|k: int| 0 <= k < w2.len() - 1 implies #[trigger] refers(paths, ns, w2[k], w2[k + 1]) by {
        if k < w.len() - 1 {
            lemma_walk_step(paths, ns, w, k);
            assert(w2[k] == w[k] && w2[k + 1] == w[k + 1]);
        } else {
            assert(w2[k] == q && w2[k + 1] == z);
        }
    }
    assert(is_walk(paths, ns, w2));
}

/// A reference, then a walk from it, is a walk.
proof fn lemma_reaches_prepend(paths: Seq<Seq<char>>, ns: Seq<NarInfo>, p: Seq<char>, q: Seq<char>, z: Seq<char>)
    requires
        refers(paths, ns, p, q),
        reaches(paths, ns, q, z),
    ensures
        reaches(paths, ns, p, z),
{
    let w = choose|w: Seq<Seq<char>>| #[trigger] is_walk(paths, ns, w) && w[0] == q && w.last() == z;
    let w2 = seq![p] + w;
    assert forall|k: int| 0 <= k < w2.len() - 1 implies #[trigger] refers(paths, ns, w2[k], w2[k + 1]) by {
        if k == 0 {
            assert(w2[0] == p && w2[1] == q);
        } else {
            lemma_walk_step(paths, ns, w, k - 1);
            assert(w2[k] == w[k - 1] && w2[k + 1] == w[k]);
        }
    }
    assert(is_walk(paths, ns, w2));
}

/// A set of paths that holds `p` and every reference of its members holds everything
/// `p` reaches.
proof fn lemma_closed_holds_reach(
    paths: Seq<Seq<char>>,
    ns: Seq<NarInfo>,
    t: Set<Seq<char>>,
    p: Seq<char>,
    q: Seq<char>,
)
    requires
        t.contains(p),
        forall|x: Seq<char>, y: Seq<char>| t.contains(x) && #[trigger] refers(paths, ns, x, y) ==> t.contains(y),
        reaches(paths, ns, p, q),
    ensures
        t.contains(q),
{
    let w = choose|w: Seq<Seq<char>>| #[trigger] is_walk(paths, ns, w) && w[0] == p && w.last() == q;
    lemma_walk_stays(paths, ns, t, w, w.len() - 1);
}

proof fn lemma_walk_stays(paths: Seq<Seq<char>>, ns: Seq<NarInfo>, t: Set<Seq<char>>, w: Seq<Seq<char>>, k: int)
    requires
        is_walk(paths, ns, w),
        0 <= k < w.len(),
        t.contains(w[0]),
        forall|x: Seq<char>, y: Seq<char>| t.contains(x) && #[trigger] refers(paths, ns, x, y) ==> t.contains(y),
    ensures
        t.contains(w[k]),
    decreases k,
{
    if k > 0 {
        lemma_walk_stays(paths, ns, t, w, k - 1);
        lemma_walk_step(paths, ns, w, k - 1);
    }
}

// ---------------------------------------------------------------------------
// Computing the graph
// ---------------------------------------------------------------------------

/// For each path, the indices of the resolved paths its `.narinfo` lists.
fn adjacency(paths: &Vec<String>, ns: &Vec<NarInfo>) -> (adj: Vec<Vec<usize>>)
    requires
        paths@.len() == ns@.len(),
    ensures
        adj@.len() == paths@.len(),
        forall|i: int, j: usize|
            0 <= i < adj@.len() ==> (#[trigger] adj@[i]@.contains(j) <==> j < paths@.len()
                && reference_paths(ns@[i].references@).contains(paths@[j as int]@)),
        forall|i: int, k: int| 0 <= i < adj@.len() && 0 <= k < adj@[i]@.len() ==> #[trigger] adj@[i]@[k]
            < paths@.len(),
{
    let n = paths.len();
    let mut adj: Vec<Vec<usize>> = Vec::new();
    let mut i: usize = 0;
    while i < n
        invariant
            n == paths@.len(),
            paths@.len() == ns@.len(),
            i <= n,
            adj@.len() == i,
            forall|a: int, j: usize|
                0 <= a < i ==> (#[trigger] adj@[a]@.contains(j) <==> j < paths@.len()
                    && reference_paths(ns@[a].references@).contains(paths@[j as int]@)),
            forall|a: int, k: int| 0 <= a < i && 0 <= k < adj@[a]@.len() ==> #[trigger] adj@[a]@[k] < n,
        decreases n - i,
    {
        let refs = &ns[i].references;
        let ghost rp = reference_paths(refs@);
        let mut row: Vec<usize> = Vec::new();
        let mut j: usize = 0;
        while j < n
            invariant
                n == paths@.len(),
                paths@.len() == ns@.len(),
                i < n,
                j <= n,
                refs == &ns@[i as int].references,
                rp == reference_paths(refs@),
                forall|b: usize| b < j ==> (#[trigger] row@.contains(b) <==> rp.contains(paths@[b as int]@)),
                forall|k: int| 0 <= k < row@.len() ==> #[trigger] row@[k] < j,
            decreases n - j,
        {
            let mut found = false;
            let mut k: usize = 0;
            while k < refs.len()
                invariant
                    k <= refs@.len(),
                    j < paths@.len(),
                    rp == reference_paths(refs@),
                    found <==> exists|m: int| 0 <= m < k && rp[m] == paths@[j as int]@,
                decreases refs@.len() - k,
            {
                let full = refs[k].to_store_path_string();
                if str_eq(full.as_str(), paths[j].as_str()) {
                    proof {
                        assert(rp[k as int] == paths@[j as int]@);
                    }
                    found = true;
                }
                k += 1;
            }
            proof {
                if found {
                    let m = choose|m: int| 0 <= m < k && rp[m] == paths@[j as int]@;
                    assert(rp.contains(paths@[j as int]@));
                }
                if rp.contains(paths@[j as int]@) {
                    let m = choose|m: int| 0 <= m < rp.len() && rp[m] == paths@[j as int]@;
                    assert(0 <= m < k);
                }
            }
            let ghost before = row@;
            if found {
                row.push(j);
            }
            proof {
                assert forall|b: usize| b < j + 1 implies (#[trigger] row@.contains(b)
                    <==> rp.contains(paths@[b as int]@)) by {
                    if b < j {
                        if row@.contains(b) {
                            let w = choose|w: int| 0 <= w < row@.len() && row@[w] == b;
                            if w < before.len() {
                                assert(before[w] == b);
                            } else {
                                assert(row@[w] == j);
                            }
                        }
                        if before.contains(b) {
                            let w = choose|w: int| 0 <= w < before.len() && before[w] == b;
                            assert(row@[w] == b);
                        }
                    } else {
                        if found {
                            assert(row@[before.len() as int] == j);
                        } else if row@.contains(b) {
                            let w = choose|w: int| 0 <= w < row@.len() && row@[w] == b;
                            assert(before[w] < j);
                        }
                    }
                }
            }
            j += 1;
        }
        adj.push(row);
        proof {
            assert forall|a: int, jj: usize|
                0 <= a < i + 1 implies (#[trigger] adj@[a]@.contains(jj) <==> jj < paths@.len()
                    && reference_paths(ns@[a].references@).contains(paths@[jj as int]@)) by {
                if a == i {
                    assert(adj@[a]@ == row@);
                    if row@.contains(jj) {
                        let w = choose|w: int| 0 <= w < row@.len() && row@[w] == jj;
                        assert(row@[w] < n);
                    }
                }
            }
        }
        i += 1;
    }
    adj
}


// ---------------------------------------------------------------------------
// Counting
// ---------------------------------------------------------------------------

/// A sequence without duplicates whose items all occur in another without duplicates is
/// no longer; strictly shorter when the other holds an item it lacks.
proof fn lemma_subset_len(a: Seq<usize>, b: Seq<usize>)
    requires
        a.no_duplicates(),
        b.no_duplicates(),
        forall|x: usize| a.contains(x) ==> b.contains(x),
    ensures
        a.len() <= b.len(),
        (exists|x: usize| b.contains(x) && !a.contains(x)) ==> a.len() < b.len(),
{
    a.unique_seq_to_set();
    b.unique_seq_to_set();
    let sa = a.to_set();
    let sb = b.to_set();
    assert(sa.subset_of(sb));
    vstd::set_lib::lemma_len_subset(sa, sb);
    if exists|x: usize| b.contains(x) && !a.contains(x) {
        let x = choose|x: usize| b.contains(x) && !a.contains(x);
        assert(sa.subset_of(sb.remove(x)));
        vstd::set_lib::lemma_len_subset(sa, sb.remove(x));
    }
}

/// A sequence without duplicates of as many items as the numbers below its length,
/// all of them among those numbers, holds each of them.
pub(crate) proof fn lemma_perm_covers(perm: Seq<usize>, r: Seq<usize>, j: usize)
    requires
        perm.no_duplicates(),
        r.no_duplicates(),
        perm.len() == r.len(),
        forall|z: usize| perm.contains(z) ==> r.contains(z),
        r.contains(j),
    ensures
        perm.contains(j),
{
    if !perm.contains(j) {
        lemma_subset_len(perm, r);
    }
}

/// A sequence without duplicates of numbers below `n` has at most `n` items.
proof fn lemma_bounded_len(a: Seq<usize>, n: usize)
    requires
        a.no_duplicates(),
        forall|k: int| 0 <= k < a.len() ==> a[k] < n,
    ensures
        a.len() <= n,
{
    let r = Seq::new(n as nat, |i: int| i as usize);
    assert forall|i: int, j: int| 0 <= i < r.len() && 0 <= j < r.len() && i != j implies r[i] != r[j] by {
    }
    assert forall|x: usize| a.contains(x) implies r.contains(x) by {
        let k = choose|k: int| 0 <= k < a.len() && a[k] == x;
        assert(r[x as int] == x);
    }
    lemma_subset_len(a, r);
}

// ---------------------------------------------------------------------------
// What each path reaches
// ---------------------------------------------------------------------------

/// Whether `v` holds `x`.
fn holds(v: &Vec<usize>, x: usize) -> (r: bool)
    ensures
        r == v@.contains(x),
{
    let mut i: usize = 0;
    while i < v.len()
        invariant
            i <= v@.len(),
            forall|k: int| 0 <= k < i ==> v@[k] != x,
        decreases v@.len() - i,
    {
        if v[i] == x {
            return true;
        }
        i += 1;
    }
    false
}

/// The indices of the paths that path `x` reaches.
fn reach_set(paths: &Vec<String>, ns: &Vec<NarInfo>, adj: &Vec<Vec<usize>>, x: usize) -> (s: Vec<usize>)
    requires
        paths@.len() == ns@.len(),
        adj@.len() == paths@.len(),
        x < paths@.len(),
        forall|i: int, j: usize|
            0 <= i < adj@.len() ==> (#[trigger] adj@[i]@.contains(j) <==> j < paths@.len()
                && reference_paths(ns@[i].references@).contains(paths@[j as int]@)),
        forall|i: int, k: int| 0 <= i < adj@.len() && 0 <= k < adj@[i]@.len() ==> #[trigger] adj@[i]@[k]
            < paths@.len(),
    ensures
        s@.no_duplicates(),
        s@.contains(x),
        forall|k: int| 0 <= k < s@.len() ==> #[trigger] s@[k] < paths@.len(),
        forall|k: int| 0 <= k < s@.len() ==> reaches(texts_of(paths@), ns@, paths@[x as int]@, paths@[#[trigger] s@[k] as int]@),
        forall|k: int, j: usize| 0 <= k < s@.len() && #[trigger] adj@[s@[k] as int]@.contains(j) ==> s@.contains(j),
{
    let n = paths.len();
    let ghost ps = texts_of(paths@);
    let mut s: Vec<usize> = Vec::new();
    s.push(x);
    proof {
        lemma_reaches_self(ps, ns@, paths@[x as int]@);
        assert(s@[0] == x);
    }
    let mut i: usize = 0;
    while i < s.len()
        invariant
            n == paths@.len(),
            ps == texts_of(paths@),
            paths@.len() == ns@.len(),
            adj@.len() == n,
            x < n,
            forall|a: int, j: usize|
                0 <= a < adj@.len() ==> (#[trigger] adj@[a]@.contains(j) <==> j < paths@.len()
                    && reference_paths(ns@[a].references@).contains(paths@[j as int]@)),
            forall|a: int, k: int| 0 <= a < adj@.len() && 0 <= k < adj@[a]@.len() ==> #[trigger] adj@[a]@[k] < n,
            i <= s@.len(),
            s@.no_duplicates(),
            s@.contains(x),
            forall|k: int| 0 <= k < s@.len() ==> #[trigger] s@[k] < n,
            forall|k: int| 0 <= k < s@.len() ==> reaches(ps, ns@, paths@[x as int]@, paths@[#[trigger] s@[k] as int]@),
            forall|k: int, j: usize| 0 <= k < i && #[trigger] adj@[s@[k] as int]@.contains(j) ==> s@.contains(j),
        decreases 2 * n - i - s@.len(),
    {
        proof {
            lemma_bounded_len(s@, n);
        }
        let y = s[i];
        let row = &adj[y];
        let ghost len0 = s@.len();
        let mut k: usize = 0;
        while k < row.len()
            invariant
                n == paths@.len(),
                ps == texts_of(paths@),
                paths@.len() == ns@.len(),
                adj@.len() == n,
                x < n,
                y < n,
                row == &adj@[y as int],
                i < s@.len(),
                s@[i as int] == y,
                k <= row@.len(),
                forall|a: int, j: usize|
                    0 <= a < adj@.len() ==> (#[trigger] adj@[a]@.contains(j) <==> j < paths@.len()
                        && reference_paths(ns@[a].references@).contains(paths@[j as int]@)),
                forall|a: int, kk: int| 0 <= a < adj@.len() && 0 <= kk < adj@[a]@.len() ==> #[trigger] adj@[a]@[kk] < n,
                s@.no_duplicates(),
                s@.contains(x),
                forall|m: int| 0 <= m < s@.len() ==> #[trigger] s@[m] < n,
                forall|m: int| 0 <= m < s@.len() ==> reaches(ps, ns@, paths@[x as int]@, paths@[#[trigger] s@[m] as int]@),
                forall|m: int, j: usize| 0 <= m < i && #[trigger] adj@[s@[m] as int]@.contains(j) ==> s@.contains(j),
                forall|m: int| 0 <= m < k ==> s@.contains(#[trigger] row@[m]),
                s@.len() <= n,
                s@.len() >= len0,
                i <= len0,
            decreases n - s@.len(), row@.len() - k,
        {
            let j = row[k];
            let ghost before = s@;
            if !holds(&s, j) {
                proof {
                    assert(j < n);
                    assert(adj@[y as int]@.contains(j));
                    assert(reference_paths(ns@[y as int].references@).contains(paths@[j as int]@));
                    assert(refers(ps, ns@, ps[y as int], ps[j as int])) by {
                        assert(ps.contains(ps[j as int]));
                    }
                    let m = choose|m: int| 0 <= m < before.len() && before[m] == y;
                    assert(reaches(ps, ns@, paths@[x as int]@, paths@[before[m] as int]@));
                    lemma_reaches_step(ps, ns@, ps[x as int], ps[y as int], ps[j as int]);
                }
                s.push(j);
                proof {
                    assert forall|a: int, b: int| 0 <= a < s@.len() && 0 <= b < s@.len() && a != b implies s@[a] != s@[b] by {
                        if a < before.len() && b < before.len() {
                        } else if a < before.len() {
                            assert(before.contains(s@[a]));
                        } else {
                            assert(before.contains(s@[b]));
                        }
                    }
                    assert forall|z: usize| before.contains(z) implies s@.contains(z) by {
                        let w = choose|w: int| 0 <= w < before.len() && before[w] == z;
                        assert(s@[w] == z);
                    }
                    assert(s@[before.len() as int] == j);
                    lemma_bounded_len(s@, n);
                }
            }
            k += 1;
        }
        proof {
            assert forall|m: int, j: usize| 0 <= m < i + 1 && #[trigger] adj@[s@[m] as int]@.contains(j) implies s@.contains(j) by {
                if m == i {
                    let w = choose|w: int| 0 <= w < row@.len() && row@[w] == j;
                    assert(s@.contains(row@[w]));
                }
            }
        }
        i += 1;
    }
    s
}


// ---------------------------------------------------------------------------
// Ordering
// ---------------------------------------------------------------------------

/// `s` is the set of indices that path `x` reaches, closed under the references `adj`.
spec fn is_reach_set(ps: Seq<Seq<char>>, ns: Seq<NarInfo>, adj: Seq<Vec<usize>>, x: int, s: Seq<usize>) -> bool {
    &&& s.no_duplicates()
    &&& s.contains(x as usize)
    &&& forall|k: int| 0 <= k < s.len() ==> #[trigger] s[k] < ps.len()
    &&& forall|k: int| 0 <= k < s.len() ==> reaches(ps, ns, ps[x], ps[#[trigger] s[k] as int])
    &&& forall|k: int, j: usize| 0 <= k < s.len() && #[trigger] adj[s[k] as int]@.contains(j) ==> s.contains(j)
}

spec fn adj_ok(ps: Seq<Seq<char>>, ns: Seq<NarInfo>, adj: Seq<Vec<usize>>) -> bool {
    &&& adj.len() == ps.len()
    &&& ns.len() == ps.len()
    &&& forall|i: int, j: usize|
        0 <= i < adj.len() ==> (#[trigger] adj[i]@.contains(j) <==> j < ps.len()
            && reference_paths(ns[i].references@).contains(ps[j as int]))
}

/// A reference between distinct paths is an edge of `adj`.
proof fn lemma_refers_edge(ps: Seq<Seq<char>>, ns: Seq<NarInfo>, adj: Seq<Vec<usize>>, p: usize, q: usize)
    requires
        adj_ok(ps, ns, adj),
        ps.no_duplicates(),
        p < ps.len(),
        q < ps.len(),
    ensures
        refers(ps, ns, ps[p as int], ps[q as int]) <==> adj[p as int]@.contains(q),
{
    if refers(ps, ns, ps[p as int], ps[q as int]) {
        let i = choose|i: int| 0 <= i < ps.len() && i < ns.len() && ps[i] == ps[p as int] && #[trigger] reference_paths(
            ns[i].references@,
        ).contains(ps[q as int]);
        assert(i == p);
        assert(adj[p as int]@.contains(q));
    }
    if adj[p as int]@.contains(q) {
        assert(reference_paths(ns[p as int].references@).contains(ps[q as int]));
        assert(ps.contains(ps[q as int]));
    }
}

/// Where `p` references `q` and `q` does not reach back, `p` reaches strictly more paths.
proof fn lemma_reach_sets_shrink(
    ps: Seq<Seq<char>>,
    ns: Seq<NarInfo>,
    adj: Seq<Vec<usize>>,
    p: usize,
    q: usize,
    sp: Seq<usize>,
    sq: Seq<usize>,
)
    requires
        adj_ok(ps, ns, adj),
        ps.no_duplicates(),
        ps.len() <= usize::MAX,
        p < ps.len(),
        q < ps.len(),
        is_reach_set(ps, ns, adj, p as int, sp),
        is_reach_set(ps, ns, adj, q as int, sq),
        refers(ps, ns, ps[p as int], ps[q as int]),
        !reaches(ps, ns, ps[q as int], ps[p as int]),
    ensures
        sq.len() < sp.len(),
{
    let t = Set::new(|z: Seq<char>| exists|k: int| 0 <= k < sp.len() && ps[sp[k] as int] == z);
    assert forall|x: Seq<char>, y: Seq<char>| t.contains(x) && #[trigger] refers(ps, ns, x, y) implies t.contains(y) by {
        let k = choose|k: int| 0 <= k < sp.len() && ps[sp[k] as int] == x;
        let jj = choose|jj: int| 0 <= jj < ps.len() && ps[jj] == y;
        let a = sp[k];
        let b = jj as usize;
        assert(ps[b as int] == y);
        lemma_refers_edge(ps, ns, adj, a, b);
        assert(adj[sp[k] as int]@.contains(b));
        assert(sp.contains(b));
        let w = choose|w: int| 0 <= w < sp.len() && sp[w] == b;
        assert(ps[sp[w] as int] == y);
    }
    let kp = choose|k: int| 0 <= k < sp.len() && sp[k] == p;
    assert(t.contains(ps[p as int])) by {
        assert(ps[sp[kp] as int] == ps[p as int]);
    }
    assert forall|y: usize| sq.contains(y) implies sp.contains(y) by {
        let k = choose|k: int| 0 <= k < sq.len() && sq[k] == y;
        assert(reaches(ps, ns, ps[q as int], ps[sq[k] as int]));
        lemma_reaches_prepend(ps, ns, ps[p as int], ps[q as int], ps[y as int]);
        lemma_closed_holds_reach(ps, ns, t, ps[p as int], ps[y as int]);
        let m = choose|m: int| 0 <= m < sp.len() && ps[sp[m] as int] == ps[y as int];
        assert(sp[m] == y);
    }
    assert(sp.contains(p));
    if sq.contains(p) {
        let k = choose|k: int| 0 <= k < sq.len() && sq[k] == p;
        assert(reaches(ps, ns, ps[q as int], ps[sq[k] as int]));
    }
    lemma_subset_len(sq, sp);
}

/// The order in which the resolved paths come out: a permutation of their indices with
/// `root` first, and every path before the paths it references, unless they reach it
/// back.
pub fn topological_order(paths: &Vec<String>, ns: &Vec<NarInfo>, root: usize) -> (perm: Vec<usize>)
    requires
        paths@.len() == ns@.len(),
        root < paths@.len(),
        texts_of(paths@).no_duplicates(),
        forall|k: int| 0 <= k < paths@.len() ==> reaches(texts_of(paths@), ns@, paths@[root as int]@, #[trigger] paths@[k]@),
    ensures
        perm@.len() == paths@.len(),
        perm@.no_duplicates(),
        forall|a: int| 0 <= a < perm@.len() ==> #[trigger] perm@[a] < paths@.len(),
        perm@[0] == root,
        forall|a: int, b: int|
            0 <= a < perm@.len() && 0 <= b < perm@.len() && perm@[a] != perm@[b] && refers(
                texts_of(paths@),
                ns@,
                paths@[perm@[a] as int]@,
                paths@[perm@[b] as int]@,
            ) && !reaches(texts_of(paths@), ns@, paths@[#[trigger] perm@[b] as int]@, paths@[#[trigger] perm@[a] as int]@)
                ==> a < b,
{
    let n = paths.len();
    let ghost ps = texts_of(paths@);
    let adj = adjacency(paths, ns);
    let ghost av = adj@;
    proof {
        assert forall|i: int, j: usize| 0 <= i < av.len() implies (#[trigger] av[i]@.contains(j) <==> j < ps.len()
            && reference_paths(ns@[i].references@).contains(ps[j as int])) by {
            if j < ps.len() {
                assert(ps[j as int] == paths@[j as int]@);
            }
        }
        assert(adj_ok(ps, ns@, av));
    }
    let mut keys: Vec<u128> = Vec::new();
    let ghost mut sets: Seq<Seq<usize>> = Seq::empty();
    let mut i: usize = 0;
    while i < n
        invariant
            n == paths@.len(),
            n == ns@.len(),
            ps == texts_of(paths@),
            av == adj@,
            adj_ok(ps, ns@, av),
            forall|a: int, kk: int| 0 <= a < adj@.len() && 0 <= kk < adj@[a]@.len() ==> #[trigger] adj@[a]@[kk] < n,
            ps.no_duplicates(),
            root < n,
            i <= n,
            keys@.len() == i,
            sets.len() == i,
            forall|a: int| 0 <= a < i ==> is_reach_set(ps, ns@, av, a, #[trigger] sets[a]),
            forall|a: int| 0 <= a < i ==> #[trigger] keys@[a] == if a == root { n + 1 } else { sets[a].len() as int },
            forall|a: int| 0 <= a < i ==> #[trigger] sets[a].len() <= n,
        decreases n - i,
    {
        let s = reach_set(paths, ns, &adj, i);
        proof {
            assert forall|k: int| 0 <= k < s@.len() implies reaches(ps, ns@, ps[i as int], ps[#[trigger] s@[k] as int]) by {
                assert(ps[i as int] == paths@[i as int]@);
                assert(ps[s@[k] as int] == paths@[s@[k] as int]@);
            }
            lemma_bounded_len(s@, n);
            sets = sets.push(s@);
        }
        let key: u128 = if i == root { n as u128 + 1 } else { s.len() as u128 };
        keys.push(key);
        i += 1;
    }
    // Emit the indices by key, highest first.
    let mut perm: Vec<usize> = Vec::new();
    let top: u128 = n as u128 + 1;
    let mut t: u128 = 0;
    while t <= top
        invariant
            n == paths@.len(),
            top == n + 1,
            keys@.len() == n,
            forall|a: int| 0 <= a < n ==> #[trigger] keys@[a] <= n + 1,
            t <= n + 2,
            perm@.no_duplicates(),
            forall|a: int| 0 <= a < perm@.len() ==> #[trigger] perm@[a] < n,
            forall|x: usize| x < n ==> (perm@.contains(x) <==> keys@[x as int] + t > n + 1),
            forall|a: int, b: int| 0 <= a < b < perm@.len() ==> keys@[perm@[a] as int] >= keys@[perm@[b] as int],
            forall|a: int| 0 <= a < perm@.len() ==> keys@[#[trigger] perm@[a] as int] + t > n + 1,
        decreases n + 2 - t,
    {
        let level: u128 = top - t;
        let mut x: usize = 0;
        while x < n
            invariant
                n == paths@.len(),
                keys@.len() == n,
                forall|a: int| 0 <= a < n ==> #[trigger] keys@[a] <= n + 1,
                top == n + 1,
                t <= n + 1,
                level == n + 1 - t,
                x <= n,
                perm@.no_duplicates(),
                forall|a: int| 0 <= a < perm@.len() ==> #[trigger] perm@[a] < n,
                forall|z: usize| z < n ==> (perm@.contains(z) <==> keys@[z as int] > level || (z < x && keys@[z as int] == level)),
                forall|a: int, b: int| 0 <= a < b < perm@.len() ==> keys@[perm@[a] as int] >= keys@[perm@[b] as int],
                forall|a: int| 0 <= a < perm@.len() ==> keys@[#[trigger] perm@[a] as int] >= level,
            decreases n - x,
        {
            if keys[x] == level {
                let ghost before = perm@;
                proof {
                    assert(!before.contains(x));
                }
                perm.push(x);
                proof {
                    assert forall|a: int, b: int| 0 <= a < perm@.len() && 0 <= b < perm@.len() && a != b implies perm@[a] != perm@[b] by {
                        if a < before.len() && b < before.len() {
                        } else if a < before.len() {
                            assert(before.contains(perm@[a]));
                        } else {
                            assert(before.contains(perm@[b]));
                        }
                    }
                    assert forall|z: usize| z < n implies (perm@.contains(z) <==> keys@[z as int] > level || (z < x + 1 && keys@[z as int] == level)) by {
                        if perm@.contains(z) {
                            let w = choose|w: int| 0 <= w < perm@.len() && perm@[w] == z;
                            if w < before.len() {
                                assert(before.contains(z));
                            }
                        }
                        if before.contains(z) {
                            let w = choose|w: int| 0 <= w < before.len() && before[w] == z;
                            assert(perm@[w] == z);
                        }
                        if z == x {
                            assert(perm@[before.len() as int] == z);
                        }
                    }
                }
            }
            x += 1;
        }
        t += 1;
    }
    proof {
        assert forall|z: usize| z < n implies perm@.contains(z) by {
        }
        let r = Seq::new(n as nat, |k: int| k as usize);
        assert forall|a: int, b: int| 0 <= a < r.len() && 0 <= b < r.len() && a != b implies r[a] != r[b] by {
        }
        assert forall|z: usize| perm@.contains(z) implies r.contains(z) by {
            let w = choose|w: int| 0 <= w < perm@.len() && perm@[w] == z;
            assert(r[z as int] == z);
        }
        assert forall|z: usize| r.contains(z) implies perm@.contains(z) by {
        }
        lemma_subset_len(perm@, r);
        lemma_subset_len(r, perm@);
        // The root has the highest key, and it alone.
        assert(perm@.contains(root));
        let wr = choose|w: int| 0 <= w < perm@.len() && perm@[w] == root;
        if wr > 0 {
            assert(keys@[perm@[0] as int] >= keys@[root as int]);
            assert(keys@[perm@[0] as int] == n + 1);
            assert(perm@[0] == root);
        }
        assert forall|a: int, b: int|
            0 <= a < perm@.len() && 0 <= b < perm@.len() && perm@[a] != perm@[b] && refers(
                ps,
                ns@,
                paths@[perm@[a] as int]@,
                paths@[perm@[b] as int]@,
            ) && !reaches(ps, ns@, paths@[#[trigger] perm@[b] as int]@, paths@[#[trigger] perm@[a] as int]@)
                implies a < b by {
            let p = perm@[a] as int;
            let q = perm@[b] as int;
            assert(ps[p] == paths@[p]@ && ps[q] == paths@[q]@);
            if q == root as int {
                assert(reaches(ps, ns@, paths@[root as int]@, paths@[p]@));
            } else if p == root as int {
                assert(keys@[p] == n + 1);
                assert(keys@[q] <= n);
            } else {
                lemma_reach_sets_shrink(ps, ns@, av, perm@[a], perm@[b], sets[p], sets[q]);
            }
            assert(keys@[p] > keys@[q]);
            if b <= a {
                assert(keys@[perm@[b] as int] >= keys@[perm@[a] as int]);
            }
        }
    }
    perm
}

} // verus!
