use vstd::prelude::*;
use crate::csi::path_join;
use crate::nar::{entries_tree, NarEntry, NarNode, NarTree};
use crate::text::push_str;

verus! {

/// One filesystem step of extracting a NAR tree.
#[derive(Debug)]
pub enum FsOp {
    /// Write `contents` to `path`, then give it `mode`.
    WriteFile { path: String, contents: Vec<u8>, mode: u32 },
    /// Create a symlink at `path` pointing to `target`.
    Symlink { target: String, path: String },
    /// Create the directory `path` (and its parents) if it does not exist.
    CreateDir { path: String },
}

/// A filesystem step, as mathematical values.
pub enum FsOpV {
    WriteFile(Seq<char>, Seq<u8>, u32),
    Symlink(Seq<char>, Seq<char>),
    CreateDir(Seq<char>),
}

impl FsOp {
    /// The step as a value.
    pub open spec fn view(self) -> FsOpV {
        match self {
            FsOp::WriteFile { path, contents, mode } => FsOpV::WriteFile(path@, contents@, mode),
            FsOp::Symlink { target, path } => FsOpV::Symlink(target@, path@),
            FsOp::CreateDir { path } => FsOpV::CreateDir(path@),
        }
    }
}

/// The views of a list of steps.
pub open spec fn ops_view(ops: Seq<FsOp>) -> Seq<FsOpV> {
    Seq::new(ops.len(), |i: int| ops[i].view())
}

/// The mode of an extracted file: read and execute for all when executable, read for
/// all otherwise (`0o555` / `0o444`).
pub open spec fn file_mode(executable: bool) -> u32 {
    if executable {
        365
    } else {
        292
    }
}

/// The steps that extract `t` at `path`: a file is written and given its mode, a
/// symlink is created, a directory is created and then its entries are extracted in
/// order, each at `path` joined with its name.
pub open spec fn extract_ops(t: NarTree, path: Seq<char>) -> Seq<FsOpV>
    decreases t, 1nat,
{
    match t {
        NarTree::Regular { executable, contents } => seq![
            FsOpV::WriteFile(path, contents, file_mode(executable)),
        ],
        NarTree::Symlink { target } => seq![FsOpV::Symlink(target, path)],
        NarTree::Directory { entries } => seq![FsOpV::CreateDir(path)] + entries_ops(
            entries,
            path,
        ),
    }
}

/// The steps that extract each entry of a directory at `dir`, in order.
pub open spec fn entries_ops(es: Seq<(Seq<char>, NarTree)>, dir: Seq<char>) -> Seq<FsOpV>
    decreases es, 0nat,
{
    if es.len() == 0 {
        Seq::empty()
    } else {
        entries_ops(es.drop_last(), dir) + extract_ops(es.last().1, path_join(dir, es.last().0))
    }
}

/// The node reached from `t` by going down, level by level, into the directory entry
/// at each position of `idxs`; `None` where there is no such entry.
pub open spec fn node_at(t: NarTree, idxs: Seq<int>) -> Option<NarTree>
    decreases idxs.len(),
{
    if idxs.len() == 0 {
        Some(t)
    } else {
        match t {
            NarTree::Directory { entries } => if 0 <= idxs[0] < entries.len() {
                node_at(entries[idxs[0]].1, idxs.skip(1))
            } else {
                None
            },
            _ => None,
        }
    }
}

/// The path of that node when `t` is extracted at `dir`: `dir` joined with the name of
/// each entry passed through.
pub open spec fn path_at(t: NarTree, idxs: Seq<int>, dir: Seq<char>) -> Seq<char>
    decreases idxs.len(),
{
    if idxs.len() == 0 {
        dir
    } else {
        match t {
            NarTree::Directory { entries } => if 0 <= idxs[0] < entries.len() {
                path_at(entries[idxs[0]].1, idxs.skip(1), path_join(dir, entries[idxs[0]].0))
            } else {
                dir
            },
            _ => dir,
        }
    }
}

proof fn lemma_entries_ops_holds(es: Seq<(Seq<char>, NarTree)>, dir: Seq<char>, j: int, op: FsOpV)
    requires
        0 <= j < es.len(),
        extract_ops(es[j].1, path_join(dir, es[j].0)).contains(op),
    ensures
        entries_ops(es, dir).contains(op),
    decreases es.len(),
{
    let last = extract_ops(es.last().1, path_join(dir, es.last().0));
    let front = entries_ops(es.drop_last(), dir);
    assert(entries_ops(es, dir) == front + last);
    if j == es.len() - 1 {
        let k = choose|k: int| 0 <= k < last.len() && last[k] == op;
        assert((front + last)[front.len() + k] == op);
    } else {
        assert(es.drop_last()[j] == es[j]);
        lemma_entries_ops_holds(es.drop_last(), dir, j, op);
        let k = choose|k: int| 0 <= k < front.len() && front[k] == op;
        assert((front + last)[k] == op);
    }
}

/// The step that makes the node `f` at `p`: a regular file is written with its contents
/// and mode `0o555` when executable, `0o444` when not; a symlink is created pointing at
/// its target; a directory is created.
pub open spec fn step_for(f: NarTree, p: Seq<char>) -> FsOpV {
    match f {
        NarTree::Regular { executable, contents } => FsOpV::WriteFile(
            p,
            contents,
            if executable {
                365u32
            } else {
                292u32
            },
        ),
        NarTree::Symlink { target } => FsOpV::Symlink(target, p),
        NarTree::Directory { .. } => FsOpV::CreateDir(p),
    }
}

/// Extraction makes every node of the tree, at any depth, at its path under the target:
/// every directory is created, every symlink points at its target, and every regular file
/// is written with its contents and with mode `0o555` when it is executable and `0o444`
/// when it is not.
pub proof fn lemma_plan_makes_every_node(t: NarTree, path: Seq<char>, idxs: Seq<int>)
    requires
        node_at(t, idxs) is Some,
    ensures
        extract_ops(t, path).contains(step_for(node_at(t, idxs).unwrap(), path_at(t, idxs, path))),
    decreases idxs.len(),
{
    if idxs.len() == 0 {
        assert(extract_ops(t, path)[0] == step_for(t, path));
    } else {
        if let NarTree::Directory { entries } = t {
            let j = idxs[0];
            let sub = entries[j].1;
            let sub_path = path_join(path, entries[j].0);
            lemma_plan_makes_every_node(sub, sub_path, idxs.skip(1));
            let op = step_for(node_at(t, idxs).unwrap(), path_at(t, idxs, path));
            assert(op == step_for(node_at(sub, idxs.skip(1)).unwrap(), path_at(sub, idxs.skip(1), sub_path)));
            lemma_entries_ops_holds(entries, path, j, op);
            let rest = entries_ops(entries, path);
            let k = choose|k: int| 0 <= k < rest.len() && rest[k] == op;
            assert((seq![FsOpV::CreateDir(path)] + rest)[k + 1] == op);
        }
    }
}

/// Extraction writes every regular file of the tree, at any depth, at its path under the
/// target, with its contents, and with mode `0o555` when it is executable and `0o444`
/// when it is not.
pub proof fn lemma_plan_writes_every_file(t: NarTree, path: Seq<char>, idxs: Seq<int>)
    requires
        node_at(t, idxs) matches Some(NarTree::Regular { .. }),
    ensures
        node_at(t, idxs) matches Some(NarTree::Regular { executable, contents }) && extract_ops(
            t,
            path,
        ).contains(
            FsOpV::WriteFile(
                path_at(t, idxs, path),
                contents,
                if executable {
                    365u32
                } else {
                    292u32
                },
            ),
        ),
{
    lemma_plan_makes_every_node(t, path, idxs);
}

/// Every file extraction writes is a regular file of the tree: at its path under the
/// target, with its contents, and with mode `0o555` exactly when it is executable
/// (`0o444` otherwise).
pub proof fn lemma_plan_writes_only_files(t: NarTree, path: Seq<char>, k: int)
    requires
        0 <= k < extract_ops(t, path).len(),
    ensures
        extract_ops(t, path)[k] matches FsOpV::WriteFile(p, c, m) ==> exists|idxs: Seq<int>|
            #[trigger] node_at(t, idxs) matches Some(NarTree::Regular { executable, contents })
                && contents == c && p == path_at(t, idxs, path) && m == (if executable {
                365u32
            } else {
                292u32
            }),
    decreases t, 1nat,
{
    match t {
        NarTree::Regular { executable, contents } => {
            let idxs = Seq::<int>::empty();
            assert(node_at(t, idxs) == Some(t));
            assert(path_at(t, idxs, path) == path);
            assert(extract_ops(t, path)[k] == FsOpV::WriteFile(path, contents, file_mode(executable)));
        },
        NarTree::Symlink { .. } => {},
        NarTree::Directory { entries } => {
            if k > 0 {
                let rest = entries_ops(entries, path);
                assert(extract_ops(t, path)[k] == rest[k - 1]);
                lemma_entries_ops_only_files(entries, path, k - 1);
                if let FsOpV::WriteFile(p, c, m) = rest[k - 1] {
                    let (j, sub) = choose|j: int, sub: Seq<int>|
                        #[trigger] node_at(entries[j].1, sub) matches Some(
                            NarTree::Regular { executable, contents },
                        ) && 0 <= j < entries.len() && contents == c && p == path_at(entries[j].1, sub, path_join(path, entries[j].0))
                            && m == (if executable {
                            365u32
                        } else {
                            292u32
                        });
                    let full = seq![j] + sub;
                    assert(full.skip(1) =~= sub);
                    assert(node_at(t, full) == node_at(entries[j].1, sub));
                    assert(path_at(t, full, path) == path_at(entries[j].1, sub, path_join(path, entries[j].0)));
                }
            }
        },
    }
}

proof fn lemma_entries_ops_only_files(es: Seq<(Seq<char>, NarTree)>, dir: Seq<char>, k: int)
    requires
        0 <= k < entries_ops(es, dir).len(),
    ensures
        entries_ops(es, dir)[k] matches FsOpV::WriteFile(p, c, m) ==> exists|j: int, sub: Seq<int>|
            #[trigger] node_at(es[j].1, sub) matches Some(
                NarTree::Regular { executable, contents },
            ) && 0 <= j < es.len() && contents == c && p == path_at(es[j].1, sub, path_join(dir, es[j].0)) && m == (
            if executable {
                365u32
            } else {
                292u32
            }),
    decreases es, 0nat,
{
    if es.len() > 0 {
        let front = entries_ops(es.drop_last(), dir);
        let last = extract_ops(es.last().1, path_join(dir, es.last().0));
        assert(entries_ops(es, dir) == front + last);
        if k < front.len() {
            lemma_entries_ops_only_files(es.drop_last(), dir, k);
            assert(entries_ops(es, dir)[k] == front[k]);
            if let FsOpV::WriteFile(p, c, m) = front[k] {
                let (j, sub) = choose|j: int, sub: Seq<int>|
                    #[trigger] node_at(es.drop_last()[j].1, sub) matches Some(
                        NarTree::Regular { executable, contents },
                    ) && 0 <= j < es.drop_last().len() && contents == c && p == path_at(
                        es.drop_last()[j].1,
                        sub,
                        path_join(dir, es.drop_last()[j].0),
                    ) && m == (if executable {
                        365u32
                    } else {
                        292u32
                    });
                assert(es.drop_last()[j] == es[j]);
                assert(node_at(es[j].1, sub) == node_at(es.drop_last()[j].1, sub));
            }
        } else {
            assert(entries_ops(es, dir)[k] == last[k - front.len()]);
            lemma_plan_writes_only_files(es.last().1, path_join(dir, es.last().0), k - front.len());
            if let FsOpV::WriteFile(p, c, m) = last[k - front.len()] {
                let sub = choose|sub: Seq<int>|
                    #[trigger] node_at(es.last().1, sub) matches Some(NarTree::Regular { executable, contents })
                        && contents == c && p == path_at(es.last().1, sub, path_join(dir, es.last().0))
                        && m == (if executable {
                        365u32
                    } else {
                        292u32
                    });
                let j = es.len() - 1;
                assert(es[j] == es.last());
                assert(node_at(es[j].1, sub) == node_at(es.last().1, sub));
            }
        }
    }
}

fn copy_bytes(v: &Vec<u8>) -> (r: Vec<u8>)
    ensures
        r@ == v@,
{
    let mut out: Vec<u8> = Vec::new();
    let mut i: usize = 0;
    while i < v.len()
        invariant
            i <= v@.len(),
            out@ == v@.take(i as int),
        decreases v@.len() - i,
    {
        out.push(v[i]);
        proof {
            assert(v@.take(i + 1) =~= v@.take(i as int).push(v@[i as int]));
        }
        i += 1;
    }
    proof {
        assert(v@.take(i as int) =~= v@);
    }
    out
}

fn copy_text(s: &str) -> (r: String)
    ensures
        r@ == s@,
{
    let mut r = String::new();
    push_str(&mut r, s);
    r
}

/// `dir` joined with `name`.
pub fn join_path(dir: &str, name: &str) -> (r: String)
    ensures
        r@ == path_join(dir@, name@),
{
    let n = crate::text::chars_of(name);
    if n.len() > 0 && n[0] == '/' {
        return copy_text(name);
    }
    let d = crate::text::chars_of(dir);
    let mut r = String::new();
    push_str(&mut r, dir);
    if d.len() > 0 && d[d.len() - 1] != '/' {
        r.push('/');
    }
    push_str(&mut r, name);
    proof {
        assert(r@ =~= path_join(dir@, name@));
    }
    r
}

/// Appends the steps that extract `node` at `path`.
pub fn plan_node(node: &NarNode, path: &str, out: &mut Vec<FsOp>)
    ensures
        ops_view(final(out)@) == ops_view(old(out)@) + extract_ops(node.tree(), path@),
    decreases node,
{
    let ghost start = ops_view(out@);
    match node {
        NarNode::Regular { executable, contents } => {
            let mode: u32 = if *executable {
                365
            } else {
                292
            };
            out.push(FsOp::WriteFile { path: copy_text(path), contents: copy_bytes(contents), mode });
            proof {
                assert(ops_view(out@) =~= start + extract_ops(node.tree(), path@));
            }
        },
        NarNode::Symlink { target } => {
            out.push(FsOp::Symlink { target: copy_text(target.as_str()), path: copy_text(path) });
            proof {
                assert(ops_view(out@) =~= start + extract_ops(node.tree(), path@));
            }
        },
        NarNode::Directory { entries } => {
            out.push(FsOp::CreateDir { path: copy_text(path) });
            proof {
                assert(ops_view(out@) =~= start + seq![FsOpV::CreateDir(path@)]);
            }
            let mut i: usize = 0;
            while i < entries.len()
                invariant
                    i <= entries@.len(),
                    *node == (NarNode::Directory { entries: *entries }),
                    ops_view(out@) == start + seq![FsOpV::CreateDir(path@)] + entries_ops(
                        entries_tree(entries@.take(i as int)),
                        path@,
                    ),
                decreases entries@.len() - i,
            {
                proof {
                    vstd::std_specs::vec::axiom_vec_index_decreases(*entries, i as int);
                    assert(decreases_to!(*node => (*node)->Directory_entries));
                }
                let e: &NarEntry = &entries[i];
                let child = join_path(path, e.name.as_str());
                let ghost before = ops_view(out@);
                plan_node(&e.node, child.as_str(), out);
                proof {
                    let es = entries@.take(i + 1);
                    assert(es.drop_last() =~= entries@.take(i as int));
                    assert(entries_tree(es).last() == (e.name@, e.node.tree()));
                    assert(entries_tree(es).drop_last() == entries_tree(entries@.take(i as int)));
                    assert(ops_view(out@) =~= start + seq![FsOpV::CreateDir(path@)] + entries_ops(
                        entries_tree(es),
                        path@,
                    ));
                }
                i += 1;
            }
            proof {
                assert(entries@.take(i as int) =~= entries@);
                assert(ops_view(out@) =~= start + extract_ops(node.tree(), path@));
            }
        },
    }
}

/// The steps that extract `node` at `path`, in the order they are taken.
pub fn extraction_plan(node: &NarNode, path: &str) -> (r: Vec<FsOp>)
    ensures
        ops_view(r@) == extract_ops(node.tree(), path@),
{
    let mut out: Vec<FsOp> = Vec::new();
    plan_node(node, path, &mut out);
    proof {
        assert(ops_view(Seq::<FsOp>::empty()) =~= Seq::<FsOpV>::empty());
        assert(Seq::<FsOpV>::empty() + extract_ops(node.tree(), path@) =~= extract_ops(
            node.tree(),
            path@,
        ));
    }
    out
}

} // verus!
