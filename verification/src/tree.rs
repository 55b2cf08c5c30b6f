//! The selection tree: a hierarchical, checkable view of an archive's
//! contents, built from entry paths, used to choose a subset for restore.

use vstd::prelude::*;
use vstd::string::*;
use crate::archive::{ArchiveEntry, EntryKind, entry_models};
use crate::text::{SepMode, split_spec, split_string, str_eq};

verus! {

/// A node of the selection tree, keyed by path segment.  Leaves stand for
/// files; inner nodes for directories.  The tree is strictly owned: a parent
/// owns its children, so there are no cycles.
pub struct FolderTreeNode {
    pub children: Vec<(String, FolderTreeNode)>,
    pub checked: bool,
    pub is_file: bool,
}

pub open spec fn has_child(n: FolderTreeNode, k: Seq<char>) -> bool {
    exists|i: int| 0 <= i < n.children@.len() && (#[trigger] n.children@[i]).0@ == k
}

pub open spec fn child_at(n: FolderTreeNode, k: Seq<char>) -> FolderTreeNode {
    n.children@[choose|i: int| 0 <= i < n.children@.len() && (#[trigger] n.children@[i]).0@ == k].1
}

/// The tree holds a node at path `q` (a sequence of segment names).
pub open spec fn defined_at(n: FolderTreeNode, q: Seq<Seq<char>>) -> bool
    decreases q.len(),
{
    if q.len() == 0 {
        true
    } else {
        has_child(n, q.first()) && defined_at(child_at(n, q.first()), q.drop_first())
    }
}

/// The node at path `q` (meaningful only where `defined_at` holds).
pub open spec fn subtree(n: FolderTreeNode, q: Seq<Seq<char>>) -> FolderTreeNode
    decreases q.len(),
{
    if q.len() == 0 {
        n
    } else {
        subtree(child_at(n, q.first()), q.drop_first())
    }
}

pub open spec fn keys_unique(n: FolderTreeNode) -> bool {
    forall|i: int, j: int|
        0 <= i < j < n.children@.len() ==> (#[trigger] n.children@[i]).0@ != (
        #[trigger] n.children@[j]).0@
}

/// Every reachable node has one child per segment name.
pub open spec fn tree_wf(n: FolderTreeNode) -> bool {
    forall|q: Seq<Seq<char>>| #[trigger] defined_at(n, q) ==> keys_unique(subtree(n, q))
}

/// Every reachable node is checked.
pub open spec fn all_checked(n: FolderTreeNode) -> bool {
    forall|q: Seq<Seq<char>>| #[trigger] defined_at(n, q) ==> subtree(n, q).checked
}

/// `q` is `s` or an ancestor of it, segment by segment.
pub open spec fn seg_prefix(q: Seq<Seq<char>>, s: Seq<Seq<char>>) -> bool {
    q.len() <= s.len() && q == s.take(q.len() as int)
}

/// Locate the child holding a segment name.
fn find_child(node: &FolderTreeNode, key: &str) -> (r: Option<usize>)
    ensures
        match r {
            Some(i) => i < node.children@.len() && node.children@[i as int].0@ == key@,
            None => !has_child(*node, key@),
        },
{
    let mut i: usize = 0;
    while i < node.children.len()
        invariant
            i <= node.children@.len(),
            forall|k: int| 0 <= k < i ==> (#[trigger] node.children@[k]).0@ != key@,
        decreases node.children@.len() - i,
    {
        if str_eq(node.children[i].0.as_str(), key) {
            return Some(i);
        }
        i = i + 1;
    }
    None
}

/// Insert the path `segs[from..]` under `node`: walk existing children where
/// the segment name is already present, create fresh checked nodes where it
/// is not, and mark the final node's `is_file` flag with `file_leaf`.
fn insert_path(node: &mut FolderTreeNode, segs: &Vec<String>, from: usize, file_leaf: bool)
    requires
        from <= segs@.len(),
        tree_wf(*old(node)),
    ensures
        tree_wf(*final (node)),
        final (node).checked == old(node).checked,
        final (node).is_file == (if from == segs@.len() {
            file_leaf
        } else {
            old(node).is_file
        }),
        forall|q: Seq<Seq<char>>|
            #[trigger] defined_at(*final (node), q) <==> (defined_at(*old(node), q) || seg_prefix(
                q,
                segs.deep_view().skip(from as int),
            )),
        forall|q: Seq<Seq<char>>|
            #[trigger] defined_at(*final (node), q) ==> subtree(*final (node), q).checked == (
            if defined_at(*old(node), q) {
                subtree(*old(node), q).checked
            } else {
                true
            }),
        forall|q: Seq<Seq<char>>|
            q.len() > 0 && #[trigger] defined_at(*final (node), q) ==> subtree(
                *final (node),
                q,
            ).is_file == (if q == segs.deep_view().skip(from as int) {
                file_leaf
            } else if defined_at(*old(node), q) {
                subtree(*old(node), q).is_file
            } else {
                false
            }),
    decreases segs@.len() - from,
{
    let ghost pre = *node;
    let ghost sfx = segs.deep_view().skip(from as int);
    proof {
        assert(defined_at(pre, Seq::<Seq<char>>::empty()));
        assert(subtree(pre, Seq::<Seq<char>>::empty()) == pre);
        assert(keys_unique(pre));
    }
    if from == segs.len() {
        node.is_file = file_leaf;
        proof {
            let post = *node;
            assert(sfx.len() == 0);
            assert forall|q: Seq<Seq<char>>| true implies (#[trigger] defined_at(post, q)
                == defined_at(pre, q) && (defined_at(pre, q) && q.len() > 0 ==> subtree(post, q)
                == subtree(pre, q))) by {
                if q.len() > 0 {
                    assert(has_child(post, q.first()) == has_child(pre, q.first()));
                    if has_child(pre, q.first()) {
                        assert(child_at(post, q.first()) == child_at(pre, q.first()));
                    }
                }
            }
            assert forall|q: Seq<Seq<char>>| seg_prefix(q, sfx) implies defined_at(pre, q) by {
                assert(q.len() == 0);
            }
            assert(tree_wf(post)) by {
                assert forall|q: Seq<Seq<char>>| #[trigger] defined_at(post, q) implies
                    keys_unique(subtree(post, q)) by {
                    if q.len() == 0 {
                        assert(subtree(post, q) == post);
                        assert(keys_unique(pre));
                    } else {
                        assert(subtree(post, q) == subtree(pre, q));
                    }
                }
            }
        }
        return ;
    }
    let key: String = segs[from].clone();
    let ghost sfx1 = segs.deep_view().skip(from + 1 as int);
    proof {
        assert(sfx.len() > 0);
        assert(sfx.first() == segs.deep_view()[from as int]);
        assert(sfx.drop_first() =~= sfx1);
        assert(key@ == sfx.first());
    }
    let found = find_child(node, key.as_str());
    let (j, kstr, mut child): (usize, String, FolderTreeNode) = match found {
        Some(j) => {
            let pair = node.children.remove(j);
            (j, pair.0, pair.1)
        },
        None => {
            let fresh = FolderTreeNode { children: Vec::new(), checked: true, is_file: false };
            (node.children.len(), key.clone(), fresh)
        },
    };
    let ghost had = has_child(pre, key@);
    let ghost old_child: FolderTreeNode = child;
    proof {
        assert(kstr@ == key@);
        if found is Some {
            assert(had);
            assert(child_at(pre, key@) == old_child) by {
                let i = choose|i: int|
                    0 <= i < pre.children@.len() && (#[trigger] pre.children@[i]).0@ == key@;
                assert(pre.children@[i].0@ == key@);
                assert(pre.children@[j as int].0@ == key@);
                assert(i == j);
            }
            assert(tree_wf(old_child)) by {
                assert(seq![key@].first() == key@);
                assert(seq![key@].drop_first() =~= Seq::<Seq<char>>::empty());
                assert(has_child(pre, key@)) by {
                    assert(pre.children@[j as int].0@ == key@);
                }
                assert(defined_at(child_at(pre, key@), Seq::<Seq<char>>::empty()));
                assert(defined_at(pre, seq![key@]));
                assert forall|q: Seq<Seq<char>>| #[trigger] defined_at(old_child, q) implies
                    keys_unique(subtree(old_child, q)) by {
                    let q2 = seq![key@] + q;
                    assert(q2.first() == key@);
                    assert(q2.drop_first() =~= q);
                    assert(defined_at(pre, q2));
                    assert(subtree(pre, q2) == subtree(old_child, q));
                }
            }
            assert forall|q1: Seq<Seq<char>>| true implies (#[trigger] defined_at(
                pre,
                seq![key@] + q1,
            ) == defined_at(old_child, q1) && (defined_at(old_child, q1) ==> subtree(
                pre,
                seq![key@] + q1,
            ) == subtree(old_child, q1))) by {
                let q2 = seq![key@] + q1;
                assert(q2.first() == key@);
                assert(q2.drop_first() =~= q1);
            }
        } else {
            assert(!had);
            assert(old_child.children@.len() == 0);
            assert(old_child.checked);
            assert(!old_child.is_file);
            assert forall|q1: Seq<Seq<char>>| true implies (#[trigger] defined_at(old_child, q1)
                == (q1.len() == 0)) by {
                if q1.len() > 0 {
                    assert(!has_child(old_child, q1.first()));
                }
            }
            assert(tree_wf(old_child)) by {
                assert forall|q: Seq<Seq<char>>| #[trigger] defined_at(old_child, q) implies
                    keys_unique(subtree(old_child, q)) by {
                    assert(q.len() == 0);
                    assert(subtree(old_child, q) == old_child);
                }
            }
        }
    }
    insert_path(&mut child, segs, from + 1, file_leaf);
    let ghost new_child = child;
    node.children.insert(j, (kstr, child));
    proof {
        let post = *node;
        // The children lists agree everywhere but at the key's slot.
        if found is Some {
            assert(post.children@ =~= pre.children@.update(j as int, (
                post.children@[j as int].0,
                new_child,
            )));
            assert(post.children@[j as int].0@ == key@);
            assert(post.children@.len() == pre.children@.len());
            assert(forall|i: int|
                0 <= i < post.children@.len() && i != j ==> post.children@[i] == pre.children@[i]);
            assert(forall|i: int|
                0 <= i < post.children@.len() ==> (#[trigger] post.children@[i]).0@
                    == pre.children@[i].0@);
        } else {
            assert(post.children@ =~= pre.children@.push((post.children@[j as int].0, new_child)));
            assert(post.children@[j as int].0@ == key@);
            assert(post.children@.len() == pre.children@.len() + 1);
            assert(forall|i: int|
                0 <= i < pre.children@.len() ==> post.children@[i] == pre.children@[i]);
        }
        assert(keys_unique(post)) by {
            if found is Some {
            } else {
                assert forall|a: int, b: int|
                    0 <= a < b < post.children@.len() implies (#[trigger] post.children@[a]).0@
                    != (#[trigger] post.children@[b]).0@ by {
                    if b == j {
                        assert(post.children@[a] == pre.children@[a]);
                        assert(!has_child(pre, key@));
                        assert(pre.children@[a].0@ != key@);
                    }
                }
            }
        }
        assert(has_child(post, key@)) by {
            assert(post.children@[j as int].0@ == key@);
        }
        assert(child_at(post, key@) == new_child) by {
            let i = choose|i: int|
                0 <= i < post.children@.len() && (#[trigger] post.children@[i]).0@ == key@;
            assert(i == j);
        }
        // Branches under other keys are untouched.
        assert forall|k2: Seq<char>| k2 != key@ implies has_child(post, k2) == has_child(pre, k2)
            && (has_child(pre, k2) ==> child_at(post, k2) == child_at(pre, k2)) by {
            if has_child(pre, k2) {
                let i = choose|i: int|
                    0 <= i < pre.children@.len() && (#[trigger] pre.children@[i]).0@ == k2;
                assert(post.children@[i].0@ == k2);
                assert(has_child(post, k2));
                let i2 = choose|i2: int|
                    0 <= i2 < post.children@.len() && (#[trigger] post.children@[i2]).0@ == k2;
                assert(i2 != j);
                assert(pre.children@[i2].0@ == k2);
                assert(i2 == i);
                assert(child_at(post, k2) == pre.children@[i].1);
                assert(child_at(pre, k2) == pre.children@[i].1);
            } else {
                if has_child(post, k2) {
                    let i2 = choose|i2: int|
                        0 <= i2 < post.children@.len() && (#[trigger] post.children@[i2]).0@ == k2;
                    assert(i2 != j);
                    assert(pre.children@[i2].0@ == k2);
                    assert(has_child(pre, k2));
                }
            }
        }
        // Old tree under the key.
        if had {
            assert(child_at(pre, key@) == old_child);
        }
        // Relate paths through the key to the recursed child, others to the
        // old tree.
        assert forall|q: Seq<Seq<char>>| q.len() > 0 implies (
            if q.first() == key@ {
                defined_at(post, q) == defined_at(new_child, q.drop_first()) && (defined_at(
                    post,
                    q,
                ) ==> subtree(post, q) == subtree(new_child, q.drop_first())) && defined_at(pre, q)
                    == (had && defined_at(old_child, q.drop_first())) && (had && defined_at(
                    old_child,
                    q.drop_first(),
                ) ==> subtree(pre, q) == subtree(old_child, q.drop_first()))
            } else {
                defined_at(post, q) == defined_at(pre, q) && (defined_at(pre, q) ==> subtree(
                    post,
                    q,
                ) == subtree(pre, q))
            }) by {}
        // seg_prefix through one segment.
        assert forall|q: Seq<Seq<char>>| q.len() > 0 && q.first() == key@ implies seg_prefix(
            q,
            sfx,
        ) == seg_prefix(q.drop_first(), sfx1) by {
            if seg_prefix(q.drop_first(), sfx1) {
                assert(q =~= sfx.take(q.len() as int)) by {
                    assert forall|m: int| 0 <= m < q.len() implies q[m] == sfx.take(
                        q.len() as int,
                    )[m] by {
                        if m > 0 {
                            assert(q[m] == q.drop_first()[m - 1]);
                            assert(q.drop_first()[m - 1] == sfx1.take(
                                q.drop_first().len() as int,
                            )[m - 1]);
                        }
                    }
                }
            }
            if seg_prefix(q, sfx) {
                assert(q.drop_first() =~= sfx1.take(q.drop_first().len() as int)) by {
                    assert forall|m: int| 0 <= m < q.len() - 1 implies q.drop_first()[m]
                        == sfx1.take(q.len() - 1)[m] by {
                        assert(q.drop_first()[m] == q[m + 1]);
                        assert(q[m + 1] == sfx.take(q.len() as int)[m + 1]);
                        assert(sfx[m + 1] == sfx1[m]);
                    }
                }
            }
        }
        assert forall|q: Seq<Seq<char>>| q.len() > 0 && q.first() != key@ implies !seg_prefix(
            q,
            sfx,
        ) by {
            if seg_prefix(q, sfx) {
                assert(q[0] == sfx.take(q.len() as int)[0]);
            }
        }
        // The three quantified postconditions.
        assert forall|q: Seq<Seq<char>>| true implies (#[trigger] defined_at(post, q) <==> (
        defined_at(pre, q) || seg_prefix(q, sfx))) by {
            if q.len() == 0 {
                assert(q =~= sfx.take(0));
                assert(seg_prefix(q, sfx));
            } else if q.first() == key@ {
                let q1 = q.drop_first();
                assert(defined_at(post, q) == defined_at(new_child, q1));
                assert(defined_at(new_child, q1) <==> (defined_at(old_child, q1) || seg_prefix(
                    q1,
                    sfx1,
                )));
                if q1.len() == 0 {
                    assert(q1 =~= sfx1.take(0));
                    assert(seg_prefix(q1, sfx1));
                }
                if had {
                    assert(defined_at(pre, q) == defined_at(old_child, q1));
                } else {
                    assert(!defined_at(pre, q));
                    assert(defined_at(old_child, q1) == (q1.len() == 0));
                }
            } else {
                assert(defined_at(post, q) == defined_at(pre, q));
                assert(!seg_prefix(q, sfx));
            }
        }
        assert(defined_at(post, sfx)) by {
            assert(seg_prefix(sfx, sfx)) by {
                assert(sfx =~= sfx.take(sfx.len() as int));
            }
        }
        assert forall|q: Seq<Seq<char>>| #[trigger] defined_at(post, q) implies subtree(
            post,
            q,
        ).checked == (if defined_at(pre, q) {
            subtree(pre, q).checked
        } else {
            true
        }) by {
            if q.len() > 0 && q.first() == key@ {
                if !had {
                    assert(!defined_at(pre, q));
                }
            }
        }
        assert forall|q: Seq<Seq<char>>| q.len() > 0 && #[trigger] defined_at(post, q) implies
            subtree(post, q).is_file == (if q == sfx {
            file_leaf
        } else if defined_at(pre, q) {
            subtree(pre, q).is_file
        } else {
            false
        }) by {
            if q.first() == key@ {
                let q1 = q.drop_first();
                assert(q == sfx <==> q1 == sfx1) by {
                    if q1 == sfx1 && q.first() == sfx.first() {
                        assert(q.len() == sfx.len());
                        assert forall|m: int| 0 <= m < q.len() implies q[m] == sfx[m] by {
                            if m > 0 {
                                assert(q[m] == q1[m - 1]);
                                assert(sfx[m] == sfx1[m - 1]);
                            }
                        }
                        assert(q =~= sfx);
                    }
                    if q == sfx {
                        assert(q.drop_first() =~= sfx1);
                    }
                }
                assert(defined_at(post, q) == defined_at(new_child, q1));
                assert(subtree(post, q) == subtree(new_child, q1));
                if q1.len() == 0 {
                    assert(subtree(new_child, q1) == new_child);
                    assert(q1 == sfx1 <==> sfx1.len() == 0) by {
                        if sfx1.len() == 0 {
                            assert(q1 =~= sfx1);
                        }
                    }
                    assert(sfx1.len() == 0 <==> from + 1 == segs@.len());
                    if had {
                        assert(defined_at(old_child, q1));
                        assert(defined_at(pre, q));
                        assert(subtree(pre, q) == subtree(old_child, q1));
                        assert(subtree(old_child, q1) == old_child);
                    } else {
                        assert(!defined_at(pre, q));
                        assert(!old_child.is_file);
                    }
                } else {
                    assert(defined_at(new_child, q1));
                    if had {
                        if defined_at(old_child, q1) {
                            assert(defined_at(pre, q));
                            assert(subtree(pre, q) == subtree(old_child, q1));
                        } else {
                            assert(!defined_at(pre, q));
                        }
                    } else {
                        assert(defined_at(old_child, q1) == (q1.len() == 0));
                        assert(!defined_at(pre, q));
                    }
                }
            } else {
                assert(q != sfx);
                assert(defined_at(post, q) == defined_at(pre, q));
                assert(subtree(post, q) == subtree(pre, q));
            }
        }
        assert(tree_wf(post)) by {
            assert forall|q: Seq<Seq<char>>| #[trigger] defined_at(post, q) implies keys_unique(
                subtree(post, q),
            ) by {
                if q.len() == 0 {
                    assert(subtree(post, q) == post);
                } else if q.first() == key@ {
                    assert(subtree(post, q) == subtree(new_child, q.drop_first()));
                    assert(defined_at(new_child, q.drop_first()));
                } else {
                    assert(subtree(post, q) == subtree(pre, q));
                    assert(defined_at(pre, q));
                }
            }
        }
    }
}


/// The tree paths of one entry path: its `/`-separated segments.
pub open spec fn path_segs(p: Seq<char>) -> Seq<Seq<char>> {
    split_spec(p, SepMode::Slash)
}

/// Build a selection tree from plain paths: one node per path segment,
/// intermediate nodes created as needed, the final node of each path marked
/// as a file.  Every node starts checked.
pub fn build_tree_from_paths(paths: &[String]) -> (root: FolderTreeNode)
    ensures
        tree_wf(root),
        all_checked(root),
        root.checked,
        !root.is_file,
        forall|q: Seq<Seq<char>>|
            #[trigger] defined_at(root, q) <==> (q.len() == 0 || exists|i: int|
                0 <= i < paths@.len() && seg_prefix(q, path_segs(#[trigger] paths@[i]@))),
        forall|q: Seq<Seq<char>>|
            q.len() > 0 && #[trigger] defined_at(root, q) ==> (subtree(root, q).is_file
                <==> exists|i: int| 0 <= i < paths@.len() && q == path_segs(#[trigger] paths@[i]@)),
{
    let mut root = FolderTreeNode { children: Vec::new(), checked: true, is_file: false };
    proof {
        assert forall|q: Seq<Seq<char>>| #[trigger] defined_at(root, q) implies q.len() == 0 by {
            if q.len() > 0 {
                assert(!has_child(root, q.first()));
            }
        }
        assert(subtree(root, Seq::<Seq<char>>::empty()) == root);
    }
    let mut k: usize = 0;
    while k < paths.len()
        invariant
            k <= paths@.len(),
            tree_wf(root),
            root.checked,
            !root.is_file,
            forall|q: Seq<Seq<char>>|
                #[trigger] defined_at(root, q) <==> (q.len() == 0 || exists|i: int|
                    0 <= i < k && seg_prefix(q, path_segs(#[trigger] paths@[i]@))),
            forall|q: Seq<Seq<char>>|
                #[trigger] defined_at(root, q) ==> subtree(root, q).checked,
            forall|q: Seq<Seq<char>>|
                q.len() > 0 && #[trigger] defined_at(root, q) ==> (subtree(root, q).is_file
                    <==> exists|i: int| 0 <= i < k && q == path_segs(#[trigger] paths@[i]@)),
        decreases paths@.len() - k,
    {
        let segs = split_string(paths[k].as_str(), SepMode::Slash);
        let ghost pre = root;
        let ghost sv = segs.deep_view();
        proof {
            assert(sv == path_segs(paths@[k as int]@));
            assert(sv.skip(0) =~= sv);
        }
        insert_path(&mut root, &segs, 0, true);
        proof {
            assert forall|q: Seq<Seq<char>>| #[trigger] defined_at(root, q) implies (q.len() == 0
                || exists|i: int|
                0 <= i < k + 1 && seg_prefix(q, path_segs(#[trigger] paths@[i]@))) by {
                if q.len() > 0 {
                    if defined_at(pre, q) {
                        let i = choose|i: int|
                            0 <= i < k && seg_prefix(q, path_segs(#[trigger] paths@[i]@));
                        assert(seg_prefix(q, path_segs(paths@[i]@)));
                    } else {
                        assert(seg_prefix(q, sv));
                        assert(seg_prefix(q, path_segs(paths@[k as int]@)));
                    }
                }
            }
            assert forall|q: Seq<Seq<char>>| (q.len() == 0 || exists|i: int|
                0 <= i < k + 1 && seg_prefix(q, path_segs(#[trigger] paths@[i]@))) implies
                defined_at(root, q) by {
                if q.len() == 0 {
                    assert(defined_at(root, q));
                } else {
                    let i = choose|i: int|
                        0 <= i < k + 1 && seg_prefix(q, path_segs(#[trigger] paths@[i]@));
                    if i < k {
                        assert(defined_at(pre, q));
                    } else {
                        assert(seg_prefix(q, sv));
                    }
                }
            }
            assert forall|q: Seq<Seq<char>>|
                q.len() > 0 && #[trigger] defined_at(root, q) implies (subtree(root, q).is_file
                    <==> exists|i: int|
                0 <= i < k + 1 && q == path_segs(#[trigger] paths@[i]@)) by {
                if q == sv {
                    assert(q == path_segs(paths@[k as int]@));
                } else {
                    if defined_at(pre, q) {
                        if subtree(pre, q).is_file {
                            let i = choose|i: int|
                                0 <= i < k && q == path_segs(#[trigger] paths@[i]@);
                            assert(q == path_segs(paths@[i]@));
                        }
                        if exists|i: int|
                            0 <= i < k + 1 && q == path_segs(#[trigger] paths@[i]@) {
                            let i = choose|i: int|
                                0 <= i < k + 1 && q == path_segs(#[trigger] paths@[i]@);
                            assert(i < k);
                        }
                    } else {
                        assert(!subtree(root, q).is_file);
                        if exists|i: int|
                            0 <= i < k + 1 && q == path_segs(#[trigger] paths@[i]@) {
                            let i = choose|i: int|
                                0 <= i < k + 1 && q == path_segs(#[trigger] paths@[i]@);
                            assert(i < k);
                            assert(q =~= path_segs(paths@[i]@).take(q.len() as int));
                            assert(seg_prefix(q, path_segs(paths@[i]@)));
                            assert(defined_at(pre, q));
                        }
                    }
                }
            }
        }
        k = k + 1;
    }
    root
}

/// Whether the tree built from `entries` holds a node at path `q`: the root
/// is always there; any other path must be an entry path or an ancestor of
/// one.
pub open spec fn tree_defined_of(entries: Seq<ArchiveEntry>, q: Seq<Seq<char>>) -> bool
    decreases entries.len(),
{
    if entries.len() == 0 {
        q.len() == 0
    } else {
        seg_prefix(q, path_segs(entries.last()@.path)) || tree_defined_of(entries.drop_last(), q)
    }
}

/// Whether the node at path `q` is marked as a file: the kind of the last
/// entry whose path is exactly `q` decides; a path no entry names exactly is
/// a directory.
pub open spec fn tree_is_file_of(entries: Seq<ArchiveEntry>, q: Seq<Seq<char>>) -> bool
    decreases entries.len(),
{
    if entries.len() == 0 {
        false
    } else if path_segs(entries.last()@.path) == q {
        entries.last()@.kind is File
    } else {
        tree_is_file_of(entries.drop_last(), q)
    }
}

/// A path marked as a file is an entry path, so it stands in the tree.
proof fn lemma_is_file_defined(entries: Seq<ArchiveEntry>, q: Seq<Seq<char>>)
    requires
        tree_is_file_of(entries, q),
    ensures
        tree_defined_of(entries, q),
    decreases entries.len(),
{
    if entries.len() > 0 {
        let lastp = path_segs(entries.last()@.path);
        if lastp == q {
            assert(q =~= lastp.take(q.len() as int));
            assert(seg_prefix(q, lastp));
        } else {
            lemma_is_file_defined(entries.drop_last(), q);
        }
    }
}

/// One step of the entry-tree fold: inserting entry `k` into a tree that
/// reflects the first `k` entries yields a tree reflecting the first `k + 1`.
proof fn lemma_build_step(
    pre: FolderTreeNode,
    post: FolderTreeNode,
    entries: Seq<ArchiveEntry>,
    k: int,
    sv: Seq<Seq<char>>,
    file_leaf: bool,
)
    requires
        0 <= k < entries.len(),
        sv == path_segs(entries[k]@.path),
        file_leaf == (entries[k]@.kind is File),
        forall|q: Seq<Seq<char>>|
            #[trigger] defined_at(post, q) <==> (defined_at(pre, q) || seg_prefix(q, sv)),
        forall|q: Seq<Seq<char>>|
            #[trigger] defined_at(post, q) ==> subtree(post, q).checked == (if defined_at(pre, q) {
                subtree(pre, q).checked
            } else {
                true
            }),
        forall|q: Seq<Seq<char>>|
            q.len() > 0 && #[trigger] defined_at(post, q) ==> subtree(post, q).is_file == (if q
                == sv {
                file_leaf
            } else if defined_at(pre, q) {
                subtree(pre, q).is_file
            } else {
                false
            }),
        forall|q: Seq<Seq<char>>|
            #[trigger] defined_at(pre, q) <==> tree_defined_of(entries.take(k), q),
        forall|q: Seq<Seq<char>>| #[trigger] defined_at(pre, q) ==> subtree(pre, q).checked,
        forall|q: Seq<Seq<char>>|
            q.len() > 0 && #[trigger] defined_at(pre, q) ==> subtree(pre, q).is_file
                == tree_is_file_of(entries.take(k), q),
    ensures
        forall|q: Seq<Seq<char>>|
            #[trigger] defined_at(post, q) <==> tree_defined_of(entries.take(k + 1), q),
        forall|q: Seq<Seq<char>>| #[trigger] defined_at(post, q) ==> subtree(post, q).checked,
        forall|q: Seq<Seq<char>>|
            q.len() > 0 && #[trigger] defined_at(post, q) ==> subtree(post, q).is_file
                == tree_is_file_of(entries.take(k + 1), q),
{
    let ek = entries.take(k + 1);
    assert(ek.drop_last() =~= entries.take(k));
    assert(ek.last() == entries[k]);
    assert forall|q: Seq<Seq<char>>| true implies (#[trigger] defined_at(post, q)
        <==> tree_defined_of(ek, q)) by {
        assert(tree_defined_of(ek, q) == (seg_prefix(q, sv) || tree_defined_of(
            entries.take(k),
            q,
        )));
    }
    assert forall|q: Seq<Seq<char>>|
        q.len() > 0 && #[trigger] defined_at(post, q) implies subtree(post, q).is_file
        == tree_is_file_of(ek, q) by {
        if q == sv {
            assert(tree_is_file_of(ek, q) == file_leaf);
        } else {
            assert(tree_is_file_of(ek, q) == tree_is_file_of(entries.take(k), q));
            if !defined_at(pre, q) {
                if tree_is_file_of(entries.take(k), q) {
                    lemma_is_file_defined(entries.take(k), q);
                }
            }
        }
    }
}

/// Build the selection tree of an archive's entries: one node per path
/// segment, the final node of each entry marked as a file or a directory by
/// the entry's kind (the last entry naming a path wins).  Every node starts
/// checked, so everything is offered for restore.  The same entry set always
/// yields the same tree shape.
pub fn build_tree(entries: &Vec<ArchiveEntry>) -> (root: FolderTreeNode)
    ensures
        tree_wf(root),
        all_checked(root),
        root.checked,
        !root.is_file,
        forall|q: Seq<Seq<char>>|
            #[trigger] defined_at(root, q) <==> tree_defined_of(entries@, q),
        forall|q: Seq<Seq<char>>|
            q.len() > 0 && #[trigger] defined_at(root, q) ==> subtree(root, q).is_file
                == tree_is_file_of(entries@, q),
{
    let mut root = FolderTreeNode { children: Vec::new(), checked: true, is_file: false };
    proof {
        assert forall|q: Seq<Seq<char>>| #[trigger] defined_at(root, q) implies q.len() == 0 by {
            if q.len() > 0 {
                assert(!has_child(root, q.first()));
            }
        }
        assert(subtree(root, Seq::<Seq<char>>::empty()) == root);
        assert(entries@.take(0) =~= Seq::<ArchiveEntry>::empty());
    }
    let mut k: usize = 0;
    while k < entries.len()
        invariant
            k <= entries@.len(),
            tree_wf(root),
            root.checked,
            !root.is_file,
            forall|q: Seq<Seq<char>>|
                #[trigger] defined_at(root, q) <==> tree_defined_of(entries@.take(k as int), q),
            forall|q: Seq<Seq<char>>|
                #[trigger] defined_at(root, q) ==> subtree(root, q).checked,
            forall|q: Seq<Seq<char>>|
                q.len() > 0 && #[trigger] defined_at(root, q) ==> subtree(root, q).is_file
                    == tree_is_file_of(entries@.take(k as int), q),
        decreases entries@.len() - k,
    {
        let entry = &entries[k];
        let segs = split_string(entry.path.as_str(), SepMode::Slash);
        let file_leaf = match entry.kind {
            EntryKind::File => true,
            EntryKind::Directory => false,
        };
        let ghost pre = root;
        let ghost sv = segs.deep_view();
        proof {
            assert(sv == path_segs(entries@[k as int]@.path));
            assert(sv.skip(0) =~= sv);
        }
        insert_path(&mut root, &segs, 0, file_leaf);
        proof {
            lemma_build_step(pre, root, entries@, k as int, sv, file_leaf);
        }
        k = k + 1;
    }
    proof {
        assert(entries@.take(entries@.len() as int) =~= entries@);
    }
    root
}


/// A child's tree path: its name under the parent's path.
pub open spec fn joined(prefix: Seq<char>, name: Seq<char>) -> Seq<char> {
    if prefix.len() == 0 {
        name
    } else {
        prefix + seq!['/'] + name
    }
}

/// The `/`-joined tree paths of every checked node at or below the
/// `i`-th child of `n`, in depth-first order.
pub open spec fn collect_from(n: FolderTreeNode, prefix: Seq<char>, i: int) -> Seq<Seq<char>>
    decreases n, n.children@.len() - i,
{
    if i < 0 || i >= n.children@.len() {
        Seq::<Seq<char>>::empty()
    } else {
        let name = n.children@[i].0@;
        let child = n.children@[i].1;
        let path = joined(prefix, name);
        (if child.checked {
            seq![path]
        } else {
            Seq::<Seq<char>>::empty()
        }) + collect_from(child, path, 0) + collect_from(n, prefix, i + 1)
    }
}

/// Gather the tree paths of every checked node below `node`, depth first:
/// the selection a restore is filtered by.  `prefix` is the path of `node`
/// itself (empty at the root).
pub fn collect_paths(node: &FolderTreeNode, prefix: &str) -> (r: Vec<String>)
    ensures
        r.deep_view() == collect_from(*node, prefix@, 0),
    decreases *node,
{
    proof {
        reveal_strlit("/");
    }
    let mut r: Vec<String> = Vec::new();
    let mut i: usize = 0;
    proof {
        assert(r.deep_view() =~~= Seq::<Seq<char>>::empty());
        assert(Seq::<Seq<char>>::empty() + collect_from(*node, prefix@, 0) =~~= collect_from(
            *node,
            prefix@,
            0,
        ));
    }
    while i < node.children.len()
        invariant
            i <= node.children@.len(),
            collect_from(*node, prefix@, 0) == r.deep_view() + collect_from(
                *node,
                prefix@,
                i as int,
            ),
        decreases node.children@.len() - i,
    {
        proof {
            reveal_strlit("/");
            assert("/"@ =~= seq!['/']);
        }
        let name: String = node.children[i].0.clone();
        let path: String = if prefix.unicode_len() == 0 {
            name.clone()
        } else {
            let mut p = prefix.to_owned();
            p.append("/");
            p.append(name.as_str());
            p
        };
        proof {
            assert(path@ == joined(prefix@, name@));
        }
        let ghost pre = r.deep_view();
        let child: &FolderTreeNode = &node.children[i].1;
        if child.checked {
            r.push(path.clone());
            proof {
                assert(r.deep_view() =~~= pre.push(path@));
            }
        }
        let ghost mid = r.deep_view();
        let mut sub = collect_paths(child, path.as_str());
        proof {
            assert(sub.deep_view() == collect_from(node.children@[i as int].1, path@, 0));
        }
        r.append(&mut sub);
        proof {
            assert(r.deep_view() =~~= mid + collect_from(node.children@[i as int].1, path@, 0));
            let mine: Seq<Seq<char>> = if node.children@[i as int].1.checked {
                seq![path@]
            } else {
                Seq::<Seq<char>>::empty()
            };
            assert(mid =~~= pre + mine);
            assert(collect_from(*node, prefix@, i as int) == mine + collect_from(
                node.children@[i as int].1,
                path@,
                0,
            ) + collect_from(*node, prefix@, i + 1));
            assert(r.deep_view() + collect_from(*node, prefix@, i + 1) =~~= pre + collect_from(
                *node,
                prefix@,
                i as int,
            ));
        }
        i = i + 1;
    }
    proof {
        assert(collect_from(*node, prefix@, i as int) =~~= Seq::<Seq<char>>::empty());
        assert(r.deep_view() + Seq::<Seq<char>>::empty() =~~= r.deep_view());
    }
    r
}


/// Building the tree is an order-independent fold, for the tree's shape: a
/// path stands in the tree exactly when it is an entry path or an ancestor
/// of one, however the entries are ordered.
pub proof fn lemma_tree_shape_order_free(entries: Seq<ArchiveEntry>, q: Seq<Seq<char>>)
    ensures
        tree_defined_of(entries, q) <==> (q.len() == 0 || exists|i: int|
            0 <= i < entries.len() && seg_prefix(q, path_segs((#[trigger] entries[i])@.path))),
    decreases entries.len(),
{
    if entries.len() > 0 {
        let ps = entries.drop_last();
        lemma_tree_shape_order_free(ps, q);
        if tree_defined_of(entries, q) && q.len() > 0 {
            if seg_prefix(q, path_segs(entries.last()@.path)) {
                assert(seg_prefix(q, path_segs(entries[entries.len() - 1]@.path)));
            } else {
                let i = choose|i: int|
                    0 <= i < ps.len() && seg_prefix(q, path_segs((#[trigger] ps[i])@.path));
                assert(ps[i] == entries[i]);
                assert(seg_prefix(q, path_segs(entries[i]@.path)));
            }
        }
        if q.len() > 0 && exists|i: int|
            0 <= i < entries.len() && seg_prefix(q, path_segs((#[trigger] entries[i])@.path)) {
            let i = choose|i: int|
                0 <= i < entries.len() && seg_prefix(q, path_segs((#[trigger] entries[i])@.path));
            if i < entries.len() - 1 {
                assert(ps[i] == entries[i]);
                assert(seg_prefix(q, path_segs((ps[i])@.path)));
                assert(tree_defined_of(ps, q));
            }
        }
    }
}

/// Among entries with pairwise distinct paths, a node is marked as a file
/// exactly when some entry names its path and is a regular file — however
/// the entries are ordered.
pub proof fn lemma_tree_is_file_order_free(entries: Seq<ArchiveEntry>, q: Seq<Seq<char>>)
    requires
        forall|i: int, j: int|
            0 <= i < j < entries.len() ==> path_segs((#[trigger] entries[i])@.path) != path_segs(
                (#[trigger] entries[j])@.path,
            ),
    ensures
        tree_is_file_of(entries, q) <==> exists|i: int|
            0 <= i < entries.len() && q == path_segs((#[trigger] entries[i])@.path)
                && entries[i]@.kind is File,
    decreases entries.len(),
{
    if entries.len() > 0 {
        let ps = entries.drop_last();
        assert forall|i: int, j: int|
            0 <= i < j < ps.len() implies path_segs((#[trigger] ps[i])@.path) != path_segs(
            (#[trigger] ps[j])@.path,
        ) by {
            assert(ps[i] == entries[i]);
            assert(ps[j] == entries[j]);
        }
        lemma_tree_is_file_order_free(ps, q);
        if tree_is_file_of(entries, q) {
            if path_segs(entries.last()@.path) == q {
                assert(q == path_segs(entries[entries.len() - 1]@.path));
            } else {
                let i = choose|i: int|
                    0 <= i < ps.len() && q == path_segs((#[trigger] ps[i])@.path) && ps[i]@.kind
                        is File;
                assert(ps[i] == entries[i]);
                assert(q == path_segs(entries[i]@.path) && entries[i]@.kind is File);
            }
        }
        if exists|i: int|
            0 <= i < entries.len() && q == path_segs((#[trigger] entries[i])@.path)
                && entries[i]@.kind is File {
            let i = choose|i: int|
                0 <= i < entries.len() && q == path_segs((#[trigger] entries[i])@.path)
                    && entries[i]@.kind is File;
            if i == entries.len() - 1 {
                assert(path_segs(entries.last()@.path) == q);
            } else {
                assert(path_segs(entries.last()@.path) != path_segs(entries[i]@.path));
                assert(ps[i] == entries[i]);
                assert(q == path_segs((ps[i])@.path) && ps[i]@.kind is File);
                assert(tree_is_file_of(ps, q));
            }
        }
    }
}

} // verus!
