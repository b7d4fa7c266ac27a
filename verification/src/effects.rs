//! What the planned file operations do, stated over the model of the two
//! directories: that the operations of each action carry the action out.

use crate::assoc::{find_key, has_key, lemma_find_key, lemma_find_key_has_key};
use crate::backup::{backup_name, lemma_backup_name_round_trip, prune_list};
use crate::fs::{entries_ops, mirror_ops, LocModel, OpModel, Root, TreeModel};
use crate::model::{
    after_backup, among, describes, lemma_backup_effect, lemma_backup_frame, lemma_copy_effect,
    lemma_prune_effect, lemma_run_push, run_all, snapshot_like, synced, Node,
};
use crate::sync::{
    backup_actions, backup_plan, copy_actions, item_ops, listing_after_backup, prune_actions,
    root_dir, shallow, sync_plan, top, ActionModel, MessageModel,
};
use vstd::prelude::*;

verus! {

/// What lies at a path below a node, if anything does.
pub open spec fn lookup(node: Node, parts: Seq<Seq<char>>) -> Option<Node>
    decreases parts.len(),
{
    if parts.len() == 0 {
        Some(node)
    } else {
        match node {
            Node::Dir(entries) => if entries.contains_key(parts[0]) {
                lookup(entries[parts[0]], parts.drop_first())
            } else {
                None
            },
            Node::File(_) => None,
        }
    }
}

/// The node with `new` put at the path. Where the directory that is to
/// hold it does not exist, nothing changes.
pub open spec fn store(node: Node, parts: Seq<Seq<char>>, new: Node) -> Node
    decreases parts.len(),
{
    if parts.len() == 0 {
        new
    } else {
        match node {
            Node::Dir(entries) => if parts.len() == 1 {
                Node::Dir(entries.insert(parts[0], new))
            } else if entries.contains_key(parts[0]) {
                Node::Dir(
                    entries.insert(parts[0], store(entries[parts[0]], parts.drop_first(), new)),
                )
            } else {
                node
            },
            Node::File(_) => node,
        }
    }
}

/// The node without what lies at the path.
pub open spec fn erase(node: Node, parts: Seq<Seq<char>>) -> Node
    decreases parts.len(),
{
    if parts.len() == 0 {
        node
    } else {
        match node {
            Node::Dir(entries) => if !entries.contains_key(parts[0]) {
                node
            } else if parts.len() == 1 {
                Node::Dir(entries.remove(parts[0]))
            } else {
                Node::Dir(entries.insert(parts[0], erase(entries[parts[0]], parts.drop_first())))
            },
            Node::File(_) => node,
        }
    }
}

/// The node with a directory at the path, and at each place above it
/// where there was nothing. Where a file is in the way, nothing changes.
pub open spec fn make_dirs(node: Node, parts: Seq<Seq<char>>) -> Node
    decreases parts.len(),
{
    if parts.len() == 0 {
        node
    } else {
        match node {
            Node::Dir(entries) => {
                let below = if entries.contains_key(parts[0]) {
                    entries[parts[0]]
                } else {
                    Node::Dir(Map::empty())
                };
                if can_make_dirs(below, parts.drop_first()) {
                    Node::Dir(entries.insert(parts[0], make_dirs(below, parts.drop_first())))
                } else {
                    node
                }
            },
            Node::File(_) => node,
        }
    }
}

/// Whether no file is in the way of the directories down the path.
pub open spec fn can_make_dirs(node: Node, parts: Seq<Seq<char>>) -> bool
    decreases parts.len(),
{
    match node {
        Node::File(_) => false,
        Node::Dir(entries) => parts.len() == 0 || !entries.contains_key(parts[0]) || can_make_dirs(
            entries[parts[0]],
            parts.drop_first(),
        ),
    }
}

/// Whether the place that is to hold the path's last name is a directory.
pub open spec fn has_holder(node: Node, parts: Seq<Seq<char>>) -> bool {
    parts.len() > 0 && lookup(node, parts.drop_last()) matches Some(Node::Dir(_))
}

/// The node that a location lies below.
pub open spec fn root_node(root: Root, source: Node, target: Node) -> Node {
    match root {
        Root::Source => source,
        Root::Target => target,
    }
}

/// The target after one operation, given the source. An operation that
/// fails, or that does not write below the target, leaves the target as
/// it is.
pub open spec fn perform(source: Node, target: Node, op: OpModel) -> Node {
    match op {
        OpModel::Clear(at) => if at.root == Root::Target && lookup(target, at.parts) matches Some(
            Node::Dir(_),
        ) {
            erase(target, at.parts)
        } else {
            target
        },
        OpModel::CreateDirAll(at) => if at.root == Root::Target {
            make_dirs(target, at.parts)
        } else {
            target
        },
        OpModel::CopyFile { from, to } => match lookup(
            root_node(from.root, source, target),
            from.parts,
        ) {
            Some(Node::File(content)) => if to.root == Root::Target && has_holder(target, to.parts)
                && !(lookup(target, to.parts) matches Some(Node::Dir(_))) {
                store(target, to.parts, Node::File(content))
            } else {
                target
            },
            _ => target,
        },
    }
}

/// The target after the first `n` operations.
pub open spec fn perform_all(source: Node, target: Node, ops: Seq<OpModel>, n: nat) -> Node
    decreases n,
{
    if n == 0 || n > ops.len() {
        target
    } else {
        perform(source, perform_all(source, target, ops, (n - 1) as nat), ops[n - 1])
    }
}

/// The target after all the operations.
pub open spec fn performed(source: Node, target: Node, ops: Seq<OpModel>) -> Node {
    perform_all(source, target, ops, ops.len())
}

proof fn lemma_perform_prefix(source: Node, target: Node, a: Seq<OpModel>, b: Seq<OpModel>, n: nat)
    requires
        n <= a.len(),
    ensures
        perform_all(source, target, a + b, n) == perform_all(source, target, a, n),
    decreases n,
{
    if n > 0 {
        lemma_perform_prefix(source, target, a, b, (n - 1) as nat);
        assert((a + b)[n - 1] == a[n - 1]);
    }
}

/// Performing two runs of operations one after the other is performing
/// their concatenation.
pub proof fn lemma_perform_concat(source: Node, target: Node, a: Seq<OpModel>, b: Seq<OpModel>, n: nat)
    requires
        n <= b.len(),
    ensures
        perform_all(source, target, a + b, a.len() + n) == perform_all(
            source,
            performed(source, target, a),
            b,
            n,
        ),
    decreases n,
{
    if n == 0 {
        lemma_perform_prefix(source, target, a, b, a.len());
    } else {
        lemma_perform_concat(source, target, a, b, (n - 1) as nat);
        assert((a + b)[a.len() + n - 1] == b[n - 1]);
    }
}

proof fn lemma_perform_push(source: Node, target: Node, a: Seq<OpModel>, x: OpModel)
    ensures
        performed(source, target, a.push(x)) == perform(source, performed(source, target, a), x),
{
    assert(a.push(x) =~= a + seq![x]);
    lemma_perform_prefix(source, target, a, seq![x], a.len());
}

/// Whether two paths part ways at some name that both have.
pub open spec fn apart(p: Seq<Seq<char>>, q: Seq<Seq<char>>) -> bool {
    exists|k: int| 0 <= k < p.len() && k < q.len() && #[trigger] p[k] != q[k] && p.take(k) == q.take(k)
}

proof fn lemma_apart_step(p: Seq<Seq<char>>, q: Seq<Seq<char>>)
    requires
        apart(p, q),
        p[0] == q[0],
    ensures
        apart(p.drop_first(), q.drop_first()),
{
    let k = choose|k: int|
        0 <= k < p.len() && k < q.len() && #[trigger] p[k] != q[k] && p.take(k) == q.take(k);
    assert(k > 0);
    let pt = p.drop_first();
    let qt = q.drop_first();
    assert(pt[k - 1] == p[k] && qt[k - 1] == q[k]);
    assert(pt.take(k - 1) =~= p.take(k).drop_first());
    assert(qt.take(k - 1) =~= q.take(k).drop_first());
    assert(pt[k - 1] != qt[k - 1]);
}

/// Putting something at one path does not change what lies at or below a
/// path that parts ways with it.
pub proof fn lemma_store_apart(node: Node, p: Seq<Seq<char>>, new: Node, q: Seq<Seq<char>>)
    requires
        apart(p, q),
    ensures
        lookup(store(node, p, new), q) == lookup(node, q),
    decreases p.len(),
{
    match node {
        Node::Dir(entries) => {
            if p[0] == q[0] {
                lemma_apart_step(p, q);
                if p.len() > 1 && entries.contains_key(p[0]) {
                    lemma_store_apart(entries[p[0]], p.drop_first(), new, q.drop_first());
                }
                if p.len() == 1 {
                    let k = choose|k: int|
                        0 <= k < p.len() && k < q.len() && #[trigger] p[k] != q[k] && p.take(k)
                            == q.take(k);
                    assert(false);
                }
            }
        },
        Node::File(_) => {},
    }
}

/// What was put at a path lies there, if the place that holds it is a
/// directory.
pub proof fn lemma_store_lookup(node: Node, p: Seq<Seq<char>>, new: Node)
    requires
        has_holder(node, p),
    ensures
        lookup(store(node, p, new), p) == Some(new),
        has_holder(store(node, p, new), p),
    decreases p.len(),
{
    let after = store(node, p, new);
    if p.len() == 1 {
        assert(p.drop_last() =~= Seq::<Seq<char>>::empty());
        assert(lookup(new, p.drop_first()) == Some(new));
    } else {
        assert(p.drop_last()[0] == p[0]);
        assert(p.drop_last().drop_first() =~= p.drop_first().drop_last());
        match node {
            Node::Dir(entries) => {
                lemma_store_lookup(entries[p[0]], p.drop_first(), new);
            },
            Node::File(_) => {},
        }
    }
}

/// Putting something into a directory that was just put at a path is
/// putting the directory there with that thing in it.
#[verifier::spinoff_prover]
#[verifier::rlimit(40)]
pub proof fn lemma_store_child(
    node: Node,
    p: Seq<Seq<char>>,
    held: Map<Seq<char>, Node>,
    name: Seq<char>,
    new: Node,
)
    requires
        has_holder(node, p),
    ensures
        store(store(node, p, Node::Dir(held)), p.push(name), new) == store(
            node,
            p,
            Node::Dir(held.insert(name, new)),
        ),
    decreases p.len(),
{
    let q = p.push(name);
    assert(q.drop_first() =~= p.drop_first().push(name));
    assert(q[0] == p[0]);
    match node {
        Node::Dir(entries) => {
            if p.len() == 1 {
                assert(p.drop_first() =~= Seq::<Seq<char>>::empty());
                assert(q.drop_first() =~= seq![name]);
                let mid = entries.insert(p[0], Node::Dir(held));
                assert(store(Node::Dir(held), q.drop_first(), new) == Node::Dir(
                    held.insert(name, new),
                ));
                assert(mid.insert(p[0], Node::Dir(held.insert(name, new))) =~= entries.insert(
                    p[0],
                    Node::Dir(held.insert(name, new)),
                ));
            } else {
                assert(p.drop_last()[0] == p[0]);
                assert(p.drop_last().drop_first() =~= p.drop_first().drop_last());
                lemma_store_child(entries[p[0]], p.drop_first(), held, name, new);
                let sub = store(entries[p[0]], p.drop_first(), Node::Dir(held));
                let mid = entries.insert(p[0], sub);
                assert(mid.insert(p[0], store(sub, q.drop_first(), new)) =~= entries.insert(
                    p[0],
                    store(sub, q.drop_first(), new),
                ));
            }
        },
        Node::File(_) => {},
    }
}

/// Clearing a place and then putting something there is putting it
/// there.
pub proof fn lemma_erase_store(node: Node, p: Seq<Seq<char>>, new: Node)
    requires
        has_holder(node, p),
    ensures
        store(erase(node, p), p, new) == store(node, p, new),
        has_holder(erase(node, p), p),
        lookup(erase(node, p), p) is None,
    decreases p.len(),
{
    match node {
        Node::Dir(entries) => {
            if p.len() == 1 {
                assert(p.drop_last() =~= Seq::<Seq<char>>::empty());
                assert(entries.remove(p[0]).insert(p[0], new) =~= entries.insert(p[0], new));
            } else {
                assert(p.drop_last()[0] == p[0]);
                assert(p.drop_last().drop_first() =~= p.drop_first().drop_last());
                lemma_erase_store(entries[p[0]], p.drop_first(), new);
                let sub = erase(entries[p[0]], p.drop_first());
                assert(entries.insert(p[0], sub).insert(p[0], store(sub, p.drop_first(), new))
                    =~= entries.insert(p[0], store(sub, p.drop_first(), new)));
            }
        },
        Node::File(_) => {},
    }
}

/// Creating a directory at a place where there is nothing, in a
/// directory that exists, is putting an empty directory there; creating
/// one where there is a directory changes nothing.
#[verifier::spinoff_prover]
#[verifier::rlimit(40)]
pub proof fn lemma_make_dirs(node: Node, p: Seq<Seq<char>>)
    requires
        has_holder(node, p),
    ensures
        lookup(node, p) is None ==> make_dirs(node, p) == store(node, p, Node::Dir(Map::empty())),
        lookup(node, p) matches Some(Node::Dir(_)) ==> make_dirs(node, p) == node,
    decreases p.len(),
{
    let rest = p.drop_first();
    match node {
        Node::Dir(entries) => {
            if p.len() == 1 {
                assert(rest =~= Seq::<Seq<char>>::empty());
                let below = if entries.contains_key(p[0]) {
                    entries[p[0]]
                } else {
                    Node::Dir(Map::empty())
                };
                assert(make_dirs(below, rest) == below);
                assert(can_make_dirs(below, rest) == below is Dir);
                assert(lookup(below, rest) == Some(below));
                if entries.contains_key(p[0]) && entries[p[0]] is Dir {
                    assert(entries.insert(p[0], entries[p[0]]) =~= entries);
                }
            } else {
                assert(p.drop_last()[0] == p[0]);
                assert(p.drop_last().drop_first() =~= rest.drop_last());
                assert(lookup(node, p.drop_last()) is Some);
                assert(entries.contains_key(p[0]));
                let sub = entries[p[0]];
                assert(has_holder(sub, rest));
                lemma_make_dirs(sub, rest);
                assert(lookup(node, p) == lookup(sub, rest));
                if !(lookup(node, p) matches Some(Node::File(_))) {
                    lemma_can_make_dirs(sub, rest);
                }
                if lookup(node, p) matches Some(Node::Dir(_)) {
                    assert(entries.insert(p[0], sub) =~= entries);
                }
            }
        },
        Node::File(_) => {
            assert(p.drop_last().len() == 0 || lookup(node, p.drop_last()) is None);
            if p.drop_last().len() == 0 {
                assert(lookup(node, p.drop_last()) == Some(node));
            }
        },
    }
}

proof fn lemma_can_make_dirs(node: Node, p: Seq<Seq<char>>)
    requires
        has_holder(node, p),
        !(lookup(node, p) matches Some(Node::File(_))),
    ensures
        can_make_dirs(node, p),
    decreases p.len(),
{
    match node {
        Node::Dir(entries) => {
            if p.len() == 1 {
                assert(p.drop_first() =~= Seq::<Seq<char>>::empty());
                assert(p.drop_last() =~= Seq::<Seq<char>>::empty());
                if entries.contains_key(p[0]) {
                    assert(lookup(entries[p[0]], p.drop_first()) == Some(entries[p[0]]));
                    assert(lookup(node, p) == Some(entries[p[0]]));
                    assert(can_make_dirs(entries[p[0]], p.drop_first()));
                }
            } else {
                assert(p.drop_last()[0] == p[0]);
                assert(p.drop_last().drop_first() =~= p.drop_first().drop_last());
                lemma_can_make_dirs(entries[p[0]], p.drop_first());
            }
        },
        Node::File(_) => {},
    }
}

/// Whether a node has the given shape: a file for a file; for a
/// directory, a directory with exactly the listed names, each listed once,
/// and under each name a node of the listed shape.
pub open spec fn has_shape(node: Node, tree: TreeModel) -> bool
    decreases tree,
{
    match tree {
        TreeModel::File => node is File,
        TreeModel::Dir(entries) => {
            &&& node is Dir
            &&& forall|i: int, j: int|
                0 <= i < j < entries.len() ==> (#[trigger] entries[i]).0 != (#[trigger] entries[j]).0
            &&& forall|name: Seq<char>|
                #[trigger] node->Dir_0.contains_key(name) <==> has_key(entries, name)
            &&& forall|i: int|
                0 <= i < entries.len() ==> has_shape(
                    node->Dir_0[(#[trigger] entries[i]).0],
                    entries[i].1,
                )
        },
    }
}

/// What a directory holds under the first `n` of the listed names.
pub open spec fn first_entries(
    held: Map<Seq<char>, Node>,
    entries: Seq<(Seq<char>, TreeModel)>,
    n: nat,
) -> Map<Seq<char>, Node> {
    Map::new(
        |name: Seq<char>| exists|i: int| 0 <= i < n && i < entries.len() && (#[trigger] entries[i]).0 == name,
        |name: Seq<char>| held[name],
    )
}

proof fn lemma_apart_symmetric(p: Seq<Seq<char>>, q: Seq<Seq<char>>)
    requires
        apart(p, q),
    ensures
        apart(q, p),
{
    let k = choose|k: int|
        0 <= k < p.len() && k < q.len() && #[trigger] p[k] != q[k] && p.take(k) == q.take(k);
    assert(q[k] != p[k] && q.take(k) == p.take(k));
}

proof fn lemma_apart_longer(p: Seq<Seq<char>>, q: Seq<Seq<char>>, x: Seq<char>, y: Seq<char>)
    requires
        apart(p, q),
    ensures
        apart(p.push(x), q),
        apart(p, q.push(y)),
        apart(p.push(x), q.push(y)),
{
    let k = choose|k: int|
        0 <= k < p.len() && k < q.len() && #[trigger] p[k] != q[k] && p.take(k) == q.take(k);
    let pp = p.push(x);
    let qq = q.push(y);
    assert(pp.take(k) =~= p.take(k));
    assert(qq.take(k) =~= q.take(k));
    assert(pp[k] != q[k] && pp.take(k) == q.take(k));
    assert(p[k] != qq[k] && p.take(k) == qq.take(k));
    assert(pp[k] != qq[k] && pp.take(k) == qq.take(k));
}

/// What lies under a name in a directory lies at the directory's path
/// with the name added.
pub proof fn lemma_lookup_child(node: Node, p: Seq<Seq<char>>, name: Seq<char>)
    requires
        lookup(node, p) matches Some(Node::Dir(_)),
    ensures
        lookup(node, p.push(name)) == (if lookup(node, p)->0->Dir_0.contains_key(name) {
            Some(lookup(node, p)->0->Dir_0[name])
        } else {
            None
        }),
    decreases p.len(),
{
    let q = p.push(name);
    if p.len() == 0 {
        assert(q.drop_first() =~= Seq::<Seq<char>>::empty());
        let held = node->Dir_0;
        if held.contains_key(name) {
            assert(lookup(held[name], q.drop_first()) == Some(held[name]));
        }
    } else {
        assert(q.drop_first() =~= p.drop_first().push(name));
        assert(q[0] == p[0]);
        match node {
            Node::Dir(entries) => {
                if entries.contains_key(p[0]) {
                    lemma_lookup_child(entries[p[0]], p.drop_first(), name);
                }
            },
            Node::File(_) => {},
        }
    }
}

/// Mirroring a directory makes the destination an exact copy of it, and
/// changes nothing else. The source must be a directory of the planned
/// shape; the place that is to hold the destination must be a directory,
/// with no file where the destination goes; and where source and
/// destination both lie below the target, their paths must part ways.
#[verifier::spinoff_prover]
#[verifier::rlimit(40)]
pub proof fn lemma_mirror(source: Node, target: Node, src: LocModel, dst: LocModel, tree: TreeModel)
    requires
        tree is Dir,
        dst.root == Root::Target,
        has_holder(target, dst.parts),
        !(lookup(target, dst.parts) matches Some(Node::File(_))),
        src.root == Root::Source || apart(src.parts, dst.parts),
        lookup(root_node(src.root, source, target), src.parts) is Some,
        has_shape(lookup(root_node(src.root, source, target), src.parts)->0, tree),
    ensures
        performed(source, target, mirror_ops(src, dst, tree)) == store(
            target,
            dst.parts,
            lookup(root_node(src.root, source, target), src.parts)->0,
        ),
    decreases tree, 1nat, 0nat,
{
    let entries = tree->Dir_0;
    let found = lookup(root_node(src.root, source, target), src.parts)->0;
    let held = found->Dir_0;
    let clear = OpModel::Clear(dst);
    let create = OpModel::CreateDirAll(dst);
    let head = seq![clear, create];
    let body = entries_ops(src, dst, tree, entries.len());
    let empty = Node::Dir(Map::empty());
    lemma_perform_concat(source, target, head, body, body.len());
    assert(head =~= seq![clear].push(create));
    lemma_perform_push(source, target, seq![clear], create);
    assert(performed(source, target, seq![clear]) == perform(source, target, clear)) by {
        assert(perform_all(source, target, seq![clear], 0) == target);
    }
    let cleared = perform(source, target, clear);
    lemma_erase_store(target, dst.parts, empty);
    assert(has_holder(cleared, dst.parts) && lookup(cleared, dst.parts) is None && store(
        cleared,
        dst.parts,
        empty,
    ) == store(target, dst.parts, empty));
    lemma_make_dirs(cleared, dst.parts);
    let created = perform(source, cleared, create);
    assert(created == store(target, dst.parts, empty));
    lemma_entries_copied(source, target, src, dst, tree, entries.len());
    assert(first_entries(held, entries, entries.len()) =~= held) by {
        assert forall|name: Seq<char>|
            first_entries(held, entries, entries.len()).contains_key(name) <==> held.contains_key(
                name,
            ) by {
            if has_key(entries, name) {
                let i = choose|i: int| 0 <= i < entries.len() && (#[trigger] entries[i]).0 == name;
                assert(entries[i].0 == name);
            }
        }
    }
}

/// Copying the entries of a directory one by one fills the destination
/// with them.
#[verifier::spinoff_prover]
#[verifier::rlimit(40)]
proof fn lemma_entries_copied(
    source: Node,
    target: Node,
    src: LocModel,
    dst: LocModel,
    tree: TreeModel,
    n: nat,
)
    requires
        tree is Dir,
        n <= tree->Dir_0.len(),
        dst.root == Root::Target,
        has_holder(target, dst.parts),
        src.root == Root::Source || apart(src.parts, dst.parts),
        lookup(root_node(src.root, source, target), src.parts) is Some,
        has_shape(lookup(root_node(src.root, source, target), src.parts)->0, tree),
    ensures
        performed(
            source,
            store(target, dst.parts, Node::Dir(Map::empty())),
            entries_ops(src, dst, tree, n),
        ) == store(
            target,
            dst.parts,
            Node::Dir(
                first_entries(
                    lookup(root_node(src.root, source, target), src.parts)->0->Dir_0,
                    tree->Dir_0,
                    n,
                ),
            ),
        ),
    decreases tree, 0nat, n,
{
    let entries = tree->Dir_0;
    let found = lookup(root_node(src.root, source, target), src.parts)->0;
    let held = found->Dir_0;
    let start = store(target, dst.parts, Node::Dir(Map::empty()));
    if n == 0 {
        assert(first_entries(held, entries, 0) =~= Map::<Seq<char>, Node>::empty());
    } else {
        let m = (n - 1) as nat;
        lemma_entries_copied(source, target, src, dst, tree, m);
        let before = entries_ops(src, dst, tree, m);
        let partial = first_entries(held, entries, m);
        let mid = store(target, dst.parts, Node::Dir(partial));
        assert(performed(source, start, before) == mid);
        let name = entries[n - 1].0;
        let sub = entries[n - 1].1;
        assert(has_key(entries, name));
        assert(held.contains_key(name));
        let child = held[name];
        assert(has_shape(child, sub));
        let from = src.child(name);
        let to = dst.child(name);
        // The source is as it was.
        lemma_lookup_child(root_node(src.root, source, target), src.parts, name);
        if src.root == Root::Target {
            lemma_apart_symmetric(src.parts, dst.parts);
            lemma_apart_longer(dst.parts, src.parts, name, name);
            lemma_store_apart(target, dst.parts, Node::Dir(partial), from.parts);
        }
        assert(lookup(root_node(src.root, source, mid), from.parts) == Some(child));
        // The destination is a directory that does not have the name yet.
        lemma_store_lookup(target, dst.parts, Node::Dir(partial));
        assert(to.parts.drop_last() =~= dst.parts);
        assert(has_holder(mid, to.parts));
        assert(!partial.contains_key(name)) by {
            if partial.contains_key(name) {
                let i = choose|i: int|
                    0 <= i < m && i < entries.len() && (#[trigger] entries[i]).0 == name;
                assert(entries[i].0 != entries[n - 1].0);
            }
        }
        lemma_lookup_child(mid, dst.parts, name);
        assert(lookup(mid, to.parts) is None);
        lemma_store_child(target, dst.parts, partial, name, child);
        assert(partial.insert(name, child) =~= first_entries(held, entries, n)) by {
            assert forall|key: Seq<char>|
                partial.insert(name, child).contains_key(key) <==> first_entries(
                    held,
                    entries,
                    n,
                ).contains_key(key) by {
                if first_entries(held, entries, n).contains_key(key) {
                    let i = choose|i: int|
                        0 <= i < n && i < entries.len() && (#[trigger] entries[i]).0 == key;
                    if i < m {
                        assert(partial.contains_key(key));
                    }
                }
                if partial.contains_key(key) {
                    let i = choose|i: int|
                        0 <= i < m && i < entries.len() && (#[trigger] entries[i]).0 == key;
                    assert(entries[i].0 == key);
                }
                if key == name {
                    assert(entries[n - 1].0 == key);
                }
            }
        }
        match sub {
            TreeModel::File => {
                let op = OpModel::CopyFile { from, to };
                assert(entries_ops(src, dst, tree, n) == before.push(op));
                lemma_perform_push(source, start, before, op);
            },
            TreeModel::Dir(_) => {
                let more = mirror_ops(from, to, sub);
                assert(entries_ops(src, dst, tree, n) == before + more);
                lemma_perform_concat(source, start, before, more, more.len());
                if src.root == Root::Target {
                    lemma_apart_longer(src.parts, dst.parts, name, name);
                }
                lemma_mirror(source, mid, from, to, sub);
            },
        }
    }
}

/// The operations of an action.
pub open spec fn action_ops(action: ActionModel) -> Seq<OpModel> {
    match action {
        ActionModel::Announce(_) => Seq::empty(),
        ActionModel::MakeBackupDir { ops, .. } => ops,
        ActionModel::BackupItem { ops, .. } => ops,
        ActionModel::CopyItem { ops, .. } => ops,
        ActionModel::Prune { ops, .. } => ops,
    }
}

/// The target after the operations of the first `n` actions.
pub open spec fn carried(source: Node, target: Node, actions: Seq<ActionModel>, n: nat) -> Node
    decreases n,
{
    if n == 0 || n > actions.len() {
        target
    } else {
        performed(
            source,
            carried(source, target, actions, (n - 1) as nat),
            action_ops(actions[n - 1]),
        )
    }
}

/// The target after the operations of all the actions.
pub open spec fn carried_out(source: Node, target: Node, actions: Seq<ActionModel>) -> Node {
    carried(source, target, actions, actions.len())
}

proof fn lemma_carried_prefix(
    source: Node,
    target: Node,
    a: Seq<ActionModel>,
    b: Seq<ActionModel>,
    n: nat,
)
    requires
        n <= a.len(),
    ensures
        carried(source, target, a + b, n) == carried(source, target, a, n),
    decreases n,
{
    if n > 0 {
        lemma_carried_prefix(source, target, a, b, (n - 1) as nat);
        assert((a + b)[n - 1] == a[n - 1]);
    }
}

proof fn lemma_carried_concat(
    source: Node,
    target: Node,
    a: Seq<ActionModel>,
    b: Seq<ActionModel>,
    n: nat,
)
    requires
        n <= b.len(),
    ensures
        carried(source, target, a + b, a.len() + n) == carried(
            source,
            carried_out(source, target, a),
            b,
            n,
        ),
    decreases n,
{
    if n == 0 {
        lemma_carried_prefix(source, target, a, b, a.len());
    } else {
        lemma_carried_concat(source, target, a, b, (n - 1) as nat);
        assert((a + b)[a.len() + n - 1] == b[n - 1]);
    }
}

proof fn lemma_carried_push(source: Node, target: Node, a: Seq<ActionModel>, x: ActionModel)
    ensures
        carried_out(source, target, a.push(x)) == performed(
            source,
            carried_out(source, target, a),
            action_ops(x),
        ),
{
    assert(a.push(x) =~= a + seq![x]);
    lemma_carried_prefix(source, target, a, seq![x], a.len());
}

proof fn lemma_top_level(dir: Map<Seq<char>, Node>, name: Seq<char>, new: Node)
    ensures
        has_holder(Node::Dir(dir), seq![name]),
        lookup(Node::Dir(dir), seq![name]) == (if dir.contains_key(name) {
            Some(dir[name])
        } else {
            None
        }),
        store(Node::Dir(dir), seq![name], new) == Node::Dir(dir.insert(name, new)),
        erase(Node::Dir(dir), seq![name]) == Node::Dir(dir.remove(name)),
{
    let p = seq![name];
    assert(p.drop_last() =~= Seq::<Seq<char>>::empty());
    assert(p.drop_first() =~= Seq::<Seq<char>>::empty());
    lemma_lookup_child(Node::Dir(dir), Seq::empty(), name);
    assert(Seq::<Seq<char>>::empty().push(name) =~= p);
    if !dir.contains_key(name) {
        assert(dir.remove(name) =~= dir);
    }
}

/// The operations that copy one item carry the copy out: afterwards the
/// destination holds what the source held. The item at the source must be
/// of the planned shape, and what is at the destination must not be of the
/// other kind.
#[verifier::spinoff_prover]
#[verifier::rlimit(40)]
pub proof fn lemma_item_copied(
    source: Node,
    target: Node,
    from: LocModel,
    to: LocModel,
    shape: TreeModel,
)
    requires
        to.root == Root::Target,
        has_holder(target, to.parts),
        from.root == Root::Source || apart(from.parts, to.parts),
        lookup(root_node(from.root, source, target), from.parts) is Some,
        has_shape(lookup(root_node(from.root, source, target), from.parts)->0, shape),
        lookup(target, to.parts) is Some ==> (lookup(target, to.parts)->0 is Dir == shape is Dir),
    ensures
        performed(
            source,
            target,
            item_ops(from, to, LocModel { root: to.root, parts: to.parts.drop_last() }, shape),
        ) == store(target, to.parts, lookup(root_node(from.root, source, target), from.parts)->0),
{
    let holder = LocModel { root: to.root, parts: to.parts.drop_last() };
    let ops = item_ops(from, to, holder, shape);
    match shape {
        TreeModel::Dir(_) => {
            lemma_mirror(source, target, from, to, shape);
        },
        TreeModel::File => {
            let create = OpModel::CreateDirAll(holder);
            let copy = OpModel::CopyFile { from, to };
            assert(ops =~= seq![create].push(copy));
            lemma_perform_push(source, target, seq![create], copy);
            assert(performed(source, target, seq![create]) == perform(source, target, create)) by {
                assert(perform_all(source, target, seq![create], 0) == target);
            }
            lemma_holder_stays(target, to.parts.drop_last());
        },
    }
}

proof fn lemma_holder_stays(node: Node, p: Seq<Seq<char>>)
    requires
        lookup(node, p) matches Some(Node::Dir(_)),
    ensures
        make_dirs(node, p) == node,
    decreases p.len(),
{
    if p.len() > 0 {
        match node {
            Node::Dir(entries) => {
                lemma_holder_stays(entries[p[0]], p.drop_first());
                lemma_is_dir_path(entries[p[0]], p.drop_first());
                assert(entries.insert(p[0], entries[p[0]]) =~= entries);
            },
            Node::File(_) => {},
        }
    }
}

proof fn lemma_is_dir_path(node: Node, p: Seq<Seq<char>>)
    requires
        lookup(node, p) matches Some(Node::Dir(_)),
    ensures
        can_make_dirs(node, p),
    decreases p.len(),
{
    if p.len() > 0 {
        match node {
            Node::Dir(entries) => {
                lemma_is_dir_path(entries[p[0]], p.drop_first());
            },
            Node::File(_) => {},
        }
    }
}

/// Whether a listing tells of each item whether the directory has it, and
/// gives the shape of each item that it has.
pub open spec fn lists_items(
    listing: Seq<(Seq<char>, TreeModel)>,
    dir: Map<Seq<char>, Node>,
    items: Seq<Seq<char>>,
) -> bool {
    &&& forall|name: Seq<char>|
        #[trigger] items.contains(name) ==> (has_key(listing, name) <==> dir.contains_key(name))
    &&& forall|i: int|
        0 <= i < listing.len() && items.contains((#[trigger] listing[i]).0) ==> has_shape(
            dir[listing[i].0],
            listing[i].1,
        )
}

proof fn lemma_two_levels(
    dir: Map<Seq<char>, Node>,
    first: Seq<char>,
    second: Seq<char>,
    new: Node,
)
    requires
        dir.contains_key(first),
        dir[first] is Dir,
    ensures
        has_holder(Node::Dir(dir), seq![first, second]),
        lookup(Node::Dir(dir), seq![first, second]) == (if dir[first]->Dir_0.contains_key(second) {
            Some(dir[first]->Dir_0[second])
        } else {
            None
        }),
        store(Node::Dir(dir), seq![first, second], new) == Node::Dir(
            dir.insert(first, Node::Dir(dir[first]->Dir_0.insert(second, new))),
        ),
{
    let p = seq![first, second];
    lemma_top_level(dir, first, new);
    assert(p.drop_last() =~= seq![first]);
    assert(seq![first].push(second) =~= p);
    lemma_lookup_child(Node::Dir(dir), seq![first], second);
    assert(p.drop_first() =~= seq![second]);
    lemma_top_level(dir[first]->Dir_0, second, new);
    assert(store(dir[first], seq![second], new) == Node::Dir(
        dir[first]->Dir_0.insert(second, new),
    ));
}

/// The operations of the saving actions carry them out.
#[verifier::spinoff_prover]
#[verifier::rlimit(40)]
proof fn lemma_backup_carried(
    source: Node,
    made: Map<Seq<char>, Node>,
    listing: Seq<(Seq<char>, TreeModel)>,
    items: Seq<Seq<char>>,
    backup: Seq<char>,
    n: nat,
)
    requires
        n <= items.len(),
        lists_items(listing, made, items),
        !items.contains(backup),
        made.contains_key(backup),
        made[backup] is Dir,
        forall|key: Seq<char>|
            #[trigger] made[backup]->Dir_0.contains_key(key) && made.contains_key(key) ==> (
            made[backup]->Dir_0[key] is Dir == made[key] is Dir),
    ensures
        carried_out(source, Node::Dir(made), backup_actions(listing, items, backup, n)) == Node::Dir(
            run_all(Map::empty(), made, backup_actions(listing, items, backup, n)),
        ),
    decreases n,
{
    if n > 0 {
        let m = (n - 1) as nat;
        lemma_backup_carried(source, made, listing, items, backup, m);
        let before = backup_actions(listing, items, backup, m);
        let state = run_all(Map::empty(), made, before);
        lemma_backup_frame(Map::empty(), made, listing, items, backup, m);
        lemma_backup_effect(Map::empty(), made, listing, items, backup, m);
        let item = items[n - 1];
        assert(items.contains(item));
        lemma_find_key_has_key(listing, item);
        lemma_find_key(listing, item, listing.len());
        match find_key(listing, item, listing.len()) {
            Some(j) => {
                let shape = listing[j].1;
                let action = backup_actions(listing, items, backup, n).last();
                assert(backup_actions(listing, items, backup, n) =~= before.push(action));
                lemma_carried_push(source, Node::Dir(made), before, action);
                lemma_run_push(Map::empty(), made, before, action);
                let from = top(Root::Target, item);
                let to = top(Root::Target, backup).child(item);
                assert(to.parts =~= seq![backup, item]);
                assert(to.parts.drop_last() =~= seq![backup]);
                assert(has_key(listing, item));
                assert(made.contains_key(item));
                assert(state.contains_key(item) && state[item] == made[item]);
                assert(state.contains_key(backup));
                lemma_top_level(state, item, made[item]);
                lemma_two_levels(state, backup, item, made[item]);
                assert(apart(from.parts, to.parts)) by {
                    assert(from.parts[0] != to.parts[0]);
                    assert(from.parts.take(0) =~= to.parts.take(0));
                }
                assert(has_shape(made[listing[j].0], listing[j].1));
                if state[backup]->Dir_0.contains_key(item) {
                    if !(among(items, item, m) && made.contains_key(item)) {
                        assert(made[backup]->Dir_0.contains_key(item));
                    }
                }
                lemma_item_copied(source, Node::Dir(state), from, to, shape);
                assert((LocModel { root: to.root, parts: to.parts.drop_last() }) == top(
                    Root::Target,
                    backup,
                ));
            },
            None => {},
        }
    }
}

/// The operations of the copying actions carry them out.
#[verifier::spinoff_prover]
#[verifier::rlimit(40)]
proof fn lemma_copies_carried(
    source: Map<Seq<char>, Node>,
    saved: Map<Seq<char>, Node>,
    listing: Seq<(Seq<char>, TreeModel)>,
    items: Seq<Seq<char>>,
    n: nat,
)
    requires
        n <= items.len(),
        lists_items(listing, source, items),
        forall|key: Seq<char>|
            #[trigger] items.contains(key) && source.contains_key(key) && saved.contains_key(key)
                ==> (source[key] is Dir == saved[key] is Dir),
    ensures
        carried_out(Node::Dir(source), Node::Dir(saved), copy_actions(listing, items, n))
            == Node::Dir(run_all(source, saved, copy_actions(listing, items, n))),
    decreases n,
{
    if n > 0 {
        let m = (n - 1) as nat;
        lemma_copies_carried(source, saved, listing, items, m);
        let before = copy_actions(listing, items, m);
        let all = copy_actions(listing, items, n);
        let state = run_all(source, saved, before);
        lemma_copy_effect(source, saved, listing, items, m);
        let item = items[n - 1];
        assert(items.contains(item));
        let copy = all[all.len() - 2];
        let told = all[all.len() - 1];
        assert(all =~= before.push(copy).push(told));
        lemma_carried_push(Node::Dir(source), Node::Dir(saved), before.push(copy), told);
        lemma_carried_push(Node::Dir(source), Node::Dir(saved), before, copy);
        lemma_run_push(source, saved, before.push(copy), told);
        lemma_run_push(source, saved, before, copy);
        let middle = carried_out(Node::Dir(source), Node::Dir(saved), before.push(copy));
        assert(action_ops(told) =~= Seq::<OpModel>::empty());
        assert(performed(Node::Dir(source), middle, action_ops(told)) == middle);
        lemma_find_key_has_key(listing, item);
        lemma_find_key(listing, item, listing.len());
        let from = top(Root::Source, item);
        let to = top(Root::Target, item);
        assert(to.parts.drop_last() =~= Seq::<Seq<char>>::empty());
        assert((LocModel { root: to.root, parts: to.parts.drop_last() }) == root_dir(Root::Target));
        lemma_top_level(source, item, source[item]);
        lemma_top_level(state, item, source[item]);
        match find_key(listing, item, listing.len()) {
            Some(j) => {
                assert(has_key(listing, item));
                assert(source.contains_key(item));
                assert(has_shape(source[listing[j].0], listing[j].1));
                if state.contains_key(item) {
                    if among(items, item, m) && source.contains_key(item) {
                        assert(state[item] == source[item]);
                    } else {
                        assert(saved.contains_key(item) && state[item] == saved[item]);
                    }
                }
                lemma_item_copied(Node::Dir(source), Node::Dir(state), from, to, listing[j].1);
            },
            None => {
                assert(!source.contains_key(item));
                let create = OpModel::CreateDirAll(root_dir(Root::Target));
                let op = OpModel::CopyFile { from, to };
                assert(action_ops(copy) =~= seq![create].push(op));
                lemma_perform_push(Node::Dir(source), Node::Dir(state), seq![create], op);
                assert(performed(Node::Dir(source), Node::Dir(state), seq![create]) == perform(
                    Node::Dir(source),
                    Node::Dir(state),
                    create,
                )) by {
                    assert(perform_all(Node::Dir(source), Node::Dir(state), seq![create], 0)
                        == Node::Dir(state));
                }
                assert(make_dirs(Node::Dir(state), Seq::empty()) == Node::Dir(state));
            },
        }
    }
}

/// The operations of the removing actions carry them out.
#[verifier::spinoff_prover]
#[verifier::rlimit(40)]
proof fn lemma_prunes_carried(
    source: Node,
    copied: Map<Seq<char>, Node>,
    names: Seq<Seq<char>>,
    n: nat,
)
    requires
        n <= names.len(),
        forall|i: int|
            0 <= i < n && copied.contains_key(#[trigger] names[i]) ==> copied[names[i]] is Dir,
    ensures
        carried_out(source, Node::Dir(copied), prune_actions(names, n)) == Node::Dir(
            run_all(Map::empty(), copied, prune_actions(names, n)),
        ),
    decreases n,
{
    if n > 0 {
        let m = (n - 1) as nat;
        lemma_prunes_carried(source, copied, names, m);
        let before = prune_actions(names, m);
        let state = run_all(Map::empty(), copied, before);
        lemma_prune_effect(Map::empty(), copied, names, m);
        let name = names[n - 1];
        let action = prune_actions(names, n).last();
        assert(prune_actions(names, n) =~= before.push(action));
        lemma_carried_push(source, Node::Dir(copied), before, action);
        lemma_run_push(Map::empty(), copied, before, action);
        let op = OpModel::Clear(top(Root::Target, name));
        assert(action_ops(action) =~= seq![op]);
        assert(performed(source, Node::Dir(state), seq![op]) == perform(
            source,
            Node::Dir(state),
            op,
        )) by {
            assert(perform_all(source, Node::Dir(state), seq![op], 0) == Node::Dir(state));
        }
        lemma_top_level(state, name, Node::Dir(Map::empty()));
        if state.contains_key(name) {
            if among(names, name, m) {
            } else {
                assert(copied.contains_key(name));
                assert(state[name] == copied[name]);
            }
        } else {
            assert(state.remove(name) =~= state);
        }
    }
}

/// The planned operations carry the sync out: performing them one by
/// one leaves the target as the sync's actions say. This holds where the
/// listings tell the truth about the two directories, no item is named
/// like a snapshot, an item that both directories have is a file in both or
/// a directory in both, and the target has nothing yet under the name of
/// the new snapshot.
#[verifier::spinoff_prover]
#[verifier::rlimit(40)]
pub proof fn lemma_sync_carried_out(
    source: Map<Seq<char>, Node>,
    target: Map<Seq<char>, Node>,
    source_listing: Seq<(Seq<char>, TreeModel)>,
    target_listing: Seq<(Seq<char>, TreeModel)>,
    items: Seq<Seq<char>>,
    target_name: Seq<char>,
    timestamp: u64,
    retention: nat,
)
    requires
        describes(target_listing, target),
        lists_items(target_listing, target, items),
        lists_items(source_listing, source, items),
        forall|i: int| 0 <= i < items.len() ==> !snapshot_like(#[trigger] items[i]),
        forall|key: Seq<char>|
            #[trigger] items.contains(key) && source.contains_key(key) && target.contains_key(key)
                ==> (source[key] is Dir == target[key] is Dir),
        !target.contains_key(backup_name(timestamp)),
    ensures
        carried_out(
            Node::Dir(source),
            Node::Dir(target),
            sync_plan(source_listing, target_listing, items, target_name, timestamp, retention),
        ) == Node::Dir(
            synced(
                source,
                target,
                source_listing,
                target_listing,
                items,
                target_name,
                timestamp,
                retention,
            ),
        ),
{
    let src = Node::Dir(source);
    let tgt = Node::Dir(target);
    let name = backup_name(timestamp);
    lemma_backup_name_round_trip(timestamp);
    assert(!items.contains(name)) by {
        if items.contains(name) {
            let i = choose|i: int| 0 <= i < items.len() && items[i] == name;
            assert(!snapshot_like(items[i]));
        }
    }
    let start = seq![ActionModel::Announce(MessageModel::Syncing { target: target_name })];
    let told = ActionModel::Announce(MessageModel::BackupCreated { name });
    let save = match backup_plan(target_listing, items, timestamp) {
        Some(actions) => actions.push(told),
        None => Seq::empty(),
    };
    let copies = copy_actions(source_listing, items, items.len());
    let entries = listing_after_backup(target_listing, items, timestamp);
    let doomed = prune_list(entries, retention);
    let prunes = prune_actions(doomed, doomed.len());
    crate::model::lemma_sync_phases(
        source,
        target,
        source_listing,
        target_listing,
        items,
        target_name,
        timestamp,
        retention,
    );
    lemma_carried_concat(src, tgt, start + save + copies, prunes, prunes.len());
    lemma_carried_concat(src, tgt, start + save, copies, copies.len());
    lemma_carried_concat(src, tgt, start, save, save.len());
    assert(carried_out(src, tgt, start) == tgt) by {
        assert(carried(src, tgt, start, 0) == tgt);
        assert(action_ops(start[0]) =~= Seq::<OpModel>::empty());
    }
    let saved = after_backup(target, target_listing, items, timestamp);
    // The snapshot.
    assert(carried_out(src, tgt, save) == Node::Dir(saved)) by {
        match backup_plan(target_listing, items, timestamp) {
            Some(actions) => {
                let op = OpModel::CreateDirAll(top(Root::Target, name));
                let made_action = ActionModel::MakeBackupDir { name, ops: seq![op] };
                let each = backup_actions(target_listing, items, name, items.len());
                assert(actions == seq![made_action] + each);
                lemma_carried_push(src, tgt, actions, told);
                assert(action_ops(told) =~= Seq::<OpModel>::empty());
                lemma_carried_concat(src, tgt, seq![made_action], each, each.len());
                let made = target.insert(name, Node::Dir(Map::empty()));
                assert(carried_out(src, tgt, seq![made_action]) == Node::Dir(made)) by {
                    assert(carried(src, tgt, seq![made_action], 0) == tgt);
                    assert(action_ops(made_action) == seq![op]);
                    assert(performed(src, tgt, seq![op]) == perform(src, tgt, op)) by {
                        assert(perform_all(src, tgt, seq![op], 0) == tgt);
                    }
                    lemma_top_level(target, name, Node::Dir(Map::empty()));
                    lemma_make_dirs(tgt, seq![name]);
                }
                assert(lists_items(target_listing, made, items)) by {
                    assert forall|key: Seq<char>| #[trigger] items.contains(key) implies (has_key(
                        target_listing,
                        key,
                    ) <==> made.contains_key(key)) by {}
                    assert forall|i: int|
                        0 <= i < target_listing.len() && items.contains(
                            (#[trigger] target_listing[i]).0,
                        ) implies has_shape(made[target_listing[i].0], target_listing[i].1) by {
                        assert(has_shape(target[target_listing[i].0], target_listing[i].1));
                    }
                }
                assert(made[name]->Dir_0 =~= Map::<Seq<char>, Node>::empty());
                lemma_backup_carried(src, made, target_listing, items, name, items.len());
            },
            None => {
                assert(carried(src, tgt, save, 0) == tgt);
            },
        }
    }
    // The copies.
    assert forall|key: Seq<char>|
        #[trigger] items.contains(key) && source.contains_key(key) && saved.contains_key(
            key,
        ) implies (source[key] is Dir == saved[key] is Dir) by {
        if backup_plan(target_listing, items, timestamp) is Some {
            let made = target.insert(name, Node::Dir(Map::empty()));
            lemma_backup_frame(Map::empty(), made, target_listing, items, name, items.len());
            assert(saved.dom() == made.dom());
            assert(saved[key] == made[key]);
        }
    }
    lemma_copies_carried(source, saved, source_listing, items, items.len());
    let copied = run_all(source, saved, copies);
    // The removals.
    lemma_copy_effect(source, saved, source_listing, items, items.len());
    assert forall|i: int| 0 <= i < doomed.len() && copied.contains_key(
        #[trigger] doomed[i],
    ) implies copied[doomed[i]] is Dir by {
        let key = doomed[i];
        assert(doomed.contains(key));
        crate::backup::lemma_prune_list_members(entries, retention, key);
        if among(items, key, items.len()) {
            let w = choose|w: int|
                0 <= w < items.len() && w < items.len() && #[trigger] items[w] == key;
            assert(!snapshot_like(items[w]));
        }
        assert(saved.contains_key(key) && copied[key] == saved[key]);
        let old = shallow(target_listing);
        let e = choose|e: int| 0 <= e < entries.len() && entries[e] == (key, true);
        if backup_plan(target_listing, items, timestamp) is Some {
            let made = target.insert(name, Node::Dir(Map::empty()));
            lemma_backup_frame(Map::empty(), made, target_listing, items, name, items.len());
            if key != name {
                assert(saved[key] == made[key]);
                assert(e < old.len());
                assert(old[e] == (target_listing[e].0, target_listing[e].1 is Dir));
                assert(has_key(target_listing, key));
                assert(target[target_listing[e].0] is Dir);
            }
        } else {
            assert(old[e] == (target_listing[e].0, target_listing[e].1 is Dir));
            assert(target[target_listing[e].0] is Dir);
        }
    }
    lemma_prunes_carried(src, copied, doomed, doomed.len());
    lemma_prune_ignores_source(source, Map::empty(), copied, doomed, doomed.len());
}

/// The items that are planned from a listing of the source under the
/// given patterns.
pub open spec fn planned(
    source_listing: Seq<(Seq<char>, TreeModel)>,
    patterns: Seq<Seq<char>>,
) -> Seq<Seq<char>> {
    crate::sync::plan_items(
        crate::sync::catalog(),
        source_listing,
        patterns,
        crate::sync::catalog().len(),
    )
}

/// Syncing the planned items again changes nothing. Let the items be
/// planned from a true listing of the source, and synced twice from the
/// same source, the second time at a later time than that of any snapshot
/// in the target and from a true listing of the target as the first sync
/// left it. Then each item in the target is after the second sync what it
/// was after the first, and so is everything else that is not named like
/// a snapshot; and if anything was planned, the second snapshot holds
/// exactly the items, each as the first sync left it.
#[verifier::spinoff_prover]
#[verifier::rlimit(40)]
pub proof fn lemma_planned_resync_is_idempotent(
    source: Map<Seq<char>, Node>,
    target: Map<Seq<char>, Node>,
    source_listing: Seq<(Seq<char>, TreeModel)>,
    first_listing: Seq<(Seq<char>, TreeModel)>,
    second_listing: Seq<(Seq<char>, TreeModel)>,
    patterns: Seq<Seq<char>>,
    target_name: Seq<char>,
    first_time: u64,
    second_time: u64,
    retention: nat,
)
    requires
        lists_items(source_listing, source, planned(source_listing, patterns)),
        describes(
            second_listing,
            synced(
                source,
                target,
                source_listing,
                first_listing,
                planned(source_listing, patterns),
                target_name,
                first_time,
                retention,
            ),
        ),
        crate::model::all_older(
            synced(
                source,
                target,
                source_listing,
                first_listing,
                planned(source_listing, patterns),
                target_name,
                first_time,
                retention,
            ),
            second_time,
        ),
    ensures
        ({
            let items = planned(source_listing, patterns);
            let once = synced(
                source,
                target,
                source_listing,
                first_listing,
                items,
                target_name,
                first_time,
                retention,
            );
            let twice = synced(
                source,
                once,
                source_listing,
                second_listing,
                items,
                target_name,
                second_time,
                retention,
            );
            let backup = backup_name(second_time);
            forall|key: Seq<char>|
                items.contains(key) ==> (#[trigger] twice.contains_key(key)) && twice[key]
                    == once[key] && once[key] == source[key]
        }),
        ({
            let items = planned(source_listing, patterns);
            let once = synced(
                source,
                target,
                source_listing,
                first_listing,
                items,
                target_name,
                first_time,
                retention,
            );
            let twice = synced(
                source,
                once,
                source_listing,
                second_listing,
                items,
                target_name,
                second_time,
                retention,
            );
            let backup = backup_name(second_time);
            forall|key: Seq<char>|
                !snapshot_like(key) ==> (#[trigger] twice.contains_key(key)) == once.contains_key(
                    key,
                ) && (once.contains_key(key) ==> twice[key] == once[key])
        }),
        ({
            let items = planned(source_listing, patterns);
            let once = synced(
                source,
                target,
                source_listing,
                first_listing,
                items,
                target_name,
                first_time,
                retention,
            );
            let twice = synced(
                source,
                once,
                source_listing,
                second_listing,
                items,
                target_name,
                second_time,
                retention,
            );
            let backup = backup_name(second_time);
            items.len() > 0 ==> twice.contains_key(backup) && twice[backup] is Dir
        }),
        ({
            let items = planned(source_listing, patterns);
            let once = synced(
                source,
                target,
                source_listing,
                first_listing,
                items,
                target_name,
                first_time,
                retention,
            );
            let twice = synced(
                source,
                once,
                source_listing,
                second_listing,
                items,
                target_name,
                second_time,
                retention,
            );
            let backup = backup_name(second_time);
            items.len() > 0 ==> forall|key: Seq<char>|
                (#[trigger] twice[backup]->Dir_0.contains_key(key)) <==> items.contains(key)
        }),
        ({
            let items = planned(source_listing, patterns);
            let once = synced(
                source,
                target,
                source_listing,
                first_listing,
                items,
                target_name,
                first_time,
                retention,
            );
            let twice = synced(
                source,
                once,
                source_listing,
                second_listing,
                items,
                target_name,
                second_time,
                retention,
            );
            let backup = backup_name(second_time);
            items.len() > 0 ==> forall|key: Seq<char>|
                items.contains(key) ==> #[trigger] twice[backup]->Dir_0[key] == once[key]
        }),
{
    let items = planned(source_listing, patterns);
    let once = synced(
        source,
        target,
        source_listing,
        first_listing,
        items,
        target_name,
        first_time,
        retention,
    );
    let twice = synced(
        source,
        once,
        source_listing,
        second_listing,
        items,
        target_name,
        second_time,
        retention,
    );
    assert forall|i: int| 0 <= i < items.len() implies source.contains_key(#[trigger] items[i])
        && !snapshot_like(items[i]) by {
        assert(items.contains(items[i]));
        crate::model::lemma_planned_items(source_listing, patterns, items[i]);
    }
    assert forall|key: Seq<char>| items.contains(key) implies (#[trigger] twice.contains_key(key))
        && twice[key] == once[key] && once[key] == source[key] by {
        let i = choose|i: int| 0 <= i < items.len() && items[i] == key;
        crate::model::lemma_sync_copies_items(
            source,
            target,
            source_listing,
            first_listing,
            items,
            target_name,
            first_time,
            retention,
            key,
        );
        crate::model::lemma_sync_copies_items(
            source,
            once,
            source_listing,
            second_listing,
            items,
            target_name,
            second_time,
            retention,
            key,
        );
    }
    assert forall|key: Seq<char>| !snapshot_like(key) implies (#[trigger] twice.contains_key(key))
        == once.contains_key(key) && (once.contains_key(key) ==> twice[key] == once[key]) by {
        if items.contains(key) {
            assert(twice.contains_key(key));
            let i = choose|i: int| 0 <= i < items.len() && items[i] == key;
            crate::model::lemma_sync_copies_items(
                source,
                target,
                source_listing,
                first_listing,
                items,
                target_name,
                first_time,
                retention,
                key,
            );
        } else {
            crate::model::lemma_sync_leaves_the_rest(
                source,
                once,
                source_listing,
                second_listing,
                items,
                target_name,
                second_time,
                retention,
                key,
            );
        }
    }
    if items.len() > 0 {
        crate::model::lemma_resync_is_idempotent(
            source,
            target,
            source_listing,
            first_listing,
            second_listing,
            items,
            target_name,
            first_time,
            second_time,
            retention,
        );
        let backup = backup_name(second_time);
        assert(twice.contains_key(backup));
        assert(twice[backup] is Dir);
        assert(forall|key: Seq<char>|
            (#[trigger] twice[backup]->Dir_0.contains_key(key)) <==> items.contains(key));
        assert(forall|key: Seq<char>|
            items.contains(key) ==> #[trigger] twice[backup]->Dir_0[key] == once[key]);
    }
}

/// The retention bound for planned items. Let the items planned from a
/// true listing of the source, of which there is at least one, be synced
/// to a target at a series of rising times that is longer than the
/// retention limit, each sync planned from a true listing of the target as
/// it then is, the first at a time later than that of any snapshot the
/// target holds. Then the snapshot directories in the target at the end
/// are exactly those taken at the last `retention` times.
#[verifier::spinoff_prover]
#[verifier::rlimit(40)]
pub proof fn lemma_planned_retention_bound(
    source: Map<Seq<char>, Node>,
    target: Map<Seq<char>, Node>,
    source_listing: Seq<(Seq<char>, TreeModel)>,
    listings: Seq<Seq<(Seq<char>, TreeModel)>>,
    patterns: Seq<Seq<char>>,
    target_name: Seq<char>,
    times: Seq<u64>,
    retention: nat,
)
    requires
        0 < retention < times.len(),
        listings.len() == times.len(),
        planned(source_listing, patterns).len() > 0,
        lists_items(source_listing, source, planned(source_listing, patterns)),
        crate::model::all_older(target, times[0]),
        forall|i: int, j: int| 0 <= i < j < times.len() ==> times[i] < times[j],
        forall|m: int|
            0 <= m < times.len() ==> describes(
                #[trigger] listings[m],
                crate::model::resynced(
                    source,
                    target,
                    source_listing,
                    listings,
                    planned(source_listing, patterns),
                    target_name,
                    times,
                    retention,
                    m as nat,
                ),
            ),
    ensures
        forall|name: Seq<char>| #[trigger]
            crate::model::is_snapshot(
                crate::model::resynced(
                    source,
                    target,
                    source_listing,
                    listings,
                    planned(source_listing, patterns),
                    target_name,
                    times,
                    retention,
                    times.len(),
                ),
                name,
            ) <==> exists|j: int|
                times.len() - retention <= j < times.len() && name == backup_name(
                    #[trigger] times[j],
                ),
        forall|i: int, j: int|
            0 <= i < j < times.len() ==> backup_name(times[i]) != backup_name(times[j]),
{
    let items = planned(source_listing, patterns);
    assert forall|i: int| 0 <= i < items.len() implies source.contains_key(#[trigger] items[i])
        && !snapshot_like(items[i]) by {
        assert(items.contains(items[i]));
        crate::model::lemma_planned_items(source_listing, patterns, items[i]);
    }
    crate::model::lemma_retention_bound(
        source,
        target,
        source_listing,
        listings,
        items,
        target_name,
        times,
        retention,
    );
}

proof fn lemma_prune_ignores_source(
    source: Map<Seq<char>, Node>,
    other: Map<Seq<char>, Node>,
    target: Map<Seq<char>, Node>,
    names: Seq<Seq<char>>,
    n: nat,
)
    requires
        n <= names.len(),
    ensures
        run_all(source, target, prune_actions(names, n)) == run_all(
            other,
            target,
            prune_actions(names, n),
        ),
    decreases n,
{
    if n > 0 {
        lemma_prune_ignores_source(source, other, target, names, (n - 1) as nat);
        let before = prune_actions(names, (n - 1) as nat);
        let action = prune_actions(names, n).last();
        assert(prune_actions(names, n) =~= before.push(action));
        lemma_run_push(source, target, before, action);
        lemma_run_push(other, target, before, action);
    }
}

} // verus!
