//! A parsed log record: a tree of objects and scalars, held as the key paths of its nodes.

use vstd::prelude::*;
use crate::order::{
    chars_equal,
    lemma_path_lt_irreflexive, lemma_path_lt_total, lemma_path_lt_transitive, path_equal,
    path_less, path_lt,
};
use crate::text::{chars_of, copy_chars, lemma_views_push, views};
use crate::value::{EntryView, LogEntry};

verus! {

/// A node of a record: the keys that lead to it from the root, and what it holds.
pub struct LogNode {
    pub path: Vec<Vec<char>>,
    pub entry: LogEntry,
}

impl View for LogNode {
    type V = (Seq<Seq<char>>, EntryView);

    open spec fn view(&self) -> (Seq<Seq<char>>, EntryView) {
        (views(self.path@), self.entry@)
    }
}

/// A copy of the key path `p`.
pub fn copy_path(p: &Vec<Vec<char>>) -> (r: Vec<Vec<char>>)
    ensures
        views(r@) == views(p@),
{
    let mut r: Vec<Vec<char>> = Vec::new();
    for i in 0..p.len()
        invariant
            views(r@) == views(p@).take(i as int),
            r@.len() == i,
    {
        let c = copy_chars(&p[i]);
        let ghost old_r = r@;
        r.push(c);
        proof {
            lemma_views_push(old_r, c);
        }
        assert(views(r@) =~= views(p@).take(i + 1));
    }
    assert(views(p@).take(p@.len() as int) =~= views(p@));
    r
}

impl LogNode {
    /// A copy of this node.
    pub fn duplicate(&self) -> (r: LogNode)
        ensures
            r@ == self@,
    {
        LogNode { path: copy_path(&self.path), entry: self.entry.duplicate() }
    }
}

/// The nodes are in strictly increasing key-path order (so no path occurs twice),
/// and no node sits at the root.
pub open spec fn nodes_wf(es: Seq<(Seq<Seq<char>>, EntryView)>) -> bool {
    &&& forall|i: int, j: int| 0 <= i < j < es.len() ==> path_lt(#[trigger] es[i].0, #[trigger] es[j].0)
    &&& forall|i: int| 0 <= i < es.len() ==> (#[trigger] es[i].0).len() > 0
}

/// Some node has the key path `p`.
pub open spec fn has_path(es: Seq<(Seq<Seq<char>>, EntryView)>, p: Seq<Seq<char>>) -> bool {
    exists|i: int| 0 <= i < es.len() && (#[trigger] es[i].0) == p
}

/// The record as a map from key paths to what the nodes there hold.
pub open spec fn as_map(es: Seq<(Seq<Seq<char>>, EntryView)>) -> Map<Seq<Seq<char>>, EntryView> {
    Map::new(
        |p: Seq<Seq<char>>| has_path(es, p),
        |p: Seq<Seq<char>>| es[choose|i: int| 0 <= i < es.len() && (#[trigger] es[i].0) == p].1,
    )
}

/// In a well-formed sequence of nodes, the map holds each node's entry at its path.
pub proof fn lemma_as_map_at(es: Seq<(Seq<Seq<char>>, EntryView)>, i: int)
    requires
        nodes_wf(es),
        0 <= i < es.len(),
    ensures
        as_map(es).dom().contains(es[i].0),
        as_map(es)[es[i].0] == es[i].1,
{
    assert(has_path(es, es[i].0));
    let j = choose|j: int| 0 <= j < es.len() && (#[trigger] es[j].0) == es[i].0;
    if j != i {
        lemma_path_lt_irreflexive(es[i].0);
        if j < i {
            assert(path_lt(es[j].0, es[i].0));
        } else {
            assert(path_lt(es[i].0, es[j].0));
        }
    }
}


/// Dropping the first node of a well-formed sequence removes its path from the map.
pub proof fn lemma_as_map_drop_first(es: Seq<(Seq<Seq<char>>, EntryView)>)
    requires
        nodes_wf(es),
        es.len() > 0,
    ensures
        nodes_wf(es.drop_first()),
        as_map(es.drop_first()) == as_map(es).remove(es[0].0),
{
    let ns = es.drop_first();
    assert forall|i: int, j: int| 0 <= i < j < ns.len() implies path_lt(#[trigger] ns[i].0, #[trigger] ns[j].0) by {
        assert(ns[i] == es[i + 1] && ns[j] == es[j + 1]);
    }
    assert forall|i: int| 0 <= i < ns.len() implies (#[trigger] ns[i].0).len() > 0 by {
        assert(ns[i] == es[i + 1]);
    }
    let m = as_map(es).remove(es[0].0);
    assert forall|q: Seq<Seq<char>>| #[trigger] m.dom().contains(q) implies as_map(ns).dom().contains(q)
        && as_map(ns)[q] == m[q] by {
        let j = choose|j: int| 0 <= j < es.len() && (#[trigger] es[j].0) == q;
        assert(j != 0);
        lemma_as_map_at(es, j);
        assert(ns[j - 1] == es[j]);
        lemma_as_map_at(ns, j - 1);
    }
    assert forall|q: Seq<Seq<char>>| #[trigger] as_map(ns).dom().contains(q) implies m.dom().contains(q) by {
        let j = choose|j: int| 0 <= j < ns.len() && (#[trigger] ns[j].0) == q;
        assert(ns[j] == es[j + 1]);
        assert(path_lt(es[0].0, es[j + 1].0));
        lemma_path_lt_irreflexive(q);
        assert(has_path(es, q));
    }
    assert(as_map(ns) =~= m);
}

/// Law: a record has one node order only; two well-formed node sequences with the same map
/// are the same sequence.
pub proof fn lemma_nodes_unique(es1: Seq<(Seq<Seq<char>>, EntryView)>, es2: Seq<(Seq<Seq<char>>, EntryView)>)
    requires
        nodes_wf(es1),
        nodes_wf(es2),
        as_map(es1) == as_map(es2),
    ensures
        es1 == es2,
    decreases es1.len(),
{
    if es1.len() == 0 {
        if es2.len() > 0 {
            lemma_as_map_at(es2, 0);
        }
        assert(es1 =~= es2);
    } else {
        lemma_as_map_at(es1, 0);
        assert(es2.len() > 0);
        lemma_as_map_at(es2, 0);
        let a = es1[0].0;
        let b = es2[0].0;
        if a != b {
            let j = choose|j: int| 0 <= j < es2.len() && (#[trigger] es2[j].0) == a;
            let k = choose|k: int| 0 <= k < es1.len() && (#[trigger] es1[k].0) == b;
            assert(path_lt(b, a));
            assert(path_lt(a, b));
            lemma_path_lt_transitive(a, b, a);
            lemma_path_lt_irreflexive(a);
        }
        assert(es1[0] == es2[0]);
        lemma_as_map_drop_first(es1);
        lemma_as_map_drop_first(es2);
        lemma_nodes_unique(es1.drop_first(), es2.drop_first());
        assert(es1 =~= seq![es1[0]] + es1.drop_first());
        assert(es2 =~= seq![es2[0]] + es2.drop_first());
    }
}

/// The node order of a record map: its nodes in increasing key-path order.
pub open spec fn canonical(m: Map<Seq<Seq<char>>, EntryView>) -> Seq<(Seq<Seq<char>>, EntryView)> {
    choose|es: Seq<(Seq<Seq<char>>, EntryView)>| nodes_wf(es) && as_map(es) == m
}

/// A well-formed node sequence is the node order of its map.
pub proof fn lemma_canonical(es: Seq<(Seq<Seq<char>>, EntryView)>)
    requires
        nodes_wf(es),
    ensures
        canonical(as_map(es)) == es,
{
    let c = canonical(as_map(es));
    assert(nodes_wf(c) && as_map(c) == as_map(es));
    lemma_nodes_unique(c, es);
}

/// The views of a sequence of nodes.
pub open spec fn node_views(v: Seq<LogNode>) -> Seq<(Seq<Seq<char>>, EntryView)> {
    v.map_values(|n: LogNode| n@)
}

/// Appending a node with a later path than all others adds it to the map.
pub proof fn lemma_as_map_push(es: Seq<(Seq<Seq<char>>, EntryView)>, x: (Seq<Seq<char>>, EntryView))
    requires
        nodes_wf(es.push(x)),
    ensures
        nodes_wf(es),
        as_map(es.push(x)) == as_map(es).insert(x.0, x.1),
{
    let ns = es.push(x);
    assert forall|i: int, j: int| 0 <= i < j < es.len() implies path_lt(#[trigger] es[i].0, #[trigger] es[j].0) by {
        assert(ns[i] == es[i] && ns[j] == es[j]);
    }
    assert forall|i: int| 0 <= i < es.len() implies (#[trigger] es[i].0).len() > 0 by {
        assert(ns[i] == es[i]);
    }
    let m = as_map(es).insert(x.0, x.1);
    assert forall|q: Seq<Seq<char>>| #[trigger] m.dom().contains(q) implies as_map(ns).dom().contains(q)
        && as_map(ns)[q] == m[q] by {
        if q == x.0 {
            lemma_as_map_at(ns, es.len() as int);
        } else {
            let j = choose|j: int| 0 <= j < es.len() && (#[trigger] es[j].0) == q;
            lemma_as_map_at(es, j);
            assert(ns[j] == es[j]);
            lemma_as_map_at(ns, j);
        }
    }
    assert forall|q: Seq<Seq<char>>| #[trigger] as_map(ns).dom().contains(q) implies m.dom().contains(q) by {
        let j = choose|j: int| 0 <= j < ns.len() && (#[trigger] ns[j].0) == q;
        if j < es.len() {
            assert(ns[j] == es[j]);
            assert(has_path(es, q));
        }
    }
    assert(as_map(ns) =~= m);
}

/// `p` is a proper prefix of `q`: `q` lies in the subtree below `p`.
pub open spec fn is_strict_prefix(p: Seq<Seq<char>>, q: Seq<Seq<char>>) -> bool {
    p.len() < q.len() && q.take(p.len() as int) == p
}

/// Whether `p` is a proper prefix of `q`.
pub fn strict_prefix(p: &Vec<Vec<char>>, q: &Vec<Vec<char>>) -> (r: bool)
    ensures
        r == is_strict_prefix(views(p@), views(q@)),
{
    if p.len() >= q.len() {
        return false;
    }
    let n = p.len();
    for i in 0..n
        invariant
            n == p.len() < q.len(),
            forall|j: int| 0 <= j < i ==> p@[j]@ == q@[j]@,
    {
        if !chars_equal(&p[i], &q[i]) {
            assert(views(q@).take(n as int)[i as int] != views(p@)[i as int]);
            return false;
        }
    }
    assert(views(q@).take(n as int) =~= views(p@));
    true
}

/// `t` with the value at `p` set to `v` and everything below `p` gone, as inserting into a
/// JSON object replaces the member.
pub open spec fn replace_at(t: Map<Seq<Seq<char>>, EntryView>, p: Seq<Seq<char>>, v: EntryView) -> Map<
    Seq<Seq<char>>,
    EntryView,
> {
    Map::new(
        |q: Seq<Seq<char>>| (t.dom().contains(q) && !is_strict_prefix(p, q)) || q == p,
        |q: Seq<Seq<char>>| if q == p { v } else { t[q] },
    )
}

/// Walking down `keys` from key `i` on, each missing object is created; the walk stops at a
/// scalar, as `entry(..).or_insert_with(..)` followed by `as_object_mut` does.
pub open spec fn ensure_from(t: Map<Seq<Seq<char>>, EntryView>, keys: Seq<Seq<char>>, i: int) -> Map<
    Seq<Seq<char>>,
    EntryView,
>
    decreases keys.len() - i,
{
    if i < 0 || i >= keys.len() {
        t
    } else {
        let p = keys.take(i + 1);
        if !t.dom().contains(p) {
            ensure_from(t.insert(p, EntryView::Object), keys, i + 1)
        } else if t[p] is Object {
            ensure_from(t, keys, i + 1)
        } else {
            t
        }
    }
}

/// Like `ensure_from`, but the last key gets the value `v` (replacing whatever was there).
pub open spec fn set_from(
    t: Map<Seq<Seq<char>>, EntryView>,
    keys: Seq<Seq<char>>,
    i: int,
    v: EntryView,
) -> Map<Seq<Seq<char>>, EntryView>
    decreases keys.len() - i,
{
    if i < 0 || i >= keys.len() {
        t
    } else if i + 1 == keys.len() {
        replace_at(t, keys, v)
    } else {
        let p = keys.take(i + 1);
        if !t.dom().contains(p) {
            set_from(t.insert(p, EntryView::Object), keys, i + 1, v)
        } else if t[p] is Object {
            set_from(t, keys, i + 1, v)
        } else {
            t
        }
    }
}

/// The part of the map of `es` that replacing at `p` keeps, from the first `i` nodes.
pub open spec fn kept_map(es: Seq<(Seq<Seq<char>>, EntryView)>, i: int, p: Seq<Seq<char>>) -> Map<
    Seq<Seq<char>>,
    EntryView,
> {
    Map::new(
        |q: Seq<Seq<char>>| has_path(es.take(i), q) && !is_strict_prefix(p, q) && q != p,
        |q: Seq<Seq<char>>| as_map(es)[q],
    )
}

proof fn lemma_kept_map_step(es: Seq<(Seq<Seq<char>>, EntryView)>, i: int, p: Seq<Seq<char>>)
    requires
        nodes_wf(es),
        0 <= i < es.len(),
    ensures
        !is_strict_prefix(p, es[i].0) && es[i].0 != p ==> kept_map(es, i + 1, p) == kept_map(
            es,
            i,
            p,
        ).insert(es[i].0, es[i].1),
        is_strict_prefix(p, es[i].0) || es[i].0 == p ==> kept_map(es, i + 1, p) == kept_map(
            es,
            i,
            p,
        ),
{
    lemma_as_map_at(es, i);
    assert forall|q: Seq<Seq<char>>| #[trigger] has_path(es.take(i + 1), q) <==> (has_path(es.take(i), q)
        || es[i].0 == q) by {
        if has_path(es.take(i + 1), q) {
            let j = choose|j: int| 0 <= j < i + 1 && (#[trigger] es.take(i + 1)[j].0) == q;
            if j < i {
                assert(es.take(i)[j] == es[j]);
            }
        }
        if has_path(es.take(i), q) {
            let j = choose|j: int| 0 <= j < i && (#[trigger] es.take(i)[j].0) == q;
            assert(es.take(i + 1)[j] == es[j]);
        }
        if es[i].0 == q {
            assert(es.take(i + 1)[i] == es[i]);
        }
    }
    if !is_strict_prefix(p, es[i].0) && es[i].0 != p {
        let a = kept_map(es, i + 1, p);
        let b = kept_map(es, i, p).insert(es[i].0, es[i].1);
        assert forall|q: Seq<Seq<char>>| #[trigger] a.dom().contains(q) <==> b.dom().contains(q) by {
            assert(has_path(es.take(i + 1), q) <==> (has_path(es.take(i), q) || es[i].0 == q));
        }
        assert forall|q: Seq<Seq<char>>| #[trigger] a.dom().contains(q) implies a[q] == b[q] by {
            if q == es[i].0 {
            } else {
            }
        }
        assert(a =~= b);
    } else {
        assert(kept_map(es, i + 1, p) =~= kept_map(es, i, p));
    }
}

/// A parsed log record.
pub struct LogTree {
    nodes: Vec<LogNode>,
}

impl View for LogTree {
    type V = Seq<(Seq<Seq<char>>, EntryView)>;

    closed spec fn view(&self) -> Seq<(Seq<Seq<char>>, EntryView)> {
        node_views(self.nodes@)
    }
}

impl LogTree {
    /// The record's nodes are well formed.
    pub open spec fn wf(&self) -> bool {
        nodes_wf(self@)
    }

    /// The record as a map from key paths to entries.
    pub open spec fn map(&self) -> Map<Seq<Seq<char>>, EntryView> {
        as_map(self@)
    }

    /// The empty record.
    pub fn new() -> (r: LogTree)
        ensures
            r.wf(),
            r@ == Seq::<(Seq<Seq<char>>, EntryView)>::empty(),
    {
        let r = LogTree { nodes: Vec::new() };
        assert(r@ =~= Seq::<(Seq<Seq<char>>, EntryView)>::empty());
        r
    }

    /// The number of nodes below the root.
    pub fn len(&self) -> (r: usize)
        ensures
            r == self@.len(),
    {
        self.nodes.len()
    }

    /// The node at index `i` in key-path order.
    pub fn node(&self, i: usize) -> (r: &LogNode)
        requires
            i < self@.len(),
        ensures
            r@ == self@[i as int],
    {
        &self.nodes[i]
    }

    /// The index of the node at key path `p`, if there is one.
    pub fn find(&self, p: &Vec<Vec<char>>) -> (r: Option<usize>)
        ensures
            r is None <==> !has_path(self@, views(p@)),
            r matches Some(i) ==> i < self@.len() && self@[i as int].0 == views(p@),
    {
        let n = self.nodes.len();
        for i in 0..n
            invariant
                n == self.nodes.len(),
                forall|j: int| 0 <= j < i ==> self@[j].0 != views(p@),
        {
            if path_equal(&self.nodes[i].path, p) {
                assert(self@[i as int].0 == views(p@));
                return Some(i);
            }
        }
        None
    }

    /// The entry at key path `p`, if there is one.
    pub fn get_path(&self, p: &Vec<Vec<char>>) -> (r: Option<&LogEntry>)
        requires
            self.wf(),
        ensures
            r is None <==> !self.map().dom().contains(views(p@)),
            r matches Some(e) ==> self.map()[views(p@)] == e@,
    {
        match self.find(p) {
            Some(i) => {
                proof {
                    lemma_as_map_at(self@, i as int);
                }
                Some(&self.nodes[i].entry)
            },
            None => None,
        }
    }

    /// Sets the value at `p` to `e`, dropping everything below `p`.
    fn replace(&mut self, p: &Vec<Vec<char>>, e: LogEntry)
        requires
            old(self).wf(),
            p@.len() > 0,
        ensures
            final(self).wf(),
            final(self).map() == replace_at(old(self).map(), views(p@), e@),
    {
        let ghost es = self@;
        let ghost pv = views(p@);
        let n = self.nodes.len();
        let mut kept: Vec<LogNode> = Vec::new();
        assert(kept_map(es, 0, pv) =~= as_map(node_views(kept@)));
        for i in 0..n
            invariant
                n == self.nodes.len(),
                es == self@,
                pv == views(p@),
                nodes_wf(es),
                nodes_wf(node_views(kept@)),
                forall|a: int, k: int|
                    0 <= a < kept@.len() && i <= k < n ==> path_lt(
                        #[trigger] node_views(kept@)[a].0,
                        #[trigger] es[k].0,
                    ),
                as_map(node_views(kept@)) == kept_map(es, i as int, pv),
        {
            proof {
                lemma_kept_map_step(es, i as int, pv);
            }
            let keep = !strict_prefix(p, &self.nodes[i].path) && !path_equal(&self.nodes[i].path, p);
            if keep {
                let d = self.nodes[i].duplicate();
                let ghost old_kept = node_views(kept@);
                kept.push(d);
                proof {
                    assert(node_views(kept@) =~= old_kept.push(es[i as int]));
                    assert forall|a: int, b: int|
                        0 <= a < b < node_views(kept@).len() implies path_lt(
                        #[trigger] node_views(kept@)[a].0,
                        #[trigger] node_views(kept@)[b].0,
                    ) by {
                        if b == old_kept.len() {
                            assert(path_lt(old_kept[a].0, es[i as int].0));
                        } else {
                            assert(node_views(kept@)[a] == old_kept[a]);
                            assert(node_views(kept@)[b] == old_kept[b]);
                        }
                    }
                    assert forall|a: int| 0 <= a < node_views(kept@).len() implies (
                    #[trigger] node_views(kept@)[a].0).len() > 0 by {
                        if a < old_kept.len() {
                            assert(node_views(kept@)[a] == old_kept[a]);
                        }
                    }
                    lemma_as_map_push(old_kept, es[i as int]);
                    assert forall|a: int, k: int|
                        0 <= a < node_views(kept@).len() && i + 1 <= k < n implies path_lt(
                        #[trigger] node_views(kept@)[a].0,
                        #[trigger] es[k].0,
                    ) by {
                        if a < old_kept.len() {
                            assert(node_views(kept@)[a] == old_kept[a]);
                        }
                    }
                }
            }
        }
        assert(es.take(n as int) =~= es);
        let mut t = LogTree { nodes: kept };
        assert(t@ == node_views(kept@));
        assert(!as_map(t@).dom().contains(pv));
        assert(!has_path(t@, pv));
        let pc = copy_path(p);
        assert(views(pc@).len() == pc@.len());
        assert(views(p@).len() == p@.len());
        t.insert_new(pc, e);
        proof {
            let m = replace_at(as_map(es), pv, e@);
            assert(t.map() =~= m);
        }
        *self = t;
    }

    /// Creates the objects along `keys` that are missing, stopping at a scalar.
    pub fn ensure_path(&mut self, keys: &Vec<Vec<char>>)
        requires
            old(self).wf(),
        ensures
            final(self).wf(),
            final(self).map() == ensure_from(old(self).map(), views(keys@), 0),
    {
        let ghost kv = views(keys@);
        let ghost m0 = self.map();
        let n = keys.len();
        let mut prefix: Vec<Vec<char>> = Vec::new();
        let mut i: usize = 0;
        let mut done = false;
        while i < n && !done
            invariant
                i <= n == keys.len(),
                kv == views(keys@),
                self.wf(),
                views(prefix@) == kv.take(i as int),
                prefix@.len() == i,
                !done ==> ensure_from(m0, kv, 0) == ensure_from(self.map(), kv, i as int),
                done ==> ensure_from(m0, kv, 0) == self.map(),
            decreases n - i, (if done { 0int } else { 1int }),
        {
            let c = copy_chars(&keys[i]);
            let ghost old_prefix = prefix@;
            prefix.push(c);
            proof {
                lemma_views_push(old_prefix, c);
                assert(views(prefix@) =~= kv.take(i + 1));
            }
            match self.find(&prefix) {
                None => {
                    let pc = copy_path(&prefix);
                    assert(views(pc@).len() == pc@.len());
                    self.insert_new(pc, LogEntry::Object);
                    i += 1;
                },
                Some(j) => {
                    proof {
                        lemma_as_map_at(self@, j as int);
                    }
                    if !self.nodes[j].entry.is_object() {
                        assert(self@[j as int].1 == self.nodes@[j as int].entry@);
                        assert(self.map().dom().contains(kv.take(i + 1)));
                        assert(!(self.map()[kv.take(i + 1)] is Object));
                        assert(ensure_from(self.map(), kv, i as int) == self.map());
                        prefix.pop();
                        assert(views(prefix@) =~= kv.take(i as int));
                        done = true;
                    } else {
                        assert(self@[j as int].1 == self.nodes@[j as int].entry@);
                        i += 1;
                    }
                },
            }
        }
    }

    /// Creates the objects along all but the last of `keys`, then sets the last to `e`;
    /// nothing is set if the walk meets a scalar on the way.
    pub fn set_path(&mut self, keys: &Vec<Vec<char>>, e: LogEntry)
        requires
            old(self).wf(),
        ensures
            final(self).wf(),
            final(self).map() == set_from(old(self).map(), views(keys@), 0, e@),
    {
        let ghost kv = views(keys@);
        let ghost m0 = self.map();
        let n = keys.len();
        if n == 0 {
            return;
        }
        let mut prefix: Vec<Vec<char>> = Vec::new();
        let mut i: usize = 0;
        let mut done = false;
        while i + 1 < n && !done
            invariant
                i < n == keys.len(),
                kv == views(keys@),
                self.wf(),
                views(prefix@) == kv.take(i as int),
                prefix@.len() == i,
                !done ==> set_from(m0, kv, 0, e@) == set_from(self.map(), kv, i as int, e@),
                done ==> set_from(m0, kv, 0, e@) == self.map(),
            decreases n - i, (if done { 0int } else { 1int }),
        {
            let c = copy_chars(&keys[i]);
            let ghost old_prefix = prefix@;
            prefix.push(c);
            proof {
                lemma_views_push(old_prefix, c);
                assert(views(prefix@) =~= kv.take(i + 1));
            }
            match self.find(&prefix) {
                None => {
                    let pc = copy_path(&prefix);
                    assert(views(pc@).len() == pc@.len());
                    self.insert_new(pc, LogEntry::Object);
                    i += 1;
                },
                Some(j) => {
                    proof {
                        lemma_as_map_at(self@, j as int);
                    }
                    if !self.nodes[j].entry.is_object() {
                        assert(self@[j as int].1 == self.nodes@[j as int].entry@);
                        assert(self.map().dom().contains(kv.take(i + 1)));
                        assert(!(self.map()[kv.take(i + 1)] is Object));
                        assert(set_from(self.map(), kv, i as int, e@) == self.map());
                        prefix.pop();
                        assert(views(prefix@) =~= kv.take(i as int));
                        done = true;
                    } else {
                        assert(self@[j as int].1 == self.nodes@[j as int].entry@);
                        i += 1;
                    }
                },
            }
        }
        if done {
            return;
        }
        self.replace(keys, e);
    }

    /// The entry at the top-level key `key`, if there is one.
    pub fn get(&self, key: &str) -> (r: Option<&LogEntry>)
        requires
            self.wf(),
        ensures
            r is None <==> !self.map().dom().contains(seq![key@]),
            r matches Some(e) ==> self.map()[seq![key@]] == e@,
    {
        let mut p: Vec<Vec<char>> = Vec::new();
        let k = chars_of(key);
        p.push(k);
        assert(views(p@) =~= seq![key@]);
        self.get_path(&p)
    }

    /// Adds a node at a key path that has none.
    fn insert_new(&mut self, p: Vec<Vec<char>>, e: LogEntry)
        requires
            old(self).wf(),
            !has_path(old(self)@, views(p@)),
            p@.len() > 0,
        ensures
            final(self).wf(),
            final(self).map() == old(self).map().insert(views(p@), e@),
    {
        let ghost es = self@;
        let ghost pv = views(p@);
        let ghost ev = e@;
        let n = self.nodes.len();
        let mut i: usize = 0;
        while i < n && path_less(&self.nodes[i].path, &p)
            invariant
                i <= n == self.nodes.len(),
                es == self@,
                pv == views(p@),
                forall|j: int| 0 <= j < i ==> path_lt(#[trigger] es[j].0, pv),
            decreases n - i,
        {
            i += 1;
        }
        proof {
            if i < n {
                assert(es[i as int].0 != pv);
                lemma_path_lt_total(es[i as int].0, pv);
                assert(path_lt(pv, es[i as int].0));
                assert forall|k: int| i < k < n implies path_lt(pv, #[trigger] es[k].0) by {
                    assert(path_lt(es[i as int].0, es[k].0));
                    lemma_path_lt_transitive(pv, es[i as int].0, es[k].0);
                }
            }
        }
        let node = LogNode { path: p, entry: e };
        self.nodes.insert(i, node);
        proof {
            let ns = self@;
            assert(ns =~= es.insert(i as int, (pv, ev)));
            assert forall|a: int, b: int| 0 <= a < b < ns.len() implies path_lt(
                #[trigger] ns[a].0,
                #[trigger] ns[b].0,
            ) by {
                if b < i {
                } else if b == i {
                } else if a < i {
                    assert(ns[b] == es[b - 1]);
                    if b - 1 > i {
                        lemma_path_lt_transitive(es[a].0, pv, es[b - 1].0);
                    } else {
                        lemma_path_lt_transitive(es[a].0, pv, es[b - 1].0);
                    }
                } else if a == i {
                    assert(ns[b] == es[b - 1]);
                } else {
                    assert(ns[a] == es[a - 1]);
                    assert(ns[b] == es[b - 1]);
                }
            }
            assert forall|a: int| 0 <= a < ns.len() implies (#[trigger] ns[a].0).len() > 0 by {
                if a > i {
                    assert(ns[a] == es[a - 1]);
                }
            }
            assert(nodes_wf(ns));
            let m = as_map(es).insert(pv, ev);
            assert forall|q: Seq<Seq<char>>| #[trigger] m.dom().contains(q) implies as_map(
                ns,
            ).dom().contains(q) && as_map(ns)[q] == m[q] by {
                if q == pv {
                    lemma_as_map_at(ns, i as int);
                } else {
                    let j = choose|j: int| 0 <= j < es.len() && (#[trigger] es[j].0) == q;
                    lemma_as_map_at(es, j);
                    if j < i {
                        assert(ns[j] == es[j]);
                        lemma_as_map_at(ns, j);
                    } else {
                        assert(ns[j + 1] == es[j]);
                        lemma_as_map_at(ns, j + 1);
                    }
                }
            }
            assert forall|q: Seq<Seq<char>>| #[trigger] as_map(ns).dom().contains(q) implies m.dom().contains(q) by {
                let j = choose|j: int| 0 <= j < ns.len() && (#[trigger] ns[j].0) == q;
                if j < i {
                    assert(es[j] == ns[j]);
                    assert(has_path(es, q));
                } else if j > i {
                    assert(es[j - 1] == ns[j]);
                    assert(has_path(es, q));
                }
            }
            assert(as_map(ns) =~= m);
        }
    }
}

} // verus!
