//! Merging a configuration patch into the stored configuration: members of the patch
//! replace those of the stored object, nested objects merge member by member.

use vstd::prelude::*;
use crate::text::string_views;

verus! {

/// `serde_json::Value`, carried through unread.
#[verifier::external_type_specification]
#[verifier::external_body]
pub struct ExJsonValue(serde_json::Value);

/// A node of a JSON document below its root: an object (its members are the nodes below
/// it) or any other value, held whole.
pub enum JsonNode {
    Object,
    Leaf(serde_json::Value),
}

/// A member of a JSON object document: the keys that lead to it, and its node.
pub struct JsonMember {
    pub path: Vec<String>,
    pub node: JsonNode,
}

impl View for JsonMember {
    type V = (Seq<Seq<char>>, JsonNode);

    open spec fn view(&self) -> (Seq<Seq<char>>, JsonNode) {
        (string_views(self.path@), self.node)
    }
}

/// The views of a sequence of members.
pub open spec fn member_views(ms: Seq<JsonMember>) -> Seq<(Seq<Seq<char>>, JsonNode)> {
    ms.map_values(|m: JsonMember| m@)
}

/// No key occurs twice among the pairs.
pub open spec fn unique_firsts<K, V>(ps: Seq<(K, V)>) -> bool {
    forall|i: int, j: int| 0 <= i < j < ps.len() ==> (#[trigger] ps[i].0) != (#[trigger] ps[j].0)
}

/// Some pair has key `k`.
pub open spec fn has_first<K, V>(ps: Seq<(K, V)>, k: K) -> bool {
    exists|i: int| 0 <= i < ps.len() && (#[trigger] ps[i].0) == k
}

/// The pairs as a map.
pub open spec fn pair_map<K, V>(ps: Seq<(K, V)>) -> Map<K, V> {
    Map::new(
        |k: K| has_first(ps, k),
        |k: K| ps[choose|i: int| 0 <= i < ps.len() && (#[trigger] ps[i].0) == k].1,
    )
}

/// With unique first components, the map holds each pair's second at its first.
pub proof fn lemma_pair_map_at<K, V>(ps: Seq<(K, V)>, i: int)
    requires
        unique_firsts(ps),
        0 <= i < ps.len(),
    ensures
        pair_map(ps).dom().contains(ps[i].0),
        pair_map(ps)[ps[i].0] == ps[i].1,
{
    assert(has_first(ps, ps[i].0));
    let j = choose|j: int| 0 <= j < ps.len() && (#[trigger] ps[j].0) == ps[i].0;
    if j < i {
        assert(ps[j].0 != ps[i].0);
    } else if j > i {
        assert(ps[i].0 != ps[j].0);
    }
}

/// A JSON document: a value that is no object (`root`), or an object given by its members.
pub struct JsonDoc {
    root: Option<serde_json::Value>,
    members: Vec<JsonMember>,
}

impl View for JsonDoc {
    type V = (Option<serde_json::Value>, Map<Seq<Seq<char>>, JsonNode>);

    closed spec fn view(&self) -> (Option<serde_json::Value>, Map<Seq<Seq<char>>, JsonNode>) {
        (self.root, pair_map(member_views(self.members@)))
    }
}

/// A patch member shadows path `q`: some proper prefix of `q` is a non-object in the patch,
/// so the patch replaces the whole subtree that `q` lies in.
pub open spec fn shadowed(pm: Map<Seq<Seq<char>>, JsonNode>, q: Seq<Seq<char>>) -> bool {
    exists|j: int| 0 < j < q.len() && #[trigger] pm.dom().contains(q.take(j)) && pm[q.take(j)] is Leaf
}

/// The members of two merged objects: every member of the patch, and every member of the
/// base that the patch neither has nor shadows.
pub open spec fn merge_members(
    bm: Map<Seq<Seq<char>>, JsonNode>,
    pm: Map<Seq<Seq<char>>, JsonNode>,
) -> Map<Seq<Seq<char>>, JsonNode> {
    Map::new(
        |q: Seq<Seq<char>>| pm.dom().contains(q) || (bm.dom().contains(q) && !shadowed(pm, q)),
        |q: Seq<Seq<char>>| if pm.dom().contains(q) {
            pm[q]
        } else {
            bm[q]
        },
    )
}

/// The merge of a patch into a base: when both are objects, their members merge; else the
/// patch replaces the base.
pub open spec fn spec_merge_json(
    b: (Option<serde_json::Value>, Map<Seq<Seq<char>>, JsonNode>),
    p: (Option<serde_json::Value>, Map<Seq<Seq<char>>, JsonNode>),
) -> (Option<serde_json::Value>, Map<Seq<Seq<char>>, JsonNode>) {
    if p.0 is Some || b.0 is Some {
        p
    } else {
        (None, merge_members(b.1, p.1))
    }
}

/// Whether the string paths `a` and `b` are equal.
fn strings_equal(a: &Vec<String>, b: &Vec<String>) -> (r: bool)
    ensures
        r == (string_views(a@) == string_views(b@)),
{
    if a.len() != b.len() {
        assert(string_views(a@).len() != string_views(b@).len());
        return false;
    }
    let n = a.len();
    for i in 0..n
        invariant
            n == a.len() == b.len(),
            forall|j: int| 0 <= j < i ==> a@[j]@ == b@[j]@,
    {
        if !(a[i] == b[i]) {
            assert(string_views(a@)[i as int] != string_views(b@)[i as int]);
            return false;
        }
    }
    assert(string_views(a@) =~= string_views(b@));
    true
}

/// The first `j` keys of `q`.
fn path_prefix(q: &Vec<String>, j: usize) -> (r: Vec<String>)
    requires
        j <= q.len(),
    ensures
        string_views(r@) == string_views(q@).take(j as int),
{
    let mut r: Vec<String> = Vec::new();
    for i in 0..j
        invariant
            j <= q.len(),
            r@.len() == i,
            string_views(r@) == string_views(q@).take(i as int),
    {
        let ghost old_r = r@;
        let s = q[i].clone();
        r.push(s);
        assert(r@ == old_r.push(s));
        assert(string_views(r@) =~= string_views(q@).take(i + 1));
    }
    r
}

impl JsonDoc {
    /// Paths are unique, and a document with a non-object root has no members.
    pub closed spec fn wf(&self) -> bool {
        &&& unique_firsts(member_views(self.members@))
        &&& self.root is Some ==> self.members@.len() == 0
    }

    /// A document that is the non-object value `v`.
    pub fn leaf(v: serde_json::Value) -> (r: JsonDoc)
        ensures
            r.wf(),
            r@ == (Some(v), Map::<Seq<Seq<char>>, JsonNode>::empty()),
    {
        let r = JsonDoc { root: Some(v), members: Vec::new() };
        assert(pair_map(member_views(r.members@)) =~= Map::<Seq<Seq<char>>, JsonNode>::empty());
        r
    }

    /// The empty object.
    pub fn object() -> (r: JsonDoc)
        ensures
            r.wf(),
            r@ == (None::<serde_json::Value>, Map::<Seq<Seq<char>>, JsonNode>::empty()),
    {
        let r = JsonDoc { root: None, members: Vec::new() };
        assert(pair_map(member_views(r.members@)) =~= Map::<Seq<Seq<char>>, JsonNode>::empty());
        r
    }

    /// The index of the member at `path`, if any.
    fn find(&self, path: &Vec<String>) -> (r: Option<usize>)
        requires
            self.wf(),
        ensures
            r is None <==> !self@.1.dom().contains(string_views(path@)),
            r matches Some(i) ==> i < self.members@.len() && self.members@[i as int]@.0 == string_views(path@)
                && self@.1[string_views(path@)] == self.members@[i as int].node,
    {
        let n = self.members.len();
        let ghost mv = member_views(self.members@);
        for i in 0..n
            invariant
                n == self.members.len(),
                mv == member_views(self.members@),
                unique_firsts(mv),
                forall|j: int| 0 <= j < i ==> mv[j].0 != string_views(path@),
        {
            if strings_equal(&self.members[i].path, path) {
                assert(mv[i as int].0 == string_views(path@));
                proof {
                    lemma_pair_map_at(mv, i as int);
                }
                return Some(i);
            }
        }
        None
    }

    /// Sets the member at `path` of an object document to `node`.
    pub fn set_member(&mut self, path: Vec<String>, node: JsonNode)
        requires
            old(self).wf(),
            old(self)@.0 is None,
        ensures
            final(self).wf(),
            final(self)@ == (old(self)@.0, old(self)@.1.insert(string_views(path@), node)),
    {
        let ghost old_mv = member_views(self.members@);
        let ghost old_map = self@.1;
        let ghost k = string_views(path@);
        let idx = self.find(&path);
        let m = JsonMember { path, node };
        let ghost mview = m@;
        match idx {
            Some(i) => {
                self.members.set(i, m);
                let ghost ps = member_views(self.members@);
                assert(ps =~= old_mv.update(i as int, mview));
                assert forall|a: int, b: int| 0 <= a < b < ps.len() implies (#[trigger] ps[a].0) != (#[trigger] ps[b].0) by {
                    assert(old_mv[a].0 != old_mv[b].0);
                }
                assert forall|q: Seq<Seq<char>>| #[trigger] old_map.insert(k, node).dom().contains(q) implies pair_map(ps).dom().contains(q) && pair_map(ps)[q] == old_map.insert(k, node)[q] by {
                    if q == k {
                        lemma_pair_map_at(ps, i as int);
                    } else {
                        let j = choose|j: int| 0 <= j < old_mv.len() && (#[trigger] old_mv[j].0) == q;
                        lemma_pair_map_at(old_mv, j);
                        lemma_pair_map_at(ps, j);
                    }
                }
                assert forall|q: Seq<Seq<char>>| #[trigger] pair_map(ps).dom().contains(q) implies old_map.insert(k, node).dom().contains(q) by {
                    let j = choose|j: int| 0 <= j < ps.len() && (#[trigger] ps[j].0) == q;
                    if j != i {
                        assert(old_mv[j].0 == q);
                    }
                }
                assert(pair_map(ps) =~= old_map.insert(k, node));
            },
            None => {
                self.members.push(m);
                let ghost ps = member_views(self.members@);
                assert(ps =~= old_mv.push(mview));
                assert forall|a: int, b: int| 0 <= a < b < ps.len() implies (#[trigger] ps[a].0) != (#[trigger] ps[b].0) by {
                    if b == old_mv.len() {
                        assert(has_first(old_mv, ps[a].0));
                    } else {
                        assert(old_mv[a].0 != old_mv[b].0);
                    }
                }
                assert forall|q: Seq<Seq<char>>| #[trigger] old_map.insert(k, node).dom().contains(q) implies pair_map(ps).dom().contains(q) && pair_map(ps)[q] == old_map.insert(k, node)[q] by {
                    if q == k {
                        lemma_pair_map_at(ps, old_mv.len() as int);
                    } else {
                        let j = choose|j: int| 0 <= j < old_mv.len() && (#[trigger] old_mv[j].0) == q;
                        lemma_pair_map_at(old_mv, j);
                        lemma_pair_map_at(ps, j);
                    }
                }
                assert forall|q: Seq<Seq<char>>| #[trigger] pair_map(ps).dom().contains(q) implies old_map.insert(k, node).dom().contains(q) by {
                    let j = choose|j: int| 0 <= j < ps.len() && (#[trigger] ps[j].0) == q;
                    if j < old_mv.len() {
                        assert(old_mv[j].0 == q);
                    }
                }
                assert(pair_map(ps) =~= old_map.insert(k, node));
            },
        }
    }

    /// Whether a non-object member of this document lies on a proper prefix of `q`.
    fn shadows(&self, q: &Vec<String>) -> (r: bool)
        requires
            self.wf(),
        ensures
            r == shadowed(self@.1, string_views(q@)),
    {
        let n = q.len();
        let ghost qv = string_views(q@);
        let mut j: usize = 1;
        while j < n
            invariant
                1 <= j,
                n == q.len(),
                qv == string_views(q@),
                self.wf(),
                forall|k: int| 0 < k < j && k < qv.len() ==> !(#[trigger] self@.1.dom().contains(qv.take(k)) && self@.1[qv.take(k)] is Leaf),
            decreases n - j,
        {
            let pre = path_prefix(q, j);
            match self.find(&pre) {
                Some(i) => {
                    match &self.members[i].node {
                        JsonNode::Leaf(_) => {
                            assert(self@.1.dom().contains(qv.take(j as int)));
                            return true;
                        },
                        JsonNode::Object => {},
                    }
                },
                None => {},
            }
            j += 1;
        }
        false
    }

    /// The document's parts: its non-object root, or its members.
    pub fn into_parts(self) -> (r: (Option<serde_json::Value>, Vec<JsonMember>))
        requires
            self.wf(),
        ensures
            r.0 == self@.0,
            unique_firsts(member_views(r.1@)),
            pair_map(member_views(r.1@)) == self@.1,
            r.0 is Some ==> r.1@.len() == 0,
    {
        (self.root, self.members)
    }
}

/// Merges the patch `patch` into `base`, as a configuration update does: when both are
/// objects, every member of the patch replaces or merges into the base's member of the
/// same key; otherwise the patch replaces the base.
pub fn merge_json(base: JsonDoc, patch: JsonDoc) -> (r: JsonDoc)
    requires
        base.wf(),
        patch.wf(),
    ensures
        r.wf(),
        r@ == spec_merge_json(base@, patch@),
{
    if patch.root.is_some() || base.root.is_some() {
        return patch;
    }
    let ghost bmv = member_views(base.members@);
    let ghost bmap = base@.1;
    let ghost pmap = patch@.1;
    let JsonDoc { root: _, members: mut bm } = base;
    let mut out: Vec<JsonMember> = Vec::new();
    proof {
        assert(bmv.take(bm@.len() as int) =~= bmv);
    }
    while bm.len() > 0
        invariant
            patch.wf(),
            patch.root is None,
            pmap == patch@.1,
            unique_firsts(bmv),
            bmap == pair_map(bmv),
            bm@.len() <= bmv.len(),
            member_views(bm@) == bmv.take(bm@.len() as int),
            unique_firsts(member_views(out@)),
            forall|q: Seq<Seq<char>>| #[trigger] pair_map(member_views(out@)).dom().contains(q) <==> (has_first(bmv.skip(bm@.len() as int), q) && !pmap.dom().contains(q) && !shadowed(pmap, q)),
            forall|q: Seq<Seq<char>>| #[trigger] pair_map(member_views(out@)).dom().contains(q) ==> pair_map(member_views(out@))[q] == bmap[q],
        decreases bm@.len(),
    {
        let ghost k = (bm@.len() - 1) as int;
        let ghost old_bm = bm@;
        let m = bm.pop().unwrap();
        assert(member_views(old_bm)[k] == m@);
        assert(bmv[k] == m@);
        assert(member_views(bm@) =~= bmv.take(k));
        let ghost rest = bmv.skip(k + 1);
        assert(bmv.skip(k) =~= seq![m@] + rest);
        assert forall|q: Seq<Seq<char>>| has_first(bmv.skip(k), q) <==> (has_first(rest, q) || m@.0 == q) by {
            if has_first(bmv.skip(k), q) {
                let i = choose|i: int| 0 <= i < bmv.skip(k).len() && (#[trigger] bmv.skip(k)[i].0) == q;
                if i > 0 {
                    assert(rest[i - 1] == bmv.skip(k)[i]);
                }
            }
            if has_first(rest, q) {
                let i = choose|i: int| 0 <= i < rest.len() && (#[trigger] rest[i].0) == q;
                assert(bmv.skip(k)[i + 1] == rest[i]);
            }
            if m@.0 == q {
                assert(bmv.skip(k)[0] == m@);
            }
        }
        proof {
            lemma_pair_map_at(bmv, k);
        }
        let keep = patch.find(&m.path).is_none() && !patch.shadows(&m.path);
        if keep {
            let ghost old_out = member_views(out@);
            let ghost mv = m@;
            assert(!has_first(old_out, mv.0)) by {
                if has_first(old_out, mv.0) {
                    let i = choose|i: int| 0 <= i < old_out.len() && (#[trigger] old_out[i].0) == mv.0;
                    lemma_pair_map_at(old_out, i);
                    let j = choose|j: int| 0 <= j < rest.len() && (#[trigger] rest[j].0) == mv.0;
                    assert(bmv[k + 1 + j] == rest[j]);
                    assert(bmv[k].0 != bmv[k + 1 + j].0);
                }
            }
            out.push(m);
            let ghost ps = member_views(out@);
            assert(ps =~= old_out.push(mv));
            assert forall|a: int, b: int| 0 <= a < b < ps.len() implies (#[trigger] ps[a].0) != (#[trigger] ps[b].0) by {
                if b == old_out.len() {
                    assert(has_first(old_out, ps[a].0));
                } else {
                    assert(old_out[a].0 != old_out[b].0);
                }
            }
            assert forall|q: Seq<Seq<char>>| #[trigger] pair_map(ps).dom().contains(q) <==> (pair_map(old_out).dom().contains(q) || q == mv.0) by {
                if pair_map(ps).dom().contains(q) {
                    let i = choose|i: int| 0 <= i < ps.len() && (#[trigger] ps[i].0) == q;
                    if i < old_out.len() {
                        assert(old_out[i].0 == q);
                        assert(has_first(old_out, q));
                    }
                }
                if pair_map(old_out).dom().contains(q) {
                    let i = choose|i: int| 0 <= i < old_out.len() && (#[trigger] old_out[i].0) == q;
                    assert(ps[i].0 == q);
                    assert(has_first(ps, q));
                }
                if q == mv.0 {
                    assert(ps[old_out.len() as int].0 == q);
                    assert(has_first(ps, q));
                }
            }
            assert forall|q: Seq<Seq<char>>| #[trigger] pair_map(ps).dom().contains(q) implies pair_map(ps)[q] == bmap[q] by {
                if q == mv.0 {
                    lemma_pair_map_at(ps, old_out.len() as int);
                } else {
                    let i = choose|i: int| 0 <= i < old_out.len() && (#[trigger] old_out[i].0) == q;
                    lemma_pair_map_at(old_out, i);
                    lemma_pair_map_at(ps, i);
                }
            }
        }
    }
    assert(bmv.skip(0) =~= bmv);
    let JsonDoc { root: _, members: mut pm } = patch;
    let ghost out_v = member_views(out@);
    let ghost pmv = member_views(pm@);
    out.append(&mut pm);
    let ghost all = member_views(out@);
    assert(all =~= out_v + pmv);
    assert forall|a: int, b: int| 0 <= a < b < all.len() implies (#[trigger] all[a].0) != (#[trigger] all[b].0) by {
        if b < out_v.len() {
            assert(out_v[a].0 != out_v[b].0);
        } else if a >= out_v.len() {
            assert(pmv[a - out_v.len()].0 != pmv[b - out_v.len()].0);
        } else {
            assert(has_first(out_v, all[a].0));
            assert(pair_map(out_v).dom().contains(all[a].0));
            assert(all[b] == pmv[b - out_v.len()]);
            assert(has_first(pmv, all[b].0));
        }
    }
    let ghost m = merge_members(bmap, pmap);
    assert forall|q: Seq<Seq<char>>| #[trigger] m.dom().contains(q) implies pair_map(all).dom().contains(q) && pair_map(all)[q] == m[q] by {
        if pmap.dom().contains(q) {
            let i = choose|i: int| 0 <= i < pmv.len() && (#[trigger] pmv[i].0) == q;
            lemma_pair_map_at(pmv, i);
            assert(all[out_v.len() + i] == pmv[i]);
            lemma_pair_map_at(all, out_v.len() + i);
        } else {
            assert(pair_map(out_v).dom().contains(q));
            let i = choose|i: int| 0 <= i < out_v.len() && (#[trigger] out_v[i].0) == q;
            lemma_pair_map_at(out_v, i);
            assert(all[i] == out_v[i]);
            lemma_pair_map_at(all, i);
        }
    }
    assert forall|q: Seq<Seq<char>>| #[trigger] pair_map(all).dom().contains(q) implies m.dom().contains(q) by {
        let i = choose|i: int| 0 <= i < all.len() && (#[trigger] all[i].0) == q;
        if i < out_v.len() {
            assert(out_v[i] == all[i]);
            assert(has_first(out_v, q));
            assert(pair_map(out_v).dom().contains(q));
            assert(has_first(bmv, q));
            assert(bmap.dom().contains(q));
        } else {
            assert(pmv[i - out_v.len()] == all[i]);
            assert(has_first(pmv, q));
            assert(pmap.dom().contains(q));
        }
    }
    let r = JsonDoc { root: None, members: out };
    assert(pair_map(all) =~= m);
    r
}


/// Law: merging a document into itself changes nothing.
pub proof fn lemma_merge_idempotent(d: (Option<serde_json::Value>, Map<Seq<Seq<char>>, JsonNode>))
    ensures
        spec_merge_json(d, d) == d,
{
    if d.0 is None {
        assert(merge_members(d.1, d.1) =~= d.1);
    }
}

/// Law: in a merge of objects, every member of the patch is in the result as the patch has it.
pub proof fn lemma_merge_patch_wins(
    b: (Option<serde_json::Value>, Map<Seq<Seq<char>>, JsonNode>),
    p: (Option<serde_json::Value>, Map<Seq<Seq<char>>, JsonNode>),
    q: Seq<Seq<char>>,
)
    requires
        p.1.dom().contains(q),
    ensures
        spec_merge_json(b, p).1.dom().contains(q),
        spec_merge_json(b, p).1[q] == p.1[q],
{
}

/// Law: in a merge of objects, a member of the base that the patch mentions neither at its
/// path nor at any prefix of it keeps its value.
pub proof fn lemma_merge_keeps_unmentioned(
    b: (Option<serde_json::Value>, Map<Seq<Seq<char>>, JsonNode>),
    p: (Option<serde_json::Value>, Map<Seq<Seq<char>>, JsonNode>),
    q: Seq<Seq<char>>,
)
    requires
        b.0 is None,
        p.0 is None,
        b.1.dom().contains(q),
        !p.1.dom().contains(q),
        forall|j: int| 0 < j < q.len() ==> !(#[trigger] p.1.dom().contains(q.take(j))),
    ensures
        spec_merge_json(b, p).1.dom().contains(q),
        spec_merge_json(b, p).1[q] == b.1[q],
{
}

/// Law: a patch that is no object replaces the base whole.
pub proof fn lemma_merge_leaf_patch_replaces(
    b: (Option<serde_json::Value>, Map<Seq<Seq<char>>, JsonNode>),
    p: (Option<serde_json::Value>, Map<Seq<Seq<char>>, JsonNode>),
)
    requires
        p.0 is Some,
    ensures
        spec_merge_json(b, p) == p,
{
}

} // verus!
