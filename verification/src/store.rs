//! The label store: an index over the parsed tree and its amendments that
//! records, for every path, the ordered history of elements placed there,
//! maps each live label to its path, propagates node deletions to whole
//! subtrees, and enforces global label uniqueness.

use vstd::prelude::*;
use crate::bytes::{eq_bytes, copy_bytes};
use crate::tree::{Node, Property, NodeV, PropV, node_view, prop_view, labels_view, BootInfo, clone_node, clone_prop};

verus! {

/// One element recorded in a path's history: a node or a property, cloned
/// from the tree as it was when the element was placed.
#[derive(Debug, PartialEq, Eq)]
pub enum Element {
    Node(Node),
    Prop(Property),
}

/// Mathematical view of an `Element`.
pub ghost enum ElemV {
    Node(NodeV),
    Prop(PropV),
}

/// The view of a history element.
pub open spec fn elem_view(e: Element) -> ElemV {
    match e {
        Element::Node(n) => ElemV::Node(node_view(n)),
        Element::Prop(p) => ElemV::Prop(prop_view(p)),
    }
}

/// Whether a history element records a live (not deleted) node or property.
pub open spec fn elem_existing(e: Element) -> bool {
    match e {
        Element::Node(n) => !n.deleted,
        Element::Prop(p) => !p.deleted,
    }
}

/// A semantic error found while filling the store.
#[derive(Debug, PartialEq, Eq)]
pub enum StoreError {
    /// The same label is registered at two distinct paths; carries the label.
    DuplicateLabel(Vec<u8>),
    /// A `&label` or `&{/path}` reference has no target; carries the label
    /// or path.
    UnresolvedReference(Vec<u8>),
    /// An amendment names a literal that neither is the root nor matches any
    /// registered label; carries the name.
    DanglingAmendment(Vec<u8>),
}

/// The path separator byte, `/`.
pub const SLASH: u8 = 47;

/// The reference sigil byte, `&`.
pub const AMP: u8 = 38;

/// A literal node or property name: non-empty, neither a `&label` reference
/// nor an absolute path.
pub open spec fn name_literal(s: Seq<u8>) -> bool {
    s.len() > 0 && s[0] != AMP && s[0] != SLASH
}

/// Inside a parsed tree every property and child carries a literal name;
/// reference names occur only on amendment roots.
pub open spec fn node_wf(n: Node) -> bool
    decreases n,
{
    (forall|i: int| 0 <= i < n.proplist@.len() ==> name_literal(#[trigger] n.proplist@[i].name@))
        && children_wf(n.children@)
}

pub open spec fn children_wf(cs: Seq<Node>) -> bool
    decreases cs,
{
    cs.len() == 0 || (name_literal(cs[0].name@) && node_wf(cs[0]) && children_wf(cs.drop_first()))
}

pub proof fn lemma_children_wf_index(cs: Seq<Node>)
    requires
        children_wf(cs),
    ensures
        forall|i: int| 0 <= i < cs.len() ==> name_literal(#[trigger] cs[i].name@) && node_wf(cs[i]),
    decreases cs.len(),
{
    if cs.len() > 0 {
        lemma_children_wf_index(cs.drop_first());
        assert(forall|i: int| 1 <= i < cs.len() ==> cs[i] == cs.drop_first()[i - 1]);
    }
}

/// A plain subtree: no labels anywhere, no deleted properties, no deleted
/// children.  Walking such a subtree can never fail.
pub open spec fn node_plain(n: Node) -> bool
    decreases n,
{
    (n.labels@.len() == 0 && forall|i: int|
        0 <= i < n.proplist@.len() ==> (!(#[trigger] n.proplist@[i]).deleted
            && n.proplist@[i].labels@.len() == 0)) && children_plain(n.children@)
}

pub open spec fn children_plain(cs: Seq<Node>) -> bool
    decreases cs,
{
    cs.len() == 0 || (!cs[0].deleted && node_plain(cs[0]) && children_plain(cs.drop_first()))
}

pub proof fn lemma_children_plain_index(cs: Seq<Node>)
    requires
        children_plain(cs),
    ensures
        forall|i: int| 0 <= i < cs.len() ==> !(#[trigger] cs[i]).deleted && node_plain(cs[i]),
    decreases cs.len(),
{
    if cs.len() > 0 {
        lemma_children_plain_index(cs.drop_first());
        assert(forall|i: int| 1 <= i < cs.len() ==> cs[i] == cs.drop_first()[i - 1]);
    }
}

/// Component-wise path prefix: `/top` is a prefix of `/top/bar` and of
/// itself, but not of `/topx`; `/` is a prefix of every absolute path.
pub open spec fn spec_path_starts_with(q: Seq<u8>, p: Seq<u8>) -> bool {
    &&& p.len() <= q.len()
    &&& q.subrange(0, p.len() as int) == p
    &&& (q.len() == p.len() || q[p.len() as int] == SLASH || (p.len() > 0 && p[p.len()
        - 1] == SLASH))
}

/// Joining a path and a child name with `/`; an absolute name replaces the
/// base.
pub open spec fn spec_path_join(p: Seq<u8>, name: Seq<u8>) -> Seq<u8> {
    if name.len() > 0 && name[0] == SLASH {
        name
    } else if p.len() > 0 && p[p.len() - 1] == SLASH {
        p + name
    } else {
        p + seq![SLASH] + name
    }
}

pub fn path_starts_with(q: &[u8], p: &[u8]) -> (r: bool)
    ensures
        r == spec_path_starts_with(q@, p@),
{
    if p.len() > q.len() {
        return false;
    }
    let mut i: usize = 0;
    while i < p.len()
        invariant
            i <= p.len() <= q.len(),
            forall|j: int| 0 <= j < i ==> q@[j] == p@[j],
        decreases p.len() - i,
    {
        if q[i] != p[i] {
            assert(q@.subrange(0, p@.len() as int)[i as int] != p@[i as int]);
            return false;
        }
        i += 1;
    }
    assert(q@.subrange(0, p@.len() as int) =~= p@);
    if q.len() == p.len() {
        true
    } else if q[p.len()] == SLASH {
        true
    } else {
        p.len() > 0 && p[p.len() - 1] == SLASH
    }
}

pub fn path_join(p: &[u8], name: &[u8]) -> (r: Vec<u8>)
    ensures
        r@ == spec_path_join(p@, name@),
{
    if name.len() > 0 && name[0] == SLASH {
        let r = copy_bytes(name);
        assert(r@ =~= spec_path_join(p@, name@));
        return r;
    }
    let mut r = copy_bytes(p);
    if !(p.len() > 0 && p[p.len() - 1] == SLASH) {
        r.push(SLASH);
    }
    let mut i: usize = 0;
    while i < name.len()
        invariant
            i <= name.len(),
            r@ == (if p@.len() > 0 && p@[p@.len() - 1] == SLASH {
                p@
            } else {
                p@ + seq![SLASH]
            }) + name@.subrange(0, i as int),
        decreases name.len() - i,
    {
        r.push(name[i]);
        assert(name@.subrange(0, i + 1 as int) =~= name@.subrange(0, i as int).push(name@[
            i as int]));
        i += 1;
    }
    assert(name@.subrange(0, name@.len() as int) =~= name@);
    assert(r@ =~= spec_path_join(p@, name@));
    r
}

/// Component-wise prefixing is transitive.
pub proof fn lemma_starts_with_trans(q: Seq<u8>, a: Seq<u8>, b: Seq<u8>)
    requires
        spec_path_starts_with(q, a),
        spec_path_starts_with(a, b),
    ensures
        spec_path_starts_with(q, b),
{
    assert(q.subrange(0, b.len() as int) =~= a.subrange(0, b.len() as int)) by {
        assert(forall|i: int| 0 <= i < b.len() ==> q.subrange(0, a.len() as int)[i] == q[i]);
    }
    if a.len() == b.len() {
    } else if a[b.len() as int] == SLASH {
        assert(q[b.len() as int] == q.subrange(0, a.len() as int)[b.len() as int]);
    }
}

/// Joining a literal name onto a path yields a strictly longer path below
/// the base.
pub proof fn lemma_join_props(p: Seq<u8>, n: Seq<u8>)
    requires
        n.len() > 0,
        n[0] != SLASH,
    ensures
        spec_path_starts_with(spec_path_join(p, n), p),
        spec_path_join(p, n).len() > p.len(),
{
    let j = spec_path_join(p, n);
    if p.len() > 0 && p[p.len() - 1] == SLASH {
        assert(j.subrange(0, p.len() as int) =~= p);
    } else {
        assert(j.subrange(0, p.len() as int) =~= p);
        assert(j[p.len() as int] == SLASH);
    }
}

/// A path never lies strictly below a longer one.
pub proof fn lemma_not_starts_shorter(q: Seq<u8>, p: Seq<u8>)
    requires
        q.len() < p.len(),
    ensures
        !spec_path_starts_with(q, p),
{
}

/// Every path is a prefix of itself.
pub proof fn lemma_starts_with_self(p: Seq<u8>)
    ensures
        spec_path_starts_with(p, p),
{
    assert(p.subrange(0, p.len() as int) =~= p);
}

/// The mapping that an association list denotes: later entries override
/// earlier ones (with unique keys the distinction is moot).
pub open spec fn assoc_map<V>(ps: Seq<(Vec<u8>, V)>) -> Map<Seq<u8>, V>
    decreases ps.len(),
{
    if ps.len() == 0 {
        Map::empty()
    } else {
        assoc_map(ps.drop_last()).insert(ps.last().0@, ps.last().1)
    }
}

/// No two entries of the list share a key.
pub open spec fn unique_keys<V>(ps: Seq<(Vec<u8>, V)>) -> bool {
    forall|i: int, j: int| 0 <= i < j < ps.len() ==> ps[i].0@ != ps[j].0@
}

/// With unique keys, each entry is found in the map under its own key.
pub proof fn lemma_assoc_map_index<V>(ps: Seq<(Vec<u8>, V)>, i: int)
    requires
        unique_keys(ps),
        0 <= i < ps.len(),
    ensures
        assoc_map(ps).contains_key(ps[i].0@),
        assoc_map(ps)[ps[i].0@] == ps[i].1,
    decreases ps.len(),
{
    if i == ps.len() - 1 {
    } else {
        lemma_assoc_map_index(ps.drop_last(), i);
        assert(ps.drop_last()[i] == ps[i]);
    }
}

/// A key held by no entry is not in the map.
pub proof fn lemma_assoc_map_absent<V>(ps: Seq<(Vec<u8>, V)>, k: Seq<u8>)
    requires
        forall|i: int| 0 <= i < ps.len() ==> ps[i].0@ != k,
    ensures
        !assoc_map(ps).contains_key(k),
    decreases ps.len(),
{
    if ps.len() > 0 {
        lemma_assoc_map_absent(ps.drop_last(), k);
    }
}

/// A key in the map is held by some entry.
pub proof fn lemma_assoc_map_contains_index<V>(ps: Seq<(Vec<u8>, V)>, k: Seq<u8>)
    requires
        assoc_map(ps).contains_key(k),
    ensures
        exists|i: int| 0 <= i < ps.len() && ps[i].0@ == k,
    decreases ps.len(),
{
    if ps.len() > 0 {
        if ps.last().0@ == k {
            assert(ps[ps.len() - 1].0@ == k);
        } else {
            lemma_assoc_map_contains_index(ps.drop_last(), k);
            let i = choose|i: int| 0 <= i < ps.drop_last().len() && ps.drop_last()[i].0@ == k;
            assert(ps[i].0@ == k);
        }
    }
}

/// Updating one entry's value updates the map at its key alone.
pub proof fn lemma_assoc_map_update<V>(ps: Seq<(Vec<u8>, V)>, j: int, v2: V)
    requires
        unique_keys(ps),
        0 <= j < ps.len(),
        ps.update(j, (ps[j].0, v2))[j].0 == ps[j].0,
    ensures
        assoc_map(ps.update(j, (ps[j].0, v2))) == assoc_map(ps).insert(ps[j].0@, v2),
    decreases ps.len(),
{
    let ps2 = ps.update(j, (ps[j].0, v2));
    if j == ps.len() - 1 {
        assert(ps2.drop_last() =~= ps.drop_last());
        assert(assoc_map(ps2) =~= assoc_map(ps).insert(ps[j].0@, v2));
    } else {
        assert(ps2.drop_last() =~= ps.drop_last().update(j, (ps[j].0, v2)));
        lemma_assoc_map_update(ps.drop_last(), j, v2);
        assert(ps.drop_last()[j] == ps[j]);
        assert(assoc_map(ps2) =~= assoc_map(ps).insert(ps[j].0@, v2));
    }
}

/// The result of registering a list of labels at one path over a label map:
/// the updated map, or nothing when some label is already bound to a
/// different path.
pub open spec fn labels_insert(m: Map<Seq<u8>, Seq<u8>>, path: Seq<u8>, ls: Seq<Seq<u8>>) -> Option<
    Map<Seq<u8>, Seq<u8>>,
>
    decreases ls.len(),
{
    if ls.len() == 0 {
        Option::Some(m)
    } else if m.contains_key(ls[0]) && m[ls[0]] != path {
        Option::None
    } else {
        labels_insert(m.insert(ls[0], path), path, ls.drop_first())
    }
}

/// Registration never rebinds an existing label, and every new binding made
/// by it points at the registered path.
pub proof fn lemma_labels_insert_frame(m: Map<Seq<u8>, Seq<u8>>, path: Seq<u8>, ls: Seq<Seq<u8>>)
    requires
        labels_insert(m, path, ls) is Some,
    ensures
        forall|l: Seq<u8>| m.contains_key(l) ==> #[trigger] labels_insert(
            m,
            path,
            ls,
        )->Some_0.contains_key(l) && labels_insert(m, path, ls)->Some_0[l] == m[l],
        forall|l: Seq<u8>| #[trigger] labels_insert(m, path, ls)->Some_0.contains_key(l)
            ==> m.contains_key(l) || labels_insert(m, path, ls)->Some_0[l] == path,
    decreases ls.len(),
{
    if ls.len() > 0 {
        lemma_labels_insert_frame(m.insert(ls[0], path), path, ls.drop_first());
    }
}

/// Successful registration binds every listed label to the registered path.
pub proof fn lemma_labels_insert_members(m: Map<Seq<u8>, Seq<u8>>, path: Seq<u8>, ls: Seq<Seq<u8>>)
    requires
        labels_insert(m, path, ls) is Some,
    ensures
        forall|l: Seq<u8>| ls.contains(l) ==> #[trigger] labels_insert(
            m,
            path,
            ls,
        )->Some_0.contains_key(l) && labels_insert(m, path, ls)->Some_0[l] == path,
    decreases ls.len(),
{
    if ls.len() > 0 {
        let m2 = m.insert(ls[0], path);
        lemma_labels_insert_members(m2, path, ls.drop_first());
        lemma_labels_insert_frame(m2, path, ls.drop_first());
        assert forall|l: Seq<u8>| ls.contains(l) implies #[trigger] labels_insert(
            m,
            path,
            ls,
        )->Some_0.contains_key(l) && labels_insert(m, path, ls)->Some_0[l] == path by {
            let i = choose|i: int| 0 <= i < ls.len() && ls[i] == l;
            if i == 0 {
                assert(m2.contains_key(l) && m2[l] == path);
            } else {
                assert(ls.drop_first()[i - 1] == l);
                assert(ls.drop_first().contains(l));
            }
        }
    }
}

/// Label uniqueness: once a label is bound to a path, registering the same
/// label at any other path fails, whatever other labels accompany it.
pub proof fn lemma_label_uniqueness(
    m: Map<Seq<u8>, Seq<u8>>,
    p2: Seq<u8>,
    l: Seq<u8>,
    ls2: Seq<Seq<u8>>,
)
    requires
        m.contains_key(l),
        m[l] != p2,
        ls2.contains(l),
    ensures
        labels_insert(m, p2, ls2) is None,
    decreases ls2.len(),
{
    let h = ls2[0];
    if m.contains_key(h) && m[h] != p2 {
    } else {
        assert(h != l);
        assert(ls2.drop_first().contains(l)) by {
            let i = choose|i: int| 0 <= i < ls2.len() && ls2[i] == l;
            assert(ls2.drop_first()[i - 1] == l);
        }
        lemma_label_uniqueness(m.insert(h, p2), p2, l, ls2.drop_first());
    }
}

/// The store: `paths` maps each touched path to its ordered element history;
/// `labels` maps each live label to its registered path.
#[derive(Debug)]
pub struct LabelStore {
    pub paths: Vec<(Vec<u8>, Vec<Element>)>,
    pub labels: Vec<(Vec<u8>, Vec<u8>)>,
}

impl LabelStore {
    /// Both association lists have unique keys.
    pub open spec fn wf(self) -> bool {
        unique_keys(self.paths@) && unique_keys(self.labels@)
    }

    /// The label map, at the level of byte sequences.
    pub open spec fn labels_map(self) -> Map<Seq<u8>, Seq<u8>> {
        assoc_map(self.labels@).map_values(|v: Vec<u8>| v@)
    }

    /// The history map; values are the recorded element lists.
    pub open spec fn hist_map(self) -> Map<Seq<u8>, Seq<Element>> {
        assoc_map(self.paths@).map_values(|v: Vec<Element>| v@)
    }

    pub fn new() -> (r: LabelStore)
        ensures
            r.wf(),
            r.labels_map() == Map::<Seq<u8>, Seq<u8>>::empty(),
            r.hist_map() == Map::<Seq<u8>, Seq<Element>>::empty(),
    {
        let r = LabelStore { paths: Vec::new(), labels: Vec::new() };
        proof {
            assert(r.labels_map() =~= Map::<Seq<u8>, Seq<u8>>::empty());
            assert(r.hist_map() =~= Map::<Seq<u8>, Seq<Element>>::empty());
        }
        r
    }

    /// The history recorded at a path, the empty sequence where none is.
    pub open spec fn hist_at(self, q: Seq<u8>) -> Seq<Element> {
        if self.hist_map().contains_key(q) {
            self.hist_map()[q]
        } else {
            Seq::empty()
        }
    }

    /// Histories only ever grow: every recorded history is preserved as a
    /// prefix of the newer one.
    pub open spec fn grows_from(self, prev: Self) -> bool {
        forall|q: Seq<u8>| prev.hist_map().contains_key(q) ==> #[trigger] self.hist_map(
        ).contains_key(q) && prev.hist_map()[q].is_prefix_of(self.hist_map()[q])
    }

    /// The index of a label in the association list, if present.
    fn find_label(&self, label: &[u8]) -> (r: Option<usize>)
        ensures
            match r {
                Option::Some(j) => j < self.labels@.len() && self.labels@[j as int].0@ == label@,
                Option::None => forall|j: int|
                    0 <= j < self.labels@.len() ==> self.labels@[j].0@ != label@,
            },
    {
        let n = self.labels.len();
        let mut i: usize = 0;
        while i < n
            invariant
                n == self.labels@.len(),
                i <= n,
                forall|j: int| 0 <= j < i ==> self.labels@[j].0@ != label@,
            decreases n - i,
        {
            if eq_bytes(self.labels[i].0.as_slice(), label) {
                return Option::Some(i);
            }
            i += 1;
        }
        Option::None
    }

    /// The index of a path in the history list, if present.
    fn find_path(&self, path: &[u8]) -> (r: Option<usize>)
        ensures
            match r {
                Option::Some(j) => j < self.paths@.len() && self.paths@[j as int].0@ == path@,
                Option::None => forall|j: int|
                    0 <= j < self.paths@.len() ==> self.paths@[j].0@ != path@,
            },
    {
        let n = self.paths.len();
        let mut i: usize = 0;
        while i < n
            invariant
                n == self.paths@.len(),
                i <= n,
                forall|j: int| 0 <= j < i ==> self.paths@[j].0@ != path@,
            decreases n - i,
        {
            if eq_bytes(self.paths[i].0.as_slice(), path) {
                return Option::Some(i);
            }
            i += 1;
        }
        Option::None
    }

    /// Registers every label of the list at the given path; the first label
    /// already bound to a different path aborts with `DuplicateLabel`.
    fn insert_labels(&mut self, path: &[u8], ls: &Vec<Vec<u8>>) -> (r: Result<(), StoreError>)
        requires
            old(self).wf(),
        ensures
            final(self).wf(),
            final(self).paths == old(self).paths,
            match r {
                Result::Ok(u) => Option::Some(final(self).labels_map()) == labels_insert(
                    old(self).labels_map(),
                    path@,
                    labels_view(ls@),
                ),
                Result::Err(e) => labels_insert(old(self).labels_map(), path@, labels_view(ls@))
                    is None && e is DuplicateLabel,
            },
    {
        let ghost lv = labels_view(ls@);
        let ghost m0 = old(self).labels_map();
        proof {
            assert(lv.skip(0) =~= lv);
        }
        let n = ls.len();
        let mut i: usize = 0;
        while i < n
            invariant
                self.wf(),
                self.paths == old(self).paths,
                n == ls@.len(),
                i <= n,
                lv == labels_view(ls@),
                m0 == old(self).labels_map(),
                labels_insert(m0, path@, lv) == labels_insert(
                    self.labels_map(),
                    path@,
                    lv.skip(i as int),
                ),
            decreases n - i,
        {
            let ghost mcur = self.labels_map();
            proof {
                assert(lv.skip(i as int)[0] == lv[i as int]);
                assert(lv.skip(i as int).drop_first() =~= lv.skip(i + 1));
                assert(lv[i as int] == ls@[i as int]@);
            }
            match self.find_label(ls[i].as_slice()) {
                Option::Some(j) => {
                    proof {
                        lemma_assoc_map_index(self.labels@, j as int);
                        assert(mcur.contains_key(lv[i as int]));
                        assert(mcur[lv[i as int]] == self.labels@[j as int].1@);
                    }
                    if eq_bytes(self.labels[j].1.as_slice(), path) {
                        proof {
                            assert(mcur.insert(lv[i as int], path@) =~= mcur);
                        }
                    } else {
                        assert(mcur.contains_key(lv[i as int]) && mcur[lv[i as int]] != path@);
                        return Result::Err(StoreError::DuplicateLabel(copy_bytes(
                            ls[i].as_slice(),
                        )));
                    }
                },
                Option::None => {
                    proof {
                        lemma_assoc_map_absent(self.labels@, lv[i as int]);
                        assert(!mcur.contains_key(lv[i as int]));
                    }
                    let ghost pre = self.labels@;
                    let entry = (copy_bytes(ls[i].as_slice()), copy_bytes(path));
                    self.labels.push(entry);
                    proof {
                        assert(self.labels@.drop_last() =~= pre);
                        assert(self.labels@.last() == entry);
                        assert(forall|j2: int| 0 <= j2 < pre.len() ==> self.labels@[j2] == pre[j2]);
                        assert(self.labels_map() =~= mcur.insert(lv[i as int], path@));
                    }
                },
            }
            i += 1;
        }
        proof {
            assert(lv.skip(n as int) =~= Seq::<Seq<u8>>::empty());
        }
        Result::Ok(())
    }

    /// Drops every label whose registered path lies at or below the given
    /// path.
    fn delete_labels(&mut self, path: &[u8])
        requires
            old(self).wf(),
        ensures
            final(self).wf(),
            final(self).paths == old(self).paths,
            forall|l: Seq<u8>| final(self).labels_map().contains_key(l)
                <==> (#[trigger] old(self).labels_map().contains_key(l)
                && !spec_path_starts_with(old(self).labels_map()[l], path@)),
            forall|l: Seq<u8>| #[trigger] final(self).labels_map().contains_key(l)
                ==> final(self).labels_map()[l] == old(self).labels_map()[l],
    {
        let n = self.labels.len();
        let mut kept: Vec<(Vec<u8>, Vec<u8>)> = Vec::new();
        let mut i: usize = 0;
        while i < n
            invariant
                old(self).wf(),
                self == old(self),
                n == self.labels@.len(),
                i <= n,
                unique_keys(kept@),
                forall|j: int| 0 <= j < kept@.len() ==> #[trigger] assoc_map(
                    self.labels@.take(i as int),
                ).contains_key(kept@[j].0@),
                forall|l: Seq<u8>| assoc_map(kept@).contains_key(l) <==> (#[trigger] assoc_map(
                    self.labels@.take(i as int),
                ).contains_key(l) && !spec_path_starts_with(
                    assoc_map(self.labels@.take(i as int))[l]@,
                    path@,
                )),
                forall|l: Seq<u8>| #[trigger] assoc_map(kept@).contains_key(l) ==> assoc_map(
                    kept@,
                )[l]@ == assoc_map(self.labels@.take(i as int))[l]@,
            decreases n - i,
        {
            let ghost pre = kept@;
            let ghost tk = self.labels@.take(i as int);
            proof {
                assert(self.labels@.take(i + 1).drop_last() =~= tk);
                assert(self.labels@.take(i + 1).last() == self.labels@[i as int]);
                assert(assoc_map(self.labels@.take(i + 1)) == assoc_map(tk).insert(
                    self.labels@[i as int].0@,
                    self.labels@[i as int].1,
                ));
            }
            if !path_starts_with(self.labels[i].1.as_slice(), path) {
                let entry = (
                    copy_bytes(self.labels[i].0.as_slice()),
                    copy_bytes(self.labels[i].1.as_slice()),
                );
                proof {
                    if exists|j: int| 0 <= j < pre.len() && pre[j].0@ == entry.0@ {
                        let j = choose|j: int| 0 <= j < pre.len() && pre[j].0@ == entry.0@;
                        assert(assoc_map(tk).contains_key(pre[j].0@));
                        lemma_assoc_map_contains_index(tk, pre[j].0@);
                        let jj = choose|jj: int| 0 <= jj < tk.len() && tk[jj].0@ == pre[j].0@;
                        assert(self.labels@[jj].0@ == self.labels@[i as int].0@);
                        assert(false);
                    }
                }
                kept.push(entry);
                proof {
                    assert(kept@.drop_last() =~= pre);
                    assert(kept@.last() == entry);
                    assert(forall|j: int| 0 <= j < pre.len() ==> kept@[j] == pre[j]);
                    assert(assoc_map(kept@) == assoc_map(pre).insert(entry.0@, entry.1));
                    assert(entry.0@ == self.labels@[i as int].0@);
                    assert(entry.1@ == self.labels@[i as int].1@);
                }
            } else {
                proof {
                    if assoc_map(pre).contains_key(self.labels@[i as int].0@) {
                        lemma_assoc_map_contains_index(pre, self.labels@[i as int].0@);
                        let j = choose|j: int|
                            0 <= j < pre.len() && pre[j].0@ == self.labels@[i as int].0@;
                        assert(assoc_map(tk).contains_key(pre[j].0@));
                        lemma_assoc_map_contains_index(tk, pre[j].0@);
                        let jj = choose|jj: int| 0 <= jj < tk.len() && tk[jj].0@ == pre[j].0@;
                        assert(self.labels@[jj].0@ == self.labels@[i as int].0@);
                        assert(false);
                    }
                }
            }
            i += 1;
        }
        proof {
            assert(self.labels@.take(n as int) =~= self.labels@);
        }
        self.labels = kept;
    }

    /// Appends one element to the history of a path, creating the history
    /// where the path is new.
    fn push_elem(&mut self, path: &[u8], e: Element)
        requires
            old(self).wf(),
        ensures
            final(self).wf(),
            final(self).labels == old(self).labels,
            final(self).hist_map().contains_key(path@),
            final(self).hist_map()[path@] == old(self).hist_at(path@).push(e),
            forall|q: Seq<u8>| q != path@ ==> (#[trigger] final(self).hist_map().contains_key(q)
                <==> old(self).hist_map().contains_key(q)),
            forall|q: Seq<u8>| q != path@ && #[trigger] old(self).hist_map().contains_key(q)
                ==> final(self).hist_map()[q] == old(self).hist_map()[q],
    {
        match self.find_path(path) {
            Option::Some(j) => {
                proof {
                    lemma_assoc_map_index(self.paths@, j as int);
                }
                let ghost pre = self.paths@;
                self.paths[j].1.push(e);
                proof {
                    assert(self.paths@ =~= pre.update(j as int, (pre[j as int].0, self.paths@[
                        j as int].1)));
                    lemma_assoc_map_update(pre, j as int, self.paths@[j as int].1);
                    assert(self.paths@[j as int].1@ == pre[j as int].1@.push(e));
                    assert(forall|i2: int, j2: int| 0 <= i2 < j2 < self.paths@.len()
                        ==> self.paths@[i2].0@ == pre[i2].0@ && self.paths@[j2].0@ == pre[j2].0@);
                }
            },
            Option::None => {
                proof {
                    lemma_assoc_map_absent(self.paths@, path@);
                }
                let mut h: Vec<Element> = Vec::new();
                h.push(e);
                let entry = (copy_bytes(path), h);
                self.paths.push(entry);
                proof {
                    assert(self.paths@.drop_last() =~= old(self).paths@);
                    assert(self.hist_map() =~= old(self).hist_map().insert(path@, seq![e]));
                    assert(old(self).hist_at(path@).push(e) =~= seq![e]);
                }
            },
        }
    }

    /// The current path registered for a live label, if any.
    pub fn path_from_label(&self, label: &[u8]) -> (r: Option<Vec<u8>>)
        requires
            self.wf(),
        ensures
            match r {
                Option::Some(p) => self.labels_map().contains_key(label@) && p@
                    == self.labels_map()[label@],
                Option::None => !self.labels_map().contains_key(label@),
            },
    {
        let n = self.labels.len();
        let mut i: usize = 0;
        while i < n
            invariant
                self.wf(),
                n == self.labels@.len(),
                i <= n,
                forall|j: int| 0 <= j < i ==> self.labels@[j].0@ != label@,
            decreases n - i,
        {
            if eq_bytes(self.labels[i].0.as_slice(), label) {
                proof {
                    lemma_assoc_map_index(self.labels@, i as int);
                }
                return Option::Some(self.labels[i].1.clone());
            }
            i += 1;
        }
        proof {
            lemma_assoc_map_absent(self.labels@, label@);
        }
        Option::None
    }

    /// The ordered history of elements ever placed at a path, if any.
    pub fn changes_from_path(&self, path: &[u8]) -> (r: Option<&Vec<Element>>)
        requires
            self.wf(),
        ensures
            match r {
                Option::Some(h) => self.hist_map().contains_key(path@) && h@
                    == self.hist_map()[path@],
                Option::None => !self.hist_map().contains_key(path@),
            },
    {
        let n = self.paths.len();
        let mut i: usize = 0;
        while i < n
            invariant
                self.wf(),
                n == self.paths@.len(),
                i <= n,
                forall|j: int| 0 <= j < i ==> self.paths@[j].0@ != path@,
            decreases n - i,
        {
            if eq_bytes(self.paths[i].0.as_slice(), path) {
                proof {
                    lemma_assoc_map_index(self.paths@, i as int);
                }
                return Option::Some(&self.paths[i].1);
            }
            i += 1;
        }
        proof {
            lemma_assoc_map_absent(self.paths@, path@);
        }
        Option::None
    }

    /// Walks one node whose target path is already resolved: registers its
    /// labels, records its properties, recurses into its children, and
    /// appends the node's own element after them; a deleted node instead
    /// drops every label below the path and tombstones every live history in
    /// its subtree.
    #[verifier::loop_isolation(false)]
    #[verifier::rlimit(60)]
    pub fn fill_at(&mut self, t: &Vec<u8>, node: &Node) -> (r: Result<(), StoreError>)
        requires
            old(self).wf(),
            node_wf(*node),
        ensures
            final(self).wf(),
            final(self).grows_from(*old(self)),
            r is Ok ==> applied(*old(self), *final(self), t@, *node),
            r is Err ==> r->Err_0 is DuplicateLabel,
            node.deleted ==> r is Ok,
            !node.deleted && node_plain(*node) ==> r is Ok,
        decreases *node, 0int,
    {
        let ghost s0 = *self;
        if node.deleted {
            self.delete_labels(t.as_slice());
            let ghost s1 = *self;
            let e = Element::Node(clone_node(node));
            let ghost ev = e;
            self.push_elem(t.as_slice(), e);
            let ghost s2 = *self;
            let n = self.paths.len();
            let mut i: usize = 0;
            while i < n
                invariant
                    self.labels == s2.labels,
                    self.paths@.len() == n == s2.paths@.len(),
                    forall|k: int| 0 <= k < n ==> (#[trigger] self.paths@[k]).0 == s2.paths@[k].0,
                    forall|k: int| i <= k < n ==> (#[trigger] self.paths@[k]).1 == s2.paths@[k].1,
                    forall|k: int| 0 <= k < i ==> (if s2.paths@[k].1@.len() > 0 && elem_existing(
                        s2.paths@[k].1@.last(),
                    ) && spec_path_starts_with(s2.paths@[k].0@, t@) {
                        (#[trigger] self.paths@[k]).1@.len() == s2.paths@[k].1@.len() + 1
                            && self.paths@[k].1@.drop_last() == s2.paths@[k].1@
                            && elem_view(self.paths@[k].1@.last()) == ElemV::Node(node_view(*node))
                    } else {
                        self.paths@[k].1 == s2.paths@[k].1
                    }),
                decreases n - i,
            {
                let hlen = self.paths[i].1.len();
                if hlen > 0 {
                    let live = match &self.paths[i].1[hlen - 1] {
                        Element::Node(nd) => !nd.deleted,
                        Element::Prop(pq) => !pq.deleted,
                    };
                    if live && path_starts_with(self.paths[i].0.as_slice(), t.as_slice()) {
                        let ghost pre = self.paths@;
                        let e2 = Element::Node(clone_node(node));
                        self.paths[i].1.push(e2);
                        proof {
                            assert(self.paths@[i as int].1@ == pre[i as int].1@.push(e2));
                            assert(forall|k: int| 0 <= k < n && k != i
                                ==> #[trigger] self.paths@[k] == pre[k]);
                        }
                    }
                }
                i += 1;
            }
            proof {
                assert(unique_keys(self.paths@)) by {
                    assert(forall|k: int| 0 <= k < n ==> (#[trigger] self.paths@[k]).0@
                        == s2.paths@[k].0@);
                }
                lemma_starts_with_self(t@);
                assert forall|q: Seq<u8>| #[trigger] s2.hist_map().contains_key(q) implies
                    self.hist_map().contains_key(q) by {
                    lemma_assoc_map_contains_index(s2.paths@, q);
                    let k = choose|k: int| 0 <= k < n && s2.paths@[k].0@ == q;
                    lemma_assoc_map_index(self.paths@, k);
                }
                assert forall|q: Seq<u8>| #[trigger] self.hist_map().contains_key(q) implies
                    s2.hist_map().contains_key(q) by {
                    lemma_assoc_map_contains_index(self.paths@, q);
                    let k = choose|k: int| 0 <= k < n && self.paths@[k].0@ == q;
                    lemma_assoc_map_index(s2.paths@, k);
                }
                assert forall|q: Seq<u8>| #[trigger] s2.hist_map().contains_key(q) implies
                    (self.hist_map()[q] == (if s2.hist_map()[q].len() > 0 && elem_existing(
                        s2.hist_map()[q].last(),
                    ) && spec_path_starts_with(q, t@) {
                        s2.hist_map()[q].push(self.hist_map()[q].last())
                    } else {
                        s2.hist_map()[q]
                    }) && (s2.hist_map()[q].len() > 0 && elem_existing(s2.hist_map()[q].last())
                        && spec_path_starts_with(q, t@) ==> elem_view(self.hist_map()[q].last())
                        == ElemV::Node(node_view(*node)))) by {
                    lemma_assoc_map_contains_index(s2.paths@, q);
                    let k = choose|k: int| 0 <= k < n && s2.paths@[k].0@ == q;
                    lemma_assoc_map_index(s2.paths@, k);
                    lemma_assoc_map_index(self.paths@, k);
                    if s2.paths@[k].1@.len() > 0 && elem_existing(s2.paths@[k].1@.last())
                        && spec_path_starts_with(q, t@) {
                        assert(self.paths@[k].1@.drop_last() == s2.paths@[k].1@);
                        assert(self.paths@[k].1@.len() == s2.paths@[k].1@.len() + 1);
                        assert(forall|x: int| 0 <= x < s2.paths@[k].1@.len()
                            ==> self.paths@[k].1@[x] == self.paths@[k].1@.drop_last()[x]);
                        assert(self.paths@[k].1@ =~= s2.paths@[k].1@.push(self.paths@[k].1@.last()));
                    }
                }
                assert(s1.hist_map() == s0.hist_map());
                assert(self.labels == s2.labels);
                assert(s2.labels == s1.labels);
                assert(s2.hist_map().contains_key(t@));
                assert(!elem_existing(ev));
                assert(self.hist_map()[t@] == s2.hist_map()[t@]);
                assert forall|q: Seq<u8>| q != t@ implies ((#[trigger] s2.hist_map(
                ).contains_key(q) <==> s0.hist_map().contains_key(q)) && (s0.hist_map(
                ).contains_key(q) ==> s2.hist_map()[q] == s0.hist_map()[q])) by {
                    assert(s2.hist_map().contains_key(q) <==> s1.hist_map().contains_key(q));
                }
                assert(self.labels_map() == s1.labels_map());
                assert forall|l: Seq<u8>|
                    self.labels_map().contains_key(l) <==> (#[trigger] s0.labels_map(
                    ).contains_key(l) && !spec_path_starts_with(s0.labels_map()[l], t@)) by {}
                assert forall|l: Seq<u8>| #[trigger] self.labels_map().contains_key(l) implies
                    self.labels_map()[l] == s0.labels_map()[l] by {}
                assert(self.hist_at(t@) == s0.hist_at(t@).push(self.hist_at(t@).last()));
                assert(elem_view(self.hist_at(t@).last()) == ElemV::Node(node_view(*node)));
                assert forall|q: Seq<u8>| #[trigger] s0.hist_map().contains_key(q) && q != t@
                    && spec_path_starts_with(q, t@) implies self.hist_map()[q] == (if
                    s0.hist_map()[q].len() > 0 && elem_existing(s0.hist_map()[q].last()) {
                    s0.hist_map()[q].push(self.hist_map()[q].last())
                } else {
                    s0.hist_map()[q]
                }) by {
                    assert(s2.hist_map().contains_key(q));
                    assert(s2.hist_map()[q] == s0.hist_map()[q]);
                }
                assert forall|q: Seq<u8>| #[trigger] s0.hist_map().contains_key(q) && q != t@
                    && spec_path_starts_with(q, t@) && s0.hist_map()[q].len() > 0
                    && elem_existing(s0.hist_map()[q].last()) implies elem_view(
                    self.hist_map()[q].last(),
                ) == ElemV::Node(node_view(*node)) by {
                    assert(s2.hist_map().contains_key(q));
                    assert(s2.hist_map()[q] == s0.hist_map()[q]);
                }
                assert forall|q: Seq<u8>| #[trigger] self.hist_map().contains_key(q) implies
                    s0.hist_map().contains_key(q) || q == t@ by {
                    assert(s2.hist_map().contains_key(q));
                }
                assert forall|q: Seq<u8>| !spec_path_starts_with(q, t@) implies ((#[trigger]
                    self.hist_map().contains_key(q) <==> s0.hist_map().contains_key(q)) && (
                    s0.hist_map().contains_key(q) ==> self.hist_map()[q] == s0.hist_map()[q]))
                    by {
                    assert(q != t@);
                    assert(s2.hist_map().contains_key(q) <==> s1.hist_map().contains_key(q));
                    if s2.hist_map().contains_key(q) {
                        assert(s2.hist_map()[q] == s0.hist_map()[q]);
                    }
                }
                assert(applied_deleted(s0, *self, t@, *node));
                assert(final(self).grows_from(s0)) by {
                    assert forall|q: Seq<u8>| s0.hist_map().contains_key(q) implies #[trigger]
                        self.hist_map().contains_key(q) && s0.hist_map()[q].is_prefix_of(
                        self.hist_map()[q],
                    ) by {
                        if q == t@ {
                            lemma_prefix_push(s0.hist_at(t@), ev);
                            lemma_prefix_refl(s2.hist_map()[q]);
                            lemma_prefix_trans(
                                s0.hist_map()[q],
                                s2.hist_map()[q],
                                self.hist_map()[q],
                            );
                        } else {
                            assert(s2.hist_map().contains_key(q));
                            assert(s2.hist_map()[q] == s0.hist_map()[q]);
                            if self.hist_map()[q] == s2.hist_map()[q] {
                                lemma_prefix_refl(self.hist_map()[q]);
                            } else {
                                lemma_prefix_push(s2.hist_map()[q], self.hist_map()[q].last());
                                assert(self.hist_map()[q] == s2.hist_map()[q].push(
                                    self.hist_map()[q].last(),
                                ));
                            }
                        }
                    }
                }
            }
            Result::Ok(())
        } else {
            match self.insert_labels(t.as_slice(), &node.labels) {
                Result::Err(e) => {
                    proof {
                        if node_plain(*node) {
                            assert(labels_view(node.labels@) =~= Seq::<Seq<u8>>::empty());
                            assert(labels_insert(
                                s0.labels_map(),
                                t@,
                                labels_view(node.labels@),
                            ) is Some);
                            assert(false);
                        }
                        assert(self.hist_map() == s0.hist_map());
                        assert forall|q: Seq<u8>| s0.hist_map().contains_key(q) implies #[trigger]
                            self.hist_map().contains_key(q) && s0.hist_map()[q].is_prefix_of(
                            self.hist_map()[q],
                        ) by {
                            lemma_prefix_refl(s0.hist_map()[q]);
                        }
                    }
                    return Result::Err(e);
                },
                Result::Ok(_) => {},
            }
            proof {
                lemma_starts_with_self(t@);
                assert forall|q: Seq<u8>| s0.hist_map().contains_key(q) implies #[trigger]
                    self.hist_map().contains_key(q) && s0.hist_map()[q].is_prefix_of(
                    self.hist_map()[q],
                ) by {
                    lemma_prefix_refl(s0.hist_map()[q]);
                }
                let li = labels_insert(s0.labels_map(), t@, labels_view(node.labels@));
                assert(li is Some && li->Some_0 == self.labels_map());
                lemma_labels_insert_frame(s0.labels_map(), t@, labels_view(node.labels@));
                lemma_labels_insert_members(s0.labels_map(), t@, labels_view(node.labels@));
                assert forall|l: Seq<u8>| #[trigger] s0.labels_map().contains_key(l) implies
                    self.labels_map().contains_key(l) && self.labels_map()[l]
                    == s0.labels_map()[l] by {
                    assert(li->Some_0.contains_key(l));
                }
            }
            let np = node.proplist.len();
            let mut i: usize = 0;
            while i < np
                invariant
                    self.wf(),
                    self.grows_from(s0),
                    self.hist_at(t@) == s0.hist_at(t@),
                    forall|q: Seq<u8>|
                        !spec_path_starts_with(q, t@) ==> ((#[trigger] self.hist_map(
                        ).contains_key(q) <==> s0.hist_map().contains_key(q)) && (s0.hist_map(
                        ).contains_key(q) ==> self.hist_map()[q] == s0.hist_map()[q])),
                    forall|l: Seq<u8>|
                        #[trigger] s0.labels_map().contains_key(l) && !spec_path_starts_with(
                            s0.labels_map()[l],
                            t@,
                        ) ==> self.labels_map().contains_key(l) && self.labels_map()[l]
                            == s0.labels_map()[l],
                    forall|i2: int| 0 <= i2 < i ==> prop_recorded(
                        s0,
                        *self,
                        t@,
                        #[trigger] node.proplist@[i2],
                    ),
                    forall|l: Seq<u8>| #[trigger] labels_view(node.labels@).contains(l)
                        ==> self.labels_map().contains_key(l) && self.labels_map()[l] == t@,
                decreases np - i,
            {
                let ghost sp = *self;
                let prop = &node.proplist[i];
                let pp = path_join(t.as_slice(), prop.name.as_slice());
                proof {
                    assert(name_literal(node.proplist@[i as int].name@));
                    lemma_join_props(t@, prop.name@);
                    lemma_not_starts_shorter(t@, pp@);
                }
                if prop.deleted {
                    self.delete_labels(pp.as_slice());
                    self.push_elem(pp.as_slice(), Element::Prop(clone_prop(prop)));
                } else {
                    match self.insert_labels(pp.as_slice(), &prop.labels) {
                        Result::Err(e) => {
                            proof {
                                if node_plain(*node) {
                                    assert(node.proplist@[i as int].labels@.len() == 0);
                                    assert(labels_view(prop.labels@)
                                        =~= Seq::<Seq<u8>>::empty());
                                    assert(labels_insert(
                                        sp.labels_map(),
                                        pp@,
                                        labels_view(prop.labels@),
                                    ) is Some);
                                    assert(false);
                                }
                                lemma_grows_trans(s0, sp, *self);
                            }
                            return Result::Err(e);
                        },
                        Result::Ok(_) => {},
                    }
                    self.push_elem(pp.as_slice(), Element::Prop(clone_prop(prop)));
                }
                proof {
                    assert forall|q: Seq<u8>| sp.hist_map().contains_key(q) implies #[trigger]
                        self.hist_map().contains_key(q) && sp.hist_map()[q].is_prefix_of(
                        self.hist_map()[q],
                    ) by {
                        if q == pp@ {
                            lemma_prefix_push(sp.hist_at(pp@), self.hist_map()[pp@].last());
                            assert(self.hist_map()[pp@] == sp.hist_at(pp@).push(
                                self.hist_map()[pp@].last(),
                            ));
                        } else {
                            lemma_prefix_refl(sp.hist_map()[q]);
                        }
                    }
                    lemma_grows_trans(s0, sp, *self);
                    assert forall|q: Seq<u8>| !spec_path_starts_with(q, t@) implies ((#[trigger]
                        self.hist_map().contains_key(q) <==> s0.hist_map().contains_key(q)) && (
                        s0.hist_map().contains_key(q) ==> self.hist_map()[q] == s0.hist_map()[q]))
                        by {
                        if q == pp@ {
                            assert(spec_path_starts_with(pp@, t@));
                        }
                    }
                    assert forall|i2: int| 0 <= i2 < i + 1 implies prop_recorded(
                        s0,
                        *self,
                        t@,
                        #[trigger] node.proplist@[i2],
                    ) by {
                        let pp2 = spec_path_join(t@, node.proplist@[i2].name@);
                        if i2 == i {
                            assert(pp2 == pp@);
                            assert(self.hist_map().contains_key(pp2));
                            let widx = self.hist_map()[pp2].len() - 1;
                            assert(elem_view(self.hist_map()[pp2][widx]) == ElemV::Prop(
                                prop_view(node.proplist@[i2]),
                            ));
                            if s0.hist_map().contains_key(pp2) {
                                assert(sp.hist_map().contains_key(pp2));
                                assert(s0.hist_map()[pp2].is_prefix_of(sp.hist_map()[pp2]));
                            }
                            assert(s0.hist_at(pp2).len() <= widx);
                        } else {
                            assert(prop_recorded(s0, sp, t@, node.proplist@[i2]));
                            let idx = choose|idx: int|
                                s0.hist_at(pp2).len() <= idx < sp.hist_map()[pp2].len()
                                    && elem_view(#[trigger] sp.hist_map()[pp2][idx])
                                    == ElemV::Prop(prop_view(node.proplist@[i2]));
                            assert(sp.hist_map().contains_key(pp2));
                            assert(self.hist_map().contains_key(pp2));
                            assert(sp.hist_map()[pp2].is_prefix_of(self.hist_map()[pp2]));
                            assert(self.hist_map()[pp2].subrange(
                                0,
                                sp.hist_map()[pp2].len() as int,
                            )[idx] == self.hist_map()[pp2][idx]);
                            assert(elem_view(self.hist_map()[pp2][idx]) == ElemV::Prop(
                                prop_view(node.proplist@[i2]),
                            ));
                        }
                    }
                    assert forall|l: Seq<u8>|
                        #[trigger] s0.labels_map().contains_key(l) && !spec_path_starts_with(
                            s0.labels_map()[l],
                            t@,
                        ) implies self.labels_map().contains_key(l) && self.labels_map()[l]
                        == s0.labels_map()[l] by {
                        assert(sp.labels_map().contains_key(l) && sp.labels_map()[l]
                            == s0.labels_map()[l]);
                        if prop.deleted {
                            if spec_path_starts_with(sp.labels_map()[l], pp@) {
                                lemma_starts_with_trans(sp.labels_map()[l], pp@, t@);
                                assert(false);
                            }
                            assert(self.labels_map().contains_key(l));
                        } else {
                            let li2 = labels_insert(
                                sp.labels_map(),
                                pp@,
                                labels_view(prop.labels@),
                            );
                            assert(li2 is Some && li2->Some_0 == self.labels_map());
                            lemma_labels_insert_frame(
                                sp.labels_map(),
                                pp@,
                                labels_view(prop.labels@),
                            );
                            assert(li2->Some_0.contains_key(l) && li2->Some_0[l]
                                == sp.labels_map()[l]);
                        }
                    }
                    assert forall|l: Seq<u8>| labels_view(node.labels@).contains(l) implies
                        #[trigger] self.labels_map().contains_key(l) && self.labels_map()[l]
                        == t@ by {
                        assert(sp.labels_map().contains_key(l) && sp.labels_map()[l] == t@);
                        if prop.deleted {
                            if spec_path_starts_with(t@, pp@) {
                                lemma_not_starts_shorter(t@, pp@);
                                assert(false);
                            }
                            assert(self.labels_map().contains_key(l));
                        } else {
                            let li2 = labels_insert(
                                sp.labels_map(),
                                pp@,
                                labels_view(prop.labels@),
                            );
                            assert(li2 is Some && li2->Some_0 == self.labels_map());
                            lemma_labels_insert_frame(
                                sp.labels_map(),
                                pp@,
                                labels_view(prop.labels@),
                            );
                            assert(li2->Some_0.contains_key(l) && li2->Some_0[l]
                                == sp.labels_map()[l]);
                        }
                    }
                }
                i += 1;
            }
            let nc = node.children.len();
            proof {
                lemma_children_wf_index(node.children@);
            }
            let mut j: usize = 0;
            while j < nc
                invariant
                    self.wf(),
                    self.grows_from(s0),
                    self.hist_at(t@) == s0.hist_at(t@),
                    forall|q: Seq<u8>|
                        !spec_path_starts_with(q, t@) ==> ((#[trigger] self.hist_map(
                        ).contains_key(q) <==> s0.hist_map().contains_key(q)) && (s0.hist_map(
                        ).contains_key(q) ==> self.hist_map()[q] == s0.hist_map()[q])),
                    forall|l: Seq<u8>|
                        #[trigger] s0.labels_map().contains_key(l) && !spec_path_starts_with(
                            s0.labels_map()[l],
                            t@,
                        ) ==> self.labels_map().contains_key(l) && self.labels_map()[l]
                            == s0.labels_map()[l],
                    forall|i2: int| 0 <= i2 < np ==> prop_recorded(
                        s0,
                        *self,
                        t@,
                        #[trigger] node.proplist@[i2],
                    ),
                    forall|l: Seq<u8>| #[trigger] labels_view(node.labels@).contains(l)
                        ==> self.labels_map().contains_key(l) && self.labels_map()[l] == t@,
                decreases nc - j,
            {
                let ghost sp = *self;
                let child = &node.children[j];
                let ghost tc = spec_resolve(
                    sp.labels_map(),
                    sp.hist_map(),
                    t@,
                    child.name@,
                );
                proof {
                    assert(name_literal(node.children@[j as int].name@));
                    assert(node_wf(node.children@[j as int]));
                }
                match self.fill_internal(t.as_slice(), child) {
                    Result::Err(e) => {
                        proof {
                            if node_plain(*node) {
                                lemma_children_plain_index(node.children@);
                                assert(!node.children@[j as int].deleted && node_plain(
                                    node.children@[j as int],
                                ));
                                assert(false);
                            }
                            lemma_grows_trans(s0, sp, *self);
                        }
                        return Result::Err(e);
                    },
                    Result::Ok(_) => {},
                }
                proof {
                    lemma_grows_trans(s0, sp, *self);
                    assert(tc == Option::Some(spec_path_join(t@, child.name@)));
                    let tcp = spec_path_join(t@, child.name@);
                    lemma_join_props(t@, child.name@);
                    lemma_not_starts_shorter(t@, tcp);
                    assert forall|q: Seq<u8>| !spec_path_starts_with(q, t@) implies ((#[trigger]
                        self.hist_map().contains_key(q) <==> s0.hist_map().contains_key(q)) && (
                        s0.hist_map().contains_key(q) ==> self.hist_map()[q] == s0.hist_map()[q]))
                        by {
                        if spec_path_starts_with(q, tcp) {
                            lemma_starts_with_trans(q, tcp, t@);
                        }
                    }
                    assert(self.hist_at(t@) == s0.hist_at(t@));
                    assert forall|i2: int| 0 <= i2 < np implies prop_recorded(
                        s0,
                        *self,
                        t@,
                        #[trigger] node.proplist@[i2],
                    ) by {
                        let pp2 = spec_path_join(t@, node.proplist@[i2].name@);
                        assert(prop_recorded(s0, sp, t@, node.proplist@[i2]));
                        let idx = choose|idx: int|
                            s0.hist_at(pp2).len() <= idx < sp.hist_map()[pp2].len() && elem_view(
                                #[trigger] sp.hist_map()[pp2][idx],
                            ) == ElemV::Prop(prop_view(node.proplist@[i2]));
                        assert(sp.hist_map().contains_key(pp2));
                        assert(self.hist_map().contains_key(pp2));
                        assert(sp.hist_map()[pp2].is_prefix_of(self.hist_map()[pp2]));
                        assert(self.hist_map()[pp2].subrange(
                            0,
                            sp.hist_map()[pp2].len() as int,
                        )[idx] == self.hist_map()[pp2][idx]);
                        assert(elem_view(self.hist_map()[pp2][idx]) == ElemV::Prop(
                            prop_view(node.proplist@[i2]),
                        ));
                    }
                    assert forall|l: Seq<u8>|
                        #[trigger] s0.labels_map().contains_key(l) && !spec_path_starts_with(
                            s0.labels_map()[l],
                            t@,
                        ) implies self.labels_map().contains_key(l) && self.labels_map()[l]
                        == s0.labels_map()[l] by {
                        assert(sp.labels_map().contains_key(l) && sp.labels_map()[l]
                            == s0.labels_map()[l]);
                        if spec_path_starts_with(sp.labels_map()[l], tcp) {
                            lemma_starts_with_trans(sp.labels_map()[l], tcp, t@);
                            assert(false);
                        }
                        if child.deleted {
                            assert(applied_deleted(sp, *self, tcp, *child));
                            assert(self.labels_map().contains_key(l));
                        } else {
                            assert(applied_existing(sp, *self, tcp, *child));
                            assert(self.labels_map().contains_key(l));
                        }
                    }
                    assert forall|l: Seq<u8>| labels_view(node.labels@).contains(l) implies
                        #[trigger] self.labels_map().contains_key(l) && self.labels_map()[l]
                        == t@ by {
                        assert(sp.labels_map().contains_key(l) && sp.labels_map()[l] == t@);
                        if spec_path_starts_with(t@, tcp) {
                            lemma_not_starts_shorter(t@, tcp);
                            assert(false);
                        }
                        if child.deleted {
                            assert(applied_deleted(sp, *self, tcp, *child));
                            assert(self.labels_map().contains_key(l));
                        } else {
                            assert(applied_existing(sp, *self, tcp, *child));
                            assert(self.labels_map().contains_key(l));
                        }
                    }
                }
                j += 1;
            }
            let ghost sp2 = *self;
            let e = Element::Node(clone_node(node));
            self.push_elem(t.as_slice(), e);
            proof {
                assert forall|q: Seq<u8>| sp2.hist_map().contains_key(q) implies #[trigger]
                    self.hist_map().contains_key(q) && sp2.hist_map()[q].is_prefix_of(
                    self.hist_map()[q],
                ) by {
                    if q == t@ {
                        lemma_prefix_push(sp2.hist_at(t@), self.hist_map()[t@].last());
                        assert(self.hist_map()[t@] == sp2.hist_at(t@).push(
                            self.hist_map()[t@].last(),
                        ));
                    } else {
                        lemma_prefix_refl(sp2.hist_map()[q]);
                    }
                }
                lemma_grows_trans(s0, sp2, *self);
                lemma_starts_with_self(t@);
                assert(self.hist_at(t@) == s0.hist_at(t@).push(self.hist_at(t@).last()));
                assert forall|q: Seq<u8>| !spec_path_starts_with(q, t@) implies ((#[trigger]
                    self.hist_map().contains_key(q) <==> s0.hist_map().contains_key(q)) && (
                    s0.hist_map().contains_key(q) ==> self.hist_map()[q] == s0.hist_map()[q]))
                    by {
                    assert(q != t@);
                }
                assert(self.labels == sp2.labels);
                assert forall|l: Seq<u8>| labels_view(node.labels@).contains(l) implies
                    #[trigger] self.labels_map().contains_key(l) && self.labels_map()[l]
                    == t@ by {
                    assert(sp2.labels_map().contains_key(l) && sp2.labels_map()[l] == t@);
                }
                assert forall|i2: int| 0 <= i2 < np implies prop_recorded(
                    s0,
                    *self,
                    t@,
                    #[trigger] node.proplist@[i2],
                ) by {
                    let pp2 = spec_path_join(t@, node.proplist@[i2].name@);
                    assert(name_literal(node.proplist@[i2].name@));
                    lemma_join_props(t@, node.proplist@[i2].name@);
                    assert(pp2 != t@);
                    assert(prop_recorded(s0, sp2, t@, node.proplist@[i2]));
                    let idx = choose|idx: int|
                        s0.hist_at(pp2).len() <= idx < sp2.hist_map()[pp2].len() && elem_view(
                            #[trigger] sp2.hist_map()[pp2][idx],
                        ) == ElemV::Prop(prop_view(node.proplist@[i2]));
                    assert(self.hist_map().contains_key(pp2));
                    assert(self.hist_map()[pp2] == sp2.hist_map()[pp2]);
                }
                assert(applied_existing(s0, *self, t@, *node));
            }
            Result::Ok(())
        }
    }

    /// Resolves a node's name to its target path, then walks the node
    /// there.  `&label` resolves through the label map, `&{/path}` requires
    /// an already-recorded path, `/` is the root, and a literal name is a
    /// child of the base path.
    fn fill_internal(&mut self, base: &[u8], node: &Node) -> (r: Result<(), StoreError>)
        requires
            old(self).wf(),
            node_wf(*node),
        ensures
            final(self).wf(),
            final(self).grows_from(*old(self)),
            r is Ok ==> spec_resolve(
                old(self).labels_map(),
                old(self).hist_map(),
                base@,
                node.name@,
            ) is Some && applied(
                *old(self),
                *final(self),
                spec_resolve(
                    old(self).labels_map(),
                    old(self).hist_map(),
                    base@,
                    node.name@,
                )->Some_0,
                *node,
            ),
            r is Err ==> (r->Err_0 is DuplicateLabel || r->Err_0 is UnresolvedReference),
            spec_resolve(old(self).labels_map(), old(self).hist_map(), base@, node.name@) is None
                ==> r is Err && r->Err_0 is UnresolvedReference,
            (name_literal(node.name@) || node.name@ == seq![SLASH]) && (node.deleted
                || node_plain(*node)) ==> r is Ok,
            (name_literal(node.name@) || node.name@ == seq![SLASH]) && r is Err ==> r->Err_0
                is DuplicateLabel,
        decreases *node, 1int,
    {
        let name = &node.name;
        let t: Vec<u8>;
        if name.len() == 1 && name[0] == SLASH {
            proof {
                assert(name@ =~= seq![SLASH]);
            }
            let mut v: Vec<u8> = Vec::new();
            v.push(SLASH);
            proof {
                assert(v@ =~= seq![SLASH]);
            }
            t = v;
        } else if name.len() > 0 && name[0] == AMP {
            proof {
                assert(name@ != seq![SLASH]) by {
                    assert(name@[0] == AMP);
                }
            }
            let label = crate::bytes::copy_range(name.as_slice(), 1, name.len());
            proof {
                assert(label@ =~= name@.subrange(1, name@.len() as int));
            }
            match self.path_from_label(label.as_slice()) {
                Option::Some(pfound) => {
                    t = pfound;
                },
                Option::None => {
                    proof {
                        assert forall|q: Seq<u8>| self.hist_map().contains_key(q) implies
                            #[trigger] self.hist_map().contains_key(q) && self.hist_map()[
                            q].is_prefix_of(self.hist_map()[q]) by {
                            lemma_prefix_refl(self.hist_map()[q]);
                        }
                    }
                    return Result::Err(StoreError::UnresolvedReference(label));
                },
            }
        } else if name.len() > 0 && name[0] == SLASH {
            proof {
                assert(name@ != seq![SLASH]) by {
                    if name@ == seq![SLASH] {
                        assert(name@.len() == 1);
                    }
                }
            }
            match self.find_path(name.as_slice()) {
                Option::Some(jx) => {
                    proof {
                        lemma_assoc_map_index(self.paths@, jx as int);
                    }
                    t = copy_bytes(name.as_slice());
                },
                Option::None => {
                    proof {
                        lemma_assoc_map_absent(self.paths@, name@);
                        assert forall|q: Seq<u8>| self.hist_map().contains_key(q) implies
                            #[trigger] self.hist_map().contains_key(q) && self.hist_map()[
                            q].is_prefix_of(self.hist_map()[q]) by {
                            lemma_prefix_refl(self.hist_map()[q]);
                        }
                    }
                    return Result::Err(StoreError::UnresolvedReference(copy_bytes(
                        name.as_slice(),
                    )));
                },
            }
        } else {
            t = path_join(base, name.as_slice());
        }
        let res = self.fill_at(&t, node);
        res
    }

    /// Fills the store from a parsed document: walks the root at `/`, then
    /// applies each amendment in file order.  An amendment named `/`, or by
    /// reference, resolves as the grammar says; a literal name must match a
    /// registered label, else it is a dangling amendment.
    #[verifier::loop_isolation(false)]
    pub fn fill(&mut self, dt_info: &BootInfo, amends: &[Node]) -> (r: Result<(), StoreError>)
        requires
            old(self).wf(),
            node_wf(dt_info.root),
            !dt_info.root.deleted,
            dt_info.root.name@ == seq![SLASH],
            forall|i: int| 0 <= i < amends@.len() ==> node_wf(#[trigger] amends@[i]),
        ensures
            final(self).wf(),
            final(self).grows_from(*old(self)),
            r is Ok ==> final(self).hist_map().contains_key(seq![SLASH]) && final(self).hist_map()[
                seq![SLASH]].len() > old(self).hist_at(seq![SLASH]).len() && elem_view(
                final(self).hist_map()[seq![SLASH]][old(self).hist_at(seq![SLASH]).len() as int],
            ) == ElemV::Node(node_view(dt_info.root)),
            r is Ok ==> exists|chain: Seq<LabelStore>|
                #[trigger] chain.len() == amends@.len() + 1 && applied_existing(
                    *old(self),
                    chain[0],
                    seq![SLASH],
                    dt_info.root,
                ) && (forall|k: int|
                    0 <= k < amends@.len() ==> amend_step(
                        chain[k],
                        chain[k + 1],
                        #[trigger] amends@[k],
                    )) && chain[amends@.len() as int] == *final(self),
            node_plain(dt_info.root) && amends@.len() == 0 ==> r is Ok,
            amends@.len() == 0 && r is Err ==> r->Err_0 is DuplicateLabel,
    {
        let ghost s0 = *self;
        let ghost root_slash = seq![SLASH];
        let mut root_base: Vec<u8> = Vec::new();
        root_base.push(SLASH);
        proof {
            assert(root_base@ =~= seq![SLASH]);
        }
        match self.fill_internal(root_base.as_slice(), &dt_info.root) {
            Result::Err(e) => {
                return Result::Err(e);
            },
            Result::Ok(_) => {},
        }
        let ghost s1 = *self;
        proof {
            assert(spec_resolve(s0.labels_map(), s0.hist_map(), root_base@, dt_info.root.name@)
                == Option::Some(root_slash));
            assert(applied_existing(s0, s1, root_slash, dt_info.root));
            assert(s1.hist_map().contains_key(root_slash));
            assert(s1.hist_map()[root_slash] == s0.hist_at(root_slash).push(
                s1.hist_map()[root_slash].last(),
            ));
        }
        let empty_base: Vec<u8> = Vec::new();
        let n = amends.len();
        let mut i: usize = 0;
        let ghost mut chain: Seq<LabelStore> = seq![s1];
        while i < n
            invariant
                self.wf(),
                self.grows_from(s1),
                self.hist_map().contains_key(root_slash),
                self.hist_map()[root_slash].len() > s0.hist_at(root_slash).len(),
                elem_view(self.hist_map()[root_slash][s0.hist_at(root_slash).len() as int])
                    == ElemV::Node(node_view(dt_info.root)),
                i <= n,
                chain.len() == i + 1,
                chain[0] == s1,
                chain[i as int] == *self,
                forall|k: int| 0 <= k < i ==> amend_step(
                    chain[k],
                    chain[k + 1],
                    #[trigger] amends@[k],
                ),
            decreases n - i,
        {
            let ghost sp = *self;
            let a = &amends[i];
            let aname = &a.name;
            let step: Result<(), StoreError>;
            if aname.len() > 0 && (aname[0] == AMP || aname[0] == SLASH) {
                step = self.fill_internal(empty_base.as_slice(), a);
            } else {
                match self.path_from_label(aname.as_slice()) {
                    Option::Some(pfound) => {
                        proof {
                            assert(sp.labels_map().contains_key(aname@) && pfound@
                                == sp.labels_map()[aname@]);
                        }
                        step = self.fill_at(&pfound, a);
                    },
                    Option::None => {
                        proof {
                            lemma_grows_trans(s0, s1, *self);
                        }
                        return Result::Err(StoreError::DanglingAmendment(copy_bytes(
                            aname.as_slice(),
                        )));
                    },
                }
            }
            match step {
                Result::Err(e) => {
                    proof {
                        lemma_grows_trans(s1, sp, *self);
                        lemma_grows_trans(s0, s1, *self);
                    }
                    return Result::Err(e);
                },
                Result::Ok(_) => {},
            }
            proof {
                assert(sp.hist_map().contains_key(root_slash));
                assert(self.hist_map().contains_key(root_slash));
                lemma_grows_trans(s1, sp, *self);
                assert(sp.hist_map()[root_slash].is_prefix_of(self.hist_map()[root_slash]));
                assert(self.hist_map()[root_slash][s0.hist_at(root_slash).len() as int]
                    == sp.hist_map()[root_slash][s0.hist_at(root_slash).len() as int]);
                assert(amend_step(sp, *self, amends@[i as int])) by {
                    if aname@.len() > 0 && (aname@[0] == AMP || aname@[0] == SLASH) {
                        assert(empty_base@ =~= Seq::<u8>::empty());
                    }
                }
                chain = chain.push(*self);
                assert(forall|k: int| 0 <= k < i ==> #[trigger] chain[k]
                    == chain.drop_last()[k] && chain[k + 1] == chain.drop_last()[k + 1]);
            }
            i += 1;
        }
        proof {
            lemma_grows_trans(s0, s1, *self);
            assert(chain.len() == amends@.len() + 1);
            assert(chain[0] == s1);
            assert(applied_existing(s0, chain[0], root_slash, dt_info.root));
            assert(forall|k: int|
                0 <= k < amends@.len() ==> amend_step(
                    chain[k],
                    chain[k + 1],
                    #[trigger] amends@[k],
                ));
            assert(chain[amends@.len() as int] == *self);
        }
        Result::Ok(())
    }
}

/// Prefixing of histories is reflexive and transitive, and pushing extends.
pub proof fn lemma_prefix_refl(s: Seq<Element>)
    ensures
        s.is_prefix_of(s),
{
    assert(s =~= s.subrange(0, s.len() as int));
}

pub proof fn lemma_prefix_push(s: Seq<Element>, e: Element)
    ensures
        s.is_prefix_of(s.push(e)),
{
    assert(s =~= s.push(e).subrange(0, s.len() as int));
}

pub proof fn lemma_prefix_trans(s1: Seq<Element>, s2: Seq<Element>, s3: Seq<Element>)
    requires
        s1.is_prefix_of(s2),
        s2.is_prefix_of(s3),
    ensures
        s1.is_prefix_of(s3),
{
    assert(s1 =~= s3.subrange(0, s1.len() as int)) by {
        assert(forall|i: int| 0 <= i < s1.len() ==> s2[i] == s3.subrange(0, s2.len() as int)[i]);
    }
}

/// Growth of the store composes.
pub proof fn lemma_grows_trans(a: LabelStore, b: LabelStore, c: LabelStore)
    requires
        b.grows_from(a),
        c.grows_from(b),
    ensures
        c.grows_from(a),
{
    assert forall|q: Seq<u8>| a.hist_map().contains_key(q) implies #[trigger] c.hist_map(
    ).contains_key(q) && a.hist_map()[q].is_prefix_of(c.hist_map()[q]) by {
        assert(b.hist_map().contains_key(q));
        assert(c.hist_map().contains_key(q));
        lemma_prefix_trans(a.hist_map()[q], b.hist_map()[q], c.hist_map()[q]);
    }
}

/// The target path that a node name denotes: `/` is the root, `&label`
/// resolves through the label map, an absolute path must already be
/// recorded, and a literal name is joined onto the base path.
pub open spec fn spec_resolve(
    labels: Map<Seq<u8>, Seq<u8>>,
    hist: Map<Seq<u8>, Seq<Element>>,
    base: Seq<u8>,
    name: Seq<u8>,
) -> Option<Seq<u8>> {
    if name == seq![SLASH] {
        Option::Some(seq![SLASH])
    } else if name.len() > 0 && name[0] == AMP {
        let l = name.subrange(1, name.len() as int);
        if labels.contains_key(l) {
            Option::Some(labels[l])
        } else {
            Option::None
        }
    } else if name.len() > 0 && name[0] == SLASH {
        if hist.contains_key(name) {
            Option::Some(name)
        } else {
            Option::None
        }
    } else {
        Option::Some(spec_path_join(base, name))
    }
}

/// What one walk of a deleted node at target path `t` does to the store:
/// every label at or below `t` is dropped, a deleted-node element is
/// appended to `t`'s history and to the history of every live path below
/// `t`, and nothing else changes.
pub open spec fn applied_deleted(prev: LabelStore, cur: LabelStore, t: Seq<u8>, node: Node) -> bool {
    &&& forall|l: Seq<u8>|
        cur.labels_map().contains_key(l) <==> (#[trigger] prev.labels_map().contains_key(l)
            && !spec_path_starts_with(prev.labels_map()[l], t))
    &&& forall|l: Seq<u8>| #[trigger] cur.labels_map().contains_key(l) ==> cur.labels_map()[l]
        == prev.labels_map()[l]
    &&& cur.hist_at(t) == prev.hist_at(t).push(cur.hist_at(t).last())
    &&& elem_view(cur.hist_at(t).last()) == ElemV::Node(node_view(node))
    &&& forall|q: Seq<u8>|
        #[trigger] prev.hist_map().contains_key(q) && q != t && spec_path_starts_with(q, t)
            ==> cur.hist_map()[q] == (if prev.hist_map()[q].len() > 0 && elem_existing(
            prev.hist_map()[q].last(),
        ) {
            prev.hist_map()[q].push(cur.hist_map()[q].last())
        } else {
            prev.hist_map()[q]
        })
    &&& forall|q: Seq<u8>|
        #[trigger] prev.hist_map().contains_key(q) && q != t && spec_path_starts_with(q, t)
            && prev.hist_map()[q].len() > 0 && elem_existing(prev.hist_map()[q].last())
            ==> elem_view(cur.hist_map()[q].last()) == ElemV::Node(node_view(node))
    &&& forall|q: Seq<u8>|
        !spec_path_starts_with(q, t) ==> ((#[trigger] cur.hist_map().contains_key(q)
            <==> prev.hist_map().contains_key(q)) && (prev.hist_map().contains_key(q)
            ==> cur.hist_map()[q] == prev.hist_map()[q]))
    &&& forall|q: Seq<u8>| #[trigger] cur.hist_map().contains_key(q) ==> prev.hist_map(
    ).contains_key(q) || q == t
}

/// A property of a node walked at `t` has a new element, equal to it under
/// the view, appended to the history of its own path.
pub open spec fn prop_recorded(prev: LabelStore, cur: LabelStore, t: Seq<u8>, p: Property) -> bool {
    let pp = spec_path_join(t, p.name@);
    &&& cur.hist_map().contains_key(pp)
    &&& exists|idx: int|
        prev.hist_at(pp).len() <= idx < cur.hist_map()[pp].len() && elem_view(
            #[trigger] cur.hist_map()[pp][idx],
        ) == ElemV::Prop(prop_view(p))
}

/// What one walk of a live node at target path `t` guarantees: exactly one
/// node element is appended to `t`'s history, histories and labels outside
/// the subtree of `t` are untouched, and bindings of labels registered
/// elsewhere survive.
pub open spec fn applied_existing(prev: LabelStore, cur: LabelStore, t: Seq<u8>, node: Node) -> bool {
    &&& cur.hist_at(t) == prev.hist_at(t).push(cur.hist_at(t).last())
    &&& elem_view(cur.hist_at(t).last()) == ElemV::Node(node_view(node))
    &&& forall|l: Seq<u8>| labels_view(node.labels@).contains(l) ==> #[trigger] cur.labels_map(
    ).contains_key(l) && cur.labels_map()[l] == t
    &&& forall|i: int| 0 <= i < node.proplist@.len() ==> prop_recorded(
        prev,
        cur,
        t,
        #[trigger] node.proplist@[i],
    )
    &&& forall|q: Seq<u8>|
        !spec_path_starts_with(q, t) ==> ((#[trigger] cur.hist_map().contains_key(q)
            <==> prev.hist_map().contains_key(q)) && (prev.hist_map().contains_key(q)
            ==> cur.hist_map()[q] == prev.hist_map()[q]))
    &&& forall|l: Seq<u8>|
        #[trigger] prev.labels_map().contains_key(l) && !spec_path_starts_with(
            prev.labels_map()[l],
            t,
        ) ==> cur.labels_map().contains_key(l) && cur.labels_map()[l] == prev.labels_map()[l]
}

pub open spec fn applied(prev: LabelStore, cur: LabelStore, t: Seq<u8>, node: Node) -> bool {
    if node.deleted {
        applied_deleted(prev, cur, t, node)
    } else {
        applied_existing(prev, cur, t, node)
    }
}

/// One amendment applied in file order: a `/`, `&label` or `&{/path}` name
/// resolves against the state left by the amendments before it and the walk
/// happens at the resolved path; a literal name must match a registered
/// label and the walk happens at that label's path.
pub open spec fn amend_step(prev: LabelStore, cur: LabelStore, a: Node) -> bool {
    if a.name@.len() > 0 && (a.name@[0] == AMP || a.name@[0] == SLASH) {
        spec_resolve(prev.labels_map(), prev.hist_map(), Seq::empty(), a.name@) is Some && applied(
            prev,
            cur,
            spec_resolve(prev.labels_map(), prev.hist_map(), Seq::empty(), a.name@)->Some_0,
            a,
        )
    } else {
        prev.labels_map().contains_key(a.name@) && applied(
            prev,
            cur,
            prev.labels_map()[a.name@],
            a,
        )
    }
}

} // verus!
