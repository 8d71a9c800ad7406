//! The data model: nodes, properties, typed data items, memory reserve
//! entries, and the document root, together with their mathematical views.

use vstd::prelude::*;
use crate::bytes::{eq_bytes, copy_bytes};

verus! {

/// One typed data item of a property value.
#[derive(Debug, PartialEq, Eq)]
pub enum Data {
    /// A standalone `&label` or `&{/path}` reference; the bytes hold the
    /// label, or the absolute path (starting with `/`).
    Reference(Vec<u8>),
    /// A decoded byte string: escape sequences already resolved.
    String(Vec<u8>),
    /// A `< ... >` cell list: each cell is a literal value or a reference.
    /// Exactly one of the two is meaningful: a cell with a reference carries
    /// the placeholder value 0.
    Cells(Vec<(u64, Option<Vec<u8>>)>),
    /// A `[ ... ]` byte array parsed from hex pairs.
    ByteArray(Vec<u8>),
}

/// A named property of a node.
#[derive(Debug, PartialEq, Eq)]
pub struct Property {
    pub deleted: bool,
    pub name: Vec<u8>,
    /// Absent for a present-only property; otherwise the data items in file
    /// order.
    pub val: Option<Vec<Data>>,
    pub labels: Vec<Vec<u8>>,
}

/// A node of the devicetree.
#[derive(Debug, PartialEq, Eq)]
pub struct Node {
    pub deleted: bool,
    /// `/` for the root, a literal name for an ordinary node, `&label` for a
    /// label-reference amendment, or an absolute path (from `&{/path}`) for a
    /// path-reference amendment.
    pub name: Vec<u8>,
    pub proplist: Vec<Property>,
    pub children: Vec<Node>,
    pub labels: Vec<Vec<u8>>,
}

/// A `/memreserve/ addr size;` directive.
#[derive(Debug, PartialEq, Eq)]
pub struct ReserveInfo {
    pub address: u64,
    pub size: u64,
    pub labels: Vec<Vec<u8>>,
}

/// The document root: reserve entries, boot cpuid, and the root node.
#[derive(Debug, PartialEq, Eq)]
pub struct BootInfo {
    pub reserve_info: Vec<ReserveInfo>,
    pub boot_cpuid: u32,
    pub root: Node,
}

/// Mathematical view of a `Data` item.
pub ghost enum DataV {
    Reference(Seq<u8>),
    String(Seq<u8>),
    Cells(Seq<(u64, Option<Seq<u8>>)>),
    ByteArray(Seq<u8>),
}

/// Mathematical view of a `Property`.
pub ghost struct PropV {
    pub deleted: bool,
    pub name: Seq<u8>,
    pub val: Option<Seq<DataV>>,
    pub labels: Seq<Seq<u8>>,
}

/// Mathematical view of a `Node`.
pub ghost struct NodeV {
    pub deleted: bool,
    pub name: Seq<u8>,
    pub props: Seq<PropV>,
    pub children: Seq<NodeV>,
    pub labels: Seq<Seq<u8>>,
}

/// The label list as a sequence of byte sequences.
pub open spec fn labels_view(ls: Seq<Vec<u8>>) -> Seq<Seq<u8>> {
    ls.map_values(|l: Vec<u8>| l@)
}

/// Mathematical view of one cell.
pub open spec fn cell_view(c: (u64, Option<Vec<u8>>)) -> (u64, Option<Seq<u8>>) {
    (c.0, match c.1 {
        Option::Some(r) => Option::Some(r@),
        Option::None => Option::None,
    })
}

/// The view of a data item.
pub open spec fn data_view(d: Data) -> DataV {
    match d {
        Data::Reference(r) => DataV::Reference(r@),
        Data::String(s) => DataV::String(s@),
        Data::Cells(cs) => DataV::Cells(cs@.map_values(|c: (u64, Option<Vec<u8>>)| cell_view(c))),
        Data::ByteArray(bs) => DataV::ByteArray(bs@),
    }
}

/// The view of a property.
pub open spec fn prop_view(p: Property) -> PropV {
    PropV {
        deleted: p.deleted,
        name: p.name@,
        val: match p.val {
            Option::Some(ds) => Option::Some(ds@.map_values(|d: Data| data_view(d))),
            Option::None => Option::None,
        },
        labels: labels_view(p.labels@),
    }
}

/// The view of a node, children included.
pub open spec fn node_view(n: Node) -> NodeV
    decreases n,
{
    NodeV {
        deleted: n.deleted,
        name: n.name@,
        props: n.proplist@.map_values(|p: Property| prop_view(p)),
        children: children_view(n.children@),
        labels: labels_view(n.labels@),
    }
}

/// The views of a node's children, in order.
pub open spec fn children_view(cs: Seq<Node>) -> Seq<NodeV>
    decreases cs,
{
    if cs.len() == 0 {
        Seq::empty()
    } else {
        seq![node_view(cs[0])] + children_view(cs.drop_first())
    }
}

/// `children_view` maps the sequence element by element.
pub proof fn lemma_children_view_len(cs: Seq<Node>)
    ensures
        children_view(cs).len() == cs.len(),
        forall|i: int| 0 <= i < cs.len() ==> children_view(cs)[i] == node_view(cs[i]),
    decreases cs.len(),
{
    if cs.len() > 0 {
        lemma_children_view_len(cs.drop_first());
    }
}

/// Whether a label list already holds a label, compared byte for byte.
pub fn contains_label(ls: &Vec<Vec<u8>>, l: &[u8]) -> (r: bool)
    ensures
        r == labels_view(ls@).contains(l@),
{
    let n = ls.len();
    let mut i: usize = 0;
    while i < n
        invariant
            n == ls@.len(),
            i <= n,
            forall|j: int| 0 <= j < i ==> ls@[j]@ != l@,
        decreases n - i,
    {
        if eq_bytes(ls[i].as_slice(), l) {
            assert(labels_view(ls@)[i as int] == l@);
            return true;
        }
        i += 1;
    }
    assert(forall|j: int| 0 <= j < ls@.len() ==> labels_view(ls@)[j] == ls@[j]@);
    false
}

/// An owned copy of a label list.
pub fn clone_labels(ls: &Vec<Vec<u8>>) -> (r: Vec<Vec<u8>>)
    ensures
        labels_view(r@) == labels_view(ls@),
{
    let n = ls.len();
    let mut r: Vec<Vec<u8>> = Vec::new();
    let mut i: usize = 0;
    while i < n
        invariant
            n == ls@.len(),
            i <= n,
            r@.len() == i,
            forall|k: int| 0 <= k < i ==> (#[trigger] r@[k])@ == ls@[k]@,
        decreases n - i,
    {
        r.push(copy_bytes(ls[i].as_slice()));
        i += 1;
    }
    proof {
        assert(labels_view(r@) =~= labels_view(ls@));
    }
    r
}

/// An owned copy of a data item, equal under the view.
pub fn clone_data(d: &Data) -> (r: Data)
    ensures
        data_view(r) == data_view(*d),
{
    match d {
        Data::Reference(v) => Data::Reference(copy_bytes(v.as_slice())),
        Data::String(v) => Data::String(copy_bytes(v.as_slice())),
        Data::ByteArray(v) => Data::ByteArray(copy_bytes(v.as_slice())),
        Data::Cells(cs) => {
            let n = cs.len();
            let mut out: Vec<(u64, Option<Vec<u8>>)> = Vec::new();
            let mut i: usize = 0;
            while i < n
                invariant
                    n == cs@.len(),
                    i <= n,
                    out@.len() == i,
                    forall|k: int| 0 <= k < i ==> cell_view(#[trigger] out@[k]) == cell_view(
                        cs@[k],
                    ),
                decreases n - i,
            {
                let c: (u64, Option<Vec<u8>>) = match &cs[i].1 {
                    Option::Some(rf) => (cs[i].0, Option::Some(copy_bytes(rf.as_slice()))),
                    Option::None => (cs[i].0, Option::None),
                };
                assert(cell_view(c) == cell_view(cs@[i as int]));
                out.push(c);
                i += 1;
            }
            proof {
                assert(out@.map_values(|c: (u64, Option<Vec<u8>>)| cell_view(c))
                    =~= cs@.map_values(|c: (u64, Option<Vec<u8>>)| cell_view(c)));
            }
            Data::Cells(out)
        },
    }
}

/// An owned copy of a property, equal under the view.
pub fn clone_prop(p: &Property) -> (r: Property)
    ensures
        prop_view(r) == prop_view(*p),
{
    let val: Option<Vec<Data>> = match &p.val {
        Option::None => Option::None,
        Option::Some(ds) => {
            let n = ds.len();
            let mut out: Vec<Data> = Vec::new();
            let mut i: usize = 0;
            while i < n
                invariant
                    n == ds@.len(),
                    i <= n,
                    out@.len() == i,
                    forall|k: int| 0 <= k < i ==> data_view(#[trigger] out@[k]) == data_view(
                        ds@[k],
                    ),
                decreases n - i,
            {
                out.push(clone_data(&ds[i]));
                i += 1;
            }
            proof {
                assert(out@.map_values(|d: Data| data_view(d)) =~= ds@.map_values(
                    |d: Data| data_view(d),
                ));
            }
            Option::Some(out)
        },
    };
    let r = Property {
        deleted: p.deleted,
        name: copy_bytes(p.name.as_slice()),
        val,
        labels: clone_labels(&p.labels),
    };
    r
}

/// An owned copy of a node and its whole subtree, equal under the view.
pub fn clone_node(n: &Node) -> (r: Node)
    ensures
        node_view(r) == node_view(*n),
    decreases *n,
{
    let np = n.proplist.len();
    let mut props: Vec<Property> = Vec::new();
    let mut i: usize = 0;
    while i < np
        invariant
            np == n.proplist@.len(),
            i <= np,
            props@.len() == i,
            forall|k: int| 0 <= k < i ==> prop_view(#[trigger] props@[k]) == prop_view(
                n.proplist@[k],
            ),
        decreases np - i,
    {
        props.push(clone_prop(&n.proplist[i]));
        i += 1;
    }
    let nc = n.children.len();
    let mut kids: Vec<Node> = Vec::new();
    let mut j: usize = 0;
    while j < nc
        invariant
            nc == n.children@.len(),
            j <= nc,
            kids@.len() == j,
            forall|k: int| 0 <= k < j ==> node_view(#[trigger] kids@[k]) == node_view(
                n.children@[k],
            ),
        decreases nc - j,
    {
        let c = clone_node(&n.children[j]);
        kids.push(c);
        j += 1;
    }
    proof {
        assert(props@.map_values(|q: Property| prop_view(q)) =~= n.proplist@.map_values(
            |q: Property| prop_view(q),
        ));
        lemma_children_view_len(kids@);
        lemma_children_view_len(n.children@);
        assert(children_view(kids@) =~= children_view(n.children@));
    }
    Node {
        deleted: n.deleted,
        name: copy_bytes(n.name.as_slice()),
        proplist: props,
        children: kids,
        labels: clone_labels(&n.labels),
    }
}

impl ReserveInfo {
    /// Appends the label unless it is already present.
    pub fn add_label(&mut self, label: &[u8])
        ensures
            final(self).address == old(self).address,
            final(self).size == old(self).size,
            labels_view(final(self).labels@) == (if labels_view(old(self).labels@).contains(
                label@,
            ) {
                labels_view(old(self).labels@)
            } else {
                labels_view(old(self).labels@).push(label@)
            }),
    {
        if !contains_label(&self.labels, label) {
            self.labels.push(copy_bytes(label));
            proof {
                assert(labels_view(self.labels@) =~= labels_view(self.labels@.drop_last()).push(
                    label@,
                ));
            }
        }
    }
}

impl Node {
    /// Appends the label unless it is already present.
    pub fn add_label(&mut self, label: &[u8])
        ensures
            final(self).deleted == old(self).deleted,
            final(self).name == old(self).name,
            final(self).proplist == old(self).proplist,
            final(self).children == old(self).children,
            labels_view(final(self).labels@) == (if labels_view(old(self).labels@).contains(
                label@,
            ) {
                labels_view(old(self).labels@)
            } else {
                labels_view(old(self).labels@).push(label@)
            }),
    {
        if !contains_label(&self.labels, label) {
            self.labels.push(copy_bytes(label));
            proof {
                assert(labels_view(self.labels@) =~= labels_view(self.labels@.drop_last()).push(
                    label@,
                ));
            }
        }
    }
}

impl Property {
    /// Appends the label unless it is already present.
    pub fn add_label(&mut self, label: &[u8])
        ensures
            final(self).deleted == old(self).deleted,
            final(self).name == old(self).name,
            final(self).val == old(self).val,
            labels_view(final(self).labels@) == (if labels_view(old(self).labels@).contains(
                label@,
            ) {
                labels_view(old(self).labels@)
            } else {
                labels_view(old(self).labels@).push(label@)
            }),
    {
        if !contains_label(&self.labels, label) {
            self.labels.push(copy_bytes(label));
            proof {
                assert(labels_view(self.labels@) =~= labels_view(self.labels@.drop_last()).push(
                    label@,
                ));
            }
        }
    }

    /// Marks the property deleted; a deletion clears any labels.
    pub fn delete(&mut self)
        ensures
            final(self).deleted,
            final(self).labels@.len() == 0,
            final(self).name == old(self).name,
            final(self).val == old(self).val,
    {
        self.deleted = true;
        self.labels = Vec::new();
    }
}

} // verus!
