//! The in-memory tree model: nodes and properties, their ghost models, and
//! the name-based lookup and in-place edit operations.

use vstd::prelude::*;
use vstd::pervasive::VecAdditionalExecFns;
use crate::text::str_eq;

verus! {

/// A single `key = value;` or `key;` entry of a node.
///
/// `value` is the raw right-hand-side text between `=` and the terminating
/// `;`, stored verbatim; a property without a value keeps `None`, which is
/// distinct from an empty value.
#[derive(Debug)]
pub struct DtbProperty {
    pub key: String,
    pub value: Option<String>,
}

/// Ghost model of a property: key and optional raw value as character
/// sequences.
pub struct PropModel {
    pub key: Seq<char>,
    pub value: Option<Seq<char>>,
}

impl View for DtbProperty {
    type V = PropModel;

    open spec fn view(&self) -> PropModel {
        PropModel {
            key: self.key@,
            value: match self.value {
                Some(v) => Some(v@),
                None => None,
            },
        }
    }
}

/// A named node of the document tree: an ordered property list and an
/// ordered list of exclusively owned children.
#[derive(Debug)]
pub struct DtbNode {
    pub node_name: String,
    pub properties: Vec<DtbProperty>,
    pub child_nodes: Vec<Box<DtbNode>>,
}

/// Ghost model of a node: name, properties in source order, children in
/// source order.
pub struct NodeModel {
    pub name: Seq<char>,
    pub props: Seq<PropModel>,
    pub children: Seq<NodeModel>,
}

/// Models of a property sequence, element by element.
pub open spec fn props_model(ps: Seq<DtbProperty>) -> Seq<PropModel> {
    Seq::new(ps.len(), |i: int| ps[i]@)
}

/// Models of the children of `n` from index `i` on.
pub open spec fn children_model_from(n: DtbNode, i: int) -> Seq<NodeModel>
    decreases n, n.child_nodes@.len() - i,
{
    if i < 0 || i >= n.child_nodes@.len() {
        Seq::empty()
    } else {
        seq![node_model(*n.child_nodes@[i])] + children_model_from(n, i + 1)
    }
}

/// Ghost model of a whole node.
pub open spec fn node_model(n: DtbNode) -> NodeModel
    decreases n, n.child_nodes@.len() + 1,
{
    NodeModel {
        name: n.node_name@,
        props: props_model(n.properties@),
        children: children_model_from(n, 0),
    }
}

impl View for DtbNode {
    type V = NodeModel;

    open spec fn view(&self) -> NodeModel {
        node_model(*self)
    }
}

/// Models of a sequence of boxed nodes, element by element.
pub open spec fn boxes_models(cs: Seq<Box<DtbNode>>) -> Seq<NodeModel> {
    Seq::new(cs.len(), |i: int| node_model(*cs[i]))
}

/// The children models from `i` on are the models of the children from `i`
/// on, index by index.
pub proof fn lemma_children_model_from(n: DtbNode, i: int)
    requires
        0 <= i <= n.child_nodes@.len(),
    ensures
        children_model_from(n, i).len() == n.child_nodes@.len() - i,
        forall|k: int|
            i <= k < n.child_nodes@.len() ==> children_model_from(n, i)[k - i] == node_model(
                *n.child_nodes@[k],
            ),
    decreases n.child_nodes@.len() - i,
{
    if i < n.child_nodes@.len() {
        lemma_children_model_from(n, i + 1);
    }
}

/// Two nodes with the same child list have the same children models.
pub proof fn lemma_children_model_same(a: DtbNode, b: DtbNode, i: int)
    requires
        a.child_nodes == b.child_nodes,
    ensures
        children_model_from(a, i) == children_model_from(b, i),
    decreases a.child_nodes@.len() - i,
{
    if 0 <= i < a.child_nodes@.len() {
        lemma_children_model_same(a, b, i + 1);
    }
}

/// A node's model lists as its children exactly the models of its child
/// list, index by index.
pub proof fn lemma_node_children_model(n: DtbNode)
    ensures
        node_model(n).children == boxes_models(n.child_nodes@),
{
    lemma_children_model_from(n, 0);
    assert(node_model(n).children =~= boxes_models(n.child_nodes@));
}

impl DtbNode {
    /// Index of the first property of this node whose key equals `key`.
    ///
    /// Only this node's own property list is searched, never a descendant's;
    /// absence is a normal outcome, reported as `None`.
    pub fn find_property(&self, key: &str) -> (r: Option<usize>)
        ensures
            match r {
                Some(i) => 0 <= i < self.properties@.len() && self.properties@[i as int].key@
                    == key@ && forall|j: int|
                    0 <= j < i ==> self.properties@[j].key@ != key@,
                None => forall|j: int|
                    0 <= j < self.properties@.len() ==> self.properties@[j].key@ != key@,
            },
    {
        let n = self.properties.len();
        let mut i: usize = 0;
        while i < n
            invariant
                0 <= i <= n,
                n == self.properties@.len(),
                forall|j: int| 0 <= j < i ==> self.properties@[j].key@ != key@,
            decreases n - i,
        {
            if str_eq(self.properties[i].key.as_str(), key) {
                return Some(i);
            }
            i = i + 1;
        }
        None
    }

    /// Index of the first direct child of this node whose name equals
    /// `name`.
    ///
    /// Only direct children are searched, never deeper descendants; absence
    /// is a normal outcome, reported as `None`.
    pub fn find_childnode(&self, name: &str) -> (r: Option<usize>)
        ensures
            match r {
                Some(i) => 0 <= i < self.child_nodes@.len() && self.child_nodes@[i as int].node_name@
                    == name@ && forall|j: int|
                    0 <= j < i ==> self.child_nodes@[j].node_name@ != name@,
                None => forall|j: int|
                    0 <= j < self.child_nodes@.len() ==> self.child_nodes@[j].node_name@ != name@,
            },
    {
        let n = self.child_nodes.len();
        let mut i: usize = 0;
        while i < n
            invariant
                0 <= i <= n,
                n == self.child_nodes@.len(),
                forall|j: int| 0 <= j < i ==> self.child_nodes@[j].node_name@ != name@,
            decreases n - i,
        {
            if str_eq(self.child_nodes[i].node_name.as_str(), name) {
                return Some(i);
            }
            i = i + 1;
        }
        None
    }

    /// Replace the value of the property at index `i`, leaving its key, all
    /// sibling properties, the node's name and all children untouched: the
    /// edit is isolated to that one property's value.
    pub fn set_property_value(&mut self, i: usize, value: Option<String>)
        requires
            i < old(self).properties@.len(),
        ensures
            final(self).node_name == old(self).node_name,
            final(self).child_nodes == old(self).child_nodes,
            final(self).properties@ == old(self).properties@.update(
                i as int,
                DtbProperty { key: old(self).properties@[i as int].key, value },
            ),
            node_model(*final(self)).name == node_model(*old(self)).name,
            node_model(*final(self)).children == node_model(*old(self)).children,
            node_model(*final(self)).props == node_model(*old(self)).props.update(
                i as int,
                (DtbProperty { key: old(self).properties@[i as int].key, value })@,
            ),
    {
        let key = self.properties[i].key.clone();
        self.properties.set(i, DtbProperty { key, value });
        proof {
            lemma_children_model_same(*self, *old(self), 0);
            assert(props_model(self.properties@) =~= props_model(old(self).properties@).update(
                i as int,
                (DtbProperty { key: old(self).properties@[i as int].key, value })@,
            ));
        }
    }
}

} // verus!
