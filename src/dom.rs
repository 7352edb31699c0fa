use crate::attributes::AttrMap;
use vstd::prelude::*;

verus! {

/// A vertex of a document tree: its children, in order, and what it is.
#[derive(Debug, PartialEq, Eq)]
pub struct Node {
    pub children: Vec<Node>,
    pub node_type: NodeType,
}

#[derive(Debug, PartialEq, Eq)]
pub enum NodeType {
    Text(String),
    Element(ElementData),
}

#[derive(Debug, PartialEq, Eq)]
pub struct ElementData {
    pub tag_name: String,
    pub attributes: AttrMap,
}

/// What a node is, as plain values: the text of a text node, or the tag
/// name and attribute entries of an element.
pub enum KindView {
    Text(Seq<char>),
    Element { tag: Seq<char>, attrs: Seq<(Seq<char>, Seq<char>)> },
}

/// A node as plain values.
pub struct NodeView {
    pub children: Seq<NodeView>,
    pub kind: KindView,
}

/// A text node holding `t`.
pub open spec fn text_view(t: Seq<char>) -> NodeView {
    NodeView { children: Seq::empty(), kind: KindView::Text(t) }
}

/// An element named `tag` with the given attributes and children.
pub open spec fn elem_view(
    tag: Seq<char>,
    attrs: Seq<(Seq<char>, Seq<char>)>,
    children: Seq<NodeView>,
) -> NodeView {
    NodeView { children, kind: KindView::Element { tag, attrs } }
}

impl NodeType {
    /// What the node is, as plain values.
    pub open spec fn view(&self) -> KindView {
        match self {
            NodeType::Text(t) => KindView::Text(t@),
            NodeType::Element(d) => KindView::Element { tag: d.tag_name@, attrs: d.attributes@ },
        }
    }
}

/// The views of a run of nodes.
pub open spec fn views(ns: Seq<Node>) -> Seq<NodeView> {
    ns.map_values(|n: Node| n@)
}

impl Node {
    /// The node and all below it, as plain values.
    pub open spec fn view(&self) -> NodeView
        decreases self,
    {
        NodeView {
            children: Seq::new(
                self.children@.len(),
                |i: int|
                    {
                        if 0 <= i < self.children@.len() {
                            proof {
                                vstd::std_specs::vec::axiom_vec_index_decreases(self.children, i);
                            }
                            self.children@[i].view()
                        } else {
                            text_view(Seq::empty())
                        }
                    },
            ),
            kind: self.node_type.view(),
        }
    }
}

/// The children of a node's view are the views of its children.
pub proof fn lemma_view_children(n: &Node)
    ensures
        n@.children == views(n.children@),
{
    assert(n@.children =~= views(n.children@));
}

/// A text node holding `data`, with no children.
pub fn text(data: String) -> (r: Node)
    ensures
        r@ == text_view(data@),
{
    let r = Node { children: Vec::new(), node_type: NodeType::Text(data) };
    assert(r@.children =~= Seq::<NodeView>::empty());
    r
}

/// An element named `name` with the attributes `attrs` and the children
/// `children`, kept in order. No check is made on the name.
pub fn elem(name: String, attrs: AttrMap, children: Vec<Node>) -> (r: Node)
    ensures
        r@ == elem_view(name@, attrs@, views(children@)),
{
    let r = Node {
        children,
        node_type: NodeType::Element(ElementData { tag_name: name, attributes: attrs }),
    };
    assert(r@.children =~= views(children@));
    r
}

} // verus!
