//! The node tree: styled boxes with ordered children and an opaque context
//! value per node, plus the read-only view over a finished layout pass.

use vstd::prelude::*;

use crate::engine::cap_size_ex;
use crate::engine::layout_rec;
use crate::engine::opt_i;
use crate::engine::resolve_dim_ex;
use crate::engine::spec_layout_root;
use crate::geom::clone_geom;
use crate::geom::lemma_views_of_geoms;
use crate::geom::Geom;
use crate::style::apply_prop;
use crate::style::default_style;
use crate::style::lemma_with_prop_wf;
use crate::style::make_default_style;
use crate::style::styled;
use crate::style::wf_style;
use crate::style::with_prop;
use crate::style::FlexProperty;
use crate::style::Style;

verus! {

/// Largest number of children one node may own.
pub const MAX_CHILDREN: usize = 0x1_0000;

/// Mathematical model of a style tree: the style of each node and the models
/// of its children, in order. The context payload carries no layout meaning
/// and is not part of the model.
#[verifier::ext_equal]
pub ghost struct NodeView {
    pub style: Style,
    pub children: Seq<NodeView>,
}

/// Every style value in the tree is in bounds and no node has more than
/// `MAX_CHILDREN` children, so layout arithmetic cannot overflow.
pub open spec fn wf_node(n: NodeView) -> bool
    decreases n,
{
    &&& wf_style(n.style)
    &&& n.children.len() <= MAX_CHILDREN
    &&& forall|i: int| 0 <= i < n.children.len() ==> wf_node(#[trigger] n.children[i])
}

/// One box in the tree: its style, its caller-supplied context value, and the
/// children it owns.
#[derive(Debug)]
pub struct Node<A> {
    pub style: Style,
    pub context: A,
    pub children: Vec<Node<A>>,
}

pub open spec fn views_of_nodes<A>(s: Seq<Node<A>>) -> Seq<NodeView>
    decreases s,
{
    if s.len() == 0 {
        Seq::empty()
    } else {
        views_of_nodes(s.drop_last()).push(view_node(s.last()))
    }
}

pub open spec fn view_node<A>(n: Node<A>) -> NodeView
    decreases n,
{
    proof {
        assert(decreases_to!(n => n.children));
        assert(decreases_to!(n.children => n.children@));
    }
    NodeView { style: n.style, children: views_of_nodes(n.children@) }
}

/// `views_of_nodes` is the elementwise view of the sequence.
pub proof fn lemma_views_of_nodes<A>(s: Seq<Node<A>>)
    ensures
        views_of_nodes(s).len() == s.len(),
        forall|i: int| 0 <= i < s.len() ==> views_of_nodes(s)[i] == view_node(s[i]),
    decreases s.len(),
{
    if s.len() > 0 {
        lemma_views_of_nodes(s.drop_last());
    }
}

impl<A> View for Node<A> {
    type V = NodeView;

    open spec fn view(&self) -> NodeView {
        view_node(*self)
    }
}

impl<A> Node<A> {
    /// Builds a node that owns `children`, with the style that results from
    /// applying `props` in order to the default style.
    pub fn new(children: Vec<Node<A>>, props: Vec<FlexProperty>, context: A) -> (r: Node<A>)
        requires
            children@.len() <= MAX_CHILDREN,
            forall|i: int| 0 <= i < children@.len() ==> wf_node(#[trigger] children@[i]@),
        ensures
            r@.style == styled(default_style(), props@),
            r.children == children,
            r@.children.len() == children@.len(),
            forall|i: int| 0 <= i < children@.len() ==> r@.children[i] == #[trigger] children@[i]@,
            r.context == context,
            wf_node(r@),
    {
        let mut style = make_default_style();
        let n = props.len();
        let mut i: usize = 0;
        while i < n
            invariant
                n == props@.len(),
                i <= n,
                style == styled(default_style(), props@.subrange(0, i as int)),
                wf_style(style),
            decreases n - i,
        {
            let p = props[i];
            apply_prop(&mut style, p);
            proof {
                let pre = props@.subrange(0, i as int);
                let post = props@.subrange(0, i + 1 as int);
                assert(post.drop_last() =~= pre);
                assert(post.last() == props@[i as int]);
                lemma_with_prop_wf(styled(default_style(), pre), props@[i as int]);
            }
            i += 1;
        }
        proof {
            assert(props@.subrange(0, props@.len() as int) =~= props@);
        }
        let r = Node { style, context, children };
        proof {
            lemma_views_of_nodes(r.children@);
            assert forall|i: int| 0 <= i < r@.children.len() implies wf_node(
                #[trigger] r@.children[i],
            ) by {
                assert(r@.children[i] == r.children@[i]@);
            }
            assert(wf_node(r@));
        }
        r
    }

    /// The context value this node was built with.
    pub fn context(&self) -> (r: &A)
        ensures
            *r == self.context,
    {
        &self.context
    }

    /// The node's children, in the order given at construction.
    pub fn children(&self) -> (r: &Vec<Node<A>>)
        ensures
            *r == self.children,
    {
        &self.children
    }

    /// Applies one style directive, clamping out-of-range values. Children
    /// and context are untouched; previously computed geometry is stale until
    /// the next layout pass.
    pub fn set(&mut self, property: FlexProperty)
        ensures
            final(self)@.style == with_prop(old(self)@.style, property),
            final(self)@.children == old(self)@.children,
            final(self).context == old(self).context,
            final(self).children == old(self).children,
            wf_node(old(self)@) ==> wf_node(final(self)@),
    {
        apply_prop(&mut self.style, property);
        proof {
            if wf_node(old(self)@) {
                lemma_with_prop_wf(old(self)@.style, property);
            }
        }
    }

    /// Runs a layout pass against the available width and height (`None`
    /// leaves that axis undefined: the root auto-sizes along it from its
    /// content). The pass is a pure function of the style tree and the
    /// available sizes, so equal inputs always yield identical geometry.
    pub fn layout<'a>(&'a self, width: Option<u64>, height: Option<u64>) -> (r: NodeWithLayout<
        'a,
        A,
    >)
        requires
            wf_node(self@),
        ensures
            r.node == self,
            r.geom@ == spec_layout_root(self@, opt_i(width), opt_i(height)),
    {
        let aw2: Option<u64> = match width {
            Some(v) => Some(cap_size_ex(v)),
            None => None,
        };
        let ah2: Option<u64> = match height {
            Some(v) => Some(cap_size_ex(v)),
            None => None,
        };
        let iw: Option<u64> = match resolve_dim_ex(self.style.width, aw2) {
            Some(v) => Some(v),
            None => aw2,
        };
        let ih: Option<u64> = match resolve_dim_ex(self.style.height, ah2) {
            Some(v) => Some(v),
            None => ah2,
        };
        let g = layout_rec(self, iw, ih);
        NodeWithLayout { node: self, geom: g }
    }
}

/// Read-only view of a node together with the geometry the most recent layout
/// pass resolved for it.
pub struct NodeWithLayout<'a, A> {
    pub node: &'a Node<A>,
    pub geom: Geom,
}

impl<'a, A> NodeWithLayout<'a, A> {
    /// The underlying styled node.
    pub fn inner(&self) -> (r: &'a Node<A>)
        ensures
            r == self.node,
    {
        self.node
    }

    /// Layout views of the node's children, pairing each child with the
    /// geometry the pass resolved for it.
    pub fn children(&self) -> (r: Vec<NodeWithLayout<'a, A>>)
        requires
            self.geom@.children.len() == self.node.children@.len(),
        ensures
            r@.len() == self.node.children@.len(),
            forall|i: int|
                0 <= i < r@.len() ==> *(#[trigger] r@[i]).node == self.node.children@[i],
            forall|i: int| 0 <= i < r@.len() ==> (#[trigger] r@[i]).geom@ == self.geom@.children[i],
    {
        let n = self.node.children.len();
        let mut out: Vec<NodeWithLayout<'a, A>> = Vec::new();
        let mut i: usize = 0;
        while i < n
            invariant
                n == self.node.children@.len(),
                self.geom@.children.len() == self.node.children@.len(),
                i <= n,
                out@.len() == i,
                forall|j: int|
                    0 <= j < i ==> *(#[trigger] out@[j]).node == self.node.children@[j],
                forall|j: int| 0 <= j < i ==> (#[trigger] out@[j]).geom@ == self.geom@.children[j],
            decreases n - i,
        {
            proof {
                lemma_views_of_geoms(self.geom.children@);
                assert(self.geom@.children[i as int] == self.geom.children@[i as int]@);
            }
            let g = clone_geom(&self.geom.children[i]);
            out.push(NodeWithLayout { node: &self.node.children[i], geom: g });
            i += 1;
        }
        out
    }

    /// Resolved outer width.
    pub fn width(&self) -> (r: u64)
        ensures
            r == self.geom.width,
    {
        self.geom.width
    }

    /// Resolved outer height.
    pub fn height(&self) -> (r: u64)
        ensures
            r == self.geom.height,
    {
        self.geom.height
    }

    /// Resolved left offset, relative to the parent's content origin.
    pub fn left(&self) -> (r: u64)
        ensures
            r == self.geom.left,
    {
        self.geom.left
    }

    /// Resolved top offset, relative to the parent's content origin.
    pub fn top(&self) -> (r: u64)
        ensures
            r == self.geom.top,
    {
        self.geom.top
    }

    pub fn margin_left(&self) -> (r: u64)
        ensures
            r == self.geom.margin_left,
    {
        self.geom.margin_left
    }

    pub fn margin_right(&self) -> (r: u64)
        ensures
            r == self.geom.margin_right,
    {
        self.geom.margin_right
    }

    pub fn margin_top(&self) -> (r: u64)
        ensures
            r == self.geom.margin_top,
    {
        self.geom.margin_top
    }

    pub fn margin_bottom(&self) -> (r: u64)
        ensures
            r == self.geom.margin_bottom,
    {
        self.geom.margin_bottom
    }

    pub fn padding_left(&self) -> (r: u64)
        ensures
            r == self.geom.padding_left,
    {
        self.geom.padding_left
    }

    pub fn padding_right(&self) -> (r: u64)
        ensures
            r == self.geom.padding_right,
    {
        self.geom.padding_right
    }

    pub fn padding_top(&self) -> (r: u64)
        ensures
            r == self.geom.padding_top,
    {
        self.geom.padding_top
    }

    pub fn padding_bottom(&self) -> (r: u64)
        ensures
            r == self.geom.padding_bottom,
    {
        self.geom.padding_bottom
    }
}

} // verus!
