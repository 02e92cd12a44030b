//! Resolved geometry of one box after a layout pass: outer size, position
//! relative to the parent's content origin, and the resolved margins and
//! paddings, together with the geometry of the children.

use vstd::prelude::*;

verus! {

/// Computed geometry of one node and its subtree.
#[derive(Debug)]
pub struct Geom {
    pub width: u64,
    pub height: u64,
    pub left: u64,
    pub top: u64,
    pub margin_left: u64,
    pub margin_top: u64,
    pub margin_right: u64,
    pub margin_bottom: u64,
    pub padding_left: u64,
    pub padding_top: u64,
    pub padding_right: u64,
    pub padding_bottom: u64,
    pub children: Vec<Geom>,
}

/// Mathematical model of a geometry tree.
#[verifier::ext_equal]
pub ghost struct GeomView {
    pub width: int,
    pub height: int,
    pub left: int,
    pub top: int,
    pub margin_left: int,
    pub margin_top: int,
    pub margin_right: int,
    pub margin_bottom: int,
    pub padding_left: int,
    pub padding_top: int,
    pub padding_right: int,
    pub padding_bottom: int,
    pub children: Seq<GeomView>,
}

pub open spec fn views_of_geoms(s: Seq<Geom>) -> Seq<GeomView>
    decreases s,
{
    if s.len() == 0 {
        Seq::empty()
    } else {
        views_of_geoms(s.drop_last()).push(view_geom(s.last()))
    }
}

pub open spec fn view_geom(g: Geom) -> GeomView
    decreases g,
{
    proof {
        assert(decreases_to!(g => g.children));
        assert(decreases_to!(g.children => g.children@));
    }
    GeomView {
        width: g.width as int,
        height: g.height as int,
        left: g.left as int,
        top: g.top as int,
        margin_left: g.margin_left as int,
        margin_top: g.margin_top as int,
        margin_right: g.margin_right as int,
        margin_bottom: g.margin_bottom as int,
        padding_left: g.padding_left as int,
        padding_top: g.padding_top as int,
        padding_right: g.padding_right as int,
        padding_bottom: g.padding_bottom as int,
        children: views_of_geoms(g.children@),
    }
}

/// `views_of_geoms` is the elementwise view of the sequence.
pub proof fn lemma_views_of_geoms(s: Seq<Geom>)
    ensures
        views_of_geoms(s).len() == s.len(),
        forall|i: int| 0 <= i < s.len() ==> views_of_geoms(s)[i] == view_geom(s[i]),
    decreases s.len(),
{
    if s.len() > 0 {
        lemma_views_of_geoms(s.drop_last());
    }
}

impl View for Geom {
    type V = GeomView;

    open spec fn view(&self) -> GeomView {
        view_geom(*self)
    }
}

/// A deep copy of a geometry tree, with an identical model.
pub fn clone_geom(g: &Geom) -> (r: Geom)
    ensures
        r@ == g@,
    decreases *g,
{
    let mut kids: Vec<Geom> = Vec::new();
    let n = g.children.len();
    let mut i: usize = 0;
    while i < n
        invariant
            n == g.children@.len(),
            i <= n,
            kids@.len() == i,
            forall|j: int| 0 <= j < i ==> #[trigger] kids@[j]@ == g.children@[j]@,
        decreases n - i,
    {
        proof {
            lemma_views_of_geoms(g.children@);
            assert(decreases_to!(*g => g.children));
            assert(decreases_to!(g.children => g.children@));
            assert(decreases_to!(g.children@ => g.children@[i as int]));
        }
        let c = clone_geom(&g.children[i]);
        kids.push(c);
        i += 1;
    }
    proof {
        lemma_views_of_geoms(kids@);
        lemma_views_of_geoms(g.children@);
        assert forall|j: int|
            0 <= j < n implies views_of_geoms(kids@)[j] == views_of_geoms(g.children@)[j] by {
            assert(kids@[j]@ == g.children@[j]@);
        }
        assert(views_of_geoms(kids@) =~= views_of_geoms(g.children@));
    }
    let r = Geom {
        width: g.width,
        height: g.height,
        left: g.left,
        top: g.top,
        margin_left: g.margin_left,
        margin_top: g.margin_top,
        margin_right: g.margin_right,
        margin_bottom: g.margin_bottom,
        padding_left: g.padding_left,
        padding_top: g.padding_top,
        padding_right: g.padding_right,
        padding_bottom: g.padding_bottom,
        children: kids,
    };
    proof {
        assert(r@ =~= g@);
    }
    r
}

} // verus!
