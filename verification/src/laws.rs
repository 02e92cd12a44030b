//! Laws of the layout pass, stated over the layout specification that the
//! executable engine is proved to compute.

use vstd::prelude::*;

use crate::dist::all_active;
use crate::dist::clamp_spec;
use crate::dist::justify_parts;
use crate::dist::lemma_justify_fits;
use crate::dist::lemma_relax_inflexible;
use crate::dist::line_sizes;
use crate::dist::wf_items;
use crate::dist::SIZE_LIMIT;
use crate::engine::cap_size;
use crate::engine::child_geoms;
use crate::engine::gs2_of;
use crate::engine::imp_main_sel;
use crate::engine::imps2_all;
use crate::engine::is_rev;
use crate::engine::is_row;
use crate::engine::items_s_of;
use crate::engine::lemma_child_geoms;
use crate::engine::line_index;
use crate::engine::lns_of;
use crate::engine::m_of;
use crate::engine::main_margin_start;
use crate::engine::mains_of;
use crate::engine::pos_main;
use crate::engine::pos_part;
use crate::engine::spec_layout;
use crate::engine::used_range;
use crate::geom::GeomView;
use crate::node::wf_node;
use crate::node::NodeView;
use crate::style::Dimension;
use crate::style::FlexWrap;

verus! {

/// Idempotence under no-op mutation: applying a style directive whose value
/// is already current leaves the style tree, and hence the geometry of any
/// later layout pass, unchanged.
pub proof fn lemma_noop_set_keeps_layout(
    n: NodeView,
    p: crate::style::FlexProperty,
    aw: Option<int>,
    ah: Option<int>,
)
    requires
        crate::style::wf_style(n.style),
        crate::style::prop_is_current(n.style, p),
    ensures
        crate::engine::spec_layout_root(
            NodeView { style: crate::style::with_prop(n.style, p), ..n },
            aw,
            ah,
        ) == crate::engine::spec_layout_root(n, aw, ah),
{
    crate::style::lemma_set_noop(n.style, p);
    assert(NodeView { style: crate::style::with_prop(n.style, p), ..n } =~= n);
}

/// Each node of a geometry tree respects the corresponding style node's
/// min/max bounds: when they are consistent, the resolved size lies between
/// them; an unbounded maximum still leaves the minimum in force.
pub open spec fn clamps_hold(n: NodeView, g: GeomView) -> bool
    decreases n,
{
    &&& (n.style.max_width is Some && n.style.min_width <= n.style.max_width->0 ==> n.style.min_width
        <= g.width <= n.style.max_width->0)
    &&& (n.style.max_width is None ==> n.style.min_width <= g.width)
    &&& (n.style.max_height is Some && n.style.min_height <= n.style.max_height->0
        ==> n.style.min_height <= g.height <= n.style.max_height->0)
    &&& (n.style.max_height is None ==> n.style.min_height <= g.height)
    &&& g.children.len() == n.children.len()
    &&& (forall|i: int|
        0 <= i < n.children.len() ==> clamps_hold(#[trigger] n.children[i], g.children[i]))
}

/// Clamp correctness: every node's resolved width and height satisfy its
/// min/max bounds, whatever sizes a layout pass was given.
pub proof fn lemma_clamp_correct(n: NodeView, iw: Option<int>, ih: Option<int>)
    requires
        wf_node(n),
    ensures
        clamps_hold(n, spec_layout(n, iw, ih)),
    decreases n,
{
    let g = spec_layout(n, iw, ih);
    let gs2 = child_geoms(n.children, imps2_all(n, iw, ih), n.children.len() as int);
    lemma_child_geoms(n.children, imps2_all(n, iw, ih), n.children.len() as int);
    assert forall|i: int| 0 <= i < n.children.len() implies clamps_hold(
        #[trigger] n.children[i],
        g.children[i],
    ) by {
        assert(wf_node(n.children[i]));
        assert(decreases_to!(n => n.children));
        assert(decreases_to!(n.children => n.children[i]));
        lemma_clamp_correct(n.children[i], imps2_all(n, iw, ih)[i].0, imps2_all(n, iw, ih)[i].1);
        assert(g.children[i].width == gs2[i].width);
        assert(g.children[i].height == gs2[i].height);
        assert(g.children[i].children == gs2[i].children);
    }
}

/// Conservation on the main axis, for a `no-wrap` container with a definite
/// main size laid out in forward order: each child's main-axis offset is the
/// justify lead, plus the outer extents of the children before it, plus the
/// accumulated justify gaps, plus its own leading margin; and the children's
/// resolved sizes with margins, the lead, the gaps and the trailing
/// remainder exactly partition the main content size whenever the children
/// fit in it.
pub proof fn lemma_main_axis_conservation(n: NodeView, iw: Option<int>, ih: Option<int>)
    requires
        wf_node(n),
        n.style.wrap == FlexWrap::NoWrap,
        !is_rev(n.style.direction),
        n.children.len() > 0,
        imp_main_sel(n, iw, ih) is Some,
    ensures
        ({
            let row = is_row(n.style.direction);
            let g = spec_layout(n, iw, ih);
            let gs = gs2_of(n, iw, ih);
            let len = n.children.len() as int;
            let m = m_of(n, iw, ih)->0;
            let used = used_range(n.children, gs, row, 0, len);
            let leftover = if m > used {
                m - used
            } else {
                0
            };
            let parts = justify_parts(n.style.justify_content, leftover, len);
            let trail = leftover - parts.0 - (len - 1) * parts.1;
            &&& (forall|i: int|
                0 <= i < len ==> (if row {
                    (#[trigger] g.children[i]).left
                } else {
                    g.children[i].top
                }) == parts.0 + used_range(n.children, gs, row, 0, i) + i * parts.1
                    + main_margin_start(n.children[i].style, row))
            &&& trail >= 0
            &&& (used <= m ==> used + parts.0 + (len - 1) * parts.1 + trail == m)
        }),
{
    let row = is_row(n.style.direction);
    let g = spec_layout(n, iw, ih);
    let gs = gs2_of(n, iw, ih);
    let len = n.children.len() as int;
    let lns = lns_of(n, iw, ih);
    let m = m_of(n, iw, ih)->0;
    assert(lns =~= seq![(0int, len)]);
    let used = used_range(n.children, gs, row, 0, len);
    let leftover = if m > used {
        m - used
    } else {
        0
    };
    lemma_justify_fits(n.style.justify_content, leftover, len);
    assert forall|i: int| 0 <= i < len implies (if row {
        (#[trigger] g.children[i]).left
    } else {
        g.children[i].top
    }) == justify_parts(n.style.justify_content, leftover, len).0 + used_range(
        n.children,
        gs,
        row,
        0,
        i,
    ) + i * justify_parts(n.style.justify_content, leftover, len).1 + main_margin_start(
        n.children[i].style,
        row,
    ) by {
        assert(line_index(lns, i) == 0);
        assert((if row {
            g.children[i].left
        } else {
            g.children[i].top
        }) == pos_main(n.children, gs, row, false, lns, m_of(n, iw, ih), n.style, i));
    }
}

/// Percentage round-trip, cross-axis case: in a column container with
/// definite content width `W`, a child declared `width = p%` with no binding
/// min/max bound resolves to exactly `W * p / 100`, whatever its siblings
/// are (the width of a column child is resolved directly against the
/// parent's content box and takes no part in distribution).
pub proof fn lemma_percentage_width_column(
    n: NodeView,
    iw: Option<int>,
    ih: Option<int>,
    i: int,
    p: u64,
)
    requires
        wf_node(n),
        !is_row(n.style.direction),
        crate::engine::imp_cross_sel(n, iw, ih) is Some,
        0 <= i < n.children.len(),
        n.children[i].style.width == Dimension::Percent(p),
        p <= 100,
        n.children[i].style.min_width == 0,
        n.children[i].style.max_width is None,
    ensures
        spec_layout(n, iw, ih).children[i].width == crate::engine::c_of(n, iw, ih)->0 * p / 100,
{
    let g = spec_layout(n, iw, ih);
    let c = crate::engine::c_of(n, iw, ih);
    let cv = c->0;
    let len = n.children.len() as int;
    assert(0 <= cv <= SIZE_LIMIT);
    assert(cv * p / 100 <= cv) by (nonlinear_arith)
        requires
            0 <= cv,
            0 <= p <= 100,
    ;
    vstd::arithmetic::mul::lemma_mul_nonnegative(cv, p as int);
    vstd::arithmetic::div_mod::lemma_div_pos_is_pos(cv * p, 100);
    let b = cv * p / 100;
    assert(cap_size(b) == b);
    let imps2 = imps2_all(n, iw, ih);
    assert(!crate::engine::stretch_auto(n.children, n.style, false, i));
    assert(imps2[i].0 == Some(b));
    let gs2 = gs2_of(n, iw, ih);
    lemma_child_geoms(n.children, imps2, len);
    assert(gs2[i] == spec_layout(n.children[i], Some(b), imps2[i].1));
    assert(pos_part(b) == b);
    assert(clamp_spec(0, None, cap_size(b)) == b);
    assert(gs2[i].width == b);
    assert(g.children[i].width == gs2[i].width);
}

/// Percentage round-trip, main-axis case: in a `no-wrap` row container with
/// definite content width `W`, a child declared `width = p%` with zero flex
/// factors and no binding min/max bound resolves to exactly `W * p / 100`,
/// whatever its siblings are.
pub proof fn lemma_percentage_width(n: NodeView, iw: Option<int>, ih: Option<int>, i: int, p: u64)
    requires
        wf_node(n),
        is_row(n.style.direction),
        n.style.wrap == FlexWrap::NoWrap,
        imp_main_sel(n, iw, ih) is Some,
        0 <= i < n.children.len(),
        n.children[i].style.width == Dimension::Percent(p),
        p <= 100,
        n.children[i].style.grow == 0,
        n.children[i].style.shrink == 0,
        n.children[i].style.min_width == 0,
        n.children[i].style.max_width is None,
    ensures
        spec_layout(n, iw, ih).children[i].width == m_of(n, iw, ih)->0 * p / 100,
{
    let g = spec_layout(n, iw, ih);
    let m = m_of(n, iw, ih);
    let mv = m->0;
    let len = n.children.len() as int;
    let items = items_s_of(n, iw, ih);
    let lns = lns_of(n, iw, ih);
    let cs = n.children[i].style;
    assert(0 <= mv <= SIZE_LIMIT);
    assert(mv * p <= SIZE_LIMIT * 100) by (nonlinear_arith)
        requires
            0 <= mv <= SIZE_LIMIT,
            0 <= p <= 100,
    ;
    assert(mv * p / 100 <= mv) by (nonlinear_arith)
        requires
            0 <= mv,
            0 <= p <= 100,
    ;
    vstd::arithmetic::mul::lemma_mul_nonnegative(mv, p as int);
    vstd::arithmetic::div_mod::lemma_div_pos_is_pos(mv * p, 100);
    let b = mv * p / 100;
    assert(cap_size(b) == b);
    assert(items[i].basis == b && items[i].grow == 0 && items[i].shrink == 0 && items[i].min == 0
        && items[i].max is None);
    assert forall|j: int| 0 <= j < len implies crate::dist::wf_item(#[trigger] items[j]) by {
        assert(wf_node(n.children[j]));
        assert(items[j] == crate::engine::item_of(n.children[j].style, m, true));
    }
    assert(wf_items(items));
    lemma_relax_inflexible(items, all_active(items.len()), mv, (items.len() + 1) as nat, i);
    assert(line_sizes(items, mv)[i] == b);
    assert(lns =~= seq![(0int, len)]);
    assert(items.subrange(0, len) =~= items);
    assert(mains_of(items, lns, mv) =~= line_sizes(items, mv) + mains_of(
        items,
        lns.drop_first(),
        mv,
    ));
    assert(mains_of(items, lns, mv)[i] == b);
    let imps2 = imps2_all(n, iw, ih);
    assert(imps2[i].0 == Some(b));
    let gs2 = gs2_of(n, iw, ih);
    lemma_child_geoms(n.children, imps2, len);
    assert(gs2[i] == spec_layout(n.children[i], Some(b), imps2[i].1));
    assert(pos_part(b) == b);
    assert(clamp_spec(0, None, cap_size(b)) == b);
    assert(gs2[i].width == b);
    assert(g.children[i].width == gs2[i].width);
}

} // verus!
