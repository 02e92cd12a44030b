//! The layout pass: a recursive specification of flexbox-style layout over a
//! style tree, and helpers shared with the executable engine.
//!
//! A node is laid out against an optional imposed width and height. An
//! imposed size is clamped to the node's min/max bounds and its padding is
//! removed to give the content box. Children are gathered into flex lines,
//! the main-axis distributor resolves their main sizes, each child is laid
//! out recursively, lines are sized and placed on the cross axis, and
//! justify-content and alignment yield each child's position relative to the
//! parent's content origin. A node with no imposed size aggregates its
//! content size bottom-up from its children.

use vstd::prelude::*;

use crate::dist::all_active;
use crate::dist::clamp_ex;
use crate::dist::clamp_spec;
use crate::dist::justify_parts;
use crate::dist::justify_parts_ex;
use crate::dist::line_sizes;
use crate::dist::line_sizes_ex;
use crate::dist::wf_items;
use crate::dist::LineItem;
use crate::dist::BOUND_SZ;
use crate::dist::SIZE_LIMIT;
use crate::geom::Geom;
use crate::geom::GeomView;
use crate::node::lemma_views_of_nodes;
use crate::node::wf_node;
use crate::node::Node;
use crate::node::NodeView;
use crate::style::Dimension;
use crate::style::FlexAlign;
use crate::style::FlexDirection;
use crate::style::FlexWrap;
use crate::style::Style;

verus! {

pub open spec fn is_row(d: FlexDirection) -> bool {
    d == FlexDirection::Row || d == FlexDirection::RowReverse
}

pub open spec fn is_rev(d: FlexDirection) -> bool {
    d == FlexDirection::RowReverse || d == FlexDirection::ColumnReverse
}

pub open spec fn main_dim_of(s: Style, row: bool) -> Dimension {
    if row {
        s.width
    } else {
        s.height
    }
}

pub open spec fn cross_dim_of(s: Style, row: bool) -> Dimension {
    if row {
        s.height
    } else {
        s.width
    }
}

pub open spec fn main_min_of(s: Style, row: bool) -> u64 {
    if row {
        s.min_width
    } else {
        s.min_height
    }
}

pub open spec fn main_max_of(s: Style, row: bool) -> Option<u64> {
    if row {
        s.max_width
    } else {
        s.max_height
    }
}

pub open spec fn cross_min_of(s: Style, row: bool) -> u64 {
    if row {
        s.min_height
    } else {
        s.min_width
    }
}

pub open spec fn cross_max_of(s: Style, row: bool) -> Option<u64> {
    if row {
        s.max_height
    } else {
        s.max_width
    }
}

pub open spec fn main_margin_sum(s: Style, row: bool) -> int {
    if row {
        s.margin_left + s.margin_right
    } else {
        s.margin_top + s.margin_bottom
    }
}

pub open spec fn main_margin_start(s: Style, row: bool) -> int {
    if row {
        s.margin_left as int
    } else {
        s.margin_top as int
    }
}

pub open spec fn cross_margin_sum(s: Style, row: bool) -> int {
    if row {
        s.margin_top + s.margin_bottom
    } else {
        s.margin_left + s.margin_right
    }
}

pub open spec fn cross_margin_start(s: Style, row: bool) -> int {
    if row {
        s.margin_top as int
    } else {
        s.margin_left as int
    }
}

pub open spec fn pad_main(s: Style, row: bool) -> int {
    if row {
        s.padding_left + s.padding_right
    } else {
        s.padding_top + s.padding_bottom
    }
}

pub open spec fn pad_cross(s: Style, row: bool) -> int {
    if row {
        s.padding_top + s.padding_bottom
    } else {
        s.padding_left + s.padding_right
    }
}

pub open spec fn main_size(g: GeomView, row: bool) -> int {
    if row {
        g.width
    } else {
        g.height
    }
}

pub open spec fn cross_size(g: GeomView, row: bool) -> int {
    if row {
        g.height
    } else {
        g.width
    }
}

pub open spec fn cap_size(v: int) -> int {
    if v > SIZE_LIMIT {
        SIZE_LIMIT as int
    } else {
        v
    }
}

pub open spec fn pos_part(v: int) -> int {
    if v > 0 {
        v
    } else {
        0
    }
}

/// A declared dimension against the parent's resolved content size:
/// `Auto` stays undefined, a point value stands, a percentage resolves
/// against a definite parent size and is undefined otherwise.
pub open spec fn resolve_dim(d: Dimension, parent: Option<int>) -> Option<int> {
    match d {
        Dimension::Auto => None,
        Dimension::Point(v) => Some(v as int),
        Dimension::Percent(p) => match parent {
            Some(w) => Some(cap_size(w * p / 100)),
            None => None,
        },
    }
}

/// The alignment that applies to a child: its own align-self, or the
/// parent's align-items when it inherits.
pub open spec fn align_of(cs: Style, parent: Style) -> FlexAlign {
    if cs.align_self == FlexAlign::Inherit {
        parent.align_items
    } else {
        cs.align_self
    }
}

pub open spec fn is_stretch(a: FlexAlign) -> bool {
    a == FlexAlign::Stretch || a == FlexAlign::Inherit
}

/// The distributor's view of one child: resolved main dimension or the
/// min-size fallback as flex basis, main margins, and the effective factors
/// (`fixed` nodes never grow or shrink).
pub open spec fn item_of(cs: Style, m: Option<int>, row: bool) -> LineItem {
    let basis = match resolve_dim(main_dim_of(cs, row), m) {
        Some(v) => pos_part(v),
        None => main_min_of(cs, row) as int,
    };
    LineItem {
        basis: basis as u64,
        margins: main_margin_sum(cs, row) as u64,
        grow: if cs.fixed {
            0
        } else {
            cs.grow
        },
        shrink: if cs.fixed {
            0
        } else {
            cs.shrink
        },
        min: main_min_of(cs, row),
        max: main_max_of(cs, row),
    }
}

pub open spec fn items_of(children: Seq<NodeView>, m: Option<int>, row: bool) -> Seq<LineItem> {
    Seq::new(children.len(), |i: int| item_of(children[i].style, m, row))
}

pub open spec fn outer_item(it: LineItem) -> int {
    it.basis + it.margins
}

/// First index at which the running line, already `acc` wide, must break.
pub open spec fn line_end(items: Seq<LineItem>, m: int, j: int, acc: int) -> int
    decreases items.len() - j,
{
    if j >= items.len() {
        items.len() as int
    } else if acc + outer_item(items[j]) > m {
        j
    } else {
        line_end(items, m, j + 1, acc + outer_item(items[j]))
    }
}

pub proof fn lemma_line_end_range(items: Seq<LineItem>, m: int, j: int, acc: int)
    requires
        0 <= j <= items.len(),
    ensures
        j <= line_end(items, m, j, acc) <= items.len(),
    decreases items.len() - j,
{
    if j < items.len() && !(acc + outer_item(items[j]) > m) {
        lemma_line_end_range(items, m, j + 1, acc + outer_item(items[j]));
    }
}

/// Greedy partition of `items[start..]` into flex lines for content size `m`.
pub open spec fn split_from(items: Seq<LineItem>, m: int, start: int) -> Seq<(int, int)>
    decreases items.len() - start,
{
    if start < 0 || start >= items.len() {
        Seq::empty()
    } else {
        let e = line_end(items, m, start + 1, outer_item(items[start]));
        proof {
            lemma_line_end_range(items, m, start + 1, outer_item(items[start]));
        }
        seq![(start, e)] + split_from(items, m, e)
    }
}

/// The flex lines of a container: a single line unless wrapping is on and
/// the main content size is definite.
pub open spec fn lines_of(items: Seq<LineItem>, m: Option<int>, wrap: FlexWrap) -> Seq<(int, int)> {
    if items.len() == 0 {
        Seq::empty()
    } else if wrap == FlexWrap::NoWrap || m is None {
        seq![(0int, items.len() as int)]
    } else {
        split_from(items, m->0, 0)
    }
}

/// Lines are consecutive, non-empty, and tile `[start, n)`.
pub open spec fn lines_tile(lns: Seq<(int, int)>, start: int, n: int) -> bool {
    &&& (start < n ==> lns.len() >= 1)
    &&& (start >= n ==> lns.len() == 0)
    &&& (lns.len() >= 1 ==> lns[0].0 == start && lns[lns.len() - 1].1 == n)
    &&& (forall|k: int| 0 <= k < lns.len() ==> (#[trigger] lns[k]).0 < lns[k].1 <= n)
    &&& (forall|k: int| 0 < k < lns.len() ==> (#[trigger] lns[k]).0 == lns[k - 1].1)
}

pub proof fn lemma_split_tiles(items: Seq<LineItem>, m: int, start: int)
    requires
        0 <= start,
    ensures
        lines_tile(split_from(items, m, start), start, items.len() as int),
    decreases items.len() - start,
{
    if start < items.len() {
        let e = line_end(items, m, start + 1, outer_item(items[start]));
        lemma_line_end_range(items, m, start + 1, outer_item(items[start]));
        lemma_split_tiles(items, m, e);
    }
}

pub proof fn lemma_lines_tile(items: Seq<LineItem>, m: Option<int>, wrap: FlexWrap)
    ensures
        lines_tile(lines_of(items, m, wrap), 0, items.len() as int),
{
    if items.len() == 0 {
    } else if wrap == FlexWrap::NoWrap || m is None {
    } else {
        lemma_split_tiles(items, m->0, 0);
    }
}

/// Resolved main sizes of all children, line results concatenated in order.
pub open spec fn mains_of(items: Seq<LineItem>, lns: Seq<(int, int)>, mv: int) -> Seq<int>
    decreases lns.len(),
{
    if lns.len() == 0 {
        Seq::empty()
    } else {
        line_sizes(items.subrange(lns[0].0, lns[0].1), mv) + mains_of(items, lns.drop_first(), mv)
    }
}

/// Appending one line appends its sizes.
pub proof fn lemma_mains_push(items: Seq<LineItem>, lns: Seq<(int, int)>, rng: (int, int), mv: int)
    ensures
        mains_of(items, lns.push(rng), mv) == mains_of(items, lns, mv) + line_sizes(
            items.subrange(rng.0, rng.1),
            mv,
        ),
    decreases lns.len(),
{
    if lns.len() == 0 {
        assert(lns.push(rng).drop_first() =~= Seq::<(int, int)>::empty());
        assert(mains_of(items, lns.push(rng), mv) =~= line_sizes(
            items.subrange(rng.0, rng.1),
            mv,
        ) + mains_of(items, Seq::empty(), mv));
        assert(mains_of(items, lns, mv) + line_sizes(items.subrange(rng.0, rng.1), mv)
            =~= line_sizes(items.subrange(rng.0, rng.1), mv));
        assert(mains_of(items, Seq::empty(), mv) =~= Seq::<int>::empty());
    } else {
        assert(lns.push(rng).drop_first() =~= lns.drop_first().push(rng));
        assert(lns.push(rng)[0] == lns[0]);
        lemma_mains_push(items, lns.drop_first(), rng, mv);
        assert(mains_of(items, lns.push(rng), mv) =~= mains_of(items, lns, mv) + line_sizes(
            items.subrange(rng.0, rng.1),
            mv,
        ));
    }
}

/// Main-axis space used by children `[a, b)`: resolved sizes plus margins.
pub open spec fn used_range(
    children: Seq<NodeView>,
    g: Seq<GeomView>,
    row: bool,
    a: int,
    b: int,
) -> int
    decreases b - a,
{
    if a >= b {
        0
    } else {
        used_range(children, g, row, a, b - 1) + main_size(g[b - 1], row) + main_margin_sum(
            children[b - 1].style,
            row,
        )
    }
}

/// Largest cross extent (size plus cross margins) among children `[a, b)`.
pub open spec fn cross_max_range(
    children: Seq<NodeView>,
    g: Seq<GeomView>,
    row: bool,
    a: int,
    b: int,
) -> int
    decreases b - a,
{
    if a >= b {
        0
    } else {
        let rest = cross_max_range(children, g, row, a, b - 1);
        let e = cross_size(g[b - 1], row) + cross_margin_sum(children[b - 1].style, row);
        if e > rest {
            e
        } else {
            rest
        }
    }
}

/// Index of the line a child belongs to.
pub open spec fn line_index(lns: Seq<(int, int)>, i: int) -> int
    decreases lns.len(),
{
    if lns.len() == 0 {
        0
    } else if i < lns[0].1 {
        0
    } else {
        1 + line_index(lns.drop_first(), i)
    }
}

/// Natural cross size of line `k`.
pub open spec fn line_cross_nat(
    children: Seq<NodeView>,
    g: Seq<GeomView>,
    row: bool,
    lns: Seq<(int, int)>,
    k: int,
) -> int {
    cross_max_range(children, g, row, lns[k].0, lns[k].1)
}

/// Sum of natural cross sizes of lines `[a, b)`.
pub open spec fn crosses_total(
    children: Seq<NodeView>,
    g: Seq<GeomView>,
    row: bool,
    lns: Seq<(int, int)>,
    a: int,
    b: int,
) -> int
    decreases b - a,
{
    if a >= b {
        0
    } else {
        crosses_total(children, g, row, lns, a, b - 1) + line_cross_nat(children, g, row, lns, b - 1)
    }
}

/// Largest main-axis use among lines `[a, b)`.
pub open spec fn used_max(
    children: Seq<NodeView>,
    g: Seq<GeomView>,
    row: bool,
    lns: Seq<(int, int)>,
    a: int,
    b: int,
) -> int
    decreases b - a,
{
    if a >= b {
        0
    } else {
        let rest = used_max(children, g, row, lns, a, b - 1);
        let u = used_range(children, g, row, lns[b - 1].0, lns[b - 1].1);
        if u > rest {
            u
        } else {
            rest
        }
    }
}

/// Extra cross space align-content `Stretch` adds to every line.
pub open spec fn line_extra(
    children: Seq<NodeView>,
    g: Seq<GeomView>,
    row: bool,
    lns: Seq<(int, int)>,
    s: Style,
    c: Option<int>,
) -> int {
    if lns.len() > 0 && c is Some {
        let total = crosses_total(children, g, row, lns, 0, lns.len() as int);
        if c->0 > total && is_stretch(s.align_content) {
            (c->0 - total) / (lns.len() as int)
        } else {
            0
        }
    } else {
        0
    }
}

/// Lead and gap with which whole lines are placed on the cross axis.
pub open spec fn content_parts(
    children: Seq<NodeView>,
    g: Seq<GeomView>,
    row: bool,
    lns: Seq<(int, int)>,
    s: Style,
    c: Option<int>,
) -> (int, int) {
    if lns.len() > 0 && c is Some && !is_stretch(s.align_content) {
        let total = crosses_total(children, g, row, lns, 0, lns.len() as int);
        justify_parts(s.align_content, c->0 - total, lns.len() as int)
    } else {
        (0int, 0int)
    }
}

/// Adjusted cross size of line `k` (natural size plus stretch extra).
pub open spec fn line_adj(
    children: Seq<NodeView>,
    g: Seq<GeomView>,
    row: bool,
    lns: Seq<(int, int)>,
    s: Style,
    c: Option<int>,
    k: int,
) -> int {
    line_cross_nat(children, g, row, lns, k) + line_extra(children, g, row, lns, s, c)
}

/// Sum of adjusted cross sizes of lines `[a, b)`.
pub open spec fn adj_total(
    children: Seq<NodeView>,
    g: Seq<GeomView>,
    row: bool,
    lns: Seq<(int, int)>,
    s: Style,
    c: Option<int>,
    a: int,
    b: int,
) -> int
    decreases b - a,
{
    if a >= b {
        0
    } else {
        adj_total(children, g, row, lns, s, c, a, b - 1) + line_adj(children, g, row, lns, s, c, b - 1)
    }
}

/// Cross offset of line `k`: lines stack in order, reversed for
/// `WrapReverse`, spaced per align-content.
pub open spec fn line_top(
    children: Seq<NodeView>,
    g: Seq<GeomView>,
    row: bool,
    lns: Seq<(int, int)>,
    s: Style,
    c: Option<int>,
    k: int,
) -> int {
    let parts = content_parts(children, g, row, lns, s, c);
    let ll = lns.len() as int;
    let u = if s.wrap == FlexWrap::WrapReverse {
        ll - 1 - k
    } else {
        k
    };
    let before = if s.wrap == FlexWrap::WrapReverse {
        adj_total(children, g, row, lns, s, c, k + 1, ll)
    } else {
        adj_total(children, g, row, lns, s, c, 0, k)
    };
    parts.0 + before + u * parts.1
}

/// Main-axis position of child `i`, relative to the content origin:
/// the justify lead, the outer sizes of the children placed before it, the
/// accumulated justify gaps, and its own leading margin. A reversed
/// direction reverses the placement order of the children but keeps the
/// distribution and the justify policy itself, so under `start` the reversed
/// sequence still packs from the leading edge.
pub open spec fn pos_main(
    children: Seq<NodeView>,
    g: Seq<GeomView>,
    row: bool,
    rev: bool,
    lns: Seq<(int, int)>,
    m: Option<int>,
    s: Style,
    i: int,
) -> int {
    let k = line_index(lns, i);
    let a = lns[k].0;
    let b = lns[k].1;
    let used = used_range(children, g, row, a, b);
    let leftover = if m is Some && m->0 > used {
        m->0 - used
    } else {
        0
    };
    let parts = justify_parts(s.justify_content, leftover, b - a);
    let t = if rev {
        b - 1 - i
    } else {
        i - a
    };
    let prefix = if rev {
        used_range(children, g, row, i + 1, b)
    } else {
        used_range(children, g, row, a, i)
    };
    parts.0 + prefix + t * parts.1 + main_margin_start(children[i].style, row)
}

/// Cross-axis position of child `i`: its line's offset, the align-self
/// placement within the line, and its own leading margin. Line offsets and
/// sizes come from the first-phase geometry `g`; the child's own extent from
/// its final geometry `g2`.
pub open spec fn pos_cross(
    children: Seq<NodeView>,
    g: Seq<GeomView>,
    g2: Seq<GeomView>,
    row: bool,
    lns: Seq<(int, int)>,
    s: Style,
    c: Option<int>,
    i: int,
) -> int {
    let k = line_index(lns, i);
    let ln = line_adj(children, g, row, lns, s, c, k);
    let ext = cross_size(g2[i], row) + cross_margin_sum(children[i].style, row);
    let a = align_of(children[i].style, s);
    let off = if a == FlexAlign::Center {
        if ln > ext {
            (ln - ext) / 2
        } else {
            0
        }
    } else if a == FlexAlign::End {
        if ln > ext {
            ln - ext
        } else {
            0
        }
    } else {
        0
    };
    line_top(children, g, row, lns, s, c, k) + off + cross_margin_start(children[i].style, row)
}

/// Imposed main size for child `i`: its distributed size when the content
/// main size is definite, else its own resolved main dimension.
pub open spec fn imp_main_of(
    children: Seq<NodeView>,
    items: Seq<LineItem>,
    lns: Seq<(int, int)>,
    m: Option<int>,
    row: bool,
    i: int,
) -> Option<int> {
    if m is Some {
        Some(mains_of(items, lns, m->0)[i])
    } else {
        resolve_dim(main_dim_of(children[i].style, row), None)
    }
}

/// First-phase imposed cross size for child `i`: its resolved cross
/// dimension; stretching is applied in a second phase once the lines' cross
/// sizes are known.
pub open spec fn imp_cross_of(
    children: Seq<NodeView>,
    s: Style,
    c: Option<int>,
    row: bool,
    i: int,
) -> Option<int> {
    let cs = children[i].style;
    match resolve_dim(cross_dim_of(cs, row), c) {
        Some(v) => Some(pos_part(v)),
        None => None,
    }
}

/// Geometry of the first `k` children, each laid out against its imposed
/// width and height.
pub open spec fn child_geoms(
    children: Seq<NodeView>,
    imps: Seq<(Option<int>, Option<int>)>,
    k: int,
) -> Seq<GeomView>
    decreases children, k,
{
    if k <= 0 || k > children.len() {
        Seq::empty()
    } else {
        child_geoms(children, imps, k - 1).push(
            spec_layout(children[k - 1], imps[k - 1].0, imps[k - 1].1),
        )
    }
}

pub proof fn lemma_child_geoms(
    children: Seq<NodeView>,
    imps: Seq<(Option<int>, Option<int>)>,
    k: int,
)
    requires
        0 <= k <= children.len(),
    ensures
        child_geoms(children, imps, k).len() == k,
        forall|i: int|
            0 <= i < k ==> child_geoms(children, imps, k)[i] == spec_layout(
                children[i],
                imps[i].0,
                imps[i].1,
            ),
    decreases k,
{
    if k > 0 {
        lemma_child_geoms(children, imps, k - 1);
    }
}

/// The imposed sizes of every child of a container.
pub open spec fn imps_of(
    children: Seq<NodeView>,
    items: Seq<LineItem>,
    lns: Seq<(int, int)>,
    m: Option<int>,
    c: Option<int>,
    s: Style,
    row: bool,
) -> Seq<(Option<int>, Option<int>)> {
    Seq::new(
        children.len(),
        |i: int|
            {
                let im = imp_main_of(children, items, lns, m, row, i);
                let ic = imp_cross_of(children, s, c, row, i);
                if row {
                    (im, ic)
                } else {
                    (ic, im)
                }
            },
    )
}


/// The child is stretched on the cross axis: its effective alignment is
/// stretch and its declared cross dimension is auto.
pub open spec fn stretch_auto(children: Seq<NodeView>, s: Style, row: bool, i: int) -> bool {
    is_stretch(align_of(children[i].style, s)) && cross_dim_of(children[i].style, row)
        == Dimension::Auto
}

/// Second-phase imposed sizes: a stretched child with auto cross dimension
/// is imposed its line's resolved cross size (natural size plus any
/// align-content stretch share), less its own cross margins; every other
/// child keeps its first-phase sizes. `g1` is the first-phase geometry the
/// lines were measured from.
pub open spec fn imps2_of(
    children: Seq<NodeView>,
    items: Seq<LineItem>,
    lns: Seq<(int, int)>,
    m: Option<int>,
    c: Option<int>,
    s: Style,
    row: bool,
    g1: Seq<GeomView>,
) -> Seq<(Option<int>, Option<int>)> {
    Seq::new(
        children.len(),
        |i: int|
            {
                let im = imp_main_of(children, items, lns, m, row, i);
                let ic = if stretch_auto(children, s, row, i) {
                    Some(
                        pos_part(
                            line_adj(children, g1, row, lns, s, c, line_index(lns, i))
                                - cross_margin_sum(children[i].style, row),
                        ),
                    )
                } else {
                    imp_cross_of(children, s, c, row, i)
                };
                if row {
                    (im, ic)
                } else {
                    (ic, im)
                }
            },
    )
}

/// The imposed size along the container's main axis.
pub open spec fn imp_main_sel(n: NodeView, iw: Option<int>, ih: Option<int>) -> Option<int> {
    if is_row(n.style.direction) {
        iw
    } else {
        ih
    }
}

/// The imposed size along the container's cross axis.
pub open spec fn imp_cross_sel(n: NodeView, iw: Option<int>, ih: Option<int>) -> Option<int> {
    if is_row(n.style.direction) {
        ih
    } else {
        iw
    }
}

/// The node's resolved main-axis size when one is imposed.
pub open spec fn own_main0_of(n: NodeView, iw: Option<int>, ih: Option<int>) -> Option<int> {
    let s = n.style;
    let row = is_row(s.direction);
    match imp_main_sel(n, iw, ih) {
        Some(v) => Some(clamp_spec(main_min_of(s, row), main_max_of(s, row), cap_size(pos_part(v)))),
        None => None,
    }
}

/// The node's resolved cross-axis size when one is imposed.
pub open spec fn own_cross0_of(n: NodeView, iw: Option<int>, ih: Option<int>) -> Option<int> {
    let s = n.style;
    let row = is_row(s.direction);
    match imp_cross_sel(n, iw, ih) {
        Some(v) => Some(
            clamp_spec(cross_min_of(s, row), cross_max_of(s, row), cap_size(pos_part(v))),
        ),
        None => None,
    }
}

/// The main-axis content size offered to the children.
pub open spec fn m_of(n: NodeView, iw: Option<int>, ih: Option<int>) -> Option<int> {
    match own_main0_of(n, iw, ih) {
        Some(v) => Some(pos_part(v - pad_main(n.style, is_row(n.style.direction)))),
        None => None,
    }
}

/// The cross-axis content size offered to the children.
pub open spec fn c_of(n: NodeView, iw: Option<int>, ih: Option<int>) -> Option<int> {
    match own_cross0_of(n, iw, ih) {
        Some(v) => Some(pos_part(v - pad_cross(n.style, is_row(n.style.direction)))),
        None => None,
    }
}

/// The distributor items of all children.
pub open spec fn items_s_of(n: NodeView, iw: Option<int>, ih: Option<int>) -> Seq<LineItem> {
    items_of(n.children, m_of(n, iw, ih), is_row(n.style.direction))
}

/// The flex lines of the container.
pub open spec fn lns_of(n: NodeView, iw: Option<int>, ih: Option<int>) -> Seq<(int, int)> {
    lines_of(items_s_of(n, iw, ih), m_of(n, iw, ih), n.style.wrap)
}

/// The imposed sizes of all children.
pub open spec fn imps_all(n: NodeView, iw: Option<int>, ih: Option<int>) -> Seq<
    (Option<int>, Option<int>),
> {
    imps_of(
        n.children,
        items_s_of(n, iw, ih),
        lns_of(n, iw, ih),
        m_of(n, iw, ih),
        c_of(n, iw, ih),
        n.style,
        is_row(n.style.direction),
    )
}

/// The first-phase geometry of all children, from which line sizes are
/// measured.
pub open spec fn gs_of(n: NodeView, iw: Option<int>, ih: Option<int>) -> Seq<GeomView> {
    child_geoms(n.children, imps_all(n, iw, ih), n.children.len() as int)
}

/// The second-phase imposed sizes of all children, stretch applied.
pub open spec fn imps2_all(n: NodeView, iw: Option<int>, ih: Option<int>) -> Seq<
    (Option<int>, Option<int>),
> {
    imps2_of(
        n.children,
        items_s_of(n, iw, ih),
        lns_of(n, iw, ih),
        m_of(n, iw, ih),
        c_of(n, iw, ih),
        n.style,
        is_row(n.style.direction),
        gs_of(n, iw, ih),
    )
}

/// The final geometry of all children, before positioning.
pub open spec fn gs2_of(n: NodeView, iw: Option<int>, ih: Option<int>) -> Seq<GeomView> {
    child_geoms(n.children, imps2_all(n, iw, ih), n.children.len() as int)
}

/// The geometry a layout pass resolves for `n` against imposed outer sizes
/// `iw` and `ih` (`None` leaves the axis to the content).
pub open spec fn spec_layout(n: NodeView, iw: Option<int>, ih: Option<int>) -> GeomView
    decreases n, (n.children.len() + 1) as int,
{
    let s = n.style;
    let row = is_row(s.direction);
    let rev = is_rev(s.direction);
    let m = m_of(n, iw, ih);
    let c = c_of(n, iw, ih);
    let children = n.children;
    let lns = lns_of(n, iw, ih);
    let g = child_geoms(children, imps_all(n, iw, ih), children.len() as int);
    let g2 = child_geoms(
        children,
        imps2_of(children, items_s_of(n, iw, ih), lns, m, c, s, row, g),
        children.len() as int,
    );
    let own_main = match own_main0_of(n, iw, ih) {
        Some(v) => v,
        None => clamp_spec(
            main_min_of(s, row),
            main_max_of(s, row),
            cap_size(used_max(children, g2, row, lns, 0, lns.len() as int) + pad_main(s, row)),
        ),
    };
    let own_cross = match own_cross0_of(n, iw, ih) {
        Some(v) => v,
        None => clamp_spec(
            cross_min_of(s, row),
            cross_max_of(s, row),
            cap_size(
                crosses_total(children, g, row, lns, 0, lns.len() as int) + pad_cross(s, row),
            ),
        ),
    };
    GeomView {
        width: if row {
            own_main
        } else {
            own_cross
        },
        height: if row {
            own_cross
        } else {
            own_main
        },
        left: 0,
        top: 0,
        margin_left: s.margin_left as int,
        margin_top: s.margin_top as int,
        margin_right: s.margin_right as int,
        margin_bottom: s.margin_bottom as int,
        padding_left: s.padding_left as int,
        padding_top: s.padding_top as int,
        padding_right: s.padding_right as int,
        padding_bottom: s.padding_bottom as int,
        children: Seq::new(
            children.len(),
            |i: int|
                GeomView {
                    left: if row {
                        pos_main(children, g2, row, rev, lns, m, s, i)
                    } else {
                        pos_cross(children, g, g2, row, lns, s, c, i)
                    },
                    top: if row {
                        pos_cross(children, g, g2, row, lns, s, c, i)
                    } else {
                        pos_main(children, g2, row, rev, lns, m, s, i)
                    },
                    ..g2[i]
                },
        ),
    }
}

pub open spec fn opt_i(o: Option<u64>) -> Option<int> {
    match o {
        Some(v) => Some(v as int),
        None => None,
    }
}

pub open spec fn lines_view(s: Seq<(usize, usize)>) -> Seq<(int, int)> {
    Seq::new(s.len(), |i: int| (s[i].0 as int, s[i].1 as int))
}

/// Every geometry in the sequence has sizes in `[0, SIZE_LIMIT]`.
pub open spec fn sizes_ok(g: Seq<GeomView>) -> bool {
    forall|i: int|
        0 <= i < g.len() ==> 0 <= (#[trigger] g[i]).width <= SIZE_LIMIT && 0 <= g[i].height
            <= SIZE_LIMIT
}

/// Styles of all children are well formed.
pub open spec fn styles_ok(children: Seq<NodeView>) -> bool {
    forall|i: int| 0 <= i < children.len() ==> crate::style::wf_style((#[trigger] children[i]).style)
}

pub proof fn lemma_used_range_props(
    children: Seq<NodeView>,
    g: Seq<GeomView>,
    row: bool,
    a: int,
    b: int,
)
    requires
        0 <= a,
        b <= children.len(),
        children.len() == g.len(),
        sizes_ok(g),
        styles_ok(children),
    ensures
        0 <= used_range(children, g, row, a, b),
        used_range(children, g, row, a, b) <= (if b >= a {
            (b - a) * 0x2000_0000_0000
        } else {
            0
        }),
    decreases b - a,
{
    if a < b {
        lemma_used_range_props(children, g, row, a, b - 1);
    }
}

pub proof fn lemma_used_split(
    children: Seq<NodeView>,
    g: Seq<GeomView>,
    row: bool,
    a: int,
    mid: int,
    b: int,
)
    requires
        a <= mid <= b,
    ensures
        used_range(children, g, row, a, b) == used_range(children, g, row, a, mid) + used_range(
            children,
            g,
            row,
            mid,
            b,
        ),
    decreases b - mid,
{
    if mid < b {
        lemma_used_split(children, g, row, a, mid, b - 1);
    }
}

pub proof fn lemma_cross_max_props(
    children: Seq<NodeView>,
    g: Seq<GeomView>,
    row: bool,
    a: int,
    b: int,
)
    requires
        0 <= a,
        b <= children.len(),
        children.len() == g.len(),
        sizes_ok(g),
        styles_ok(children),
    ensures
        0 <= cross_max_range(children, g, row, a, b) <= 0x2000_0000_0000,
    decreases b - a,
{
    if a < b {
        lemma_cross_max_props(children, g, row, a, b - 1);
    }
}

pub proof fn lemma_crosses_total_props(
    children: Seq<NodeView>,
    g: Seq<GeomView>,
    row: bool,
    lns: Seq<(int, int)>,
    a: int,
    b: int,
)
    requires
        0 <= a,
        b <= lns.len(),
        children.len() == g.len(),
        sizes_ok(g),
        styles_ok(children),
        forall|k: int| 0 <= k < lns.len() ==> 0 <= (#[trigger] lns[k]).0 && lns[k].1 <= children.len(),
    ensures
        0 <= crosses_total(children, g, row, lns, a, b),
        crosses_total(children, g, row, lns, a, b) <= (if b >= a {
            (b - a) * 0x2000_0000_0000
        } else {
            0
        }),
    decreases b - a,
{
    if a < b {
        lemma_crosses_total_props(children, g, row, lns, a, b - 1);
        lemma_cross_max_props(children, g, row, lns[b - 1].0, lns[b - 1].1);
    }
}

pub proof fn lemma_used_max_props(
    children: Seq<NodeView>,
    g: Seq<GeomView>,
    row: bool,
    lns: Seq<(int, int)>,
    a: int,
    b: int,
)
    requires
        0 <= a,
        b <= lns.len(),
        children.len() == g.len(),
        sizes_ok(g),
        styles_ok(children),
        children.len() <= 0x1_0000,
        forall|k: int| 0 <= k < lns.len() ==> 0 <= (#[trigger] lns[k]).0 && lns[k].1 <= children.len(),
    ensures
        0 <= used_max(children, g, row, lns, a, b) <= 0x2000_0000_0000_0000,
    decreases b - a,
{
    if a < b {
        lemma_used_max_props(children, g, row, lns, a, b - 1);
        lemma_used_range_props(children, g, row, lns[b - 1].0, lns[b - 1].1);
        assert((lns[b - 1].1 - lns[b - 1].0) * 0x2000_0000_0000 <= 0x1_0000 * 0x2000_0000_0000)
            by (nonlinear_arith)
            requires
                lns[b - 1].1 - lns[b - 1].0 <= 0x1_0000,
        ;
    }
}

pub proof fn lemma_adj_total_split(
    children: Seq<NodeView>,
    g: Seq<GeomView>,
    row: bool,
    lns: Seq<(int, int)>,
    s: Style,
    c: Option<int>,
    a: int,
    mid: int,
    b: int,
)
    requires
        a <= mid <= b,
    ensures
        adj_total(children, g, row, lns, s, c, a, b) == adj_total(children, g, row, lns, s, c, a, mid)
            + adj_total(children, g, row, lns, s, c, mid, b),
    decreases b - mid,
{
    if mid < b {
        lemma_adj_total_split(children, g, row, lns, s, c, a, mid, b - 1);
    }
}


/// A child inside line `k`'s range belongs to line `k`.
pub proof fn lemma_line_index(lns: Seq<(int, int)>, start: int, n: int, k: int, i: int)
    requires
        lines_tile(lns, start, n),
        0 <= k < lns.len(),
        lns[k].0 <= i < lns[k].1,
    ensures
        line_index(lns, i) == k,
    decreases k,
{
    if lns.len() > 0 {
        if k == 0 {
        } else {
            assert(lns[0].0 == start);
            assert(i >= lns[k].0);
            assert forall|k2: int| 0 <= k2 < lns.len() - 1 implies (#[trigger] lns.drop_first()[k2]).0 < lns.drop_first()[k2].1 <= n by {
                assert(lns.drop_first()[k2] == lns[k2 + 1]);
            }
            assert forall|k2: int| 0 < k2 < lns.len() - 1 implies (#[trigger] lns.drop_first()[k2]).0 == lns.drop_first()[k2 - 1].1 by {
                assert(lns.drop_first()[k2] == lns[k2 + 1]);
                assert(lns.drop_first()[k2 - 1] == lns[k2]);
            }
            assert(lines_tile(lns.drop_first(), lns[1].0, n));
            assert(lns[1].0 == lns[0].1);
            lemma_mono_starts(lns, 1, k);
            assert(i >= lns[0].1);
            lemma_line_index(lns.drop_first(), lns[1].0, n, k - 1, i);
            assert(lns.drop_first()[k - 1] == lns[k]);
        }
    }
}

/// Line starts are monotone.
pub proof fn lemma_mono_starts(lns: Seq<(int, int)>, a: int, b: int)
    requires
        0 <= a <= b < lns.len(),
        forall|k: int| 0 < k < lns.len() ==> (#[trigger] lns[k]).0 == lns[k - 1].1,
        forall|k: int| 0 <= k < lns.len() ==> (#[trigger] lns[k]).0 < lns[k].1,
    ensures
        lns[a].0 <= lns[b].0,
    decreases b - a,
{
    if a < b {
        lemma_mono_starts(lns, a, b - 1);
        assert(lns[b].0 == lns[b - 1].1);
    }
}

/// Adjusted totals are the natural totals plus the stretch extra per line.
pub proof fn lemma_adj_total_eq(
    children: Seq<NodeView>,
    g: Seq<GeomView>,
    row: bool,
    lns: Seq<(int, int)>,
    s: Style,
    c: Option<int>,
    a: int,
    b: int,
)
    requires
        a <= b,
    ensures
        adj_total(children, g, row, lns, s, c, a, b) == crosses_total(children, g, row, lns, a, b)
            + (b - a) * line_extra(children, g, row, lns, s, c),
    decreases b - a,
{
    let x = line_extra(children, g, row, lns, s, c);
    if a < b {
        lemma_adj_total_eq(children, g, row, lns, s, c, a, b - 1);
        assert((b - a) * x == (b - 1 - a) * x + x) by (nonlinear_arith);
    } else {
        assert((b - a) * x == 0) by (nonlinear_arith)
            requires
                a == b,
        ;
    }
}

/// Consecutive non-empty lines: line `k` starts at or after `start + k`.
pub proof fn lemma_tile_start_ge(lns: Seq<(int, int)>, start: int, n: int, k: int)
    requires
        lines_tile(lns, start, n),
        0 <= k < lns.len(),
    ensures
        lns[k].0 >= start + k,
    decreases k,
{
    if k > 0 {
        lemma_tile_start_ge(lns, start, n, k - 1);
    }
}

/// A tiling of `[start, n)` has at most `n - start` lines.
pub proof fn lemma_tile_len(lns: Seq<(int, int)>, start: int, n: int)
    requires
        lines_tile(lns, start, n),
    ensures
        lns.len() <= n - start || lns.len() == 0,
{
    if lns.len() > 0 {
        lemma_tile_start_ge(lns, start, n, lns.len() - 1);
    }
}

pub fn cap_size_ex(v: u64) -> (r: u64)
    ensures
        r as int == cap_size(pos_part(v as int)),
        r <= SIZE_LIMIT,
{
    if v > SIZE_LIMIT {
        SIZE_LIMIT
    } else {
        v
    }
}

/// Resolves a declared dimension against a definite or undefined parent
/// content size, as `resolve_dim` states.
pub fn resolve_dim_ex(d: Dimension, parent: Option<u64>) -> (r: Option<u64>)
    requires
        crate::style::wf_dim(d),
        parent is Some ==> parent->0 <= SIZE_LIMIT,
    ensures
        opt_i(r) == resolve_dim(d, opt_i(parent)),
        r is Some ==> r->0 <= SIZE_LIMIT,
{
    match d {
        Dimension::Auto => None,
        Dimension::Point(v) => Some(v),
        Dimension::Percent(p) => match parent {
            Some(w) => {
                proof {
                    assert(w * p <= 0x1000_0000_0000 * 0x1_0000) by (nonlinear_arith)
                        requires
                            w <= 0x1000_0000_0000u64,
                            p <= 0x1_0000u64,
                    ;
                }
                Some(cap_size_ex(w * p / 100))
            },
            None => None,
        },
    }
}

/// Lays out one node against imposed outer sizes, computing exactly the
/// geometry `spec_layout` describes.
#[verifier::rlimit(100)]
pub fn layout_rec<A>(n: &Node<A>, iw: Option<u64>, ih: Option<u64>) -> (r: Geom)
    requires
        wf_node(n@),
    ensures
        r@ == spec_layout(n@, opt_i(iw), opt_i(ih)),
        r.width <= SIZE_LIMIT,
        r.height <= SIZE_LIMIT,
    decreases n@, 1int,
{
    proof {
        lemma_views_of_nodes(n.children@);
    }
    let ghost nv = n@;
    let ghost chv = nv.children;
    let s = n.style;
    let row = match s.direction {
        FlexDirection::Row => true,
        FlexDirection::RowReverse => true,
        _ => false,
    };
    let rev = match s.direction {
        FlexDirection::RowReverse => true,
        FlexDirection::ColumnReverse => true,
        _ => false,
    };
    let imp_main = if row {
        iw
    } else {
        ih
    };
    let imp_cross = if row {
        ih
    } else {
        iw
    };
    let mmin = if row {
        s.min_width
    } else {
        s.min_height
    };
    let mmax = if row {
        s.max_width
    } else {
        s.max_height
    };
    let cmin = if row {
        s.min_height
    } else {
        s.min_width
    };
    let cmax = if row {
        s.max_height
    } else {
        s.max_width
    };
    let pm = if row {
        s.padding_left + s.padding_right
    } else {
        s.padding_top + s.padding_bottom
    };
    let pc = if row {
        s.padding_top + s.padding_bottom
    } else {
        s.padding_left + s.padding_right
    };
    let own_main0: Option<u64> = match imp_main {
        Some(v) => Some(clamp_ex(mmin, mmax, cap_size_ex(v))),
        None => None,
    };
    let own_cross0: Option<u64> = match imp_cross {
        Some(v) => Some(clamp_ex(cmin, cmax, cap_size_ex(v))),
        None => None,
    };
    let m: Option<u64> = match own_main0 {
        Some(v) => Some(
            if v > pm {
                v - pm
            } else {
                0
            },
        ),
        None => None,
    };
    let c: Option<u64> = match own_cross0 {
        Some(v) => Some(
            if v > pc {
                v - pc
            } else {
                0
            },
        ),
        None => None,
    };
    proof {
        assert(own_main0 is Some ==> own_main0->0 <= SIZE_LIMIT);
        assert(own_cross0 is Some ==> own_cross0->0 <= SIZE_LIMIT);
    }
    let ghost mi = opt_i(m);
    let ghost ci = opt_i(c);
    let nk = n.children.len();
    let ghost items_s = items_of(chv, mi, row);
    let mut items: Vec<LineItem> = Vec::new();
    let mut i: usize = 0;
    while i < nk
        invariant
            i <= nk,
            nk == n.children@.len(),
            nv == n@,
            chv == nv.children,
            chv.len() == nk,
            wf_node(nv),
            s == nv.style,
            m is Some ==> m->0 <= SIZE_LIMIT,
            mi == opt_i(m),
            items_s == items_of(chv, mi, row),
            items@.len() == i,
            forall|j: int| 0 <= j < i ==> items@[j] == items_s[j],
        decreases nk - i,
    {
        proof {
            lemma_views_of_nodes(n.children@);
            assert(chv[i as int] == n.children@[i as int]@);
            assert(wf_node(chv[i as int]));
        }
        let cs = n.children[i].style;
        let mdim = if row {
            cs.width
        } else {
            cs.height
        };
        let basis: u64 = match resolve_dim_ex(mdim, m) {
            Some(v) => v,
            None => if row {
                cs.min_width
            } else {
                cs.min_height
            },
        };
        let it = LineItem {
            basis,
            margins: if row {
                cs.margin_left + cs.margin_right
            } else {
                cs.margin_top + cs.margin_bottom
            },
            grow: if cs.fixed {
                0
            } else {
                cs.grow
            },
            shrink: if cs.fixed {
                0
            } else {
                cs.shrink
            },
            min: if row {
                cs.min_width
            } else {
                cs.min_height
            },
            max: if row {
                cs.max_width
            } else {
                cs.max_height
            },
        };
        proof {
            assert(it == item_of(cs, mi, row));
        }
        items.push(it);
        i += 1;
    }
    proof {
        assert(items@ =~= items_s);
        assert forall|j: int| 0 <= j < nk implies crate::dist::wf_item(#[trigger] items@[j]) by {
            assert(wf_node(chv[j]));
            assert(items@[j] == item_of(chv[j].style, mi, row));
        }
        assert(wf_items(items@));
    }
    let ghost lns_s = lines_of(items_s, mi, s.wrap);
    let mut lines: Vec<(usize, usize)> = Vec::new();
    let wrapping = match s.wrap {
        FlexWrap::NoWrap => false,
        _ => true,
    };
    if nk > 0 {
        if !wrapping || m.is_none() {
            lines.push((0, nk));
            proof {
                assert(lines_view(lines@) =~= lns_s);
            }
        } else {
            let mv: u64 = match m {
                Some(v) => v,
                None => 0,
            };
            let mut cur: usize = 0;
            while cur < nk
                invariant
                    cur <= nk,
                    nk == items@.len(),
                    items@ == items_s,
                    wf_items(items@),
                    split_from(items_s, mv as int, 0) == lines_view(lines@) + split_from(
                        items_s,
                        mv as int,
                        cur as int,
                    ),
                    forall|k: int|
                        0 <= k < lines@.len() ==> (#[trigger] lines@[k]).0 <= lines@[k].1
                            && lines@[k].1 <= nk,
                decreases nk - cur,
            {
                let ghost acc0 = outer_item(items_s[cur as int]);
                let mut e: usize = cur + 1;
                let mut acc: u64 = items[cur].basis + items[cur].margins;
                loop
                    invariant_except_break
                        cur + 1 <= e <= nk,
                        nk == items@.len(),
                        items@ == items_s,
                        wf_items(items@),
                        acc <= (e as u64) * 0x2000_0000_0000,
                        line_end(items_s, mv as int, e as int, acc as int) == line_end(
                            items_s,
                            mv as int,
                            cur + 1 as int,
                            acc0,
                        ),
                    ensures
                        cur < e <= nk,
                        e as int == line_end(items_s, mv as int, cur + 1 as int, acc0),
                    decreases nk - e,
                {
                    if e >= nk {
                        break ;
                    }
                    let o = items[e].basis + items[e].margins;
                    if acc + o > mv {
                        break ;
                    }
                    acc = acc + o;
                    e += 1;
                }
                lines.push((cur, e));
                proof {
                    assert(lines_view(lines@) =~= lines_view(lines@.drop_last()) + seq![
                        (cur as int, e as int),
                    ]);
                    assert(split_from(items_s, mv as int, cur as int) == seq![
                        (cur as int, e as int),
                    ] + split_from(items_s, mv as int, e as int));
                    assert(split_from(items_s, mv as int, 0) == lines_view(lines@) + split_from(
                        items_s,
                        mv as int,
                        e as int,
                    ));
                }
                cur = e;
            }
            proof {
                assert(split_from(items_s, mv as int, nk as int) =~= Seq::<(int, int)>::empty());
                assert(lines_view(lines@) =~= split_from(items_s, mv as int, 0));
            }
        }
    }
    proof {
        assert(lines_view(lines@) =~= lns_s);
        lemma_lines_tile(items_s, mi, s.wrap);
        assert(lines_tile(lns_s, 0, nk as int));
        lemma_tile_len(lns_s, 0, nk as int);
    }
    let ll = lines.len();
    let mut mains: Vec<u64> = Vec::new();
    match m {
        Some(mv) => {
            let mut k: usize = 0;
            while k < ll
                invariant
                    k <= ll,
                    ll == lines@.len(),
                    nk == items@.len(),
                    items@ == items_s,
                    wf_items(items@),
                    mv <= SIZE_LIMIT,
                    lines_view(lines@) == lns_s,
                    lines_tile(lns_s, 0, nk as int),
                    crate::dist::int_seq(mains@) == mains_of(
                        items_s,
                        lns_s.subrange(0, k as int),
                        mv as int,
                    ),
                    mains@.len() == (if k < ll {
                        lns_s[k as int].0
                    } else {
                        nk as int
                    }),
                    forall|j: int| 0 <= j < mains@.len() ==> #[trigger] mains@[j] <= BOUND_SZ,
                decreases ll - k,
            {
                let (a, b) = lines[k];
                proof {
                    assert(lns_s[k as int] == (a as int, b as int));
                    assert(a < b && b <= nk);
                }
                let mut sub: Vec<LineItem> = Vec::new();
                let mut j: usize = a;
                while j < b
                    invariant
                        a <= j <= b,
                        b <= nk,
                        nk == items@.len(),
                        items@ == items_s,
                        wf_items(items@),
                        sub@.len() == j - a,
                        forall|t: int| 0 <= t < j - a ==> sub@[t] == items_s[a + t],
                    decreases b - j,
                {
                    sub.push(items[j]);
                    j += 1;
                }
                proof {
                    assert(sub@ =~= items_s.subrange(a as int, b as int));
                    assert(wf_items(sub@));
                }
                let sizes = line_sizes_ex(&sub, mv);
                let ghost mains_pre = mains@;
                let mut t: usize = 0;
                while t < sizes.len()
                    invariant
                        t <= sizes@.len(),
                        mains@.len() == mains_pre.len() + t,
                        forall|u: int| 0 <= u < mains_pre.len() ==> mains@[u] == mains_pre[u],
                        forall|u: int|
                            0 <= u < t ==> mains@[mains_pre.len() + u] == sizes@[u],
                        forall|u: int| 0 <= u < sizes@.len() ==> #[trigger] sizes@[u] <= BOUND_SZ,
                        forall|u: int| 0 <= u < mains_pre.len() ==> #[trigger] mains_pre[u] <= BOUND_SZ,
                    decreases sizes@.len() - t,
                {
                    mains.push(sizes[t]);
                    t += 1;
                }
                proof {
                    assert forall|j2: int| 0 <= j2 < mains@.len() implies #[trigger] mains@[j2]
                        <= BOUND_SZ by {
                        if j2 >= mains_pre.len() {
                            assert(mains@[j2] == sizes@[j2 - mains_pre.len()]);
                        } else {
                            assert(mains@[j2] == mains_pre[j2]);
                        }
                    }
                    lemma_mains_push(items_s, lns_s.subrange(0, k as int), (a as int, b as int), mv as int);
                    assert(lns_s.subrange(0, k + 1 as int) =~= lns_s.subrange(0, k as int).push(
                        (a as int, b as int),
                    ));
                    assert(crate::dist::int_seq(mains@) =~= crate::dist::int_seq(mains_pre)
                        + crate::dist::int_seq(sizes@));
                    assert(crate::dist::int_seq(mains@) =~= mains_of(
                        items_s,
                        lns_s.subrange(0, k + 1 as int),
                        mv as int,
                    ));
                }
                k += 1;
            }
            proof {
                assert(lns_s.subrange(0, ll as int) =~= lns_s);
            }
        },
        None => {},
    }
    let ghost imps_s = imps_of(chv, items_s, lns_s, mi, ci, s, row);
    let mut geoms: Vec<Geom> = Vec::new();
    let mut i: usize = 0;
    while i < nk
        invariant
            i <= nk,
            nk == n.children@.len(),
            nv == n@,
            chv == nv.children,
            chv.len() == nk,
            wf_node(nv),
            s == nv.style,
            row == is_row(s.direction),
            m is Some ==> m->0 <= SIZE_LIMIT,
            c is Some ==> c->0 <= SIZE_LIMIT,
            mi == opt_i(m),
            ci == opt_i(c),
            items_s == items_of(chv, mi, row),
            lns_s == lines_of(items_s, mi, s.wrap),
            imps_s == imps_of(chv, items_s, lns_s, mi, ci, s, row),
            m is Some ==> crate::dist::int_seq(mains@) == mains_of(items_s, lns_s, m->0 as int)
                && mains@.len() == nk,
            geoms@.len() == i,
            forall|j: int|
                0 <= j < i ==> (#[trigger] geoms@[j])@ == spec_layout(
                    chv[j],
                    imps_s[j].0,
                    imps_s[j].1,
                ),
            forall|j: int|
                0 <= j < i ==> (#[trigger] geoms@[j]).width <= SIZE_LIMIT && geoms@[j].height
                    <= SIZE_LIMIT,
        decreases nk - i,
    {
        proof {
            lemma_views_of_nodes(n.children@);
            assert(chv[i as int] == n.children@[i as int]@);
            assert(wf_node(chv[i as int]));
        }
        let cs = n.children[i].style;
        let im: Option<u64> = match m {
            Some(_) => Some(mains[i]),
            None => resolve_dim_ex(
                if row {
                    cs.width
                } else {
                    cs.height
                },
                None,
            ),
        };
        let crd = if row {
            cs.height
        } else {
            cs.width
        };
        let ic: Option<u64> = resolve_dim_ex(crd, c);
        proof {
            if m is Some {
                assert(mains@[i as int] as int == crate::dist::int_seq(mains@)[i as int]);
            }
            assert(opt_i(im) == imp_main_of(chv, items_s, lns_s, mi, row, i as int));
            assert(opt_i(ic) == imp_cross_of(chv, s, ci, row, i as int));
            assert(imps_s[i as int] == (if row {
                (opt_i(im), opt_i(ic))
            } else {
                (opt_i(ic), opt_i(im))
            }));
        }
        let cwx = if row {
            im
        } else {
            ic
        };
        let chx = if row {
            ic
        } else {
            im
        };
        proof {
            assert(decreases_to!(nv => nv.children));
            assert(decreases_to!(nv.children => nv.children[i as int]));
        }
        let cg = layout_rec(&n.children[i], cwx, chx);
        geoms.push(cg);
        i += 1;
    }
    let ghost gs = child_geoms(chv, imps_s, nk as int);
    proof {
        lemma_child_geoms(chv, imps_s, nk as int);
        assert(gs.len() == nk);
        assert forall|j: int| 0 <= j < nk implies (#[trigger] geoms@[j])@ == gs[j] by {
            assert(gs[j] == spec_layout(chv[j], imps_s[j].0, imps_s[j].1));
        }
        assert forall|j: int|
            0 <= j < gs.len() implies 0 <= (#[trigger] gs[j]).width <= SIZE_LIMIT && 0 <= gs[j].height
            <= SIZE_LIMIT by {
            assert(gs[j] == geoms@[j]@);
        }
        assert(sizes_ok(gs));
        assert forall|j: int| 0 <= j < chv.len() implies crate::style::wf_style(
            (#[trigger] chv[j]).style,
        ) by {
            assert(wf_node(chv[j]));
        }
        assert(styles_ok(chv));
    }
    proof {
        assert(mi == m_of(nv, opt_i(iw), opt_i(ih)));
        assert(ci == c_of(nv, opt_i(iw), opt_i(ih)));
        assert(opt_i(own_main0) == own_main0_of(nv, opt_i(iw), opt_i(ih)));
        assert(opt_i(own_cross0) == own_cross0_of(nv, opt_i(iw), opt_i(ih)));
        assert(items_s == items_s_of(nv, opt_i(iw), opt_i(ih)));
        assert(lns_s == lns_of(nv, opt_i(iw), opt_i(ih)));
        assert(imps_s == imps_all(nv, opt_i(iw), opt_i(ih)));
        assert(gs == gs_of(nv, opt_i(iw), opt_i(ih)));
    }
    proof {
        assert(m is Some ==> crate::dist::int_seq(mains@) == mains_of(
            items_s_of(nv, opt_i(iw), opt_i(ih)),
            lns_of(nv, opt_i(iw), opt_i(ih)),
            m->0 as int,
        ) && mains@.len() == nk);
    }
    finish_layout(n, iw, ih, row, rev, m, c, own_main0, own_cross0, lines, mains, geoms)
}

/// Sizes lines, places them on the cross axis, positions every child per
/// justify-content and alignment, and assembles the node's geometry.
#[verifier::rlimit(100)]
fn finish_layout<A>(
    n: &Node<A>,
    iw: Option<u64>,
    ih: Option<u64>,
    row: bool,
    rev: bool,
    m: Option<u64>,
    c: Option<u64>,
    own_main0: Option<u64>,
    own_cross0: Option<u64>,
    lines: Vec<(usize, usize)>,
    mains: Vec<u64>,
    mut geoms: Vec<Geom>,
) -> (r: Geom)
    requires
        wf_node(n@),
        row == is_row(n@.style.direction),
        rev == is_rev(n@.style.direction),
        opt_i(m) == m_of(n@, opt_i(iw), opt_i(ih)),
        opt_i(c) == c_of(n@, opt_i(iw), opt_i(ih)),
        opt_i(own_main0) == own_main0_of(n@, opt_i(iw), opt_i(ih)),
        opt_i(own_cross0) == own_cross0_of(n@, opt_i(iw), opt_i(ih)),
        lines_view(lines@) == lns_of(n@, opt_i(iw), opt_i(ih)),
        geoms@.len() == n@.children.len(),
        forall|j: int|
            0 <= j < geoms@.len() ==> (#[trigger] geoms@[j])@ == gs_of(n@, opt_i(iw), opt_i(ih))[j],
        forall|j: int|
            0 <= j < geoms@.len() ==> (#[trigger] geoms@[j]).width <= SIZE_LIMIT && geoms@[j].height
                <= SIZE_LIMIT,
        m is Some ==> m->0 <= SIZE_LIMIT,
        c is Some ==> c->0 <= SIZE_LIMIT,
        own_main0 is Some ==> own_main0->0 <= SIZE_LIMIT,
        own_cross0 is Some ==> own_cross0->0 <= SIZE_LIMIT,
        m is Some ==> crate::dist::int_seq(mains@) == mains_of(
            items_s_of(n@, opt_i(iw), opt_i(ih)),
            lns_of(n@, opt_i(iw), opt_i(ih)),
            m->0 as int,
        ) && mains@.len() == n@.children.len(),
    ensures
        r@ == spec_layout(n@, opt_i(iw), opt_i(ih)),
        r.width <= SIZE_LIMIT,
        r.height <= SIZE_LIMIT,
    decreases n@, 0int,
{
    proof {
        lemma_views_of_nodes(n.children@);
    }
    let ghost nv = n@;
    let ghost chv = nv.children;
    let ghost mi = opt_i(m);
    let ghost ci = opt_i(c);
    let ghost items_s = items_s_of(nv, opt_i(iw), opt_i(ih));
    let ghost lns_s = lns_of(nv, opt_i(iw), opt_i(ih));
    let ghost gs = gs_of(nv, opt_i(iw), opt_i(ih));
    let ghost imps2_s = imps2_all(nv, opt_i(iw), opt_i(ih));
    let ghost gs2 = gs2_of(nv, opt_i(iw), opt_i(ih));
    let s = n.style;
    let nk = n.children.len();
    let ll = lines.len();
    let mmin = if row {
        s.min_width
    } else {
        s.min_height
    };
    let mmax = if row {
        s.max_width
    } else {
        s.max_height
    };
    let cmin = if row {
        s.min_height
    } else {
        s.min_width
    };
    let cmax = if row {
        s.max_height
    } else {
        s.max_width
    };
    let pm = if row {
        s.padding_left + s.padding_right
    } else {
        s.padding_top + s.padding_bottom
    };
    let pc = if row {
        s.padding_top + s.padding_bottom
    } else {
        s.padding_left + s.padding_right
    };
    proof {
        lemma_child_geoms(chv, imps_all(nv, opt_i(iw), opt_i(ih)), nk as int);
        assert(gs.len() == nk);
        lemma_lines_tile(items_s, mi, s.wrap);
        assert(lines_tile(lns_s, 0, nk as int));
        lemma_tile_len(lns_s, 0, nk as int);
        assert forall|j: int|
            0 <= j < gs.len() implies 0 <= (#[trigger] gs[j]).width <= SIZE_LIMIT && 0 <= gs[j].height
            <= SIZE_LIMIT by {
            assert(gs[j] == geoms@[j]@);
        }
        assert(sizes_ok(gs));
        assert forall|j: int| 0 <= j < chv.len() implies crate::style::wf_style(
            (#[trigger] chv[j]).style,
        ) by {
            assert(wf_node(chv[j]));
        }
        assert(styles_ok(chv));
    }

    let mut natv: Vec<u64> = Vec::new();
    let mut nat_total: u64 = 0;
    let mut k: usize = 0;
    while k < ll
        invariant
            k <= ll,
            ll == lines@.len(),
            nk == n.children@.len(),
            nv == n@,
            chv == nv.children,
            chv.len() == nk,
            wf_node(nv),
            s == nv.style,
            lines_view(lines@) == lns_s,
            lines_tile(lns_s, 0, nk as int),
            geoms@.len() == nk,
            forall|j: int| 0 <= j < nk ==> (#[trigger] geoms@[j])@ == gs[j],
            gs.len() == nk,
            sizes_ok(gs),
            styles_ok(chv),
            nk <= 0x1_0000,
            ll <= 0x1_0000,
            natv@.len() == k,
            forall|j: int|
                0 <= j < k ==> natv@[j] as int == line_cross_nat(chv, gs, row, lns_s, j),
            forall|j: int| 0 <= j < k ==> #[trigger] natv@[j] <= 0x2000_0000_0000,
            nat_total as int == crosses_total(chv, gs, row, lns_s, 0, k as int),
            nat_total <= (k as u64) * 0x2000_0000_0000,
        decreases ll - k,
    {
        let (a, b) = lines[k];
        proof {
            assert(lns_s[k as int] == (a as int, b as int));
            assert(0 <= a as int && a < b && b <= nk);
            lemma_cross_max_props(chv, gs, row, a as int, b as int);
        }
        let mut x: u64 = 0;
        let mut j: usize = a;
        while j < b
            invariant
                a <= j <= b,
                b <= nk,
                nk == n.children@.len(),
                chv.len() == nk,
                wf_node(nv),
                nv == n@,
                chv == nv.children,
                geoms@.len() == nk,
                forall|jj: int| 0 <= jj < nk ==> (#[trigger] geoms@[jj])@ == gs[jj],
                gs.len() == nk,
                sizes_ok(gs),
                styles_ok(chv),
                x as int == cross_max_range(chv, gs, row, a as int, j as int),
                x <= 0x2000_0000_0000,
            decreases b - j,
        {
            proof {
                lemma_views_of_nodes(n.children@);
                assert(chv[j as int] == n.children@[j as int]@);
                assert(wf_node(chv[j as int]));
                assert(geoms@[j as int]@ == gs[j as int]);
            }
            let cs = n.children[j].style;
            let gc = if row {
                geoms[j].height
            } else {
                geoms[j].width
            };
            let cmg = if row {
                cs.margin_top + cs.margin_bottom
            } else {
                cs.margin_left + cs.margin_right
            };
            let ext = gc + cmg;
            if ext > x {
                x = ext;
            }
            j += 1;
        }
        natv.push(x);
        nat_total = nat_total + x;
        k += 1;
    }
    let own_cross: u64 = match own_cross0 {
        Some(v) => v,
        None => clamp_ex(cmin, cmax, cap_size_ex(nat_total + pc)),
    };
    proof {
        assert(own_cross <= SIZE_LIMIT);
    }
    let ll64: u64 = ll as u64;
    let mut extra: u64 = 0;
    let mut lead_c: u64 = 0;
    let mut gap_c: u64 = 0;
    let stretch_ac = match s.align_content {
        FlexAlign::Stretch => true,
        FlexAlign::Inherit => true,
        _ => false,
    };
    match c {
        Some(cv) => {
            if ll > 0 && cv > nat_total {
                if stretch_ac {
                    extra = (cv - nat_total) / ll64;
                    proof {
                        assert(extra <= cv - nat_total) by (nonlinear_arith)
                            requires
                                ll64 >= 1,
                                extra == (cv - nat_total) as u64 / ll64,
                                cv > nat_total,
                        ;
                    }
                } else {
                    let (l0, g0) = justify_parts_ex(s.align_content, cv - nat_total, ll);
                    lead_c = l0;
                    gap_c = g0;
                }
            }
        },
        None => {},
    }
    proof {
        assert(extra as int == line_extra(chv, gs, row, lns_s, s, ci));
        assert(lead_c as int == content_parts(chv, gs, row, lns_s, s, ci).0);
        assert(gap_c as int == content_parts(chv, gs, row, lns_s, s, ci).1);
        assert((ll as int) * (extra as int) <= 0x1_0000 * 0x1000_0000_0000) by (nonlinear_arith)
            requires
                0 <= ll as int <= 0x1_0000,
                0 <= extra as int <= 0x1000_0000_0000,
        ;
    }
    proof {
        assert((ll as int) * 0x2000_0000_0000 <= 0x1_0000 * 0x2000_0000_0000)
            by (nonlinear_arith)
            requires
                0 <= ll as int <= 0x1_0000,
        ;
        assert(nat_total as int <= 0x2000_0000_0000_0000);
        assert((extra as int) * (ll64 as int) <= 0x1000_0000_0000 * 0x1_0000)
            by (nonlinear_arith)
            requires
                0 <= extra as int <= 0x1000_0000_0000,
                0 <= ll64 as int <= 0x1_0000,
        ;
    }
    let total_adj: u64 = nat_total + extra * ll64;
    proof {
        lemma_adj_total_eq(chv, gs, row, lns_s, s, ci, 0, ll as int);
        let ei = extra as int;
        let li = ll as int;
        assert((li - 0) * ei == li * ei && li * ei == ei * li) by (nonlinear_arith);
        assert(nat_total as int == crosses_total(chv, gs, row, lns_s, 0, li));
        assert(extra * ll64 == ei * li);
        assert(total_adj as int == nat_total as int + ei * li);
        assert(total_adj as int == adj_total(chv, gs, row, lns_s, s, ci, 0, ll as int));
    }
    let rev_lines = match s.wrap {
        FlexWrap::WrapReverse => true,
        _ => false,
    };
    let mut topv: Vec<u64> = Vec::new();
    let mut adj_pref: u64 = 0;
    let mut k: usize = 0;
    while k < ll
        invariant
            k <= ll,
            ll == lines@.len(),
            ll <= 0x1_0000,
            nk == n.children@.len(),
            chv.len() == nk,
            lines_view(lines@) == lns_s,
            lines_tile(lns_s, 0, nk as int),
            gs.len() == nk,
            sizes_ok(gs),
            styles_ok(chv),
            nk <= 0x1_0000,
            natv@.len() == ll,
            forall|j: int|
                0 <= j < ll ==> natv@[j] as int == line_cross_nat(chv, gs, row, lns_s, j),
            forall|j: int| 0 <= j < ll ==> #[trigger] natv@[j] <= 0x2000_0000_0000,
            extra as int == line_extra(chv, gs, row, lns_s, s, ci),
            extra <= 0x1000_0000_0000,
            lead_c as int == content_parts(chv, gs, row, lns_s, s, ci).0,
            gap_c as int == content_parts(chv, gs, row, lns_s, s, ci).1,
            lead_c <= 0x1000_0000_0000,
            gap_c <= 0x1000_0000_0000,
            total_adj as int == adj_total(chv, gs, row, lns_s, s, ci, 0, ll as int),
            total_adj <= 0x4000_0000_0000_0000,
            adj_pref as int == adj_total(chv, gs, row, lns_s, s, ci, 0, k as int),
            topv@.len() == k,
            forall|j: int|
                0 <= j < k ==> topv@[j] as int == line_top(chv, gs, row, lns_s, s, ci, j),
            forall|j: int| 0 <= j < k ==> #[trigger] topv@[j] <= 0x7000_0000_0000_0000,
            rev_lines == (s.wrap == FlexWrap::WrapReverse),
        decreases ll - k,
    {
        let adjk = natv[k] + extra;
        proof {
            assert(adjk as int == line_adj(chv, gs, row, lns_s, s, ci, k as int));
            lemma_adj_total_split(chv, gs, row, lns_s, s, ci, 0, k as int, ll as int);
            lemma_adj_total_split(chv, gs, row, lns_s, s, ci, k as int, k + 1 as int, ll as int);
            assert(adj_total(chv, gs, row, lns_s, s, ci, k as int, k as int) == 0);
            assert(adj_total(chv, gs, row, lns_s, s, ci, k as int, k + 1 as int) == adjk as int);
            lemma_adj_total_eq(chv, gs, row, lns_s, s, ci, k + 1 as int, ll as int);
            lemma_crosses_total_props(chv, gs, row, lns_s, k + 1 as int, ll as int);
            assert((ll - k - 1) as int * (extra as int) >= 0) by (nonlinear_arith)
                requires
                    0 <= (ll - k - 1) as int,
                    0 <= extra as int,
            ;
            assert(adj_total(chv, gs, row, lns_s, s, ci, k + 1 as int, ll as int) >= 0);
        }
        let u = if rev_lines {
            ll - 1 - k
        } else {
            k
        };
        let before = if rev_lines {
            total_adj - adj_pref - adjk
        } else {
            adj_pref
        };
        proof {
            assert((u as int) * (gap_c as int) <= 0x1_0000 * 0x1000_0000_0000)
                by (nonlinear_arith)
                requires
                    0 <= u as int <= 0x1_0000,
                    0 <= gap_c as int <= 0x1000_0000_0000,
            ;
        }
        let top = lead_c + before + (u as u64) * gap_c;
        proof {
            assert(top as int == line_top(chv, gs, row, lns_s, s, ci, k as int));
        }
        topv.push(top);
        adj_pref = adj_pref + adjk;
        k += 1;
    }
    let mut g2v: Vec<Geom> = Vec::new();
    let mut k2: usize = 0;
    while k2 < ll
        invariant
            k2 <= ll,
            ll == lines@.len(),
            ll <= 0x1_0000,
            nk == n.children@.len(),
            nv == n@,
            chv == nv.children,
            chv.len() == nk,
            wf_node(nv),
            s == nv.style,
            row == is_row(s.direction),
            m is Some ==> m->0 <= SIZE_LIMIT,
            c is Some ==> c->0 <= SIZE_LIMIT,
            mi == opt_i(m),
            ci == opt_i(c),
            mi == m_of(nv, opt_i(iw), opt_i(ih)),
            ci == c_of(nv, opt_i(iw), opt_i(ih)),
            items_s == items_s_of(nv, opt_i(iw), opt_i(ih)),
            lns_s == lns_of(nv, opt_i(iw), opt_i(ih)),
            imps2_s == imps2_all(nv, opt_i(iw), opt_i(ih)),
            gs == gs_of(nv, opt_i(iw), opt_i(ih)),
            m is Some ==> crate::dist::int_seq(mains@) == mains_of(items_s, lns_s, m->0 as int)
                && mains@.len() == nk,
            lines_view(lines@) == lns_s,
            lines_tile(lns_s, 0, nk as int),
            geoms@.len() == nk,
            forall|j: int| 0 <= j < nk ==> (#[trigger] geoms@[j])@ == gs[j],
            forall|j: int|
                0 <= j < nk ==> (#[trigger] geoms@[j]).width <= SIZE_LIMIT && geoms@[j].height
                    <= SIZE_LIMIT,
            gs.len() == nk,
            sizes_ok(gs),
            styles_ok(chv),
            nk <= 0x1_0000,
            natv@.len() == ll,
            forall|j: int|
                0 <= j < ll ==> natv@[j] as int == line_cross_nat(chv, gs, row, lns_s, j),
            forall|j: int| 0 <= j < ll ==> #[trigger] natv@[j] <= 0x2000_0000_0000,
            extra as int == line_extra(chv, gs, row, lns_s, s, ci),
            extra <= 0x1000_0000_0000,
            g2v@.len() == (if k2 < ll {
                lns_s[k2 as int].0
            } else {
                nk as int
            }),
            forall|t: int|
                0 <= t < g2v@.len() ==> (#[trigger] g2v@[t])@ == spec_layout(
                    chv[t],
                    imps2_s[t].0,
                    imps2_s[t].1,
                ),
            forall|t: int|
                0 <= t < g2v@.len() ==> (#[trigger] g2v@[t]).width <= SIZE_LIMIT && g2v@[t].height
                    <= SIZE_LIMIT,
        decreases ll - k2,
    {
        let (a, b) = lines[k2];
        proof {
            assert(lns_s[k2 as int] == (a as int, b as int));
            assert(0 <= a as int && a < b && b <= nk);
        }
        let adjk = natv[k2] + extra;
        proof {
            assert(adjk as int == line_adj(chv, gs, row, lns_s, s, ci, k2 as int));
        }
        let mut j: usize = a;
        while j < b
            invariant
                a <= j <= b,
                a < b,
                b <= nk,
                nk == n.children@.len(),
                nv == n@,
                chv == nv.children,
                chv.len() == nk,
                wf_node(nv),
                s == nv.style,
                row == is_row(s.direction),
                m is Some ==> m->0 <= SIZE_LIMIT,
                c is Some ==> c->0 <= SIZE_LIMIT,
                mi == opt_i(m),
                ci == opt_i(c),
                mi == m_of(nv, opt_i(iw), opt_i(ih)),
                ci == c_of(nv, opt_i(iw), opt_i(ih)),
                items_s == items_s_of(nv, opt_i(iw), opt_i(ih)),
                lns_s == lns_of(nv, opt_i(iw), opt_i(ih)),
                imps2_s == imps2_all(nv, opt_i(iw), opt_i(ih)),
                gs == gs_of(nv, opt_i(iw), opt_i(ih)),
                m is Some ==> crate::dist::int_seq(mains@) == mains_of(items_s, lns_s, m->0 as int)
                    && mains@.len() == nk,
                lines_tile(lns_s, 0, nk as int),
                0 <= k2 < lns_s.len(),
                lns_s[k2 as int] == (a as int, b as int),
                geoms@.len() == nk,
                forall|jj: int| 0 <= jj < nk ==> (#[trigger] geoms@[jj])@ == gs[jj],
                forall|jj: int|
                    0 <= jj < nk ==> (#[trigger] geoms@[jj]).width <= SIZE_LIMIT
                        && geoms@[jj].height <= SIZE_LIMIT,
                gs.len() == nk,
                sizes_ok(gs),
                styles_ok(chv),
                nk <= 0x1_0000,
                adjk as int == line_adj(chv, gs, row, lns_s, s, ci, k2 as int),
                adjk <= 0x3000_0000_0000,
                g2v@.len() == j,
                forall|t: int|
                    0 <= t < g2v@.len() ==> (#[trigger] g2v@[t])@ == spec_layout(
                        chv[t],
                        imps2_s[t].0,
                        imps2_s[t].1,
                    ),
                forall|t: int|
                    0 <= t < g2v@.len() ==> (#[trigger] g2v@[t]).width <= SIZE_LIMIT
                        && g2v@[t].height <= SIZE_LIMIT,
            decreases b - j,
        {
            proof {
                lemma_views_of_nodes(n.children@);
                assert(chv[j as int] == n.children@[j as int]@);
                assert(wf_node(chv[j as int]));
                lemma_line_index(lns_s, 0, nk as int, k2 as int, j as int);
            }
            let cs = n.children[j].style;
            let crd = if row {
                cs.height
            } else {
                cs.width
            };
            let cross_is_auto = match crd {
                Dimension::Auto => true,
                _ => false,
            };
            let al = match cs.align_self {
                FlexAlign::Inherit => s.align_items,
                _ => cs.align_self,
            };
            let st = match al {
                FlexAlign::Stretch => true,
                FlexAlign::Inherit => true,
                _ => false,
            };
            if st && cross_is_auto {
                let im: Option<u64> = match m {
                    Some(_) => Some(mains[j]),
                    None => resolve_dim_ex(
                        if row {
                            cs.width
                        } else {
                            cs.height
                        },
                        None,
                    ),
                };
                let cm = if row {
                    cs.margin_top + cs.margin_bottom
                } else {
                    cs.margin_left + cs.margin_right
                };
                let target: u64 = if adjk > cm {
                    adjk - cm
                } else {
                    0
                };
                let ic: Option<u64> = Some(target);
                proof {
                    if m is Some {
                        assert(mains@[j as int] as int == crate::dist::int_seq(mains@)[j as int]);
                    }
                    assert(opt_i(im) == imp_main_of(chv, items_s, lns_s, mi, row, j as int));
                    assert(stretch_auto(chv, s, row, j as int));
                    assert(target as int == pos_part(
                        line_adj(chv, gs, row, lns_s, s, ci, k2 as int) - cross_margin_sum(
                            chv[j as int].style,
                            row,
                        ),
                    ));
                    assert(imps2_s == imps2_of(chv, items_s, lns_s, mi, ci, s, row, gs));
                    assert(line_index(lns_s, j as int) == k2 as int);
                    assert(opt_i(ic) == Some(
                        pos_part(
                            line_adj(chv, gs, row, lns_s, s, ci, line_index(lns_s, j as int))
                                - cross_margin_sum(chv[j as int].style, row),
                        ),
                    ));
                    assert(imps2_s[j as int] == (if row {
                        (opt_i(im), opt_i(ic))
                    } else {
                        (opt_i(ic), opt_i(im))
                    }));
                    assert(decreases_to!(nv => nv.children));
                    assert(decreases_to!(nv.children => nv.children[j as int]));
                }
                let cwx = if row {
                    im
                } else {
                    ic
                };
                let chx = if row {
                    ic
                } else {
                    im
                };
                let cg = layout_rec(&n.children[j], cwx, chx);
                g2v.push(cg);
            } else {
                proof {
                    assert(!stretch_auto(chv, s, row, j as int));
                    assert(imps2_s[j as int] == imps_all(nv, opt_i(iw), opt_i(ih))[j as int]);
                    lemma_child_geoms(chv, imps_all(nv, opt_i(iw), opt_i(ih)), nk as int);
                    assert(gs[j as int] == spec_layout(
                        chv[j as int],
                        imps2_s[j as int].0,
                        imps2_s[j as int].1,
                    ));
                    assert(geoms@[j as int]@ == gs[j as int]);
                }
                let cg = crate::geom::clone_geom(&geoms[j]);
                proof {
                    assert(cg@ == gs[j as int]);
                    assert(cg.width as int == geoms@[j as int].width as int);
                    assert(cg.height as int == geoms@[j as int].height as int);
                }
                g2v.push(cg);
            }
            j += 1;
        }
        k2 += 1;
    }
    proof {
        lemma_child_geoms(chv, imps2_s, nk as int);
        assert(gs2.len() == nk);
        assert(g2v@.len() == nk);
        assert forall|t: int| 0 <= t < nk implies (#[trigger] g2v@[t])@ == gs2[t] by {
            assert(gs2[t] == spec_layout(chv[t], imps2_s[t].0, imps2_s[t].1));
        }
        assert forall|t: int|
            0 <= t < gs2.len() implies 0 <= (#[trigger] gs2[t]).width <= SIZE_LIMIT && 0
            <= gs2[t].height <= SIZE_LIMIT by {
            assert(gs2[t] == g2v@[t]@);
        }
        assert(sizes_ok(gs2));
    }
    let mut usedv: Vec<u64> = Vec::new();
    let mut used_max_run: u64 = 0;
    let mut k3: usize = 0;
    while k3 < ll
        invariant
            k3 <= ll,
            ll == lines@.len(),
            ll <= 0x1_0000,
            nk == n.children@.len(),
            nv == n@,
            chv == nv.children,
            chv.len() == nk,
            wf_node(nv),
            s == nv.style,
            lines_view(lines@) == lns_s,
            lines_tile(lns_s, 0, nk as int),
            g2v@.len() == nk,
            forall|j: int| 0 <= j < nk ==> (#[trigger] g2v@[j])@ == gs2[j],
            gs2.len() == nk,
            sizes_ok(gs2),
            styles_ok(chv),
            nk <= 0x1_0000,
            usedv@.len() == k3,
            forall|j: int|
                0 <= j < k3 ==> usedv@[j] as int == used_range(chv, gs2, row, lns_s[j].0, lns_s[j].1),
            forall|j: int| 0 <= j < k3 ==> #[trigger] usedv@[j] <= 0x2000_0000_0000_0000,
            used_max_run as int == used_max(chv, gs2, row, lns_s, 0, k3 as int),
            used_max_run <= 0x2000_0000_0000_0000,
        decreases ll - k3,
    {
        let (a, b) = lines[k3];
        proof {
            assert(lns_s[k3 as int] == (a as int, b as int));
            assert(0 <= a as int && a < b && b <= nk);
            lemma_used_range_props(chv, gs2, row, a as int, b as int);
            assert((b - a) as int * 0x2000_0000_0000 <= 0x1_0000 * 0x2000_0000_0000)
                by (nonlinear_arith)
                requires
                    0 <= (b - a) as int <= 0x1_0000,
            ;
        }
        let mut u: u64 = 0;
        let mut j: usize = a;
        while j < b
            invariant
                a <= j <= b,
                b <= nk,
                nk == n.children@.len(),
                chv.len() == nk,
                wf_node(nv),
                nv == n@,
                chv == nv.children,
                g2v@.len() == nk,
                forall|jj: int| 0 <= jj < nk ==> (#[trigger] g2v@[jj])@ == gs2[jj],
                gs2.len() == nk,
                sizes_ok(gs2),
                styles_ok(chv),
                u as int == used_range(chv, gs2, row, a as int, j as int),
                u <= (j as u64) * 0x2000_0000_0000,
            decreases b - j,
        {
            proof {
                lemma_views_of_nodes(n.children@);
                assert(chv[j as int] == n.children@[j as int]@);
                assert(wf_node(chv[j as int]));
                assert(g2v@[j as int]@ == gs2[j as int]);
            }
            let cs = n.children[j].style;
            let gm = if row {
                g2v[j].width
            } else {
                g2v[j].height
            };
            let mmg = if row {
                cs.margin_left + cs.margin_right
            } else {
                cs.margin_top + cs.margin_bottom
            };
            u = u + gm + mmg;
            j += 1;
        }
        proof {
            assert((b as int) * 0x2000_0000_0000 <= 0x1_0000 * 0x2000_0000_0000)
                by (nonlinear_arith)
                requires
                    0 <= b as int <= 0x1_0000,
            ;
        }
        usedv.push(u);
        if u > used_max_run {
            used_max_run = u;
        }
        k3 += 1;
    }
    let own_main: u64 = match own_main0 {
        Some(v) => v,
        None => clamp_ex(mmin, mmax, cap_size_ex(used_max_run + pm)),
    };
    proof {
        assert(own_main <= SIZE_LIMIT);
    }
    let mut lefts: Vec<u64> = Vec::new();
    let mut tops: Vec<u64> = Vec::new();
    let mut k: usize = 0;
    while k < ll
        invariant
            k <= ll,
            ll == lines@.len(),
            ll <= 0x1_0000,
            nk == n.children@.len(),
            nv == n@,
            chv == nv.children,
            chv.len() == nk,
            wf_node(nv),
            s == nv.style,
            row == is_row(s.direction),
            rev == is_rev(s.direction),
            m is Some ==> m->0 <= SIZE_LIMIT,
            mi == opt_i(m),
            lines_view(lines@) == lns_s,
            lines_tile(lns_s, 0, nk as int),
            g2v@.len() == nk,
            forall|j: int| 0 <= j < nk ==> (#[trigger] g2v@[j])@ == gs2[j],
            gs2.len() == nk,
            sizes_ok(gs2),
            gs.len() == nk,
            sizes_ok(gs),
            styles_ok(chv),
            nk <= 0x1_0000,
            usedv@.len() == ll,
            natv@.len() == ll,
            topv@.len() == ll,
            forall|j: int|
                0 <= j < ll ==> usedv@[j] as int == used_range(chv, gs2, row, lns_s[j].0, lns_s[j].1),
            forall|j: int|
                0 <= j < ll ==> natv@[j] as int == line_cross_nat(chv, gs, row, lns_s, j),
            forall|j: int| 0 <= j < ll ==> #[trigger] usedv@[j] <= 0x2000_0000_0000_0000,
            forall|j: int| 0 <= j < ll ==> #[trigger] natv@[j] <= 0x2000_0000_0000,
            forall|j: int|
                0 <= j < ll ==> topv@[j] as int == line_top(chv, gs, row, lns_s, s, ci, j),
            forall|j: int| 0 <= j < ll ==> #[trigger] topv@[j] <= 0x7000_0000_0000_0000,
            extra as int == line_extra(chv, gs, row, lns_s, s, ci),
            extra <= 0x1000_0000_0000,
            lefts@.len() == tops@.len(),
            lefts@.len() == (if k < ll {
                lns_s[k as int].0
            } else {
                nk as int
            }),
            forall|j: int|
                0 <= j < lefts@.len() ==> lefts@[j] as int == (if row {
                    pos_main(chv, gs2, row, rev, lns_s, mi, s, j)
                } else {
                    pos_cross(chv, gs, gs2, row, lns_s, s, ci, j)
                }),
            forall|j: int|
                0 <= j < tops@.len() ==> tops@[j] as int == (if row {
                    pos_cross(chv, gs, gs2, row, lns_s, s, ci, j)
                } else {
                    pos_main(chv, gs2, row, rev, lns_s, mi, s, j)
                }),
        decreases ll - k,
    {
        let (a, b) = lines[k];
        proof {
            assert(lns_s[k as int] == (a as int, b as int));
            assert(0 <= a as int && a < b && b <= nk);
            lemma_used_range_props(chv, gs2, row, a as int, b as int);
        }
        let used_l = usedv[k];
        let leftover: u64 = match m {
            Some(mv) => if mv > used_l {
                mv - used_l
            } else {
                0
            },
            None => 0,
        };
        let cnt = b - a;
        let (lead, gap) = justify_parts_ex(s.justify_content, leftover, cnt);
        proof {
            crate::dist::lemma_justify_fits(s.justify_content, leftover as int, cnt as int);
            assert(lead <= leftover && leftover <= SIZE_LIMIT);
            assert(gap <= SIZE_LIMIT);
        }
        let adjk = natv[k] + extra;
        let topk = topv[k];
        let mut pref: u64 = 0;
        let mut j: usize = a;
        while j < b
            invariant
                a <= j <= b,
                a < b,
                b <= nk,
                nk == n.children@.len(),
                nv == n@,
                chv == nv.children,
                chv.len() == nk,
                wf_node(nv),
                s == nv.style,
                row == is_row(s.direction),
                rev == is_rev(s.direction),
                mi == opt_i(m),
                lines_tile(lns_s, 0, nk as int),
                0 <= k < lns_s.len(),
                lns_s[k as int] == (a as int, b as int),
                g2v@.len() == nk,
                forall|jj: int| 0 <= jj < nk ==> (#[trigger] g2v@[jj])@ == gs2[jj],
                gs2.len() == nk,
                sizes_ok(gs2),
                gs.len() == nk,
                sizes_ok(gs),
                styles_ok(chv),
                nk <= 0x1_0000,
                used_l as int == used_range(chv, gs2, row, a as int, b as int),
                used_l <= 0x2000_0000_0000_0000,
                leftover as int == (if mi is Some && mi->0 > used_l as int {
                    mi->0 - used_l
                } else {
                    0
                }),
                lead as int == justify_parts(s.justify_content, leftover as int, (b - a) as int).0,
                gap as int == justify_parts(s.justify_content, leftover as int, (b - a) as int).1,
                lead <= SIZE_LIMIT,
                gap <= SIZE_LIMIT,
                adjk as int == line_adj(chv, gs, row, lns_s, s, ci, k as int),
                adjk <= 0x3000_0000_0000,
                topk as int == line_top(chv, gs, row, lns_s, s, ci, k as int),
                topk <= 0x7000_0000_0000_0000,
                pref as int == used_range(chv, gs2, row, a as int, j as int),
                lefts@.len() == j,
                tops@.len() == j,
                forall|t: int|
                    0 <= t < j ==> lefts@[t] as int == (if row {
                        pos_main(chv, gs2, row, rev, lns_s, mi, s, t)
                    } else {
                        pos_cross(chv, gs, gs2, row, lns_s, s, ci, t)
                    }),
                forall|t: int|
                    0 <= t < j ==> tops@[t] as int == (if row {
                        pos_cross(chv, gs, gs2, row, lns_s, s, ci, t)
                    } else {
                        pos_main(chv, gs2, row, rev, lns_s, mi, s, t)
                    }),
            decreases b - j,
        {
            proof {
                lemma_views_of_nodes(n.children@);
                assert(chv[j as int] == n.children@[j as int]@);
                assert(wf_node(chv[j as int]));
                assert(g2v@[j as int]@ == gs2[j as int]);
                lemma_line_index(lns_s, 0, nk as int, k as int, j as int);
                lemma_used_range_props(chv, gs2, row, a as int, j as int);
                lemma_used_split(chv, gs2, row, a as int, j as int, b as int);
                lemma_used_split(chv, gs2, row, j as int, j + 1 as int, b as int);
                lemma_used_range_props(chv, gs2, row, j + 1 as int, b as int);
            }
            let cs = n.children[j].style;
            let gm = if row {
                g2v[j].width
            } else {
                g2v[j].height
            };
            let mmg = if row {
                cs.margin_left + cs.margin_right
            } else {
                cs.margin_top + cs.margin_bottom
            };
            let outer = gm + mmg;
            proof {
                assert(used_range(chv, gs2, row, j as int, j as int) == 0);
                assert(gm as int == main_size(gs2[j as int], row));
                assert(mmg as int == main_margin_sum(chv[j as int].style, row));
                assert(outer as int == used_range(chv, gs2, row, j as int, j + 1 as int));
                assert(used_l as int == pref + outer + used_range(chv, gs2, row, j + 1 as int, b as int));
            }
            let t = if rev {
                b - 1 - j
            } else {
                j - a
            };
            let prefix = if rev {
                used_l - pref - outer
            } else {
                pref
            };
            proof {
                assert((t as int) * (gap as int) <= 0x1_0000 * 0x1000_0000_0000)
                    by (nonlinear_arith)
                    requires
                        0 <= t as int <= 0x1_0000,
                        0 <= gap as int <= 0x1000_0000_0000,
                ;
            }
            let ms = if row {
                cs.margin_left
            } else {
                cs.margin_top
            };
            let posm = lead + prefix + (t as u64) * gap + ms;
            proof {
                assert(posm as int == pos_main(chv, gs2, row, rev, lns_s, mi, s, j as int));
            }
            let gc = if row {
                g2v[j].height
            } else {
                g2v[j].width
            };
            let cmg = if row {
                cs.margin_top + cs.margin_bottom
            } else {
                cs.margin_left + cs.margin_right
            };
            let ext = gc + cmg;
            let al = match cs.align_self {
                FlexAlign::Inherit => s.align_items,
                _ => cs.align_self,
            };
            let off: u64 = match al {
                FlexAlign::Center => if adjk > ext {
                    (adjk - ext) / 2
                } else {
                    0
                },
                FlexAlign::End => if adjk > ext {
                    adjk - ext
                } else {
                    0
                },
                _ => 0,
            };
            let csm = if row {
                cs.margin_top
            } else {
                cs.margin_left
            };
            let posc = topk + off + csm;
            proof {
                assert(posc as int == pos_cross(chv, gs, gs2, row, lns_s, s, ci, j as int));
            }
            if row {
                lefts.push(posm);
                tops.push(posc);
            } else {
                lefts.push(posc);
                tops.push(posm);
            }
            pref = pref + outer;
            j += 1;
        }
        k += 1;
    }
    let ghost finals = Seq::new(
        chv.len(),
        |i: int|
            GeomView {
                left: if row {
                    pos_main(chv, gs2, row, rev, lns_s, mi, s, i)
                } else {
                    pos_cross(chv, gs, gs2, row, lns_s, s, ci, i)
                },
                top: if row {
                    pos_cross(chv, gs, gs2, row, lns_s, s, ci, i)
                } else {
                    pos_main(chv, gs2, row, rev, lns_s, mi, s, i)
                },
                ..gs2[i]
            },
    );
    let mut rev_out: Vec<Geom> = Vec::new();
    let mut i2: usize = nk;
    while i2 > 0
        invariant
            i2 <= nk,
            g2v@.len() == i2,
            lefts@.len() == nk,
            tops@.len() == nk,
            forall|j: int| 0 <= j < i2 ==> (#[trigger] g2v@[j])@ == gs2[j],
            gs2.len() == nk,
            finals.len() == nk,
            forall|j: int|
                0 <= j < nk ==> #[trigger] finals[j] == (GeomView {
                    left: lefts@[j] as int,
                    top: tops@[j] as int,
                    ..gs2[j]
                }),
            rev_out@.len() == nk - i2,
            forall|j: int|
                0 <= j < nk - i2 ==> (#[trigger] rev_out@[j])@ == finals[nk - 1 - j],
        decreases i2,
    {
        i2 -= 1;
        let cgo = g2v.pop();
        let mut cg = match cgo {
            Some(x) => x,
            None => {
                proof {
                    assert(false);
                }
                unreached()
            },
        };
        cg.left = lefts[i2];
        cg.top = tops[i2];
        proof {
            assert(cg@ == finals[i2 as int]);
        }
        rev_out.push(cg);
    }
    let mut out: Vec<Geom> = Vec::new();
    let mut i3: usize = 0;
    while i3 < nk
        invariant
            i3 <= nk,
            rev_out@.len() == nk - i3,
            out@.len() == i3,
            finals.len() == nk,
            forall|j: int|
                0 <= j < nk - i3 ==> (#[trigger] rev_out@[j])@ == finals[nk - 1 - j],
            forall|j: int| 0 <= j < i3 ==> (#[trigger] out@[j])@ == finals[j],
        decreases nk - i3,
    {
        let cgo = rev_out.pop();
        let cg = match cgo {
            Some(x) => x,
            None => {
                proof {
                    assert(false);
                }
                unreached()
            },
        };
        out.push(cg);
        i3 += 1;
    }
    let r = Geom {
        width: if row {
            own_main
        } else {
            own_cross
        },
        height: if row {
            own_cross
        } else {
            own_main
        },
        left: 0,
        top: 0,
        margin_left: s.margin_left,
        margin_top: s.margin_top,
        margin_right: s.margin_right,
        margin_bottom: s.margin_bottom,
        padding_left: s.padding_left,
        padding_top: s.padding_top,
        padding_right: s.padding_right,
        padding_bottom: s.padding_bottom,
        children: out,
    };
    proof {
        crate::geom::lemma_views_of_geoms(out@);
        assert(r@.children =~= finals);
        assert(r@ =~= spec_layout(nv, opt_i(iw), opt_i(ih)));
    }
    r
}

/// Layout of a whole tree against the caller's available sizes: the root
/// resolves its own dimension against the available space and otherwise
/// fills it when it is definite.
pub open spec fn spec_layout_root(n: NodeView, aw: Option<int>, ah: Option<int>) -> GeomView {
    let aw2 = match aw {
        Some(v) => Some(cap_size(pos_part(v))),
        None => None,
    };
    let ah2 = match ah {
        Some(v) => Some(cap_size(pos_part(v))),
        None => None,
    };
    let iw = match resolve_dim(n.style.width, aw2) {
        Some(v) => Some(v),
        None => aw2,
    };
    let ih = match resolve_dim(n.style.height, ah2) {
        Some(v) => Some(v),
        None => ah2,
    };
    spec_layout(n, iw, ih)
}

} // verus!
