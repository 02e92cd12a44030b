//! Style attributes of a box: direction, wrap, alignment, flex factors,
//! dimensions, min/max bounds, margins and paddings.
//!
//! All lengths are integer points. Style setters clamp out-of-range values to
//! the nearest representable value instead of failing, so every reachable
//! `Style` satisfies `wf_style` and layout arithmetic stays in bounds.

use vstd::prelude::*;

verus! {

/// Largest style point value (dimension, min/max, margin, padding).
pub const MAX_POINT: u64 = 0x1000_0000;

/// Largest grow/shrink factor and percentage value.
pub const MAX_FACTOR: u64 = 0x1_0000;

/// Primary layout direction of a container.
#[derive(Clone, Copy, Debug, PartialEq, Eq, Structural)]
pub enum FlexDirection {
    Row,
    Column,
    RowReverse,
    ColumnReverse,
}

/// Whether children may wrap onto new flex lines.
#[derive(Clone, Copy, Debug, PartialEq, Eq, Structural)]
pub enum FlexWrap {
    NoWrap,
    Wrap,
    WrapReverse,
}

/// Alignment policy, shared by justify-content, align-items, align-self and
/// align-content.
#[derive(Clone, Copy, Debug, PartialEq, Eq, Structural)]
pub enum FlexAlign {
    Inherit,
    Stretch,
    Start,
    Center,
    End,
    SpaceBetween,
    SpaceAround,
    Baseline,
}

/// A declared width or height: automatic, an absolute point value, or a
/// percentage of the parent's resolved content box.
#[derive(Clone, Copy, Debug, PartialEq, Eq, Structural)]
pub enum Dimension {
    Auto,
    Point(u64),
    Percent(u64),
}

/// One style directive, applied with `Node::set`.
#[derive(Clone, Copy, Debug)]
pub enum FlexProperty {
    Wrap(FlexWrap),
    Direction(FlexDirection),
    AlignItems(FlexAlign),
    AlignSelf(FlexAlign),
    AlignContent(FlexAlign),
    JustifyContent(FlexAlign),
    Grow(u64),
    Shrink(u64),
    Width(Dimension),
    Height(Dimension),
    MinWidth(u64),
    MinHeight(u64),
    MaxWidth(u64),
    MaxHeight(u64),
    MarginLeft(u64),
    MarginTop(u64),
    MarginBottom(u64),
    MarginRight(u64),
    PaddingLeft(u64),
    PaddingTop(u64),
    PaddingBottom(u64),
    PaddingRight(u64),
    Fixed(bool),
}

/// The full resolved style state of one node.
#[derive(Clone, Copy, Debug)]
pub struct Style {
    pub direction: FlexDirection,
    pub wrap: FlexWrap,
    pub align_items: FlexAlign,
    pub align_self: FlexAlign,
    pub align_content: FlexAlign,
    pub justify_content: FlexAlign,
    pub grow: u64,
    pub shrink: u64,
    pub width: Dimension,
    pub height: Dimension,
    pub min_width: u64,
    pub min_height: u64,
    pub max_width: Option<u64>,
    pub max_height: Option<u64>,
    pub margin_left: u64,
    pub margin_top: u64,
    pub margin_right: u64,
    pub margin_bottom: u64,
    pub padding_left: u64,
    pub padding_top: u64,
    pub padding_right: u64,
    pub padding_bottom: u64,
    pub fixed: bool,
}

/// The style a node has before any property is applied.
pub open spec fn default_style() -> Style {
    Style {
        direction: FlexDirection::Row,
        wrap: FlexWrap::NoWrap,
        align_items: FlexAlign::Stretch,
        align_self: FlexAlign::Inherit,
        align_content: FlexAlign::Stretch,
        justify_content: FlexAlign::Start,
        grow: 0,
        shrink: 0,
        width: Dimension::Auto,
        height: Dimension::Auto,
        min_width: 0,
        min_height: 0,
        max_width: None,
        max_height: None,
        margin_left: 0,
        margin_top: 0,
        margin_right: 0,
        margin_bottom: 0,
        padding_left: 0,
        padding_top: 0,
        padding_right: 0,
        padding_bottom: 0,
        fixed: false,
    }
}

pub open spec fn cap_point(v: u64) -> u64 {
    if v > MAX_POINT {
        MAX_POINT
    } else {
        v
    }
}

pub open spec fn cap_factor(v: u64) -> u64 {
    if v > MAX_FACTOR {
        MAX_FACTOR
    } else {
        v
    }
}

pub open spec fn cap_dim(d: Dimension) -> Dimension {
    match d {
        Dimension::Auto => Dimension::Auto,
        Dimension::Point(v) => Dimension::Point(cap_point(v)),
        Dimension::Percent(v) => Dimension::Percent(cap_factor(v)),
    }
}

pub open spec fn wf_dim(d: Dimension) -> bool {
    match d {
        Dimension::Auto => true,
        Dimension::Point(v) => v <= MAX_POINT,
        Dimension::Percent(v) => v <= MAX_FACTOR,
    }
}

/// Every numeric field is within the bounds the setters maintain.
pub open spec fn wf_style(s: Style) -> bool {
    &&& s.grow <= MAX_FACTOR
    &&& s.shrink <= MAX_FACTOR
    &&& wf_dim(s.width)
    &&& wf_dim(s.height)
    &&& s.min_width <= MAX_POINT
    &&& s.min_height <= MAX_POINT
    &&& (s.max_width is Some ==> s.max_width->0 <= MAX_POINT)
    &&& (s.max_height is Some ==> s.max_height->0 <= MAX_POINT)
    &&& s.margin_left <= MAX_POINT
    &&& s.margin_top <= MAX_POINT
    &&& s.margin_right <= MAX_POINT
    &&& s.margin_bottom <= MAX_POINT
    &&& s.padding_left <= MAX_POINT
    &&& s.padding_top <= MAX_POINT
    &&& s.padding_right <= MAX_POINT
    &&& s.padding_bottom <= MAX_POINT
}

/// The style that results from applying one directive: the named field is
/// replaced by the directive's value, clamped to the representable range.
pub open spec fn with_prop(s: Style, p: FlexProperty) -> Style {
    match p {
        FlexProperty::Wrap(v) => Style { wrap: v, ..s },
        FlexProperty::Direction(v) => Style { direction: v, ..s },
        FlexProperty::AlignItems(v) => Style { align_items: v, ..s },
        FlexProperty::AlignSelf(v) => Style { align_self: v, ..s },
        FlexProperty::AlignContent(v) => Style { align_content: v, ..s },
        FlexProperty::JustifyContent(v) => Style { justify_content: v, ..s },
        FlexProperty::Grow(v) => Style { grow: cap_factor(v), ..s },
        FlexProperty::Shrink(v) => Style { shrink: cap_factor(v), ..s },
        FlexProperty::Width(d) => Style { width: cap_dim(d), ..s },
        FlexProperty::Height(d) => Style { height: cap_dim(d), ..s },
        FlexProperty::MinWidth(v) => Style { min_width: cap_point(v), ..s },
        FlexProperty::MinHeight(v) => Style { min_height: cap_point(v), ..s },
        FlexProperty::MaxWidth(v) => Style { max_width: Some(cap_point(v)), ..s },
        FlexProperty::MaxHeight(v) => Style { max_height: Some(cap_point(v)), ..s },
        FlexProperty::MarginLeft(v) => Style { margin_left: cap_point(v), ..s },
        FlexProperty::MarginTop(v) => Style { margin_top: cap_point(v), ..s },
        FlexProperty::MarginBottom(v) => Style { margin_bottom: cap_point(v), ..s },
        FlexProperty::MarginRight(v) => Style { margin_right: cap_point(v), ..s },
        FlexProperty::PaddingLeft(v) => Style { padding_left: cap_point(v), ..s },
        FlexProperty::PaddingTop(v) => Style { padding_top: cap_point(v), ..s },
        FlexProperty::PaddingBottom(v) => Style { padding_bottom: cap_point(v), ..s },
        FlexProperty::PaddingRight(v) => Style { padding_right: cap_point(v), ..s },
        FlexProperty::Fixed(v) => Style { fixed: v, ..s },
    }
}

/// The style after applying a sequence of directives in order.
pub open spec fn styled(s: Style, ps: Seq<FlexProperty>) -> Style
    decreases ps.len(),
{
    if ps.len() == 0 {
        s
    } else {
        with_prop(styled(s, ps.drop_last()), ps.last())
    }
}

/// The directive's value equals the field it would set.
pub open spec fn prop_is_current(s: Style, p: FlexProperty) -> bool {
    match p {
        FlexProperty::Wrap(v) => s.wrap == v,
        FlexProperty::Direction(v) => s.direction == v,
        FlexProperty::AlignItems(v) => s.align_items == v,
        FlexProperty::AlignSelf(v) => s.align_self == v,
        FlexProperty::AlignContent(v) => s.align_content == v,
        FlexProperty::JustifyContent(v) => s.justify_content == v,
        FlexProperty::Grow(v) => s.grow == v,
        FlexProperty::Shrink(v) => s.shrink == v,
        FlexProperty::Width(d) => s.width == d,
        FlexProperty::Height(d) => s.height == d,
        FlexProperty::MinWidth(v) => s.min_width == v,
        FlexProperty::MinHeight(v) => s.min_height == v,
        FlexProperty::MaxWidth(v) => s.max_width == Some(v),
        FlexProperty::MaxHeight(v) => s.max_height == Some(v),
        FlexProperty::MarginLeft(v) => s.margin_left == v,
        FlexProperty::MarginTop(v) => s.margin_top == v,
        FlexProperty::MarginBottom(v) => s.margin_bottom == v,
        FlexProperty::MarginRight(v) => s.margin_right == v,
        FlexProperty::PaddingLeft(v) => s.padding_left == v,
        FlexProperty::PaddingTop(v) => s.padding_top == v,
        FlexProperty::PaddingBottom(v) => s.padding_bottom == v,
        FlexProperty::PaddingRight(v) => s.padding_right == v,
        FlexProperty::Fixed(v) => s.fixed == v,
    }
}

/// Applying a directive keeps every field within bounds.
pub proof fn lemma_with_prop_wf(s: Style, p: FlexProperty)
    requires
        wf_style(s),
    ensures
        wf_style(with_prop(s, p)),
{
}

/// Setting a property to its current value leaves the style unchanged, so a
/// later layout pass yields identical geometry to never having set it.
pub proof fn lemma_set_noop(s: Style, p: FlexProperty)
    requires
        wf_style(s),
        prop_is_current(s, p),
    ensures
        with_prop(s, p) == s,
{
}

/// Applying the same directive twice is the same as applying it once.
pub proof fn lemma_set_idempotent(s: Style, p: FlexProperty)
    ensures
        with_prop(with_prop(s, p), p) == with_prop(s, p),
{
}

/// Applies one directive to a style value, clamping as `with_prop` states.
pub fn apply_prop(s: &mut Style, p: FlexProperty)
    ensures
        *final(s) == with_prop(*old(s), p),
{
    match p {
        FlexProperty::Wrap(v) => s.wrap = v,
        FlexProperty::Direction(v) => s.direction = v,
        FlexProperty::AlignItems(v) => s.align_items = v,
        FlexProperty::AlignSelf(v) => s.align_self = v,
        FlexProperty::AlignContent(v) => s.align_content = v,
        FlexProperty::JustifyContent(v) => s.justify_content = v,
        FlexProperty::Grow(v) => s.grow = cap_factor_ex(v),
        FlexProperty::Shrink(v) => s.shrink = cap_factor_ex(v),
        FlexProperty::Width(d) => s.width = cap_dim_ex(d),
        FlexProperty::Height(d) => s.height = cap_dim_ex(d),
        FlexProperty::MinWidth(v) => s.min_width = cap_point_ex(v),
        FlexProperty::MinHeight(v) => s.min_height = cap_point_ex(v),
        FlexProperty::MaxWidth(v) => s.max_width = Some(cap_point_ex(v)),
        FlexProperty::MaxHeight(v) => s.max_height = Some(cap_point_ex(v)),
        FlexProperty::MarginLeft(v) => s.margin_left = cap_point_ex(v),
        FlexProperty::MarginTop(v) => s.margin_top = cap_point_ex(v),
        FlexProperty::MarginBottom(v) => s.margin_bottom = cap_point_ex(v),
        FlexProperty::MarginRight(v) => s.margin_right = cap_point_ex(v),
        FlexProperty::PaddingLeft(v) => s.padding_left = cap_point_ex(v),
        FlexProperty::PaddingTop(v) => s.padding_top = cap_point_ex(v),
        FlexProperty::PaddingBottom(v) => s.padding_bottom = cap_point_ex(v),
        FlexProperty::PaddingRight(v) => s.padding_right = cap_point_ex(v),
        FlexProperty::Fixed(v) => s.fixed = v,
    }
}

pub fn cap_point_ex(v: u64) -> (r: u64)
    ensures
        r == cap_point(v),
{
    if v > MAX_POINT {
        MAX_POINT
    } else {
        v
    }
}

pub fn cap_factor_ex(v: u64) -> (r: u64)
    ensures
        r == cap_factor(v),
{
    if v > MAX_FACTOR {
        MAX_FACTOR
    } else {
        v
    }
}

pub fn cap_dim_ex(d: Dimension) -> (r: Dimension)
    ensures
        r == cap_dim(d),
{
    match d {
        Dimension::Auto => Dimension::Auto,
        Dimension::Point(v) => Dimension::Point(cap_point_ex(v)),
        Dimension::Percent(v) => Dimension::Percent(cap_factor_ex(v)),
    }
}

/// The default style as an executable value.
pub fn make_default_style() -> (r: Style)
    ensures
        r == default_style(),
        wf_style(r),
{
    Style {
        direction: FlexDirection::Row,
        wrap: FlexWrap::NoWrap,
        align_items: FlexAlign::Stretch,
        align_self: FlexAlign::Inherit,
        align_content: FlexAlign::Stretch,
        justify_content: FlexAlign::Start,
        grow: 0,
        shrink: 0,
        width: Dimension::Auto,
        height: Dimension::Auto,
        min_width: 0,
        min_height: 0,
        max_width: None,
        max_height: None,
        margin_left: 0,
        margin_top: 0,
        margin_right: 0,
        margin_bottom: 0,
        padding_left: 0,
        padding_top: 0,
        padding_right: 0,
        padding_bottom: 0,
        fixed: false,
    }
}

} // verus!
