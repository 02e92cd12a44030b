use flexlayout::Dimension;
use flexlayout::FlexAlign;
use flexlayout::FlexDirection;
use flexlayout::FlexProperty;
use flexlayout::FlexWrap;
use flexlayout::Node;

fn leaf(props: Vec<FlexProperty>) -> Node<()> {
    Node::new(Vec::new(), props, ())
}

#[test]
fn two_children_grow_equally() {
    let c1 = leaf(vec![FlexProperty::Grow(1)]);
    let c2 = leaf(vec![FlexProperty::Grow(1)]);
    let root = Node::new(vec![c1, c2], vec![], ());
    let v = root.layout(Some(300), None);
    assert_eq!(v.width(), 300);
    let kids = v.children();
    assert_eq!(kids.len(), 2);
    assert_eq!(kids[0].width(), 150);
    assert_eq!(kids[1].width(), 150);
    assert_eq!(kids[0].left(), 0);
    assert_eq!(kids[1].left(), 150);
}

#[test]
fn column_space_between() {
    let mk = || leaf(vec![FlexProperty::Height(Dimension::Point(50))]);
    let root = Node::new(
        vec![mk(), mk(), mk()],
        vec![
            FlexProperty::Direction(FlexDirection::Column),
            FlexProperty::JustifyContent(FlexAlign::SpaceBetween),
        ],
        (),
    );
    let v = root.layout(None, Some(200));
    assert_eq!(v.height(), 200);
    let kids = v.children();
    assert_eq!(kids[0].top(), 0);
    assert_eq!(kids[1].top(), 75);
    assert_eq!(kids[2].top(), 150);
    assert_eq!(kids[0].height(), 50);
    assert_eq!(kids[1].height(), 50);
    assert_eq!(kids[2].height(), 50);
}

#[test]
fn percent_width_with_margin() {
    let c = leaf(vec![
        FlexProperty::Width(Dimension::Percent(80)),
        FlexProperty::MarginLeft(10),
    ]);
    let root = Node::new(vec![c], vec![], ());
    let v = root.layout(Some(100), None);
    let kids = v.children();
    assert_eq!(kids[0].width(), 80);
    assert_eq!(kids[0].left(), 10);
    assert_eq!(kids[0].margin_left(), 10);
}

#[test]
fn wrap_starts_new_line_when_next_child_would_overflow() {
    let mk = || {
        leaf(vec![
            FlexProperty::Width(Dimension::Point(60)),
            FlexProperty::Height(Dimension::Point(20)),
        ])
    };
    let root = Node::new(
        vec![mk(), mk(), mk()],
        vec![FlexProperty::Wrap(FlexWrap::Wrap)],
        (),
    );
    let v = root.layout(Some(100), None);
    let kids = v.children();
    // each 60-wide child overflows the 100-wide line that already holds one,
    // so every child starts a line of its own, stacked by line extent
    assert_eq!(kids[0].left(), 0);
    assert_eq!(kids[0].top(), 0);
    assert_eq!(kids[1].left(), 0);
    assert_eq!(kids[1].top(), 20);
    assert_eq!(kids[2].left(), 0);
    assert_eq!(kids[2].top(), 40);
    assert_eq!(v.height(), 60);
}

#[test]
fn shrink_fits_and_never_negative() {
    let c = leaf(vec![
        FlexProperty::Width(Dimension::Point(100)),
        FlexProperty::Shrink(1),
    ]);
    let root = Node::new(vec![c], vec![], ());
    let v = root.layout(Some(60), None);
    assert_eq!(v.children()[0].width(), 60);

    let c2 = leaf(vec![
        FlexProperty::Width(Dimension::Point(100)),
        FlexProperty::Shrink(5),
    ]);
    let root2 = Node::new(vec![c2], vec![], ());
    let v2 = root2.layout(Some(0), None);
    assert_eq!(v2.children()[0].width(), 0);
}

#[test]
fn layout_twice_is_identical() {
    let c1 = leaf(vec![FlexProperty::Grow(2)]);
    let c2 = leaf(vec![
        FlexProperty::Grow(1),
        FlexProperty::MarginTop(3),
        FlexProperty::Height(Dimension::Point(7)),
    ]);
    let root = Node::new(vec![c1, c2], vec![FlexProperty::PaddingLeft(4)], ());
    let a = root.layout(Some(301), Some(99));
    let first: Vec<(u64, u64, u64, u64)> = a
        .children()
        .iter()
        .map(|k| (k.width(), k.height(), k.left(), k.top()))
        .collect();
    let aw = (a.width(), a.height());
    let b = root.layout(Some(301), Some(99));
    let second: Vec<(u64, u64, u64, u64)> = b
        .children()
        .iter()
        .map(|k| (k.width(), k.height(), k.left(), k.top()))
        .collect();
    assert_eq!(first, second);
    assert_eq!(aw, (b.width(), b.height()));
}

#[test]
fn setting_current_value_changes_nothing() {
    let mk = |w| {
        leaf(vec![
            FlexProperty::Width(Dimension::Point(w)),
            FlexProperty::Grow(1),
        ])
    };
    let mut root = Node::new(vec![mk(30), mk(50)], vec![], ());
    let before: Vec<(u64, u64)> = root
        .layout(Some(200), None)
        .children()
        .iter()
        .map(|k| (k.width(), k.left()))
        .collect();
    root.set(FlexProperty::Width(Dimension::Auto));
    root.set(FlexProperty::Grow(0));
    let after: Vec<(u64, u64)> = root
        .layout(Some(200), None)
        .children()
        .iter()
        .map(|k| (k.width(), k.left()))
        .collect();
    assert_eq!(before, after);
}

#[test]
fn clamp_redistributes_to_unclamped_sibling() {
    let c1 = leaf(vec![FlexProperty::Grow(1), FlexProperty::MaxWidth(100)]);
    let c2 = leaf(vec![FlexProperty::Grow(1)]);
    let root = Node::new(vec![c1, c2], vec![], ());
    let v = root.layout(Some(300), None);
    let kids = v.children();
    assert_eq!(kids[0].width(), 100);
    assert_eq!(kids[1].width(), 200);
    assert_eq!(kids[1].left(), 100);
}

#[test]
fn min_wins_over_max() {
    let c = leaf(vec![
        FlexProperty::Width(Dimension::Point(40)),
        FlexProperty::MinWidth(50),
        FlexProperty::MaxWidth(30),
    ]);
    let root = Node::new(vec![c], vec![], ());
    let v = root.layout(Some(200), None);
    assert_eq!(v.children()[0].width(), 50);
}

#[test]
fn percent_is_independent_of_siblings() {
    let c1 = leaf(vec![FlexProperty::Width(Dimension::Percent(50))]);
    let c2 = leaf(vec![FlexProperty::Grow(1)]);
    let root = Node::new(vec![c1, c2], vec![], ());
    let v = root.layout(Some(200), None);
    let kids = v.children();
    assert_eq!(kids[0].width(), 100);
    assert_eq!(kids[1].width(), 100);

    let c3 = leaf(vec![FlexProperty::Width(Dimension::Percent(50))]);
    let alone = Node::new(vec![c3], vec![], ());
    let v2 = alone.layout(Some(200), None);
    assert_eq!(v2.children()[0].width(), 100);
}

#[test]
fn padding_reduces_content_box() {
    let c = leaf(vec![FlexProperty::Grow(1)]);
    let root = Node::new(
        vec![c],
        vec![FlexProperty::PaddingLeft(10), FlexProperty::PaddingRight(10)],
        (),
    );
    let v = root.layout(Some(100), None);
    assert_eq!(v.width(), 100);
    assert_eq!(v.padding_left(), 10);
    assert_eq!(v.padding_right(), 10);
    assert_eq!(v.children()[0].width(), 80);
}

#[test]
fn justify_center_and_end() {
    let mk = || leaf(vec![FlexProperty::Width(Dimension::Point(60))]);
    let centered = Node::new(
        vec![mk()],
        vec![FlexProperty::JustifyContent(FlexAlign::Center)],
        (),
    );
    assert_eq!(centered.layout(Some(100), None).children()[0].left(), 20);
    let ended = Node::new(
        vec![mk()],
        vec![FlexProperty::JustifyContent(FlexAlign::End)],
        (),
    );
    assert_eq!(ended.layout(Some(100), None).children()[0].left(), 40);
}

#[test]
fn justify_space_around() {
    let mk = || leaf(vec![FlexProperty::Width(Dimension::Point(20))]);
    let root = Node::new(
        vec![mk(), mk(), mk()],
        vec![FlexProperty::JustifyContent(FlexAlign::SpaceAround)],
        (),
    );
    let v = root.layout(Some(120), None);
    let kids = v.children();
    assert_eq!(kids[0].left(), 10);
    assert_eq!(kids[1].left(), 50);
    assert_eq!(kids[2].left(), 90);
}

#[test]
fn column_reverse_places_first_child_last() {
    let mk = || leaf(vec![FlexProperty::Height(Dimension::Point(50))]);
    let root = Node::new(
        vec![mk(), mk(), mk()],
        vec![FlexProperty::Direction(FlexDirection::ColumnReverse)],
        (),
    );
    let v = root.layout(None, Some(200));
    let kids = v.children();
    assert_eq!(kids[0].top(), 100);
    assert_eq!(kids[1].top(), 50);
    assert_eq!(kids[2].top(), 0);
}

#[test]
fn stretch_fills_definite_cross_size() {
    let c = leaf(vec![FlexProperty::Grow(1)]);
    let root = Node::new(vec![c], vec![], ());
    let v = root.layout(Some(50), Some(80));
    assert_eq!(v.children()[0].height(), 80);
}

#[test]
fn align_end_positions_at_far_edge() {
    let c = leaf(vec![
        FlexProperty::Height(Dimension::Point(40)),
        FlexProperty::AlignSelf(FlexAlign::End),
        FlexProperty::Width(Dimension::Point(10)),
    ]);
    let root = Node::new(vec![c], vec![], ());
    let v = root.layout(Some(50), Some(100));
    assert_eq!(v.children()[0].top(), 60);
}

#[test]
fn fixed_node_is_exempt_from_distribution() {
    let fixed = leaf(vec![
        FlexProperty::Width(Dimension::Point(70)),
        FlexProperty::Grow(9),
        FlexProperty::Shrink(9),
        FlexProperty::Fixed(true),
    ]);
    let flexible = leaf(vec![FlexProperty::Grow(1)]);
    let root = Node::new(vec![fixed, flexible], vec![], ());
    let v = root.layout(Some(100), None);
    let kids = v.children();
    assert_eq!(kids[0].width(), 70);
    assert_eq!(kids[1].width(), 30);
}

#[test]
fn context_and_children_are_preserved() {
    let child = Node::new(Vec::new(), Vec::new(), 7u32);
    let root = Node::new(vec![child], Vec::new(), 1u32);
    assert_eq!(*root.context(), 1);
    assert_eq!(root.children().len(), 1);
    assert_eq!(*root.children()[0].context(), 7);
    let v = root.layout(Some(10), Some(10));
    assert_eq!(*v.inner().context(), 1);
    assert_eq!(*v.children()[0].inner().context(), 7);
}

#[test]
fn margins_count_into_distribution() {
    let c1 = leaf(vec![
        FlexProperty::Grow(1),
        FlexProperty::MarginLeft(10),
        FlexProperty::MarginRight(10),
    ]);
    let c2 = leaf(vec![FlexProperty::Grow(1)]);
    let root = Node::new(vec![c1, c2], vec![], ());
    let v = root.layout(Some(100), None);
    let kids = v.children();
    assert_eq!(kids[0].width(), 40);
    assert_eq!(kids[1].width(), 40);
    assert_eq!(kids[0].left(), 10);
    assert_eq!(kids[1].left(), 60);
}

#[test]
fn auto_root_aggregates_content() {
    let mk = || leaf(vec![FlexProperty::Width(Dimension::Point(30))]);
    let root = Node::new(vec![mk(), mk()], vec![], ());
    let v = root.layout(None, None);
    assert_eq!(v.width(), 60);
}

#[test]
fn degenerate_zero_space_gives_zero_sizes() {
    let c = leaf(vec![FlexProperty::Grow(1)]);
    let root = Node::new(vec![c], vec![], ());
    let v = root.layout(Some(0), Some(0));
    assert_eq!(v.width(), 0);
    assert_eq!(v.height(), 0);
    assert_eq!(v.children()[0].width(), 0);
}

#[test]
fn wrap_keeps_children_that_fit_on_one_line() {
    let mk = || {
        leaf(vec![
            FlexProperty::Width(Dimension::Point(40)),
            FlexProperty::Height(Dimension::Point(10)),
        ])
    };
    let root = Node::new(
        vec![mk(), mk(), mk()],
        vec![FlexProperty::Wrap(FlexWrap::Wrap)],
        (),
    );
    let v = root.layout(Some(100), None);
    let kids = v.children();
    assert_eq!(kids[0].left(), 0);
    assert_eq!(kids[0].top(), 0);
    assert_eq!(kids[1].left(), 40);
    assert_eq!(kids[1].top(), 0);
    assert_eq!(kids[2].left(), 0);
    assert_eq!(kids[2].top(), 10);
    assert_eq!(v.height(), 20);
}

#[test]
fn wrap_reverse_stacks_lines_from_the_far_edge() {
    let mk = || {
        leaf(vec![
            FlexProperty::Width(Dimension::Point(40)),
            FlexProperty::Height(Dimension::Point(10)),
        ])
    };
    let root = Node::new(
        vec![mk(), mk(), mk()],
        vec![FlexProperty::Wrap(FlexWrap::WrapReverse)],
        (),
    );
    let v = root.layout(Some(100), None);
    let kids = v.children();
    assert_eq!(kids[0].top(), 10);
    assert_eq!(kids[1].top(), 10);
    assert_eq!(kids[2].top(), 0);
}

#[test]
fn row_reverse_places_first_child_rightmost() {
    let mk = || leaf(vec![FlexProperty::Width(Dimension::Point(30))]);
    let root = Node::new(
        vec![mk(), mk()],
        vec![FlexProperty::Direction(FlexDirection::RowReverse)],
        (),
    );
    let v = root.layout(Some(100), None);
    let kids = v.children();
    assert_eq!(kids[0].left(), 30);
    assert_eq!(kids[1].left(), 0);
}

#[test]
fn stretch_fills_tallest_sibling_line() {
    let fixed_h = leaf(vec![
        FlexProperty::Width(Dimension::Point(50)),
        FlexProperty::Height(Dimension::Point(30)),
    ]);
    let auto_h = leaf(vec![FlexProperty::Width(Dimension::Point(50))]);
    let root = Node::new(vec![fixed_h, auto_h], vec![], ());
    let v = root.layout(Some(200), None);
    let kids = v.children();
    assert_eq!(kids[0].height(), 30);
    assert_eq!(kids[1].height(), 30);
    assert_eq!(v.height(), 30);
}

#[test]
fn stretch_fills_wrapped_lines_sharing_definite_cross() {
    let mk = |h: Option<u64>| {
        let mut props = vec![FlexProperty::Width(Dimension::Point(40))];
        if let Some(hv) = h {
            props.push(FlexProperty::Height(Dimension::Point(hv)));
        }
        leaf(props)
    };
    let root = Node::new(
        vec![mk(Some(20)), mk(None), mk(Some(30)), mk(None)],
        vec![FlexProperty::Wrap(FlexWrap::Wrap)],
        (),
    );
    let v = root.layout(Some(100), Some(100));
    let kids = v.children();
    // two lines of two children; natural line sizes 20 and 30, and
    // align-content stretch shares the remaining 50 equally: lines 45 and 55
    assert_eq!(kids[0].height(), 20);
    assert_eq!(kids[1].height(), 45);
    assert_eq!(kids[2].height(), 30);
    assert_eq!(kids[3].height(), 55);
    assert_eq!(kids[2].top(), 45);
    assert_eq!(kids[3].top(), 45);
}

#[test]
fn percent_width_in_column_container() {
    let c1 = leaf(vec![FlexProperty::Width(Dimension::Percent(50))]);
    let c2 = leaf(vec![FlexProperty::Height(Dimension::Point(10))]);
    let root = Node::new(
        vec![c1, c2],
        vec![FlexProperty::Direction(FlexDirection::Column)],
        (),
    );
    let v = root.layout(Some(80), Some(100));
    assert_eq!(v.children()[0].width(), 40);
}
