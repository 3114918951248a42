use hello_egui::flex::{
    layout, AlignContent, AlignItems, Direction, FlexConfig, FlexItem, Justify, Rect, Size,
};

fn item(basis: u64) -> FlexItem {
    FlexItem {
        grow: 0,
        shrink: false,
        basis: Some(Size::Points(basis)),
        intrinsic_main: basis,
        min_main: 0,
        cross: Some(Size::Points(10)),
        intrinsic_cross: 10,
        align_self: None,
    }
}

fn row_config(justify: Justify) -> FlexConfig {
    FlexConfig {
        direction: Direction::Row,
        wrap: false,
        justify,
        align_items: AlignItems::Start,
        align_content: AlignContent::Start,
        gap_main: 0,
        gap_cross: 0,
    }
}

#[test]
fn layout_stable_three_times() {
    let items = vec![
        FlexItem {
            grow: 1,
            ..item(50)
        },
        item(30),
        FlexItem {
            grow: 2,
            ..item(20)
        },
    ];
    let cfg = row_config(Justify::Start);
    let r1 = layout(&items, &cfg, 300, 100);
    let r2 = layout(&items, &cfg, 300, 100);
    let r3 = layout(&items, &cfg, 300, 100);
    assert_eq!(r1, r2);
    assert_eq!(r2, r3);
}

#[test]
fn conservation_grow() {
    let items = vec![
        FlexItem {
            grow: 1,
            ..item(50)
        },
        FlexItem {
            grow: 1,
            ..item(50)
        },
    ];
    let mut cfg = row_config(Justify::Start);
    cfg.gap_main = 10;
    let r = layout(&items, &cfg, 300, 100);
    assert_eq!(r[0].w, 145);
    assert_eq!(r[1].w, 145);
    assert_eq!(r[0].w + r[1].w + 10, 300);
    assert_eq!(r[1].x, 155);
}

#[test]
fn conservation_shrink() {
    let items = vec![
        FlexItem {
            shrink: true,
            ..item(80)
        },
        FlexItem {
            shrink: true,
            ..item(80)
        },
    ];
    let cfg = row_config(Justify::Start);
    let r = layout(&items, &cfg, 100, 100);
    assert_eq!(r[0].w, 50);
    assert_eq!(r[1].w, 50);
    assert_eq!(r[0].w + r[1].w, 100);
}

#[test]
fn shrink_respects_minimum() {
    let items = vec![
        FlexItem {
            shrink: true,
            min_main: 70,
            ..item(80)
        },
        FlexItem {
            shrink: true,
            ..item(80)
        },
    ];
    let cfg = row_config(Justify::Start);
    let r = layout(&items, &cfg, 100, 100);
    assert_eq!(r[0].w, 74);
    assert_eq!(r[1].w, 26);
    assert!(r[0].w >= 70);
    assert_eq!(r[0].w + r[1].w, 100);
}

#[test]
fn percent_resolves_against_container() {
    // Half of a 200-unit container is 100 units, whatever the siblings are.
    let half = FlexItem {
        basis: Some(Size::Percent(500)),
        ..item(0)
    };
    let cfg = row_config(Justify::Start);
    let alone = layout(&vec![half], &cfg, 200, 100);
    assert_eq!(alone[0].w, 100);
    let with_siblings = layout(&vec![half, item(33), item(7)], &cfg, 200, 100);
    assert_eq!(with_siblings[0].w, 100);
}

#[test]
fn space_between_equal_gaps() {
    // Three items of total width 90 in 300 units: two gaps of 105 each,
    // nothing before the first item and nothing after the last.
    let items = vec![item(30), item(30), item(30)];
    let cfg = row_config(Justify::SpaceBetween);
    let r = layout(&items, &cfg, 300, 100);
    assert_eq!(r[0].x, 0);
    assert_eq!(r[1].x - (r[0].x + r[0].w), 105);
    assert_eq!(r[2].x - (r[1].x + r[1].w), 105);
    assert_eq!(r[2].x + r[2].w, 300);
}

#[test]
fn justify_center_and_end() {
    let items = vec![item(40)];
    let centered = layout(&items, &row_config(Justify::Center), 100, 100);
    assert_eq!(centered[0].x, 30);
    let ended = layout(&items, &row_config(Justify::End), 100, 100);
    assert_eq!(ended[0].x, 60);
    let evenly = layout(&vec![item(40), item(40)], &row_config(Justify::SpaceEvenly), 100, 100);
    assert_eq!(evenly[0].x, 6);
    assert_eq!(evenly[1].x, 53);
}

#[test]
fn single_item_space_between_packs_at_start() {
    let items = vec![item(40)];
    let r = layout(&items, &row_config(Justify::SpaceBetween), 100, 100);
    assert_eq!(r[0].x, 0);
}

#[test]
fn wrap_breaks_lines() {
    let mut cfg = row_config(Justify::Start);
    cfg.wrap = true;
    let items = vec![item(60), item(60)];
    let r = layout(&items, &cfg, 100, 100);
    assert_eq!(r[0].x, 0);
    assert_eq!(r[0].y, 0);
    assert_eq!(r[1].x, 0);
    assert_eq!(r[1].y, 10);
}

#[test]
fn no_wrap_overflows_one_line() {
    let cfg = row_config(Justify::Start);
    let items = vec![item(60), item(60)];
    let r = layout(&items, &cfg, 100, 100);
    assert_eq!(r[1].x, 60);
    assert_eq!(r[1].y, 0);
}

#[test]
fn column_swaps_axes() {
    let mut cfg = row_config(Justify::Start);
    cfg.direction = Direction::Column;
    let items = vec![item(30), item(30)];
    let r = layout(&items, &cfg, 100, 100);
    assert_eq!(r[0].y, 0);
    assert_eq!(r[0].h, 30);
    assert_eq!(r[0].w, 10);
    assert_eq!(r[1].y, 30);
}

#[test]
fn stretch_fills_line_cross() {
    let mut cfg = row_config(Justify::Start);
    cfg.align_items = AlignItems::Stretch;
    let auto_cross = FlexItem {
        cross: None,
        ..item(30)
    };
    let fixed_cross = item(30);
    let r = layout(&vec![auto_cross, fixed_cross], &cfg, 100, 80);
    // A single line fills the whole cross axis; only the auto-sized item
    // stretches.
    assert_eq!(r[0].h, 80);
    assert_eq!(r[1].h, 10);
}

#[test]
fn align_center_on_cross_axis() {
    let mut cfg = row_config(Justify::Start);
    cfg.align_items = AlignItems::Center;
    let r = layout(&vec![item(30)], &cfg, 100, 50);
    assert_eq!(r[0].y, 20);
    assert_eq!(r[0].h, 10);
}

#[test]
fn grow_zero_keeps_basis() {
    let items = vec![
        item(30),
        FlexItem {
            grow: 1,
            ..item(30)
        },
    ];
    let r = layout(&items, &row_config(Justify::Start), 100, 100);
    assert_eq!(r[0].w, 30);
    assert_eq!(r[1].w, 70);
}

#[test]
fn empty_layout_is_empty() {
    let r = layout(&Vec::new(), &row_config(Justify::Start), 100, 100);
    assert_eq!(r, Vec::<Rect>::new());
}

#[test]
fn size_resolve_points_and_percent() {
    assert_eq!(Size::Points(42).resolve(200), 42);
    assert_eq!(Size::Percent(500).resolve(200), 100);
    assert_eq!(Size::Percent(1000).resolve(200), 200);
    assert_eq!(Size::Percent(0).resolve(200), 0);
}

#[test]
fn overflow_stands_when_floors_are_reached() {
    // Both items can only shrink to 70: the deficit cannot be absorbed, every
    // item sits at its floor and the line overflows.
    let items = vec![
        FlexItem {
            shrink: true,
            min_main: 70,
            ..item(80)
        },
        FlexItem {
            shrink: true,
            min_main: 70,
            ..item(80)
        },
    ];
    let cfg = row_config(Justify::Start);
    let r = layout(&items, &cfg, 100, 100);
    assert_eq!(r[0].w, 70);
    assert_eq!(r[1].w, 70);
    assert!(r[0].w + r[1].w > 100);
}

#[test]
fn nested_containers_recompute() {
    // A flex item that is itself a flex container: the outer rectangle
    // becomes the inner container, with its own direction.
    let outer = layout(
        &vec![
            FlexItem {
                grow: 1,
                ..item(0)
            },
            FlexItem {
                grow: 1,
                ..item(0)
            },
        ],
        &row_config(Justify::Start),
        200,
        100,
    );
    assert_eq!(outer[0].w, 100);
    let mut inner_cfg = row_config(Justify::Start);
    inner_cfg.direction = Direction::Column;
    let inner = layout(
        &vec![item(20), item(20)],
        &inner_cfg,
        outer[0].h,
        outer[0].w,
    );
    // Positions are relative to the inner container; the host offsets them by
    // the outer rectangle's corner.
    assert_eq!(inner[0].y, 0);
    assert_eq!(inner[1].y, 20);
    assert_eq!(outer[0].x + inner[1].x, outer[0].x);
}

#[test]
fn align_content_stretch_grows_lines() {
    // Two wrapped lines of cross size 10 in a container of 100: stretch gives
    // each line half the spare 80 units, so the second line starts at 50, and
    // a stretching item fills its grown line.
    let mut cfg = row_config(Justify::Start);
    cfg.wrap = true;
    cfg.align_content = AlignContent::Stretch;
    cfg.align_items = AlignItems::Stretch;
    let a = FlexItem {
        cross: None,
        ..item(60)
    };
    let b = FlexItem {
        cross: None,
        ..item(60)
    };
    let r = layout(&vec![a, b], &cfg, 100, 100);
    assert_eq!(r[0].y, 0);
    assert_eq!(r[0].h, 50);
    assert_eq!(r[1].y, 50);
    assert_eq!(r[1].h, 50);
}
