use sketch_explorer::chart::Chart;

#[test]
fn coord_maps_inside_the_plot_area() {
    let c = Chart::new(0, 0, 100, 100, 0, 1000, 50);
    let p = c.coord(50, 50).expect("pixel lies inside the plot area");
    assert_eq!(p.x, 500);
    assert_eq!(p.y, 25);
    let origin = c.coord(0, 100).expect("bottom-left corner");
    assert_eq!(origin.x, 0);
    assert_eq!(origin.y, 0);
    let top_right = c.coord(100, 0).expect("top-right corner");
    assert_eq!(top_right.x, 1000);
    assert_eq!(top_right.y, 50);
}

#[test]
fn coord_respects_margins_and_offsets() {
    let c = Chart::new(60, 10, 260, 210, 15_000, 1_000_000, 40);
    let p = c.coord(160, 110).expect("centre of the plot area");
    assert_eq!(p.x, 15_000 + (100 * (1_000_000 - 15_000)) / 200);
    assert_eq!(p.y, (100 * 40) / 200);
}

#[test]
fn coord_outside_the_plot_area_is_none() {
    let c = Chart::new(0, 0, 100, 100, 0, 1000, 50);
    assert!(c.coord(101, 50).is_none());
    assert!(c.coord(-1, 50).is_none());
    assert!(c.coord(50, 101).is_none());
}

#[test]
fn coord_of_degenerate_chart_is_none() {
    let c = Chart::new(10, 0, 10, 100, 0, 1000, 50);
    assert!(c.coord(10, 50).is_none());
}
