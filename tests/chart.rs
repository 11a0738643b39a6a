use result_analyzer::data::{BenchMarkData, MemoryData, MemoryTimeStamp, RequestData, RequestTimeStamp};
use result_analyzer::graph::{ChartError, ColourPalette, GraphBuilder, Mark, Point, Rgb};

fn memory(points: &[(i64, i64)]) -> BenchMarkData {
    let samples: Vec<MemoryTimeStamp> = points
        .iter()
        .map(|p| MemoryTimeStamp { timestamp: p.0, kb: p.1 })
        .collect();
    BenchMarkData::Memory(MemoryData::from_samples(samples).unwrap())
}

const RED: Rgb = Rgb { red: 255, green: 0, blue: 0 };
const BLUE: Rgb = Rgb { red: 0, green: 0, blue: 255 };

#[test]
fn grid_line_counts_follow_densities() {
    let scene = GraphBuilder::default().major((10, 10)).minor((5, 5)).compose().unwrap();
    assert_eq!(scene.minor_grid.len(), 102);
    let minor_vertical = scene.minor_grid[..51].iter().filter(|l| l.x1 == l.x2).count();
    let minor_horizontal = scene.minor_grid[51..].iter().filter(|l| l.y1 == l.y2).count();
    assert_eq!((minor_vertical, minor_horizontal), (51, 51));
    assert_eq!(scene.major_grid.len(), 22);
    let major_vertical = scene.major_grid[..11].iter().filter(|l| l.x1 == l.x2).count();
    let major_horizontal = scene.major_grid[11..].iter().filter(|l| l.y1 == l.y2).count();
    assert_eq!((major_vertical, major_horizontal), (11, 11));
    assert!(scene.minor_grid.iter().all(|l| l.width == 1));
    assert!(scene.major_grid.iter().all(|l| l.width == 3));
}

#[test]
fn grid_lines_divide_the_plot_area() {
    let scene = GraphBuilder::default().major((2, 3)).compose().unwrap();
    let xs: Vec<i64> = scene.major_grid[..3].iter().map(|l| l.x1).collect();
    assert_eq!(xs, vec![40, 400, 760]);
    let ys: Vec<i64> = scene.major_grid[3..].iter().map(|l| l.y1).collect();
    assert_eq!(ys, vec![20, 140, 260, 380]);
    assert_eq!((scene.major_grid[0].y1, scene.major_grid[0].y2), (20, 380));
    assert_eq!((scene.major_grid[3].x1, scene.major_grid[3].x2), (40, 760));
}

#[test]
fn zero_minor_density_disables_minor_grid() {
    let with_sentinel = GraphBuilder::default().major((4, 4)).minor((0, 0)).compose().unwrap();
    let without = GraphBuilder::default().major((4, 4)).compose().unwrap();
    assert!(with_sentinel.minor_grid.is_empty());
    assert_eq!(with_sentinel.major_grid, without.major_grid);
    assert_eq!(with_sentinel.border, without.border);
    assert_eq!(with_sentinel.background, without.background);
    let disabled = GraphBuilder::default().minor((3, 3)).without_minor().compose().unwrap();
    assert!(disabled.minor_grid.is_empty());
}

#[test]
fn negative_stroke_width_is_a_configuration_error() {
    assert_eq!(GraphBuilder::default().major_width(-1).compose().unwrap_err(), ChartError::NegativeStrokeWidth);
    assert_eq!(GraphBuilder::default().minor_width(-3).compose().unwrap_err(), ChartError::NegativeStrokeWidth);
    assert_eq!(GraphBuilder::default().border_width(-5).compose().unwrap_err(), ChartError::NegativeStrokeWidth);
}

#[test]
fn zero_grid_density_is_a_configuration_error() {
    assert_eq!(GraphBuilder::default().major((0, 4)).compose().unwrap_err(), ChartError::ZeroGridDensity);
    assert_eq!(GraphBuilder::default().minor((0, 4)).compose().unwrap_err(), ChartError::ZeroGridDensity);
}

#[test]
fn series_without_extent_are_reported() {
    let builder = GraphBuilder::default().add_drawer(String::from("flat"), memory(&[(0, 0)]), RED);
    assert_eq!(builder.compose().unwrap_err(), ChartError::EmptyRange);
}

#[test]
fn background_and_border_layout() {
    let scene = GraphBuilder::default().compose().unwrap();
    assert_eq!(scene.view_box, (800, 400));
    assert_eq!((scene.background.x, scene.background.y, scene.background.width, scene.background.height), (0, 0, 800, 400));
    assert_eq!(scene.background.fill, Some(RED));
    assert_eq!((scene.border.x, scene.border.y, scene.border.width, scene.border.height), (40, 20, 720, 360));
    assert_eq!(scene.border.stroke, Some(BLUE));
    assert_eq!(scene.border.fill, None);
    assert_eq!(scene.border.stroke_width, 5);
}

#[test]
fn two_memory_series_share_one_range() {
    let builder = GraphBuilder::default()
        .add_drawer(String::from("A"), memory(&[(0, 10), (1, 20), (2, 15)]), RED)
        .add_drawer(String::from("B"), memory(&[(0, 5), (1, 25)]), BLUE);
    assert_eq!(builder.time_range(), (0, 2));
    assert_eq!(builder.value_range(), (0, 25));
    let scene = builder.compose().unwrap();
    assert_eq!(scene.series.len(), 2);
    assert_eq!(scene.series[0].name, "A");
    assert_eq!(scene.series[1].name, "B");
    assert_eq!(scene.series[0].mark, Mark::Polyline);
    assert_eq!(
        scene.series[0].points,
        vec![Point { x: 40, y: 164 }, Point { x: 400, y: 308 }, Point { x: 760, y: 236 }]
    );
    assert_eq!(scene.series[1].points, vec![Point { x: 40, y: 92 }, Point { x: 400, y: 380 }]);
}

#[test]
fn request_series_are_scattered() {
    let reqs = RequestData::from_samples(vec![
        RequestTimeStamp { start_timestamp: 0, duration: 4, response: 200 },
        RequestTimeStamp { start_timestamp: 2, duration: 2, response: 500 },
    ])
    .unwrap();
    let scene = GraphBuilder::default()
        .add_drawer(String::from("req"), BenchMarkData::Request(reqs), RED)
        .compose()
        .unwrap();
    assert_eq!(scene.series[0].mark, Mark::Scatter);
    assert_eq!(scene.series[0].points, vec![Point { x: 40, y: 380 }, Point { x: 400, y: 200 }]);
}

#[test]
fn re_registering_a_name_keeps_its_place() {
    let scene = GraphBuilder::default()
        .add_drawer(String::from("A"), memory(&[(0, 1), (1, 2)]), RED)
        .add_drawer(String::from("B"), memory(&[(0, 1), (1, 2)]), RED)
        .add_drawer(String::from("A"), memory(&[(0, 3), (2, 4)]), BLUE)
        .compose()
        .unwrap();
    assert_eq!(scene.series.len(), 2);
    assert_eq!(scene.series[0].name, "A");
    assert_eq!(scene.series[0].colour, BLUE);
    assert_eq!(scene.series[1].name, "B");
}

#[test]
fn colours_render_in_css_notation() {
    assert_eq!(RED.css(), "rgb(255, 0, 0)");
    assert_eq!(Rgb { red: 7, green: 80, blue: 153 }.css(), "rgb(7, 80, 153)");
}

#[test]
fn default_palette_colours() {
    let p = ColourPalette::default();
    assert_eq!(p.background, RED);
    assert_eq!(p.major_line, BLUE);
    assert_eq!(p.minor_line, Rgb { red: 255, green: 255, blue: 0 });
}
