use vstd::prelude::*;

use crate::data::{
    combined_range, get_time_range, lemma_combined_range_covers, lemma_memory_range_covers,
    lemma_request_range_covers, BenchMarkData, MemoryTimeStamp, RequestTimeStamp, TimeRange,
};

verus! {

/// A colour as its three 8-bit channels.
#[derive(Debug, Clone, Copy, PartialEq, Eq, Structural)]
pub struct Rgb {
    pub red: u8,
    pub green: u8,
    pub blue: u8,
}

/// The decimal digit `d`.
pub open spec fn digit_char(d: nat) -> char {
    seq!['0', '1', '2', '3', '4', '5', '6', '7', '8', '9'][d as int]
}

/// The decimal numeral of `n`, without leading zeros.
pub open spec fn decimal(n: nat) -> Seq<char>
    decreases n,
{
    if n < 10 {
        seq![digit_char(n)]
    } else {
        decimal(n / 10).push(digit_char(n % 10))
    }
}

/// The CSS functional notation of a colour: `rgb(r, g, b)` with decimal channels.
pub open spec fn rgb_text(r: u8, g: u8, b: u8) -> Seq<char> {
    seq!['r', 'g', 'b', '('] + decimal(r as nat) + seq![',', ' '] + decimal(g as nat) + seq![
        ',',
        ' ',
    ] + decimal(b as nat) + seq![')']
}

/// Relies on color_art's `Color::from_rgb`, which accepts every channel in 0..=255 (so never
/// fails on `u8`), and `Color::rgb`, which formats the rounded channels as `rgb({}, {}, {})`.
#[verifier::external_body]
fn colour_art_rgb(r: u8, g: u8, b: u8) -> (s: String)
    ensures
        s@ == rgb_text(r, g, b),
{
    match color_art::Color::from_rgb(r, g, b) {
        Ok(c) => c.rgb(),
        Err(_) => String::new(),
    }
}

impl Rgb {
    /// The colour in CSS notation, as a stroke or fill attribute takes it.
    pub fn css(&self) -> (s: String)
        ensures
            s@ == rgb_text(self.red, self.green, self.blue),
    {
        colour_art_rgb(self.red, self.green, self.blue)
    }
}

/// The colours of a chart.
#[derive(Debug, Clone, Copy, PartialEq, Eq, Structural)]
pub struct ColourPalette {
    pub background: Rgb,
    pub axis: Rgb,
    pub major_line: Rgb,
    pub minor_line: Rgb,
    pub title: Rgb,
    pub unit: Rgb,
}

/// The default palette: six distinct primaries and secondaries.
pub open spec fn default_palette() -> ColourPalette {
    ColourPalette {
        background: Rgb { red: 255, green: 0, blue: 0 },
        axis: Rgb { red: 0, green: 255, blue: 0 },
        major_line: Rgb { red: 0, green: 0, blue: 255 },
        minor_line: Rgb { red: 255, green: 255, blue: 0 },
        title: Rgb { red: 255, green: 0, blue: 255 },
        unit: Rgb { red: 0, green: 255, blue: 255 },
    }
}

impl Default for ColourPalette {
    fn default() -> (r: Self)
        ensures
            r == default_palette(),
    {
        ColourPalette {
            background: Rgb { red: 255, green: 0, blue: 0 },
            axis: Rgb { red: 0, green: 255, blue: 0 },
            major_line: Rgb { red: 0, green: 0, blue: 255 },
            minor_line: Rgb { red: 255, green: 255, blue: 0 },
            title: Rgb { red: 255, green: 0, blue: 255 },
            unit: Rgb { red: 0, green: 255, blue: 255 },
        }
    }
}

/// A straight line in device coordinates.
#[derive(Debug, Clone, Copy, PartialEq, Eq, Structural)]
pub struct GridLine {
    pub x1: i64,
    pub y1: i64,
    pub x2: i64,
    pub y2: i64,
    pub stroke: Rgb,
    pub width: u32,
}

/// The position of the `k`-th of `n` equal divisions of `size`, shifted by `offset`, rounded
/// down to a whole device unit.
pub open spec fn grid_coord(offset: int, size: int, n: int, k: int) -> int {
    offset + (k * size) / n
}

/// The `k`-th line perpendicular to the x axis.
pub open spec fn vertical_line(size: (u32, u32), offset: (i64, i64), n: u64, k: int, colour: Rgb, width: u32) -> GridLine {
    let x = grid_coord(offset.0 as int, size.0 as int, n as int, k);
    GridLine {
        x1: x as i64,
        y1: offset.1,
        x2: x as i64,
        y2: (offset.1 + size.1) as i64,
        stroke: colour,
        width,
    }
}

/// The `k`-th line perpendicular to the y axis.
pub open spec fn horizontal_line(size: (u32, u32), offset: (i64, i64), n: u64, k: int, colour: Rgb, width: u32) -> GridLine {
    let y = grid_coord(offset.1 as int, size.1 as int, n as int, k);
    GridLine {
        x1: offset.0,
        y1: y as i64,
        x2: (offset.0 + size.0) as i64,
        y2: y as i64,
        stroke: colour,
        width,
    }
}

/// The `k`-th line of one axis's divisions: perpendicular to x when `vertical`, else to y.
pub open spec fn axis_line(size: (u32, u32), offset: (i64, i64), n: u64, vertical: bool, k: int, colour: Rgb, width: u32) -> GridLine {
    if vertical {
        vertical_line(size, offset, n, k, colour, width)
    } else {
        horizontal_line(size, offset, n, k, colour, width)
    }
}

/// The `n + 1` lines of one axis's divisions, in order.
pub open spec fn axis_lines(size: (u32, u32), offset: (i64, i64), n: u64, vertical: bool, colour: Rgb, width: u32) -> Seq<GridLine> {
    Seq::new((n + 1) as nat, |k: int| axis_line(size, offset, n, vertical, k, colour, width))
}

/// A grid of `lines.0` columns and `lines.1` rows over a plot area of `size` placed at
/// `offset`: first the `lines.0 + 1` vertical lines from left to right, then the `lines.1 + 1`
/// horizontal lines from top to bottom.
pub open spec fn grid_lines(size: (u32, u32), offset: (i64, i64), lines: (u64, u64), colour: Rgb, width: u32) -> Seq<GridLine> {
    axis_lines(size, offset, lines.0, true, colour, width) + axis_lines(size, offset, lines.1, false, colour, width)
}

/// Offsets that keep every grid coordinate within `i64`.
pub open spec fn offset_in_bounds(offset: (i64, i64)) -> bool {
    &&& -0x1_0000_0000 <= offset.0 <= 0x1_0000_0000
    &&& -0x1_0000_0000 <= offset.1 <= 0x1_0000_0000
}

/// The lines of one axis's divisions: `n + 1` of them, perpendicular to x when `vertical`.
fn push_axis_lines(
    out: &mut Vec<GridLine>,
    size: (u32, u32),
    offset: (i64, i64),
    n: u64,
    vertical: bool,
    colour: Rgb,
    width: u32,
)
    requires
        0 < n < u64::MAX,
        offset_in_bounds(offset),
    ensures
        final(out)@ == old(out)@ + axis_lines(size, offset, n, vertical, colour, width),
{
    let ghost start = out@;
    let ghost want = axis_lines(size, offset, n, vertical, colour, width);
    let dim: u32 = if vertical { size.0 } else { size.1 };
    let off: i64 = if vertical { offset.0 } else { offset.1 };
    let mut k: u64 = 0;
    while k <= n
        invariant
            0 < n < u64::MAX,
            k <= n + 1,
            offset_in_bounds(offset),
            dim == if vertical { size.0 } else { size.1 },
            off == if vertical { offset.0 } else { offset.1 },
            want == axis_lines(size, offset, n, vertical, colour, width),
            out@ == start + want.take(k as int),
        decreases n + 1 - k,
    {
        proof {
            assert((k as int) * (dim as int) <= (n as int) * (dim as int)) by (nonlinear_arith)
                requires
                    k <= n,
            ;
            assert((k as int) * (dim as int) / (n as int) <= dim as int) by (nonlinear_arith)
                requires
                    (k as int) * (dim as int) <= (n as int) * (dim as int),
                    n > 0,
            ;
            assert(0 <= (k as int) * (dim as int)) by (nonlinear_arith);
            assert((k as int) * (dim as int) <= 0xffff_ffff_ffff_ffff * 0xffff_ffff) by (nonlinear_arith)
                requires
                    k <= 0xffff_ffff_ffff_ffff,
                    dim <= 0xffff_ffff,
            ;
        }
        let step: u128 = (k as u128) * (dim as u128) / (n as u128);
        let pos: i64 = off + step as i64;
        let line = if vertical {
            GridLine {
                x1: pos,
                y1: offset.1,
                x2: pos,
                y2: offset.1 + size.1 as i64,
                stroke: colour,
                width,
            }
        } else {
            GridLine {
                x1: offset.0,
                y1: pos,
                x2: offset.0 + size.0 as i64,
                y2: pos,
                stroke: colour,
                width,
            }
        };
        out.push(line);
        proof {
            assert(line == want[k as int]);
            assert(want.take(k as int + 1) =~= want.take(k as int).push(want[k as int]));
        }
        k = k + 1;
    }
    proof {
        assert(want.take((n + 1) as int) =~= want);
    }
}

/// Builds the grid of `grid_lines`.
fn create_grid(size: (u32, u32), offset: (i64, i64), lines: (u64, u64), colour: Rgb, width: u32) -> (r: Vec<GridLine>)
    requires
        0 < lines.0 < u64::MAX,
        0 < lines.1 < u64::MAX,
        offset_in_bounds(offset),
    ensures
        r@ == grid_lines(size, offset, lines, colour, width),
{
    let mut out: Vec<GridLine> = Vec::new();
    push_axis_lines(&mut out, size, offset, lines.0, true, colour, width);
    push_axis_lines(&mut out, size, offset, lines.1, false, colour, width);
    proof {
        assert(out@ =~= grid_lines(size, offset, lines, colour, width));
    }
    out
}

/// Why a chart could not be composed.
#[derive(Debug, Clone, Copy, PartialEq, Eq, Structural)]
pub enum ChartError {
    /// A stroke width is negative.
    NegativeStrokeWidth,
    /// A grid has no divisions along some axis.
    ZeroGridDensity,
    /// Series are registered but their values span nothing along some axis.
    EmptyRange,
}

/// A rectangle in device coordinates, filled or outlined.
#[derive(Debug, Clone, Copy, PartialEq, Eq, Structural)]
pub struct Rect {
    pub x: i64,
    pub y: i64,
    pub width: u32,
    pub height: u32,
    pub fill: Option<Rgb>,
    pub stroke: Option<Rgb>,
    pub stroke_width: u32,
}

/// A point in device coordinates.
#[derive(Debug, Clone, Copy, PartialEq, Eq, Structural)]
pub struct Point {
    pub x: i128,
    pub y: i128,
}

/// How a series is drawn: memory as a connected line, requests as separate points.
#[derive(Debug, Clone, Copy, PartialEq, Eq, Structural)]
pub enum Mark {
    Polyline,
    Scatter,
}

/// The geometry one registered series contributes to the scene.
#[derive(Debug, Clone)]
pub struct SeriesShape {
    pub name: String,
    pub mark: Mark,
    pub colour: Rgb,
    pub points: Vec<Point>,
}

/// What a series shape holds.
pub struct SeriesView {
    pub name: Seq<char>,
    pub mark: Mark,
    pub colour: Rgb,
    pub points: Seq<Point>,
}

impl View for SeriesShape {
    type V = SeriesView;

    open spec fn view(&self) -> SeriesView {
        SeriesView { name: self.name@, mark: self.mark, colour: self.colour, points: self.points@ }
    }
}

/// The composed chart, layer by layer from back to front: background, minor grid, major grid,
/// plot border, then the series in registry order.
#[derive(Debug)]
pub struct Scene {
    pub view_box: (u32, u32),
    pub background: Rect,
    pub minor_grid: Vec<GridLine>,
    pub major_grid: Vec<GridLine>,
    pub border: Rect,
    pub series: Vec<SeriesShape>,
}

/// What a scene holds.
pub struct SceneView {
    pub view_box: (u32, u32),
    pub background: Rect,
    pub minor_grid: Seq<GridLine>,
    pub major_grid: Seq<GridLine>,
    pub border: Rect,
    pub series: Seq<SeriesView>,
}

/// What each of a sequence of series shapes holds.
pub open spec fn shape_views(s: Seq<SeriesShape>) -> Seq<SeriesView> {
    Seq::new(s.len(), |i: int| s[i]@)
}

impl View for Scene {
    type V = SceneView;

    open spec fn view(&self) -> SceneView {
        SceneView {
            view_box: self.view_box,
            background: self.background,
            minor_grid: self.minor_grid@,
            major_grid: self.major_grid@,
            border: self.border,
            series: shape_views(self.series@),
        }
    }
}

/// The title, unit and range of one chart axis.
#[derive(Debug)]
pub struct AxisInfo {
    pub title: String,
    pub unit: String,
    pub range: (i128, i128),
}

/// The raw `(x, y)` values a series plots: memory as (time, kilobytes), requests as (start,
/// duration).
pub open spec fn series_points(d: BenchMarkData) -> Seq<(i64, i64)> {
    match d {
        BenchMarkData::Memory(m) => Seq::new(m@.len(), |i: int| (m@[i].timestamp, m@[i].kb)),
        BenchMarkData::Request(r) => Seq::new(r@.len(), |i: int| (r@[i].start_timestamp, r@[i].duration)),
    }
}

/// The fold of the y values of `pts` from `(0, 0)`.
pub open spec fn value_range(pts: Seq<(i64, i64)>) -> (int, int)
    decreases pts.len(),
{
    if pts.len() == 0 {
        (0, 0)
    } else {
        let prev = value_range(pts.drop_last());
        let y = pts.last().1 as int;
        (if y < prev.0 { y } else { prev.0 }, if y > prev.1 { y } else { prev.1 })
    }
}

/// The fold of the value ranges of all of `ds` from `(0, 0)`.
pub open spec fn combined_values(ds: Seq<BenchMarkData>) -> (int, int)
    decreases ds.len(),
{
    if ds.len() == 0 {
        (0, 0)
    } else {
        let prev = combined_values(ds.drop_last());
        let last = value_range(series_points(ds.last()));
        (if last.0 < prev.0 { last.0 } else { prev.0 }, if last.1 > prev.1 { last.1 } else { prev.1 })
    }
}

/// The affine map of `v` from the range `[lo, hi]` onto `size` device units from `offset`,
/// rounded down: `offset + (v - lo) * size / (hi - lo)`.
pub open spec fn map_coord(v: int, lo: int, hi: int, offset: int, size: int) -> int {
    offset + ((v - lo) * size) / (hi - lo)
}

/// Each raw point of a series mapped onto the plot area.
pub open spec fn mapped_points(
    pts: Seq<(i64, i64)>,
    xr: (int, int),
    yr: (int, int),
    offset: (i64, i64),
    size: (u32, u32),
) -> Seq<Point> {
    Seq::new(
        pts.len(),
        |i: int|
            Point {
                x: map_coord(pts[i].0 as int, xr.0, xr.1, offset.0 as int, size.0 as int) as i128,
                y: map_coord(pts[i].1 as int, yr.0, yr.1, offset.1 as int, size.1 as int) as i128,
            },
    )
}

proof fn lemma_value_range_covers(pts: Seq<(i64, i64)>)
    ensures
        forall|i: int| 0 <= i < pts.len() ==> value_range(pts).0 <= #[trigger] pts[i].1 <= value_range(pts).1,
        i64::MIN <= value_range(pts).0 <= 0 <= value_range(pts).1 <= i64::MAX,
    decreases pts.len(),
{
    if pts.len() > 0 {
        let prev = pts.drop_last();
        lemma_value_range_covers(prev);
        assert forall|i: int| 0 <= i < pts.len() implies value_range(pts).0 <= #[trigger] pts[i].1
            <= value_range(pts).1 by {
            if i < pts.len() - 1 {
                assert(pts[i] == prev[i]);
            }
        }
    }
}

proof fn lemma_combined_values_covers(ds: Seq<BenchMarkData>)
    ensures
        forall|i: int, j: int|
            0 <= i < ds.len() && 0 <= j < series_points(ds[i]).len() ==> combined_values(ds).0
                <= #[trigger] series_points(ds[i])[j].1 <= combined_values(ds).1,
        i64::MIN <= combined_values(ds).0 <= 0 <= combined_values(ds).1 <= i64::MAX,
    decreases ds.len(),
{
    if ds.len() > 0 {
        let prev = ds.drop_last();
        lemma_combined_values_covers(prev);
        lemma_value_range_covers(series_points(ds.last()));
        assert forall|i: int, j: int|
            0 <= i < ds.len() && 0 <= j < series_points(ds[i]).len() implies combined_values(ds).0
                <= #[trigger] series_points(ds[i])[j].1 <= combined_values(ds).1 by {
            if i < ds.len() - 1 {
                assert(ds[i] == prev[i]);
            }
        }
    }
}

proof fn lemma_points_within_time_range(d: BenchMarkData)
    ensures
        forall|j: int| 0 <= j < series_points(d).len() ==> d.range_spec().0 <= #[trigger] series_points(d)[j].0,
{
    match d {
        BenchMarkData::Memory(m) => {
            if m@.len() > 0 {
                lemma_memory_range_covers(m@);
            }
            assert forall|j: int| 0 <= j < series_points(d).len() implies d.range_spec().0
                <= #[trigger] series_points(d)[j].0 by {
                assert(series_points(d)[j].0 == m@[j].timestamp);
            }
        },
        BenchMarkData::Request(r) => {
            if r@.len() > 0 {
                lemma_request_range_covers(r@);
            }
            assert forall|j: int| 0 <= j < series_points(d).len() implies d.range_spec().0
                <= #[trigger] series_points(d)[j].0 by {
                assert(series_points(d)[j].0 == r@[j].start_timestamp);
            }
        },
    }
}

/// The raw points of a series.
fn raw_points(d: &BenchMarkData) -> (r: Vec<(i64, i64)>)
    ensures
        r@ == series_points(*d),
{
    let mut out: Vec<(i64, i64)> = Vec::new();
    match d {
        BenchMarkData::Memory(m) => {
            let s: &Vec<MemoryTimeStamp> = m.samples();
            let mut i: usize = 0;
            while i < s.len()
                invariant
                    i <= s@.len(),
                    out@ =~= Seq::new(i as nat, |k: int| (s@[k].timestamp, s@[k].kb)),
                decreases s@.len() - i,
            {
                out.push((s[i].timestamp, s[i].kb));
                i = i + 1;
            }
            proof {
                assert(out@ =~= series_points(*d));
            }
        },
        BenchMarkData::Request(r) => {
            let s: &Vec<RequestTimeStamp> = r.samples();
            let mut i: usize = 0;
            while i < s.len()
                invariant
                    i <= s@.len(),
                    out@ =~= Seq::new(i as nat, |k: int| (s@[k].start_timestamp, s@[k].duration)),
                decreases s@.len() - i,
            {
                out.push((s[i].start_timestamp, s[i].duration));
                i = i + 1;
            }
            proof {
                assert(out@ =~= series_points(*d));
            }
        },
    }
    out
}

/// The fold of the y values of several series, from `(0, 0)`.
fn get_value_range(series: &Vec<BenchMarkData>) -> (r: (i128, i128))
    ensures
        (r.0 as int, r.1 as int) == combined_values(series@),
{
    let mut lo: i128 = 0;
    let mut hi: i128 = 0;
    let mut i: usize = 0;
    while i < series.len()
        invariant
            i <= series@.len(),
            (lo as int, hi as int) == combined_values(series@.take(i as int)),
            i64::MIN <= lo <= 0 <= hi <= i64::MAX,
        decreases series@.len() - i,
    {
        let pts = raw_points(&series[i]);
        proof {
            assert(series@.take(i as int + 1).drop_last() =~= series@.take(i as int));
            lemma_combined_values_covers(series@.take(i as int + 1));
        }
        let mut plo: i128 = 0;
        let mut phi: i128 = 0;
        let mut j: usize = 0;
        while j < pts.len()
            invariant
                j <= pts@.len(),
                (plo as int, phi as int) == value_range(pts@.take(j as int)),
                i64::MIN <= plo <= 0 <= phi <= i64::MAX,
            decreases pts@.len() - j,
        {
            proof {
                assert(pts@.take(j as int + 1).drop_last() =~= pts@.take(j as int));
            }
            let y = pts[j].1 as i128;
            if y < plo {
                plo = y;
            }
            if y > phi {
                phi = y;
            }
            j = j + 1;
        }
        proof {
            assert(pts@.take(pts@.len() as int) =~= pts@);
        }
        if plo < lo {
            lo = plo;
        }
        if phi > hi {
            hi = phi;
        }
        i = i + 1;
    }
    proof {
        assert(series@.take(series@.len() as int) =~= series@);
    }
    (lo, hi)
}

/// Maps raw points onto the plot area with the shared ranges.
fn map_points(
    pts: &Vec<(i64, i64)>,
    xr: (i128, i128),
    yr: (i128, i128),
    offset: (i64, i64),
    size: (u32, u32),
) -> (r: Vec<Point>)
    requires
        i64::MIN <= xr.0 < xr.1 <= 2 * i64::MAX,
        i64::MIN <= yr.0 < yr.1 <= 2 * i64::MAX,
        offset_in_bounds(offset),
        forall|j: int| 0 <= j < pts@.len() ==> xr.0 <= #[trigger] pts@[j].0,
        forall|j: int| 0 <= j < pts@.len() ==> yr.0 <= #[trigger] pts@[j].1,
    ensures
        r@ == mapped_points(pts@, (xr.0 as int, xr.1 as int), (yr.0 as int, yr.1 as int), offset, size),
{
    let mut out: Vec<Point> = Vec::new();
    let mut i: usize = 0;
    while i < pts.len()
        invariant
            i <= pts@.len(),
            i64::MIN <= xr.0 < xr.1 <= 2 * i64::MAX,
            i64::MIN <= yr.0 < yr.1 <= 2 * i64::MAX,
            offset_in_bounds(offset),
            forall|j: int| 0 <= j < pts@.len() ==> xr.0 <= #[trigger] pts@[j].0,
            forall|j: int| 0 <= j < pts@.len() ==> yr.0 <= #[trigger] pts@[j].1,
            out@ =~= mapped_points(pts@, (xr.0 as int, xr.1 as int), (yr.0 as int, yr.1 as int), offset, size).take(i as int),
        decreases pts@.len() - i,
    {
        let (x, y) = pts[i];
        let x = map_one(x, xr, offset.0, size.0);
        let y = map_one(y, yr, offset.1, size.1);
        out.push(Point { x, y });
        i = i + 1;
    }
    out
}

/// One coordinate of `map_coord`.
fn map_one(v: i64, range: (i128, i128), offset: i64, size: u32) -> (r: i128)
    requires
        i64::MIN <= range.0 <= v,
        range.0 < range.1 <= 2 * i64::MAX,
        -0x1_0000_0000 <= offset <= 0x1_0000_0000,
    ensures
        r as int == map_coord(v as int, range.0 as int, range.1 as int, offset as int, size as int),
{
    let diff: u128 = (v as i128 - range.0) as u128;
    let span: u128 = (range.1 - range.0) as u128;
    proof {
        assert(diff * (size as u128) <= 0x1_0000_0000_0000_0000 * 0x1_0000_0000) by (nonlinear_arith)
            requires
                diff <= 0x1_0000_0000_0000_0000,
                size <= 0x1_0000_0000,
        ;
        assert((diff as int) * (size as int) / (span as int) <= (diff as int) * (size as int)) by (nonlinear_arith)
            requires
                span >= 1,
                diff >= 0,
                size >= 0,
        ;
    }
    let scaled: u128 = diff * (size as u128) / span;
    offset as i128 + scaled as i128
}

/// What a chart configuration holds.
pub struct ConfigView {
    pub svg_size: (u32, u32),
    pub graph_size: (u32, u32),
    pub palette: ColourPalette,
    pub major: (u32, u32),
    pub minor: Option<(u32, u32)>,
    pub minor_width: i32,
    pub major_width: i32,
    pub border_width: i32,
    pub left_axis: Option<AxisInfo>,
    pub right_axis: Option<AxisInfo>,
    pub bottom_axis: Option<AxisInfo>,
    pub top_axis: Option<AxisInfo>,
    pub names: Seq<Seq<char>>,
    pub series: Seq<BenchMarkData>,
    pub colours: Seq<Rgb>,
}

/// A chart configuration, built by chained calls that each return the updated value, then
/// composed once into a `Scene`. Series are drawn in the order they were first registered.
pub struct GraphBuilder {
    svg_size: (u32, u32),
    graph_size: (u32, u32),
    palette: ColourPalette,
    major: (u32, u32),
    minor: Option<(u32, u32)>,
    minor_width: i32,
    major_width: i32,
    border_width: i32,
    left_axis: Option<AxisInfo>,
    right_axis: Option<AxisInfo>,
    bottom_axis: Option<AxisInfo>,
    top_axis: Option<AxisInfo>,
    names: Vec<String>,
    series: Vec<BenchMarkData>,
    colours: Vec<Rgb>,
}

impl View for GraphBuilder {
    type V = ConfigView;

    closed spec fn view(&self) -> ConfigView {
        ConfigView {
            svg_size: self.svg_size,
            graph_size: self.graph_size,
            palette: self.palette,
            major: self.major,
            minor: self.minor,
            minor_width: self.minor_width,
            major_width: self.major_width,
            border_width: self.border_width,
            left_axis: self.left_axis,
            right_axis: self.right_axis,
            bottom_axis: self.bottom_axis,
            top_axis: self.top_axis,
            names: self.names@.map_values(|n: String| n@),
            series: self.series@,
            colours: self.colours@,
        }
    }
}

/// The registry holds one series and one colour per name, and no name twice.
pub open spec fn registry_wf(c: ConfigView) -> bool {
    &&& c.series.len() == c.names.len()
    &&& c.colours.len() == c.names.len()
    &&& forall|i: int, j: int| 0 <= i < j < c.names.len() ==> c.names[i] != c.names[j]
}

/// The configuration a new builder starts from: an 800 x 400 surface with a 720 x 360 plot
/// area, the default palette, a 1 x 1 major grid, no minor grid, stroke widths 1 (minor),
/// 3 (major) and 5 (border), no axes and no series.
pub open spec fn default_config() -> ConfigView {
    ConfigView {
        svg_size: (800, 400),
        graph_size: (720, 360),
        palette: default_palette(),
        major: (1, 1),
        minor: None,
        minor_width: 1,
        major_width: 3,
        border_width: 5,
        left_axis: None,
        right_axis: None,
        bottom_axis: None,
        top_axis: None,
        names: seq![],
        series: seq![],
        colours: seq![],
    }
}

/// The minor grid setting chosen by `input`: `(0, 0)` turns it off.
pub open spec fn minor_setting(input: (u32, u32)) -> Option<(u32, u32)> {
    if input == (0u32, 0u32) {
        None
    } else {
        Some(input)
    }
}

/// The configuration after registering `data` under `name`: a name already present keeps its
/// place and takes the new series and colour; a new name goes last.
pub open spec fn registered(c: ConfigView, name: Seq<char>, data: BenchMarkData, colour: Rgb) -> ConfigView {
    if exists|i: int| 0 <= i < c.names.len() && c.names[i] == name {
        let i = choose|i: int| 0 <= i < c.names.len() && c.names[i] == name;
        ConfigView { series: c.series.update(i, data), colours: c.colours.update(i, colour), ..c }
    } else {
        ConfigView {
            names: c.names.push(name),
            series: c.series.push(data),
            colours: c.colours.push(colour),
            ..c
        }
    }
}

/// Half the margin between a surface extent and a plot extent, rounded toward zero: it centres
/// the plot area on the surface.
pub open spec fn margin(surface: u32, plot: u32) -> int {
    if surface >= plot {
        (surface - plot) / 2
    } else {
        -((plot - surface) / 2)
    }
}

/// Where the plot area's top-left corner lies on the surface.
pub open spec fn plot_offset(c: ConfigView) -> (i64, i64) {
    (margin(c.svg_size.0, c.graph_size.0) as i64, margin(c.svg_size.1, c.graph_size.1) as i64)
}

/// A grid density with no division along some axis.
pub open spec fn no_division(d: (u32, u32)) -> bool {
    d.0 == 0 || d.1 == 0
}

/// What, if anything, keeps `c` from being composed; the first failing check wins.
pub open spec fn config_error(c: ConfigView) -> Option<ChartError> {
    if c.minor_width < 0 || c.major_width < 0 || c.border_width < 0 {
        Some(ChartError::NegativeStrokeWidth)
    } else if no_division(c.major) || match c.minor {
        Some(m) => no_division(m),
        None => false,
    } {
        Some(ChartError::ZeroGridDensity)
    } else if c.series.len() > 0 && (combined_range(c.series).0 == combined_range(c.series).1
        || combined_values(c.series).0 == combined_values(c.series).1) {
        Some(ChartError::EmptyRange)
    } else {
        None
    }
}

/// The mark each kind of series is drawn with.
pub open spec fn mark_of(d: BenchMarkData) -> Mark {
    match d {
        BenchMarkData::Memory(_) => Mark::Polyline,
        BenchMarkData::Request(_) => Mark::Scatter,
    }
}

/// The `i`-th registered series, mapped with the ranges shared by all series.
pub open spec fn series_view(c: ConfigView, i: int) -> SeriesView {
    SeriesView {
        name: c.names[i],
        mark: mark_of(c.series[i]),
        colour: c.colours[i],
        points: mapped_points(
            series_points(c.series[i]),
            combined_range(c.series),
            combined_values(c.series),
            plot_offset(c),
            c.graph_size,
        ),
    }
}

/// The minor grid of `c`: `major * minor` divisions along each axis, or nothing.
pub open spec fn minor_grid_of(c: ConfigView) -> Seq<GridLine> {
    match c.minor {
        Some(m) => grid_lines(
            c.graph_size,
            plot_offset(c),
            ((c.major.0 * m.0) as u64, (c.major.1 * m.1) as u64),
            c.palette.minor_line,
            c.minor_width as u32,
        ),
        None => seq![],
    }
}

/// The scene that composing `c` produces.
pub open spec fn scene_of(c: ConfigView) -> SceneView {
    let off = plot_offset(c);
    SceneView {
        view_box: c.svg_size,
        background: Rect {
            x: 0,
            y: 0,
            width: c.svg_size.0,
            height: c.svg_size.1,
            fill: Some(c.palette.background),
            stroke: None,
            stroke_width: 0,
        },
        minor_grid: minor_grid_of(c),
        major_grid: grid_lines(
            c.graph_size,
            off,
            (c.major.0 as u64, c.major.1 as u64),
            c.palette.major_line,
            c.major_width as u32,
        ),
        border: Rect {
            x: off.0,
            y: off.1,
            width: c.graph_size.0,
            height: c.graph_size.1,
            fill: None,
            stroke: Some(c.palette.major_line),
            stroke_width: c.border_width as u32,
        },
        series: Seq::new(c.series.len(), |i: int| series_view(c, i)),
    }
}

/// What composing `c` gives: the scene, or the first configuration error.
pub open spec fn compose_result(c: ConfigView) -> Result<SceneView, ChartError> {
    match config_error(c) {
        Some(e) => Err(e),
        None => Ok(scene_of(c)),
    }
}

fn margin_of(surface: u32, plot: u32) -> (r: i64)
    ensures
        r as int == margin(surface, plot),
        -0x1_0000_0000 <= r <= 0x1_0000_0000,
{
    if surface >= plot {
        ((surface - plot) / 2) as i64
    } else {
        -(((plot - surface) / 2) as i64)
    }
}

impl Default for GraphBuilder {
    fn default() -> (r: Self)
        ensures
            r@ == default_config(),
            registry_wf(r@),
    {
        let r = GraphBuilder {
            svg_size: (800, 400),
            graph_size: (720, 360),
            palette: ColourPalette::default(),
            major: (1, 1),
            minor: None,
            minor_width: 1,
            major_width: 3,
            border_width: 5,
            left_axis: None,
            right_axis: None,
            bottom_axis: None,
            top_axis: None,
            names: Vec::new(),
            series: Vec::new(),
            colours: Vec::new(),
        };
        proof {
            assert(r@.names =~= Seq::<Seq<char>>::empty());
            assert(r@ == default_config());
        }
        r
    }
}

impl GraphBuilder {
    /// The size of the whole drawing surface.
    pub fn svg_size(self, input: (u32, u32)) -> (r: Self)
        requires
            registry_wf(self@),
        ensures
            r@ == (ConfigView { svg_size: input, ..self@ }),
            registry_wf(r@),
    {
        let mut b = self;
        b.svg_size = input;
        b
    }

    /// The size of the plot area, centred on the surface.
    pub fn graph_size(self, input: (u32, u32)) -> (r: Self)
        requires
            registry_wf(self@),
        ensures
            r@ == (ConfigView { graph_size: input, ..self@ }),
            registry_wf(r@),
    {
        let mut b = self;
        b.graph_size = input;
        b
    }

    /// The colours of the chart.
    pub fn palette(self, input: ColourPalette) -> (r: Self)
        requires
            registry_wf(self@),
        ensures
            r@ == (ConfigView { palette: input, ..self@ }),
            registry_wf(r@),
    {
        let mut b = self;
        b.palette = input;
        b
    }

    /// The major grid's columns and rows.
    pub fn major(self, input: (u32, u32)) -> (r: Self)
        requires
            registry_wf(self@),
        ensures
            r@ == (ConfigView { major: input, ..self@ }),
            registry_wf(r@),
    {
        let mut b = self;
        b.major = input;
        b
    }

    /// The minor grid's subdivisions of each major cell, as columns and rows; `(0, 0)` turns the
    /// minor grid off.
    pub fn minor(self, input: (u32, u32)) -> (r: Self)
        requires
            registry_wf(self@),
        ensures
            r@ == (ConfigView { minor: minor_setting(input), ..self@ }),
            registry_wf(r@),
    {
        let mut b = self;
        b.minor = if input.0 == 0 && input.1 == 0 {
            None
        } else {
            Some(input)
        };
        b
    }

    /// Turns the minor grid off.
    pub fn without_minor(self) -> (r: Self)
        requires
            registry_wf(self@),
        ensures
            r@ == (ConfigView { minor: None, ..self@ }),
            registry_wf(r@),
    {
        let mut b = self;
        b.minor = None;
        b
    }

    /// The stroke width of the minor grid's lines.
    pub fn minor_width(self, input: i32) -> (r: Self)
        requires
            registry_wf(self@),
        ensures
            r@ == (ConfigView { minor_width: input, ..self@ }),
            registry_wf(r@),
    {
        let mut b = self;
        b.minor_width = input;
        b
    }

    /// The stroke width of the major grid's lines.
    pub fn major_width(self, input: i32) -> (r: Self)
        requires
            registry_wf(self@),
        ensures
            r@ == (ConfigView { major_width: input, ..self@ }),
            registry_wf(r@),
    {
        let mut b = self;
        b.major_width = input;
        b
    }

    /// The stroke width of the plot area's border.
    pub fn border_width(self, input: i32) -> (r: Self)
        requires
            registry_wf(self@),
        ensures
            r@ == (ConfigView { border_width: input, ..self@ }),
            registry_wf(r@),
    {
        let mut b = self;
        b.border_width = input;
        b
    }

    /// The axis on the left side.
    pub fn left_axis(self, input: AxisInfo) -> (r: Self)
        requires
            registry_wf(self@),
        ensures
            r@ == (ConfigView { left_axis: Some(input), ..self@ }),
            registry_wf(r@),
    {
        let mut b = self;
        b.left_axis = Some(input);
        b
    }

    /// The axis on the right side.
    pub fn right_axis(self, input: AxisInfo) -> (r: Self)
        requires
            registry_wf(self@),
        ensures
            r@ == (ConfigView { right_axis: Some(input), ..self@ }),
            registry_wf(r@),
    {
        let mut b = self;
        b.right_axis = Some(input);
        b
    }

    /// The axis along the bottom.
    pub fn bottom_axis(self, input: AxisInfo) -> (r: Self)
        requires
            registry_wf(self@),
        ensures
            r@ == (ConfigView { bottom_axis: Some(input), ..self@ }),
            registry_wf(r@),
    {
        let mut b = self;
        b.bottom_axis = Some(input);
        b
    }

    /// The axis along the top.
    pub fn top_axis(self, input: AxisInfo) -> (r: Self)
        requires
            registry_wf(self@),
        ensures
            r@ == (ConfigView { top_axis: Some(input), ..self@ }),
            registry_wf(r@),
    {
        let mut b = self;
        b.top_axis = Some(input);
        b
    }

    /// Registers a series to draw under `name`, in `colour`. A name already registered keeps
    /// its place and takes the new series.
    pub fn add_drawer(self, name: String, drawer: BenchMarkData, colour: Rgb) -> (r: Self)
        requires
            registry_wf(self@),
        ensures
            r@ == registered(self@, name@, drawer, colour),
            registry_wf(r@),
    {
        let ghost c = self@;
        let mut b = self;
        let mut i: usize = 0;
        let mut found: bool = false;
        while i < b.names.len() && !found
            invariant
                b@ == c,
                registry_wf(c),
                i <= c.names.len(),
                found ==> i < c.names.len() && c.names[i as int] == name@,
                forall|k: int| 0 <= k < i && !(found && k == i) ==> c.names[k] != name@,
            decreases c.names.len() - i + if found { 0int } else { 1int },
        {
            if b.names[i] == name {
                found = true;
            } else {
                i = i + 1;
            }
        }
        if found {
            proof {
                let j = choose|j: int| 0 <= j < c.names.len() && c.names[j] == name@;
                assert(j == i);
            }
            b.series.set(i, drawer);
            b.colours.set(i, colour);
            proof {
                assert(b@.names =~= c.names);
                assert(b@ == registered(c, name@, drawer, colour));
            }
        } else {
            b.names.push(name);
            b.series.push(drawer);
            b.colours.push(colour);
            proof {
                assert(b@.names =~= c.names.push(name@));
                assert(b@ == registered(c, name@, drawer, colour));
            }
        }
        b
    }

    /// The time range shared by all registered series.
    pub fn time_range(&self) -> (r: (i128, i128))
        ensures
            (r.0 as int, r.1 as int) == combined_range(self@.series),
    {
        get_time_range(self.series.as_slice())
    }

    /// The value range shared by all registered series.
    pub fn value_range(&self) -> (r: (i128, i128))
        ensures
            (r.0 as int, r.1 as int) == combined_values(self@.series),
    {
        get_value_range(&self.series)
    }

    /// Lays out the chart: the background over the whole surface, the minor grid if one is set,
    /// the major grid on top of it, the plot border, then every registered series mapped onto
    /// the plot area with the time range and value range that all series share. A negative
    /// stroke width, a grid without divisions, or series whose values span nothing are
    /// reported instead.
    pub fn compose(&self) -> (r: Result<Scene, ChartError>)
        requires
            registry_wf(self@),
        ensures
            match r {
                Ok(scene) => compose_result(self@) == Ok::<SceneView, ChartError>(scene@),
                Err(e) => compose_result(self@) == Err::<SceneView, ChartError>(e),
            },
    {
        let ghost c = self@;
        if self.minor_width < 0 || self.major_width < 0 || self.border_width < 0 {
            return Err(ChartError::NegativeStrokeWidth);
        }
        if self.major.0 == 0 || self.major.1 == 0 {
            return Err(ChartError::ZeroGridDensity);
        }
        let mut minor_lines: Option<(u64, u64)> = None;
        match self.minor {
            Some(m) => {
                if m.0 == 0 || m.1 == 0 {
                    return Err(ChartError::ZeroGridDensity);
                }
                proof {
                    assert(0 < (self.major.0 as int) * (m.0 as int) <= 0xffff_ffff * 0xffff_ffff) by (nonlinear_arith)
                        requires
                            0 < self.major.0 <= 0xffff_ffff,
                            0 < m.0 <= 0xffff_ffff,
                    ;
                    assert(0 < (self.major.1 as int) * (m.1 as int) <= 0xffff_ffff * 0xffff_ffff) by (nonlinear_arith)
                        requires
                            0 < self.major.1 <= 0xffff_ffff,
                            0 < m.1 <= 0xffff_ffff,
                    ;
                }
                minor_lines = Some(((self.major.0 as u64) * (m.0 as u64), (self.major.1 as u64) * (m.1 as u64)));
            },
            None => {},
        }
        let xr = get_time_range(self.series.as_slice());
        let yr = get_value_range(&self.series);
        if self.series.len() > 0 && (xr.0 == xr.1 || yr.0 == yr.1) {
            return Err(ChartError::EmptyRange);
        }
        proof {
            assert(config_error(c) is None);
        }
        let offset: (i64, i64) = (margin_of(self.svg_size.0, self.graph_size.0), margin_of(self.svg_size.1, self.graph_size.1));
        let palette = self.palette;
        let background = Rect {
            x: 0,
            y: 0,
            width: self.svg_size.0,
            height: self.svg_size.1,
            fill: Some(palette.background),
            stroke: None,
            stroke_width: 0,
        };
        let minor_grid: Vec<GridLine> = match minor_lines {
            Some(lines) => create_grid(self.graph_size, offset, lines, palette.minor_line, self.minor_width as u32),
            None => Vec::new(),
        };
        let major_grid = create_grid(
            self.graph_size,
            offset,
            (self.major.0 as u64, self.major.1 as u64),
            palette.major_line,
            self.major_width as u32,
        );
        let border = Rect {
            x: offset.0,
            y: offset.1,
            width: self.graph_size.0,
            height: self.graph_size.1,
            fill: None,
            stroke: Some(palette.major_line),
            stroke_width: self.border_width as u32,
        };
        proof {
            lemma_combined_range_covers(c.series);
            lemma_combined_values_covers(c.series);
        }
        let mut shapes: Vec<SeriesShape> = Vec::new();
        let mut i: usize = 0;
        while i < self.series.len()
            invariant
                c == self@,
                registry_wf(c),
                config_error(c) is None,
                i <= c.series.len(),
                (xr.0 as int, xr.1 as int) == combined_range(c.series),
                (yr.0 as int, yr.1 as int) == combined_values(c.series),
                i64::MIN <= xr.0 <= 0 <= xr.1 <= 2 * i64::MAX,
                i64::MIN <= yr.0 <= 0 <= yr.1 <= i64::MAX,
                offset == plot_offset(c),
                offset_in_bounds(offset),
                forall|k: int|
                    0 <= k < c.series.len() ==> combined_range(c.series).0 <= #[trigger] c.series[k].range_spec().0,
                forall|k: int, j: int|
                    0 <= k < c.series.len() && 0 <= j < series_points(c.series[k]).len() ==> combined_values(c.series).0
                        <= #[trigger] series_points(c.series[k])[j].1,
                shapes@.len() == i,
                shape_views(shapes@) =~= Seq::new(i as nat, |k: int| series_view(c, k)),
            decreases c.series.len() - i,
        {
            let data = &self.series[i];
            let pts = raw_points(data);
            proof {
                lemma_points_within_time_range(*data);
                assert forall|j: int| 0 <= j < pts@.len() implies xr.0 <= #[trigger] pts@[j].0 by {
                    assert(c.series[i as int].range_spec().0 <= series_points(c.series[i as int])[j].0);
                }
                assert forall|j: int| 0 <= j < pts@.len() implies yr.0 <= #[trigger] pts@[j].1 by {
                    assert(combined_values(c.series).0 <= series_points(c.series[i as int])[j].1);
                }
            }
            let points = map_points(&pts, xr, yr, offset, self.graph_size);
            let mark = match data {
                BenchMarkData::Memory(_) => Mark::Polyline,
                BenchMarkData::Request(_) => Mark::Scatter,
            };
            let shape = SeriesShape { name: self.names[i].clone(), mark, colour: self.colours[i], points };
            proof {
                assert(shape@.name == c.names[i as int]);
                assert(shape@.points =~= series_view(c, i as int).points);
                assert(shape@.mark == mark_of(c.series[i as int]));
                assert(shape@ == series_view(c, i as int));
            }
            let ghost before = shapes@;
            shapes.push(shape);
            proof {
                assert(shapes@ == before.push(shape));
                assert forall|k: int| 0 <= k < i + 1 implies #[trigger] shape_views(shapes@)[k] == series_view(c, k) by {
                    if k < i {
                        assert(shapes@[k] == before[k]);
                        assert(shape_views(before)[k] == Seq::new(i as nat, |k: int| series_view(c, k))[k]);
                    }
                }
            }
            i = i + 1;
        }
        let scene = Scene {
            view_box: self.svg_size,
            background,
            minor_grid,
            major_grid,
            border,
            series: shapes,
        };
        proof {
            assert(scene@.series =~= scene_of(c).series);
            assert(scene@.minor_grid =~= scene_of(c).minor_grid);
            assert(scene@ == scene_of(c));
        }
        Ok(scene)
    }
}


/// A grid of `lines.0` columns and `lines.1` rows is `lines.0 + 1` vertical lines followed by
/// `lines.1 + 1` horizontal ones.
pub proof fn lemma_grid_shape(size: (u32, u32), offset: (i64, i64), lines: (u64, u64), colour: Rgb, width: u32)
    ensures
        grid_lines(size, offset, lines, colour, width).len() == (lines.0 + 1) + (lines.1 + 1),
        forall|k: int|
            0 <= k <= lines.0 ==> #[trigger] grid_lines(size, offset, lines, colour, width)[k].x1 == grid_lines(
                size,
                offset,
                lines,
                colour,
                width,
            )[k].x2,
        forall|k: int|
            lines.0 + 1 <= k < (lines.0 + 1) + (lines.1 + 1) ==> #[trigger] grid_lines(
                size,
                offset,
                lines,
                colour,
                width,
            )[k].y1 == grid_lines(size, offset, lines, colour, width)[k].y2,
{
    let v = axis_lines(size, offset, lines.0, true, colour, width);
    let h = axis_lines(size, offset, lines.1, false, colour, width);
    assert forall|k: int| lines.0 + 1 <= k < (lines.0 + 1) + (lines.1 + 1) implies #[trigger] grid_lines(
        size,
        offset,
        lines,
        colour,
        width,
    )[k].y1 == grid_lines(size, offset, lines, colour, width)[k].y2 by {
        assert(grid_lines(size, offset, lines, colour, width)[k] == h[k - (lines.0 + 1)]);
    }
}

/// The composed grids have a fixed number of lines: the major grid `major.0 + 1` vertical and
/// `major.1 + 1` horizontal ones, and a minor grid `major.0 * minor.0 + 1` vertical and
/// `major.1 * minor.1 + 1` horizontal ones, vertical lines first.
pub proof fn lemma_grid_line_counts(c: ConfigView)
    requires
        config_error(c) is None,
    ensures
        scene_of(c).major_grid.len() == (c.major.0 + 1) + (c.major.1 + 1),
        forall|k: int| 0 <= k <= c.major.0 ==> #[trigger] scene_of(c).major_grid[k].x1 == scene_of(c).major_grid[k].x2,
        forall|k: int|
            c.major.0 + 1 <= k < scene_of(c).major_grid.len() ==> #[trigger] scene_of(c).major_grid[k].y1
                == scene_of(c).major_grid[k].y2,
        c.minor is None ==> scene_of(c).minor_grid.len() == 0,
        c.minor is Some ==> {
            let m = c.minor->0;
            let cols = c.major.0 * m.0;
            let rows = c.major.1 * m.1;
            &&& scene_of(c).minor_grid.len() == (cols + 1) + (rows + 1)
            &&& forall|k: int| 0 <= k <= cols ==> #[trigger] scene_of(c).minor_grid[k].x1 == scene_of(c).minor_grid[k].x2
            &&& forall|k: int|
                cols + 1 <= k < scene_of(c).minor_grid.len() ==> #[trigger] scene_of(c).minor_grid[k].y1
                    == scene_of(c).minor_grid[k].y2
        },
{
    let off = plot_offset(c);
    lemma_grid_shape(c.graph_size, off, (c.major.0 as u64, c.major.1 as u64), c.palette.major_line, c.major_width as u32);
    match c.minor {
        Some(m) => {
            assert(0 <= (c.major.0 as int) * (m.0 as int) <= 0xffff_ffff * 0xffff_ffff) by (nonlinear_arith)
                requires
                    c.major.0 <= 0xffff_ffff,
                    m.0 <= 0xffff_ffff,
            ;
            assert(0 <= (c.major.1 as int) * (m.1 as int) <= 0xffff_ffff * 0xffff_ffff) by (nonlinear_arith)
                requires
                    c.major.1 <= 0xffff_ffff,
                    m.1 <= 0xffff_ffff,
            ;
            lemma_grid_shape(
                c.graph_size,
                off,
                ((c.major.0 * m.0) as u64, (c.major.1 * m.1) as u64),
                c.palette.minor_line,
                c.minor_width as u32,
            );
        },
        None => {},
    }
}

/// Setting the minor grid to `(0, 0)` turns it off: the configuration composes exactly as one
/// with no minor grid, and no minor line is drawn.
pub proof fn lemma_minor_sentinel_disables(c: ConfigView)
    ensures
        compose_result(ConfigView { minor: minor_setting((0, 0)), ..c }) == compose_result(
            ConfigView { minor: None, ..c },
        ),
        compose_result(ConfigView { minor: minor_setting((0, 0)), ..c }) is Ok ==> compose_result(
            ConfigView { minor: minor_setting((0, 0)), ..c },
        )->Ok_0.minor_grid.len() == 0,
{
    assert(minor_setting((0, 0)) is None);
}

/// A negative stroke width anywhere makes composing fail with that error, whatever else the
/// configuration holds.
pub proof fn lemma_negative_width_fails(c: ConfigView)
    requires
        c.minor_width < 0 || c.major_width < 0 || c.border_width < 0,
    ensures
        compose_result(c) == Err::<SceneView, ChartError>(ChartError::NegativeStrokeWidth),
{
}

} // verus!
