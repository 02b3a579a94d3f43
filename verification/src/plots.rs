use vstd::prelude::*;

use crate::chart::{
    agrees, groups, lemma_results_coincide, plain_axis, texts, Axis, AxisView, Color, Dash, Data,
    DataView, Layout, LayoutView, LineStyle, Mode, Orientation, PlotSpec, PlotSpecView, Series,
    SeriesKind, SeriesView,
};
use crate::ecdf::{ecdf, ecdf_of, interpolate_ecdf, interpolated};
use crate::error::PlotError;
use crate::fraction::Fraction;
use crate::label::{
    has_member, lemma_counts_cover, lemma_select_len, lemma_select_members, partition,
    partition_model, select, valid_code, DECOY, TARGET,
};
use crate::order::{
    ascending, is_sorted, lemma_ascending_is_sorted_rearrangement, lemma_ascending_members,
};
use crate::pi0::{
    estimate_pi0, fixed3, pi0_label, pi0_label_prefix, pi0_label_text, pi0_of, thousandths,
};

verus! {

/// The number of points of the common grid of a probability-probability
/// plot.
pub const PP_GRID_POINTS: usize = 1000;

/// A series with more points than this asks for high-throughput rendering.
pub const WEB_GL_THRESHOLD: usize = 10000;

/// The size of the markers of a scatter series.
pub const SCATTER_MARKER_SIZE: usize = 10;

/// The rotation of the group names under a box plot, in degrees.
pub const BOX_TICK_ANGLE: i32 = 45;

/// A histogram series over the given values.
pub open spec fn histogram_series(name: Seq<char>, values: Seq<i64>) -> SeriesView {
    SeriesView {
        kind: SeriesKind::Histogram,
        name,
        x: DataView::Scores(values),
        y: None,
        mode: None,
        line: None,
        marker_size: None,
        show_mean: false,
        web_gl: false,
    }
}

/// A layout with a title and two plainly titled axes.
pub open spec fn titled_layout(title: Seq<char>, x_title: Seq<char>, y_title: Seq<char>) -> LayoutView {
    LayoutView {
        title,
        x_axis: plain_axis(x_title),
        y_axis: plain_axis(y_title),
        show_legend: None,
        legend: None,
    }
}

/// What `plot_score_histogram` returns: the errors of the partition, or
/// the histogram of the targets followed by that of the decoys.
pub open spec fn histogram_model(
    scores: Seq<i64>,
    labels: Seq<i32>,
    title: Seq<char>,
    x_title: Seq<char>,
) -> Result<PlotSpecView, PlotError> {
    match partition_model(scores, labels) {
        Err(e) => Err(e),
        Ok((targets, decoys)) => Ok(
            PlotSpecView {
                series: seq![
                    histogram_series("Target"@, targets),
                    histogram_series("Decoy"@, decoys),
                ],
                layout: titled_layout(title, x_title, "Density"@),
            },
        ),
    }
}

/// A scatter series over fractions on both axes.
pub open spec fn fraction_series(
    name: Seq<char>,
    x: DataView,
    y: DataView,
    mode: Mode,
    line: Option<LineStyle>,
) -> SeriesView {
    SeriesView {
        kind: SeriesKind::Scatter,
        name,
        x,
        y: Some(y),
        mode: Some(mode),
        line,
        marker_size: None,
        show_mean: false,
        web_gl: false,
    }
}

/// The two ends of the diagonal: zero and one.
pub open spec fn diagonal_ends() -> Seq<Fraction> {
    seq![Fraction { num: 0, den: 1 }, Fraction { num: 1, den: 1 }]
}

/// The three series of a probability-probability plot, given the two
/// class samples, the grid and the labels.
pub open spec fn pp_series(targets: Seq<i64>, decoys: Seq<i64>, labels: Seq<i32>, grid: Seq<i64>) -> Seq<
    SeriesView,
> {
    let target_curve = interpolated(ecdf_of(targets).x, ecdf_of(targets).y, grid);
    let decoy_curve = interpolated(ecdf_of(decoys).x, ecdf_of(decoys).y, grid);
    let pi0 = pi0_of(labels);
    seq![
        fraction_series(
            "Target vs Decoy ECDF"@,
            DataView::Fractions(decoy_curve),
            DataView::Fractions(target_curve),
            Mode::Markers,
            None,
        ),
        fraction_series(
            "y = x (Perfect match)"@,
            DataView::Fractions(diagonal_ends()),
            DataView::Fractions(diagonal_ends()),
            Mode::Lines,
            Some(LineStyle { color: Color::Red, dash: Dash::Dash }),
        ),
        fraction_series(
            pi0_label_text(pi0),
            DataView::Fractions(decoy_curve),
            DataView::Scaled(pi0, decoy_curve),
            Mode::Lines,
            Some(LineStyle { color: Color::Blue, dash: Dash::Dot }),
        ),
    ]
}

/// The error that stops a probability-probability analysis, if any: a
/// length mismatch first, then an invalid label, then an empty class.
pub open spec fn pp_rejection(scores: Seq<i64>, labels: Seq<i32>) -> Option<PlotError> {
    match partition_model(scores, labels) {
        Err(e) => Some(e),
        Ok((targets, decoys)) => if targets.len() == 0 || decoys.len() == 0 {
            Some(PlotError::EmptySample)
        } else {
            None
        },
    }
}

/// What `plot_pp` returns.
pub open spec fn pp_model(scores: Seq<i64>, labels: Seq<i32>, grid: Seq<i64>, title: Seq<char>) -> Result<
    PlotSpecView,
    PlotError,
> {
    match pp_rejection(scores, labels) {
        Some(e) => Err(e),
        None => Ok(
            PlotSpecView {
                series: pp_series(
                    select(scores, labels, TARGET),
                    select(scores, labels, DECOY),
                    labels,
                    grid,
                ),
                layout: titled_layout(title, "Decoy ECDF"@, "Target ECDF"@),
            },
        ),
    }
}

/// The smaller of two scores.
pub open spec fn lesser(a: i64, b: i64) -> i64 {
    if a <= b {
        a
    } else {
        b
    }
}

/// The larger of two scores.
pub open spec fn greater(a: i64, b: i64) -> i64 {
    if a >= b {
        a
    } else {
        b
    }
}

/// What `pp_grid_bounds` returns: the smaller of the two class minima and
/// the larger of the two class maxima.
pub open spec fn grid_bounds_model(scores: Seq<i64>, labels: Seq<i32>) -> Result<(i64, i64), PlotError> {
    match pp_rejection(scores, labels) {
        Some(e) => Err(e),
        None => {
            let targets = ascending(select(scores, labels, TARGET));
            let decoys = ascending(select(scores, labels, DECOY));
            Ok((lesser(targets[0], decoys[0]), greater(targets.last(), decoys.last())))
        },
    }
}

/// A box series for one group: every point carries the group's name.
pub open spec fn box_series(name: Seq<char>, values: Seq<i64>) -> SeriesView {
    SeriesView {
        kind: SeriesKind::Box,
        name,
        x: DataView::Categories(Seq::new(values.len(), |i: int| name)),
        y: Some(DataView::Scores(values)),
        mode: None,
        line: None,
        marker_size: None,
        show_mean: true,
        web_gl: false,
    }
}

/// The layout of a box plot: no legend, group names rotated.
pub open spec fn box_layout(title: Seq<char>, x_title: Seq<char>, y_title: Seq<char>) -> LayoutView {
    LayoutView {
        title,
        x_axis: AxisView { title: x_title, tick_angle: Some(BOX_TICK_ANGLE) },
        y_axis: plain_axis(y_title),
        show_legend: Some(false),
        legend: None,
    }
}

/// What `plot_boxplot` returns.
pub open spec fn boxplot_model(
    scores: Seq<Seq<i64>>,
    names: Seq<Seq<char>>,
    title: Seq<char>,
    x_title: Seq<char>,
    y_title: Seq<char>,
) -> Result<PlotSpecView, PlotError> {
    if scores.len() != names.len() {
        Err(PlotError::LengthMismatch)
    } else {
        Ok(
            PlotSpecView {
                series: Seq::new(scores.len(), |i: int| box_series(names[i], scores[i])),
                layout: box_layout(title, x_title, y_title),
            },
        )
    }
}

/// A marker series of scores against scores.
pub open spec fn scatter_series(name: Seq<char>, x: Seq<i64>, y: Seq<i64>, web_gl: bool) -> SeriesView {
    SeriesView {
        kind: SeriesKind::Scatter,
        name,
        x: DataView::Scores(x),
        y: Some(DataView::Scores(y)),
        mode: Some(Mode::Markers),
        line: None,
        marker_size: Some(SCATTER_MARKER_SIZE),
        show_mean: false,
        web_gl,
    }
}

/// The rendering policy of a scatter plot: high throughput exactly when
/// the first series has more points than the threshold.
pub open spec fn wants_web_gl(x: Seq<Seq<i64>>) -> bool {
    x.len() > 0 && x[0].len() > WEB_GL_THRESHOLD
}

/// The layout of a scatter plot: a vertical legend.
pub open spec fn scatter_layout(title: Seq<char>, x_title: Seq<char>, y_title: Seq<char>) -> LayoutView {
    LayoutView {
        title,
        x_axis: plain_axis(x_title),
        y_axis: plain_axis(y_title),
        show_legend: None,
        legend: Some(Orientation::Vertical),
    }
}

/// What `plot_scatter` returns.
pub open spec fn scatter_model(
    x: Seq<Seq<i64>>,
    y: Seq<Seq<i64>>,
    names: Seq<Seq<char>>,
    title: Seq<char>,
    x_title: Seq<char>,
    y_title: Seq<char>,
) -> Result<PlotSpecView, PlotError> {
    if x.len() != y.len() || names.len() != x.len() {
        Err(PlotError::LengthMismatch)
    } else {
        Ok(
            PlotSpecView {
                series: Seq::new(
                    x.len(),
                    |i: int| scatter_series(names[i], x[i], y[i], wants_web_gl(x)),
                ),
                layout: scatter_layout(title, x_title, y_title),
            },
        )
    }
}

/// Whatever valid input a probability-probability plot is built from, it
/// has exactly three series; the second runs from (0, 0) to (1, 1); the
/// third is named by the fixed words followed by the estimated null
/// proportion with exactly three decimals; and the first and third hold
/// one point for each point of the grid.
pub proof fn lemma_pp_plot_shape(scores: Seq<i64>, labels: Seq<i32>, grid: Seq<i64>, title: Seq<char>)
    requires
        pp_rejection(scores, labels) is None,
    ensures
        pp_model(scores, labels, grid, title) is Ok,
        pp_model(scores, labels, grid, title)->Ok_0.series.len() == 3,
        pp_model(scores, labels, grid, title)->Ok_0.series[1].x == DataView::Fractions(
            diagonal_ends(),
        ),
        pp_model(scores, labels, grid, title)->Ok_0.series[1].y == Some(
            DataView::Fractions(diagonal_ends()),
        ),
        diagonal_ends().len() == 2,
        diagonal_ends()[0].is_zero(),
        diagonal_ends()[1].is_one(),
        pp_model(scores, labels, grid, title)->Ok_0.series[2].name == pi0_label_prefix() + fixed3(
            thousandths(pi0_of(labels)),
        ),
        pp_model(scores, labels, grid, title)->Ok_0.series[0].x
            == pp_model(scores, labels, grid, title)->Ok_0.series[2].x,
        pp_model(scores, labels, grid, title)->Ok_0.series[0].x->Fractions_0.len() == grid.len(),
        pp_model(scores, labels, grid, title)->Ok_0.series[0].y->Some_0->Fractions_0.len()
            == grid.len(),
        pp_model(scores, labels, grid, title)->Ok_0.series[2].y->Some_0->Scaled_1.len()
            == grid.len(),
        pp_model(scores, labels, grid, title)->Ok_0.layout.x_axis.title == "Decoy ECDF"@,
        pp_model(scores, labels, grid, title)->Ok_0.layout.y_axis.title == "Target ECDF"@,
{
}

/// The bounds of the grid enclose every score of the data set, and each
/// bound is itself one of the scores.
pub proof fn lemma_grid_bounds_enclose(scores: Seq<i64>, labels: Seq<i32>)
    requires
        pp_rejection(scores, labels) is None,
    ensures
        grid_bounds_model(scores, labels) is Ok,
        forall|i: int|
            0 <= i < scores.len() ==> grid_bounds_model(scores, labels)->Ok_0.0 <= #[trigger] scores[i]
                <= grid_bounds_model(scores, labels)->Ok_0.1,
        scores.contains(grid_bounds_model(scores, labels)->Ok_0.0),
        scores.contains(grid_bounds_model(scores, labels)->Ok_0.1),
{
    let targets = select(scores, labels, TARGET);
    let decoys = select(scores, labels, DECOY);
    let sorted_targets = ascending(targets);
    let sorted_decoys = ascending(decoys);
    let lo = grid_bounds_model(scores, labels)->Ok_0.0;
    let hi = grid_bounds_model(scores, labels)->Ok_0.1;
    lemma_select_members(scores, labels, TARGET);
    lemma_select_members(scores, labels, DECOY);
    lemma_ascending_members(targets);
    lemma_ascending_members(decoys);
    lemma_ascending_is_sorted_rearrangement(targets);
    lemma_ascending_is_sorted_rearrangement(decoys);
    assert forall|i: int| 0 <= i < scores.len() implies lo <= #[trigger] scores[i] <= hi by {
        assert(valid_code(labels[i]));
        if labels[i] == TARGET {
            assert(has_member(scores, labels, TARGET, scores[i]));
            assert(targets.contains(scores[i]));
            let k = choose|k: int| 0 <= k < targets.len() && targets[k] == scores[i];
            assert(sorted_targets[0] <= targets[k] <= sorted_targets.last());
        } else {
            assert(has_member(scores, labels, DECOY, scores[i]));
            assert(decoys.contains(scores[i]));
            let k = choose|k: int| 0 <= k < decoys.len() && decoys[k] == scores[i];
            assert(sorted_decoys[0] <= decoys[k] <= sorted_decoys.last());
        }
    }
    assert(scores.contains(lo)) by {
        if lo == sorted_targets[0] {
            assert(sorted_targets.contains(sorted_targets[0]));
            assert(has_member(scores, labels, TARGET, lo));
        } else {
            assert(sorted_decoys.contains(sorted_decoys[0]));
            assert(has_member(scores, labels, DECOY, lo));
        }
    }
    assert(scores.contains(hi)) by {
        if hi == sorted_targets.last() {
            assert(sorted_targets.contains(sorted_targets[sorted_targets.len() - 1]));
            assert(has_member(scores, labels, TARGET, hi));
        } else {
            assert(sorted_decoys.contains(sorted_decoys[sorted_decoys.len() - 1]));
            assert(has_member(scores, labels, DECOY, hi));
        }
    }
}

/// Two histograms built from the same input are the same.
pub proof fn lemma_histogram_idempotent(
    scores: Seq<i64>,
    labels: Seq<i32>,
    title: Seq<char>,
    x_title: Seq<char>,
    first: Result<PlotSpec, PlotError>,
    second: Result<PlotSpec, PlotError>,
)
    requires
        agrees(first, histogram_model(scores, labels, title, x_title)),
        agrees(second, histogram_model(scores, labels, title, x_title)),
    ensures
        first is Ok <==> second is Ok,
        first is Ok ==> first->Ok_0@ == second->Ok_0@,
        first is Err ==> first->Err_0 == second->Err_0,
{
    lemma_results_coincide(first, second, histogram_model(scores, labels, title, x_title));
}

/// Two probability-probability plots built from the same input are the
/// same.
pub proof fn lemma_pp_idempotent(
    scores: Seq<i64>,
    labels: Seq<i32>,
    grid: Seq<i64>,
    title: Seq<char>,
    first: Result<PlotSpec, PlotError>,
    second: Result<PlotSpec, PlotError>,
)
    requires
        agrees(first, pp_model(scores, labels, grid, title)),
        agrees(second, pp_model(scores, labels, grid, title)),
    ensures
        first is Ok <==> second is Ok,
        first is Ok ==> first->Ok_0@ == second->Ok_0@,
        first is Err ==> first->Err_0 == second->Err_0,
{
    lemma_results_coincide(first, second, pp_model(scores, labels, grid, title));
}

/// Two box plots built from the same input are the same.
pub proof fn lemma_boxplot_idempotent(
    scores: Seq<Seq<i64>>,
    names: Seq<Seq<char>>,
    title: Seq<char>,
    x_title: Seq<char>,
    y_title: Seq<char>,
    first: Result<PlotSpec, PlotError>,
    second: Result<PlotSpec, PlotError>,
)
    requires
        agrees(first, boxplot_model(scores, names, title, x_title, y_title)),
        agrees(second, boxplot_model(scores, names, title, x_title, y_title)),
    ensures
        first is Ok <==> second is Ok,
        first is Ok ==> first->Ok_0@ == second->Ok_0@,
        first is Err ==> first->Err_0 == second->Err_0,
{
    lemma_results_coincide(first, second, boxplot_model(scores, names, title, x_title, y_title));
}

/// Two scatter plots built from the same input are the same.
pub proof fn lemma_scatter_idempotent(
    x: Seq<Seq<i64>>,
    y: Seq<Seq<i64>>,
    names: Seq<Seq<char>>,
    title: Seq<char>,
    x_title: Seq<char>,
    y_title: Seq<char>,
    first: Result<PlotSpec, PlotError>,
    second: Result<PlotSpec, PlotError>,
)
    requires
        agrees(first, scatter_model(x, y, names, title, x_title, y_title)),
        agrees(second, scatter_model(x, y, names, title, x_title, y_title)),
    ensures
        first is Ok <==> second is Ok,
        first is Ok ==> first->Ok_0@ == second->Ok_0@,
        first is Err ==> first->Err_0 == second->Err_0,
{
    lemma_results_coincide(first, second, scatter_model(x, y, names, title, x_title, y_title));
}

/// A scatter plot asks for high-throughput rendering in all of its series
/// or in none, and in all exactly when the first series has more than
/// 10,000 points.
pub proof fn lemma_scatter_rendering_mode(
    x: Seq<Seq<i64>>,
    y: Seq<Seq<i64>>,
    names: Seq<Seq<char>>,
    title: Seq<char>,
    x_title: Seq<char>,
    y_title: Seq<char>,
)
    requires
        x.len() == y.len(),
        names.len() == x.len(),
    ensures
        scatter_model(x, y, names, title, x_title, y_title) is Ok,
        scatter_model(x, y, names, title, x_title, y_title)->Ok_0.series.len() == x.len(),
        forall|i: int|
            0 <= i < x.len() ==> (#[trigger] scatter_model(
                x,
                y,
                names,
                title,
                x_title,
                y_title,
            )->Ok_0.series[i]).web_gl == (x[0].len() > 10000),
{
}

/// The grid has the form that a probability-probability plot is meant to
/// be drawn on: `PP_GRID_POINTS` points in ascending order, the first at
/// `lo` and the last at `hi`.
pub open spec fn pp_grid_form(grid: Seq<i64>, lo: i64, hi: i64) -> bool {
    &&& grid.len() == PP_GRID_POINTS
    &&& is_sorted(grid)
    &&& grid[0] == lo
    &&& grid.last() == hi
}

/// Tells whether a grid has the form `pp_grid_form`, for the bounds that
/// `pp_grid_bounds` gives.
///
/// `plot_pp` draws on any grid. A grid spaced in rounded arithmetic can
/// miss the upper bound by the rounding of its last step, so the form is
/// offered as a test and not demanded.
pub fn is_pp_grid(grid: &Vec<i64>, lo: i64, hi: i64) -> (b: bool)
    ensures
        b == pp_grid_form(grid@, lo, hi),
{
    let n: usize = grid.len();
    if n != PP_GRID_POINTS {
        return false;
    }
    if grid[0] != lo || grid[n - 1] != hi {
        return false;
    }
    let mut i: usize = 1;
    while i < n
        invariant
            n == grid@.len(),
            1 <= i <= n,
            forall|j: int, k: int| 0 <= j <= k < i ==> grid@[j] <= grid@[k],
        decreases n - i,
    {
        if grid[i - 1] > grid[i] {
            return false;
        }
        proof {
            assert forall|j: int, k: int| 0 <= j <= k < i + 1 implies grid@[j] <= grid@[k] by {
                if k == i && j < i {
                    assert(grid@[j] <= grid@[i - 1]);
                }
            }
        }
        i = i + 1;
    }
    true
}

/// Copies a sample.
fn copy_scores(values: &Vec<i64>) -> (r: Vec<i64>)
    ensures
        r@ == values@,
{
    let n: usize = values.len();
    let mut out: Vec<i64> = Vec::new();
    let mut i: usize = 0;
    while i < n
        invariant
            n == values@.len(),
            i <= n,
            out@ == values@.take(i as int),
        decreases n - i,
    {
        out.push(values[i]);
        assert(out@ =~= values@.take(i + 1));
        i = i + 1;
    }
    assert(values@.take(n as int) =~= values@);
    out
}

/// Copies a sequence of fractions.
fn copy_fractions(values: &Vec<Fraction>) -> (r: Vec<Fraction>)
    ensures
        r@ == values@,
{
    let n: usize = values.len();
    let mut out: Vec<Fraction> = Vec::new();
    let mut i: usize = 0;
    while i < n
        invariant
            n == values@.len(),
            i <= n,
            out@ == values@.take(i as int),
        decreases n - i,
    {
        out.push(values[i]);
        assert(out@ =~= values@.take(i + 1));
        i = i + 1;
    }
    assert(values@.take(n as int) =~= values@);
    out
}

/// The same name once for each of `n` points.
fn repeat_name(name: &String, n: usize) -> (r: Vec<String>)
    ensures
        texts(r@) == Seq::new(n as nat, |i: int| name@),
{
    let mut out: Vec<String> = Vec::new();
    let mut i: usize = 0;
    while i < n
        invariant
            i <= n,
            out@.len() == i,
            forall|j: int| 0 <= j < i ==> (#[trigger] out@[j])@ == name@,
        decreases n - i,
    {
        out.push(name.clone());
        i = i + 1;
    }
    assert(texts(out@) =~= Seq::new(n as nat, |i: int| name@));
    out
}

/// Builds the histogram series of one class.
fn histogram_trace(name: &str, values: Vec<i64>) -> (s: Series)
    ensures
        s@ == histogram_series(name@, values@),
{
    Series {
        kind: SeriesKind::Histogram,
        name: name.to_string(),
        x: Data::Scores(values),
        y: None,
        mode: None,
        line: None,
        marker_size: None,
        show_mean: false,
        web_gl: false,
    }
}

/// Builds a scatter series over the given data.
fn fraction_trace(name: String, x: Data, y: Data, mode: Mode, line: Option<LineStyle>) -> (s: Series)
    ensures
        s@ == fraction_series(name@, x@, y@, mode, line),
{
    Series {
        kind: SeriesKind::Scatter,
        name,
        x,
        y: Some(y),
        mode: Some(mode),
        line,
        marker_size: None,
        show_mean: false,
        web_gl: false,
    }
}

/// The two ends of the diagonal reference line.
fn diagonal() -> (r: Vec<Fraction>)
    ensures
        r@ == diagonal_ends(),
{
    let mut out: Vec<Fraction> = Vec::new();
    out.push(Fraction { num: 0, den: 1 });
    out.push(Fraction { num: 1, den: 1 });
    assert(out@ =~= diagonal_ends());
    out
}

/// Builds the overlay histogram of target and decoy scores.
///
/// The scores are split by label; each class becomes one histogram series,
/// the targets first. Binning is left to the renderer.
pub fn plot_score_histogram(scores: &Vec<i64>, labels: &Vec<i32>, title: &str, x_title: &str) -> (r:
    Result<PlotSpec, PlotError>)
    ensures
        agrees(r, histogram_model(scores@, labels@, title@, x_title@)),
{
    let (targets, decoys) = match partition(scores, labels) {
        Ok(classes) => classes,
        Err(e) => {
            return Err(e);
        },
    };
    let mut series: Vec<Series> = Vec::new();
    series.push(histogram_trace("Target", targets));
    series.push(histogram_trace("Decoy", decoys));
    let layout = Layout {
        title: title.to_string(),
        x_axis: Axis::titled(x_title),
        y_axis: Axis::titled("Density"),
        show_legend: None,
        legend: None,
    };
    let plot = PlotSpec { series, layout };
    proof {
        assert(plot@.series =~= seq![
            histogram_series("Target"@, targets@),
            histogram_series("Decoy"@, decoys@),
        ]);
    }
    Ok(plot)
}

/// The bounds of the common grid of a probability-probability plot: the
/// smaller of the two class minima and the larger of the two class maxima.
///
/// A grid that spans these bounds leaves no gap at either end of the two
/// distribution functions.
pub fn pp_grid_bounds(scores: &Vec<i64>, labels: &Vec<i32>) -> (r: Result<(i64, i64), PlotError>)
    ensures
        r == grid_bounds_model(scores@, labels@),
{
    let (targets, decoys) = match partition(scores, labels) {
        Ok(classes) => classes,
        Err(e) => {
            return Err(e);
        },
    };
    let target_ecdf = match ecdf(&targets) {
        Ok(e) => e,
        Err(e) => {
            return Err(e);
        },
    };
    let decoy_ecdf = match ecdf(&decoys) {
        Ok(e) => e,
        Err(e) => {
            return Err(e);
        },
    };
    let target_min = target_ecdf.min();
    let decoy_min = decoy_ecdf.min();
    let target_max = target_ecdf.max();
    let decoy_max = decoy_ecdf.max();
    let lo = if target_min <= decoy_min {
        target_min
    } else {
        decoy_min
    };
    let hi = if target_max >= decoy_max {
        target_max
    } else {
        decoy_max
    };
    Ok((lo, hi))
}

/// Builds the probability-probability plot of the target and decoy score
/// distributions on the grid `x_seq`.
///
/// The grid is meant to hold `PP_GRID_POINTS` evenly spaced points from the
/// lower to the upper bound of `pp_grid_bounds`; the caller spaces it, and
/// `is_pp_grid` tells whether it has that form. Any grid is drawn on.
///
/// The scores are split by label, the distribution function of each class
/// is evaluated at every grid point, and three series result: the target
/// fractions against the decoy fractions, the diagonal from zero to one,
/// and the decoy fractions scaled by the estimated null proportion, which
/// also names that line. Any error of a step is returned as it is.
pub fn plot_pp(scores: &Vec<i64>, labels: &Vec<i32>, x_seq: &Vec<i64>, title: &str) -> (r: Result<
    PlotSpec,
    PlotError,
>)
    ensures
        agrees(r, pp_model(scores@, labels@, x_seq@, title@)),
{
    let (targets, decoys) = match partition(scores, labels) {
        Ok(classes) => classes,
        Err(e) => {
            return Err(e);
        },
    };
    let target_ecdf = match ecdf(&targets) {
        Ok(e) => e,
        Err(e) => {
            return Err(e);
        },
    };
    let decoy_ecdf = match ecdf(&decoys) {
        Ok(e) => e,
        Err(e) => {
            return Err(e);
        },
    };
    let target_curve = interpolate_ecdf(&target_ecdf, x_seq);
    let decoy_curve = interpolate_ecdf(&decoy_ecdf, x_seq);
    proof {
        lemma_select_len(scores@, labels@, TARGET);
        lemma_counts_cover(labels@);
        assert(labels@.len() == labels.len());
    }
    let pi0 = match estimate_pi0(labels) {
        Ok(f) => f,
        Err(e) => {
            return Err(e);
        },
    };
    let comparison = fraction_trace(
        "Target vs Decoy ECDF".to_string(),
        Data::Fractions(copy_fractions(&decoy_curve)),
        Data::Fractions(target_curve),
        Mode::Markers,
        None,
    );
    let reference = fraction_trace(
        "y = x (Perfect match)".to_string(),
        Data::Fractions(diagonal()),
        Data::Fractions(diagonal()),
        Mode::Lines,
        Some(LineStyle { color: Color::Red, dash: Dash::Dash }),
    );
    let scaled = fraction_trace(
        pi0_label(pi0),
        Data::Fractions(copy_fractions(&decoy_curve)),
        Data::Scaled(pi0, decoy_curve),
        Mode::Lines,
        Some(LineStyle { color: Color::Blue, dash: Dash::Dot }),
    );
    let mut series: Vec<Series> = Vec::new();
    series.push(comparison);
    series.push(reference);
    series.push(scaled);
    let layout = Layout {
        title: title.to_string(),
        x_axis: Axis::titled("Decoy ECDF"),
        y_axis: Axis::titled("Target ECDF"),
        show_legend: None,
        legend: None,
    };
    let plot = PlotSpec { series, layout };
    proof {
        assert(plot@.series =~= pp_series(targets@, decoys@, labels@, x_seq@));
    }
    Ok(plot)
}

/// Builds the grouped box plot of per-group samples.
///
/// Each group becomes one box series named after the group, with the
/// group's name beside every value and the mean marked. There must be as
/// many names as groups.
pub fn plot_boxplot(
    scores: &Vec<Vec<i64>>,
    filenames: Vec<String>,
    title: &str,
    x_title: &str,
    y_title: &str,
) -> (r: Result<PlotSpec, PlotError>)
    ensures
        agrees(
            r,
            boxplot_model(groups(scores@), texts(filenames@), title@, x_title@, y_title@),
        ),
{
    if scores.len() != filenames.len() {
        return Err(PlotError::LengthMismatch);
    }
    let n: usize = scores.len();
    let mut series: Vec<Series> = Vec::new();
    let mut i: usize = 0;
    while i < n
        invariant
            n == scores@.len(),
            n == filenames@.len(),
            i <= n,
            series@.len() == i,
            forall|j: int|
                0 <= j < i ==> (#[trigger] series@[j])@ == box_series(filenames@[j]@, scores@[j]@),
        decreases n - i,
    {
        let values = copy_scores(&scores[i]);
        let categories = repeat_name(&filenames[i], values.len());
        let trace = Series {
            kind: SeriesKind::Box,
            name: filenames[i].clone(),
            x: Data::Categories(categories),
            y: Some(Data::Scores(values)),
            mode: None,
            line: None,
            marker_size: None,
            show_mean: true,
            web_gl: false,
        };
        assert(trace@ == box_series(filenames@[i as int]@, scores@[i as int]@));
        series.push(trace);
        i = i + 1;
    }
    let layout = Layout {
        title: title.to_string(),
        x_axis: Axis { title: x_title.to_string(), tick_angle: Some(BOX_TICK_ANGLE) },
        y_axis: Axis::titled(y_title),
        show_legend: Some(false),
        legend: None,
    };
    let plot = PlotSpec { series, layout };
    proof {
        let names = texts(filenames@);
        let samples = groups(scores@);
        assert(plot@.series =~= Seq::new(
            samples.len(),
            |k: int| box_series(names[k], samples[k]),
        ));
    }
    Ok(plot)
}

/// Builds the scatter plot of one or more series of points.
///
/// Pair `i` of `x` and `y` becomes one marker series named `labels[i]`.
/// There must be as many `y` series and as many labels as `x` series.
/// Every series asks for the high-throughput rendering mode exactly when
/// the first `x` series has more than 10,000 points; later series are not
/// looked at for this.
pub fn plot_scatter(
    x: &Vec<Vec<i64>>,
    y: &Vec<Vec<i64>>,
    labels: Vec<String>,
    title: &str,
    x_title: &str,
    y_title: &str,
) -> (r: Result<PlotSpec, PlotError>)
    ensures
        agrees(
            r,
            scatter_model(groups(x@), groups(y@), texts(labels@), title@, x_title@, y_title@),
        ),
{
    if x.len() != y.len() || labels.len() != x.len() {
        return Err(PlotError::LengthMismatch);
    }
    let n: usize = x.len();
    let web_gl: bool = n > 0 && x[0].len() > WEB_GL_THRESHOLD;
    let mut series: Vec<Series> = Vec::new();
    let mut i: usize = 0;
    while i < n
        invariant
            n == x@.len(),
            n == y@.len(),
            n == labels@.len(),
            i <= n,
            series@.len() == i,
            web_gl == wants_web_gl(groups(x@)),
            forall|j: int|
                0 <= j < i ==> (#[trigger] series@[j])@ == scatter_series(
                    labels@[j]@,
                    x@[j]@,
                    y@[j]@,
                    web_gl,
                ),
        decreases n - i,
    {
        let trace = Series {
            kind: SeriesKind::Scatter,
            name: labels[i].clone(),
            x: Data::Scores(copy_scores(&x[i])),
            y: Some(Data::Scores(copy_scores(&y[i]))),
            mode: Some(Mode::Markers),
            line: None,
            marker_size: Some(SCATTER_MARKER_SIZE),
            show_mean: false,
            web_gl,
        };
        series.push(trace);
        i = i + 1;
    }
    let layout = Layout {
        title: title.to_string(),
        x_axis: Axis::titled(x_title),
        y_axis: Axis::titled(y_title),
        show_legend: None,
        legend: Some(Orientation::Vertical),
    };
    let plot = PlotSpec { series, layout };
    proof {
        let names = texts(labels@);
        let xs = groups(x@);
        let ys = groups(y@);
        assert(plot@.series =~= Seq::new(
            xs.len(),
            |k: int| scatter_series(names[k], xs[k], ys[k], wants_web_gl(xs)),
        ));
    }
    Ok(plot)
}

} // verus!
