use vstd::prelude::*;

use crate::error::PlotError;
use crate::fraction::Fraction;

verus! {

/// The kind of trace a series is drawn as.
#[derive(Clone, Copy, Debug, PartialEq, Eq, Structural)]
pub enum SeriesKind {
    Scatter,
    Histogram,
    Box,
}

/// How the points of a scatter series are rendered.
#[derive(Clone, Copy, Debug, PartialEq, Eq, Structural)]
pub enum Mode {
    Markers,
    Lines,
}

/// The dash pattern of a line.
#[derive(Clone, Copy, Debug, PartialEq, Eq, Structural)]
pub enum Dash {
    Solid,
    Dash,
    Dot,
}

/// The colour of a line.
#[derive(Clone, Copy, Debug, PartialEq, Eq, Structural)]
pub enum Color {
    Red,
    Blue,
}

/// The direction in which legend entries are laid out.
#[derive(Clone, Copy, Debug, PartialEq, Eq, Structural)]
pub enum Orientation {
    Vertical,
    Horizontal,
}

/// The styling of a line series.
#[derive(Clone, Copy, Debug, PartialEq, Eq, Structural)]
pub struct LineStyle {
    pub color: Color,
    pub dash: Dash,
}

/// The values that a series holds along one axis. A series owns its data.
#[derive(Debug, PartialEq, Eq)]
pub enum Data {
    /// Scores, as given by the caller.
    Scores(Vec<i64>),
    /// Exact fractions.
    Fractions(Vec<Fraction>),
    /// The product of one factor with each of the fractions.
    Scaled(Fraction, Vec<Fraction>),
    /// The name of a category for each point.
    Categories(Vec<String>),
}

/// The mathematical content of a [`Data`].
pub ghost enum DataView {
    Scores(Seq<i64>),
    Fractions(Seq<Fraction>),
    Scaled(Fraction, Seq<Fraction>),
    Categories(Seq<Seq<char>>),
}

/// The texts of a sequence of strings.
pub open spec fn texts(names: Seq<String>) -> Seq<Seq<char>> {
    Seq::new(names.len(), |i: int| names[i]@)
}

/// The contents of a sequence of score vectors.
pub open spec fn groups(samples: Seq<Vec<i64>>) -> Seq<Seq<i64>> {
    Seq::new(samples.len(), |i: int| samples[i]@)
}

impl View for Data {
    type V = DataView;

    open spec fn view(&self) -> DataView {
        match self {
            Data::Scores(v) => DataView::Scores(v@),
            Data::Fractions(v) => DataView::Fractions(v@),
            Data::Scaled(factor, v) => DataView::Scaled(*factor, v@),
            Data::Categories(v) => DataView::Categories(texts(v@)),
        }
    }
}

/// One named data series of a chart.
#[derive(Debug, PartialEq, Eq)]
pub struct Series {
    pub kind: SeriesKind,
    pub name: String,
    pub x: Data,
    /// A histogram has values along one axis only.
    pub y: Option<Data>,
    pub mode: Option<Mode>,
    pub line: Option<LineStyle>,
    pub marker_size: Option<usize>,
    /// A box series also marks its mean.
    pub show_mean: bool,
    /// The series asks for the high-throughput rendering mode.
    pub web_gl: bool,
}

/// The mathematical content of a [`Series`].
pub ghost struct SeriesView {
    pub kind: SeriesKind,
    pub name: Seq<char>,
    pub x: DataView,
    pub y: Option<DataView>,
    pub mode: Option<Mode>,
    pub line: Option<LineStyle>,
    pub marker_size: Option<usize>,
    pub show_mean: bool,
    pub web_gl: bool,
}

impl View for Series {
    type V = SeriesView;

    open spec fn view(&self) -> SeriesView {
        SeriesView {
            kind: self.kind,
            name: self.name@,
            x: self.x@,
            y: match self.y {
                Some(d) => Some(d@),
                None => None,
            },
            mode: self.mode,
            line: self.line,
            marker_size: self.marker_size,
            show_mean: self.show_mean,
            web_gl: self.web_gl,
        }
    }
}

/// One axis of a chart.
#[derive(Debug, PartialEq, Eq)]
pub struct Axis {
    pub title: String,
    /// The rotation of the tick labels in whole degrees, where one is set.
    pub tick_angle: Option<i32>,
}

/// The mathematical content of an [`Axis`].
pub ghost struct AxisView {
    pub title: Seq<char>,
    pub tick_angle: Option<i32>,
}

impl View for Axis {
    type V = AxisView;

    open spec fn view(&self) -> AxisView {
        AxisView { title: self.title@, tick_angle: self.tick_angle }
    }
}

/// The titles and legend options of a chart.
#[derive(Debug, PartialEq, Eq)]
pub struct Layout {
    pub title: String,
    pub x_axis: Axis,
    pub y_axis: Axis,
    /// Whether the legend is shown, where the chart decides it.
    pub show_legend: Option<bool>,
    /// The orientation of the legend, where the chart decides it.
    pub legend: Option<Orientation>,
}

/// The mathematical content of a [`Layout`].
pub ghost struct LayoutView {
    pub title: Seq<char>,
    pub x_axis: AxisView,
    pub y_axis: AxisView,
    pub show_legend: Option<bool>,
    pub legend: Option<Orientation>,
}

impl View for Layout {
    type V = LayoutView;

    open spec fn view(&self) -> LayoutView {
        LayoutView {
            title: self.title@,
            x_axis: self.x_axis@,
            y_axis: self.y_axis@,
            show_legend: self.show_legend,
            legend: self.legend,
        }
    }
}

/// A finished chart before rendering: its series in order, and its layout.
#[derive(Debug, PartialEq, Eq)]
pub struct PlotSpec {
    pub series: Vec<Series>,
    pub layout: Layout,
}

/// The mathematical content of a [`PlotSpec`].
pub ghost struct PlotSpecView {
    pub series: Seq<SeriesView>,
    pub layout: LayoutView,
}

impl View for PlotSpec {
    type V = PlotSpecView;

    open spec fn view(&self) -> PlotSpecView {
        PlotSpecView {
            series: Seq::new(self.series@.len(), |i: int| self.series@[i]@),
            layout: self.layout@,
        }
    }
}

/// The result of a builder is the one that its model prescribes: the same
/// error, or a chart with the prescribed content.
pub open spec fn agrees(
    result: Result<PlotSpec, PlotError>,
    model: Result<PlotSpecView, PlotError>,
) -> bool {
    match result {
        Ok(plot) => model == Ok::<PlotSpecView, PlotError>(plot@),
        Err(e) => model == Err::<PlotSpecView, PlotError>(e),
    }
}

/// An axis with a title and no tick rotation.
pub open spec fn plain_axis(title: Seq<char>) -> AxisView {
    AxisView { title, tick_angle: None }
}

/// A builder is a function of its inputs: two results that agree with the
/// same model are the same error, or charts with identical series and
/// layout.
pub proof fn lemma_results_coincide(
    first: Result<PlotSpec, PlotError>,
    second: Result<PlotSpec, PlotError>,
    model: Result<PlotSpecView, PlotError>,
)
    requires
        agrees(first, model),
        agrees(second, model),
    ensures
        first is Ok <==> second is Ok,
        first is Ok ==> first->Ok_0@ == second->Ok_0@,
        first is Err ==> first->Err_0 == second->Err_0,
{
}

impl Axis {
    /// An axis with the given title and unrotated tick labels.
    pub fn titled(title: &str) -> (axis: Axis)
        ensures
            axis@ == plain_axis(title@),
    {
        Axis { title: title.to_string(), tick_angle: None }
    }
}

} // verus!
