//! Filling polygons line by line, and the outlines of strokes. Coordinates are
//! single-precision numbers, given by their bits.
use crate::cg_context::{Point, SubPath};
use crate::singles;
use vstd::prelude::*;

verus! {

/// A side of a polygon that is not level.
#[derive(Clone, Copy, Debug, PartialEq, Eq, Structural)]
pub struct Edge {
    pub from: Point,
    pub to: Point,
    /// 1 if it goes to greater values of `y`, else -1.
    pub direction: i32,
}

pub open spec fn is_finite_point(point: Point) -> bool {
    singles::is_finite(point.x) && singles::is_finite(point.y)
}

/// Whether there is anything to fill in a polygon.
pub open spec fn is_fillable(polygon: Seq<Point>) -> bool {
    polygon.len() >= 3 && forall|i: int|
        0 <= i < polygon.len() ==> is_finite_point(#[trigger] polygon[i])
}

/// The point after another one: the first one comes after the last.
pub open spec fn next_point(polygon: Seq<Point>, i: int) -> Point {
    if i + 1 < polygon.len() {
        polygon[i + 1]
    } else {
        polygon[0]
    }
}

pub open spec fn edge_between(from: Point, to: Point) -> Edge {
    Edge {
        from,
        to,
        direction: if singles::is_less(from.y, to.y) {
            1
        } else {
            -1i32
        },
    }
}

/// The first `n` sides of a polygon that are not level.
pub open spec fn sides(polygon: Seq<Point>, n: int) -> Seq<Edge>
    decreases n,
{
    if n <= 0 {
        Seq::empty()
    } else {
        let before = sides(polygon, n - 1);
        let from = polygon[n - 1];
        let to = next_point(polygon, n - 1);
        if singles::is_equal(from.y, to.y) {
            before
        } else {
            before.push(edge_between(from, to))
        }
    }
}

/// The sides of the first `n` polygons that can be filled.
pub open spec fn edges_of(polygons: Seq<Vec<Point>>, n: int) -> Seq<Edge>
    decreases n,
{
    if n <= 0 {
        Seq::empty()
    } else if is_fillable(polygons[n - 1]@) {
        edges_of(polygons, n - 1) + sides(polygons[n - 1]@, polygons[n - 1]@.len() as int)
    } else {
        edges_of(polygons, n - 1)
    }
}

fn fillable(polygon: &Vec<Point>) -> (yes: bool)
    ensures
        yes == is_fillable(polygon@),
{
    if polygon.len() < 3 {
        return false;
    }
    let mut i: usize = 0;
    while i < polygon.len()
        invariant
            i <= polygon@.len(),
            forall|k: int| 0 <= k < i ==> is_finite_point(#[trigger] polygon@[k]),
        decreases polygon@.len() - i,
    {
        if !singles::finite(polygon[i].x) || !singles::finite(polygon[i].y) {
            assert(!is_finite_point(polygon@[i as int]));
            return false;
        }
        i = i + 1;
    }
    true
}

/// The sides of polygons by which they are filled.
pub fn polygon_edges(polygons: &Vec<Vec<Point>>) -> (edges: Vec<Edge>)
    ensures
        edges@ == edges_of(polygons@, polygons@.len() as int),
{
    let mut edges: Vec<Edge> = Vec::new();
    let mut p: usize = 0;
    while p < polygons.len()
        invariant
            p <= polygons@.len(),
            edges@ == edges_of(polygons@, p as int),
        decreases polygons@.len() - p,
    {
        let polygon = &polygons[p];
        if fillable(polygon) {
            let ghost before = edges@;
            assert(before + sides(polygon@, 0) =~= before);
            let mut i: usize = 0;
            while i < polygon.len()
                invariant
                    i <= polygon@.len(),
                    edges@ == before + sides(polygon@, i as int),
                decreases polygon@.len() - i,
            {
                let from: Point = polygon[i];
                let to: Point = if i + 1 < polygon.len() {
                    polygon[i + 1]
                } else {
                    polygon[0]
                };
                if !singles::equal(from.y, to.y) {
                    let direction: i32 = if singles::less(from.y, to.y) {
                        1
                    } else {
                        -1
                    };
                    edges.push(Edge { from, to, direction });
                }
                i = i + 1;
                assert(edges@ =~= before + sides(polygon@, i as int));
            }
        }
        p = p + 1;
    }
    edges
}

/// All ends of the edges lie between two heights, and some edge ends at each of
/// them.
pub open spec fn is_extent(edges: Seq<Edge>, low: u32, high: u32) -> bool {
    &&& forall|i: int|
        0 <= i < edges.len() ==> {
            let e = #[trigger] edges[i];
            &&& !singles::is_less(e.from.y, low)
            &&& !singles::is_less(e.to.y, low)
            &&& !singles::is_less(high, e.from.y)
            &&& !singles::is_less(high, e.to.y)
        }
    &&& exists|i: int|
        0 <= i < edges.len() && ((#[trigger] edges[i]).from.y == low || edges[i].to.y == low)
    &&& exists|i: int|
        0 <= i < edges.len() && ((#[trigger] edges[i]).from.y == high || edges[i].to.y == high)
}

/// The ends of all edges are finite.
pub open spec fn are_finite(edges: Seq<Edge>) -> bool {
    forall|i: int|
        0 <= i < edges.len() ==> is_finite_point((#[trigger] edges[i]).from) && is_finite_point(
            edges[i].to,
        )
}

/// The edges of polygons are finite.
pub proof fn law_edges_are_finite(polygons: Seq<Vec<Point>>, n: int)
    requires
        n <= polygons.len(),
    ensures
        are_finite(edges_of(polygons, n)),
    decreases n,
{
    if n > 0 {
        law_edges_are_finite(polygons, n - 1);
        let polygon = polygons[n - 1]@;
        if is_fillable(polygon) {
            lemma_sides_are_finite(polygon, polygon.len() as int);
        }
    }
}

proof fn lemma_sides_are_finite(polygon: Seq<Point>, n: int)
    requires
        is_fillable(polygon),
        n <= polygon.len(),
    ensures
        are_finite(sides(polygon, n)),
    decreases n,
{
    if n > 0 {
        lemma_sides_are_finite(polygon, n - 1);
        assert(is_finite_point(polygon[n - 1]));
        assert(is_finite_point(next_point(polygon, n - 1)));
    }
}

/// The least and the greatest height of the edges; nothing without edges.
pub fn vertical_extent(edges: &Vec<Edge>) -> (extent: Option<(u32, u32)>)
    requires
        are_finite(edges@),
    ensures
        match extent {
            Some((low, high)) => is_extent(edges@, low, high),
            None => edges@.len() == 0,
        },
{
    if edges.len() == 0 {
        return None;
    }
    let mut low: u32 = edges[0].from.y;
    let mut high: u32 = edges[0].from.y;
    if singles::less(edges[0].to.y, low) {
        low = edges[0].to.y;
    } else {
        high = edges[0].to.y;
    }
    let mut i: usize = 1;
    assert(is_finite_point(edges@[0].from));
    assert(is_extent(edges@.take(1), low, high)) by {
        assert(edges@.take(1)[0] == edges@[0]);
    }
    while i < edges.len()
        invariant
            1 <= i <= edges@.len(),
            are_finite(edges@),
            singles::is_finite(low),
            singles::is_finite(high),
            is_extent(edges@.take(i as int), low, high),
        decreases edges@.len() - i,
    {
        let ghost before = edges@.take(i as int);
        let ghost after = edges@.take(i + 1);
        let ghost low_before = low;
        let ghost high_before = high;
        let edge: Edge = edges[i];
        assert(is_finite_point(edges@[i as int].from));
        if singles::less(edge.from.y, low) {
            low = edge.from.y;
        }
        if singles::less(edge.to.y, low) {
            low = edge.to.y;
        }
        if singles::less(high, edge.from.y) {
            high = edge.from.y;
        }
        if singles::less(high, edge.to.y) {
            high = edge.to.y;
        }
        i = i + 1;
        proof {
            assert(after =~= before.push(edge));
            assert forall|k: int| 0 <= k < after.len() implies ({
                let e = #[trigger] after[k];
                &&& !singles::is_less(e.from.y, low)
                &&& !singles::is_less(e.to.y, low)
                &&& !singles::is_less(high, e.from.y)
                &&& !singles::is_less(high, e.to.y)
            }) by {
                if k < before.len() {
                    assert(before[k] == after[k]);
                    assert(is_finite_point(edges@[k].from));
                }
            }
            let l = choose|k: int|
                0 <= k < before.len() && ((#[trigger] before[k]).from.y == low_before
                    || before[k].to.y == low_before);
            assert(after[l] == before[l]);
            let h = choose|k: int|
                0 <= k < before.len() && ((#[trigger] before[k]).from.y == high_before
                    || before[k].to.y == high_before);
            assert(after[h] == before[h]);
            assert(after[before.len() as int] == edge);
        }
    }
    assert(edges@.take(i as int) =~= edges@);
    Some((low, high))
}

/// Whether an edge crosses a height: the lower end belongs to it, the upper one does
/// not.
pub open spec fn is_crossing(edge: Edge, y: u32) -> bool {
    if singles::is_less(edge.from.y, edge.to.y) {
        !singles::is_less(y, edge.from.y) && singles::is_less(y, edge.to.y)
    } else {
        !singles::is_less(y, edge.to.y) && singles::is_less(y, edge.from.y)
    }
}

/// The first `n` edges, as far as they cross a height.
pub open spec fn crossed(edges: Seq<Edge>, y: u32, n: int) -> Seq<Edge>
    decreases n,
{
    if n <= 0 {
        Seq::empty()
    } else if is_crossing(edges[n - 1], y) {
        crossed(edges, y, n - 1).push(edges[n - 1])
    } else {
        crossed(edges, y, n - 1)
    }
}

/// The edges that cross a height.
pub fn crossed_edges(edges: &Vec<Edge>, y: u32) -> (found: Vec<Edge>)
    requires
        are_finite(edges@),
        singles::is_finite(y),
    ensures
        found@ == crossed(edges@, y, edges@.len() as int),
{
    let mut found: Vec<Edge> = Vec::new();
    let mut i: usize = 0;
    while i < edges.len()
        invariant
            i <= edges@.len(),
            found@ == crossed(edges@, y, i as int),
        decreases edges@.len() - i,
    {
        let edge: Edge = edges[i];
        let upward: bool = singles::less(edge.from.y, edge.to.y);
        let low: u32 = if upward {
            edge.from.y
        } else {
            edge.to.y
        };
        let high: u32 = if upward {
            edge.to.y
        } else {
            edge.from.y
        };
        if !singles::less(y, low) && singles::less(y, high) {
            found.push(edge);
        }
        i = i + 1;
    }
    found
}

/// Where an edge crosses a line of pixels: the coordinate, the first column whose
/// middle is not to the left of it, and the direction of the edge.
#[derive(Clone, Copy, Debug, PartialEq, Eq, Structural)]
pub struct Crossing {
    pub x: u32,
    pub column: i32,
    pub direction: i32,
}

pub open spec fn are_numbers(crossings: Seq<Crossing>) -> bool {
    forall|i: int| 0 <= i < crossings.len() ==> !singles::is_nan(#[trigger] crossings[i].x)
}

/// The crossings come from left to right.
pub open spec fn are_sorted(crossings: Seq<Crossing>) -> bool {
    forall|i: int, j: int|
        0 <= i <= j < crossings.len() ==> !singles::is_less(
            (#[trigger] crossings[j]).x,
            (#[trigger] crossings[i]).x,
        )
}

/// A crossing put behind all others that are not to the right of it.
pub open spec fn inserted(sorted: Seq<Crossing>, c: Crossing) -> Seq<Crossing>
    decreases sorted.len(),
{
    if sorted.len() > 0 && singles::is_less(c.x, sorted.last().x) {
        inserted(sorted.drop_last(), c).push(sorted.last())
    } else {
        sorted.push(c)
    }
}

/// The crossings in their order from left to right, where crossings at the same
/// place keep theirs.
pub open spec fn stably_sorted(crossings: Seq<Crossing>) -> Seq<Crossing>
    decreases crossings.len(),
{
    if crossings.len() == 0 {
        crossings
    } else {
        inserted(stably_sorted(crossings.drop_last()), crossings.last())
    }
}

proof fn lemma_inserted(sorted: Seq<Crossing>, c: Crossing, at: int)
    requires
        0 <= at <= sorted.len(),
        forall|k: int|
            at <= k < sorted.len() ==> singles::is_less(c.x, (#[trigger] sorted[k]).x),
        at > 0 ==> !singles::is_less(c.x, sorted[at - 1].x),
    ensures
        inserted(sorted, c) == sorted.insert(at, c),
    decreases sorted.len(),
{
    if at < sorted.len() {
        lemma_inserted(sorted.drop_last(), c, at);
        assert(inserted(sorted, c) =~= sorted.insert(at, c));
    } else {
        assert(sorted.push(c) =~= sorted.insert(at, c));
    }
}

/// Brings crossings into their order from left to right. Crossings at the same place
/// keep theirs.
pub fn sort_crossings(crossings: &Vec<Crossing>) -> (sorted: Vec<Crossing>)
    ensures
        sorted@ == stably_sorted(crossings@),
        sorted@.to_multiset() == crossings@.to_multiset(),
        are_numbers(crossings@) ==> are_sorted(sorted@),
{
    let mut sorted: Vec<Crossing> = Vec::new();
    let mut i: usize = 0;
    assert(sorted@ =~= crossings@.take(0));
    while i < crossings.len()
        invariant
            i <= crossings@.len(),
            sorted@.len() == i,
            sorted@ == stably_sorted(crossings@.take(i as int)),
            sorted@.to_multiset() == crossings@.take(i as int).to_multiset(),
            are_numbers(crossings@) ==> are_sorted(sorted@) && are_numbers(sorted@),
        decreases crossings@.len() - i,
    {
        let c: Crossing = crossings[i];
        let ghost before = sorted@;
        let mut at: usize = sorted.len();
        while at > 0 && singles::less(c.x, sorted[at - 1].x)
            invariant
                sorted@ == before,
                at <= sorted@.len(),
                forall|k: int|
                    at <= k < sorted@.len() ==> singles::is_less(c.x, (#[trigger] sorted@[k]).x),
            decreases at,
        {
            at = at - 1;
        }
        sorted.insert(at, c);
        proof {
            assert(crossings@.take(i + 1) =~= crossings@.take(i as int).push(c));
            assert(crossings@.take(i + 1).drop_last() =~= crossings@.take(i as int));
            lemma_inserted(before, c, at as int);
            let front = before.take(at as int);
            let back = before.skip(at as int);
            assert(before =~= front + back);
            assert(sorted@ =~= front.push(c) + back);
            vstd::seq_lib::lemma_multiset_commutative(front, back);
            vstd::seq_lib::lemma_multiset_commutative(front.push(c), back);
            front.to_multiset_ensures();
            crossings@.take(i as int).to_multiset_ensures();
            assert(sorted@.to_multiset() =~= before.to_multiset().insert(c));
            if are_numbers(crossings@) {
                assert(!singles::is_nan(crossings@[i as int].x));
                assert forall|k: int| 0 <= k < at implies !singles::is_less(
                    c.x,
                    (#[trigger] before[k]).x,
                ) by {
                    assert(!singles::is_less(before[at - 1].x, before[k].x));
                }
                assert forall|a: int, b: int| 0 <= a <= b < sorted@.len() implies !singles::is_less(
                    (#[trigger] sorted@[b]).x,
                    (#[trigger] sorted@[a]).x,
                ) by {
                    if a < at {
                        assert(sorted@[a] == before[a]);
                    } else if a > at {
                        assert(sorted@[a] == before[a - 1]);
                    }
                    if b < at {
                        assert(sorted@[b] == before[b]);
                    } else if b > at {
                        assert(sorted@[b] == before[b - 1]);
                    }
                }
            }
        }
        i = i + 1;
    }
    assert(crossings@.take(i as int) =~= crossings@);
    sorted
}

/// How often the first `n` crossings go around: up counts as 1 and down as -1.
pub open spec fn winding(crossings: Seq<Crossing>, n: int) -> int
    decreases n,
{
    if n <= 0 {
        0
    } else {
        winding(crossings, n - 1) + crossings[n - 1].direction
    }
}

/// Whether what comes after the first `n` crossings is inside.
pub open spec fn is_inside(crossings: Seq<Crossing>, even_odd: bool, n: int) -> bool {
    if even_odd {
        n % 2 != 0
    } else {
        winding(crossings, n) != 0
    }
}

/// The columns from one crossing to the next, within the bitmap.
pub open spec fn span_between(from: Crossing, to: Crossing, width: i32) -> (i32, i32) {
    (
        if from.column > 0 {
            from.column
        } else {
            0
        },
        if to.column < width {
            to.column
        } else {
            width
        },
    )
}

/// The spans that are inside, after the first `n` crossings.
pub open spec fn spans_of(
    crossings: Seq<Crossing>,
    even_odd: bool,
    width: i32,
    n: int,
) -> Seq<(i32, i32)>
    decreases n,
{
    if n <= 0 {
        Seq::empty()
    } else if is_inside(crossings, even_odd, n) {
        spans_of(crossings, even_odd, width, n - 1).push(
            span_between(crossings[n - 1], crossings[n], width),
        )
    } else {
        spans_of(crossings, even_odd, width, n - 1)
    }
}

/// All directions are 1 or -1.
pub open spec fn are_directed(crossings: Seq<Crossing>) -> bool {
    forall|i: int|
        0 <= i < crossings.len() ==> (#[trigger] crossings[i]).direction == 1
            || crossings[i].direction == -1
}

/// The spans of columns to fill in a line: from the first column to before the
/// second.
pub fn row_spans(crossings: &Vec<Crossing>, even_odd: bool, width: i32) -> (spans: Vec<(i32, i32)>)
    requires
        are_directed(crossings@),
        crossings.len() <= i32::MAX,
    ensures
        spans@ == spans_of(crossings@, even_odd, width, crossings@.len() - 1),
{
    let mut spans: Vec<(i32, i32)> = Vec::new();
    if crossings.len() < 2 {
        return spans;
    }
    let mut around: i32 = 0;
    let mut i: usize = 0;
    while i < crossings.len() - 1
        invariant
            i <= crossings@.len() - 1,
            crossings@.len() >= 2,
            crossings.len() <= i32::MAX,
            are_directed(crossings@),
            around == if even_odd {
                i as int
            } else {
                winding(crossings@, i as int)
            },
            -i <= around <= i,
            spans@ == spans_of(crossings@, even_odd, width, i as int),
        decreases crossings@.len() - i,
    {
        let from: Crossing = crossings[i];
        around = around + if even_odd {
            1
        } else {
            from.direction
        };
        let inside: bool = if even_odd {
            around % 2 != 0
        } else {
            around != 0
        };
        if inside {
            let to: Crossing = crossings[i + 1];
            let start: i32 = if from.column > 0 {
                from.column
            } else {
                0
            };
            let end: i32 = if to.column < width {
                to.column
            } else {
                width
            };
            spans.push((start, end));
        }
        i = i + 1;
    }
    spans
}

pub open spec fn covers(span: (i32, i32), column: int) -> bool {
    span.0 <= column < span.1
}

/// How many of the first `n` crossings are not to the right of the middle of a
/// column.
pub open spec fn passed(crossings: Seq<Crossing>, column: int, n: int) -> int
    decreases n,
{
    if n <= 0 {
        0
    } else {
        passed(crossings, column, n - 1) + if crossings[n - 1].column <= column {
            1int
        } else {
            0
        }
    }
}

/// The columns of the crossings do not fall.
pub open spec fn columns_grow(crossings: Seq<Crossing>) -> bool {
    forall|i: int, j: int|
        0 <= i <= j < crossings.len() ==> (#[trigger] crossings[i]).column <= (
        #[trigger] crossings[j]).column
}

proof fn lemma_passed(crossings: Seq<Crossing>, column: int, n: int)
    requires
        columns_grow(crossings),
        0 <= n <= crossings.len(),
    ensures
        0 <= passed(crossings, column, n) <= n,
        forall|i: int|
            0 <= i < n ==> ((#[trigger] crossings[i]).column <= column <==> i < passed(
                crossings,
                column,
                n,
            )),
    decreases n,
{
    if n > 0 {
        lemma_passed(crossings, column, n - 1);
        if n > 1 && crossings[n - 1].column <= column {
            assert(crossings[n - 2].column <= crossings[n - 1].column);
        }
    }
}

proof fn lemma_spans(
    crossings: Seq<Crossing>,
    even_odd: bool,
    width: i32,
    column: int,
    n: int,
)
    requires
        columns_grow(crossings),
        0 <= column < width,
        0 <= n < crossings.len(),
    ensures
        ({
            let k = passed(crossings, column, crossings.len() as int);
            &&& (exists|s: int|
                0 <= s < spans_of(crossings, even_odd, width, n).len() && covers(
                    #[trigger] spans_of(crossings, even_odd, width, n)[s],
                    column,
                )) <==> 1 <= k <= n && is_inside(crossings, even_odd, k)
        }),
    decreases n,
{
    let all = crossings.len() as int;
    let k = passed(crossings, column, all);
    lemma_passed(crossings, column, all);
    if n > 0 {
        lemma_spans(crossings, even_odd, width, column, n - 1);
        let before = spans_of(crossings, even_odd, width, n - 1);
        let spans = spans_of(crossings, even_odd, width, n);
        let span = span_between(crossings[n - 1], crossings[n], width);
        assert(covers(span, column) <==> k == n);
        if is_inside(crossings, even_odd, n) {
            assert(spans[spans.len() - 1] == span);
            if exists|s: int| 0 <= s < before.len() && covers(#[trigger] before[s], column) {
                let s = choose|s: int| 0 <= s < before.len() && covers(#[trigger] before[s], column);
                assert(spans[s] == before[s]);
            }
            if exists|s: int| 0 <= s < spans.len() && covers(#[trigger] spans[s], column) {
                let s = choose|s: int| 0 <= s < spans.len() && covers(#[trigger] spans[s], column);
                if s < before.len() {
                    assert(spans[s] == before[s]);
                }
            }
        }
    }
}

/// How often edges go around: up counts as 1 and down as -1.
pub open spec fn turning(edges: Seq<Edge>) -> int
    decreases edges.len(),
{
    if edges.len() == 0 {
        0
    } else {
        turning(edges.drop_last()) + edges.last().direction
    }
}

/// Each edge goes up or down.
pub open spec fn go_up_or_down(edges: Seq<Edge>) -> bool {
    forall|i: int|
        0 <= i < edges.len() ==> (#[trigger] edges[i]).direction == 1 || edges[i].direction == -1
}

proof fn lemma_turning_parity(edges: Seq<Edge>)
    requires
        go_up_or_down(edges),
    ensures
        turning(edges) % 2 == edges.len() as int % 2,
    decreases edges.len(),
{
    if edges.len() > 0 {
        lemma_turning_parity(edges.drop_last());
        assert(edges[edges.len() - 1].direction == 1 || edges[edges.len() - 1].direction == -1);
    }
}

proof fn lemma_turning_joined(a: Seq<Edge>, b: Seq<Edge>)
    ensures
        turning(a + b) == turning(a) + turning(b),
    decreases b.len(),
{
    if b.len() == 0 {
        assert(a + b =~= a);
    } else {
        lemma_turning_joined(a, b.drop_last());
        assert((a + b).drop_last() =~= a + b.drop_last());
    }
}

proof fn lemma_crossed_joined(a: Seq<Edge>, b: Seq<Edge>, y: u32, n: int)
    requires
        0 <= n <= a.len() + b.len(),
    ensures
        crossed(a + b, y, n) == if n <= a.len() {
            crossed(a, y, n)
        } else {
            crossed(a, y, a.len() as int) + crossed(b, y, n - a.len())
        },
    decreases n,
{
    if n > 0 {
        lemma_crossed_joined(a, b, y, n - 1);
        if n > a.len() {
            assert((a + b)[n - 1] == b[n - 1 - a.len()]);
            assert(crossed(b, y, 0) =~= Seq::empty());
            assert(crossed(a + b, y, n) =~= crossed(a, y, a.len() as int) + crossed(
                b,
                y,
                n - a.len(),
            ));
        } else {
            assert((a + b)[n - 1] == a[n - 1]);
        }
    }
}

proof fn lemma_crossed_go_up_or_down(edges: Seq<Edge>, y: u32, n: int)
    requires
        0 <= n <= edges.len(),
        go_up_or_down(edges),
    ensures
        go_up_or_down(crossed(edges, y, n)),
    decreases n,
{
    if n > 0 {
        lemma_crossed_go_up_or_down(edges, y, n - 1);
        assert(edges[n - 1].direction == 1 || edges[n - 1].direction == -1);
    }
}

/// 1 for a point that is not above a height, else 0.
spec fn reached(point: Point, y: u32) -> int {
    if singles::is_less(y, point.y) {
        0
    } else {
        1
    }
}

/// The point that the first `n` sides lead to.
spec fn led_to(polygon: Seq<Point>, n: int) -> Point {
    if n < polygon.len() {
        polygon[n]
    } else {
        polygon[0]
    }
}

proof fn lemma_sides_turn(polygon: Seq<Point>, y: u32, n: int)
    requires
        is_fillable(polygon),
        singles::is_finite(y),
        0 <= n <= polygon.len(),
    ensures
        go_up_or_down(sides(polygon, n)),
        turning(crossed(sides(polygon, n), y, sides(polygon, n).len() as int)) == reached(
            polygon[0],
            y,
        ) - reached(led_to(polygon, n), y),
    decreases n,
{
    if n > 0 {
        lemma_sides_turn(polygon, y, n - 1);
        let before = sides(polygon, n - 1);
        let from = polygon[n - 1];
        let to = next_point(polygon, n - 1);
        assert(is_finite_point(polygon[n - 1]));
        assert(is_finite_point(to));
        if !singles::is_equal(from.y, to.y) {
            let edge = edge_between(from, to);
            let after = before.push(edge);
            let k = before.len() as int;
            assert(after =~= before + seq![edge]);
            lemma_crossed_joined(before, seq![edge], y, k);
            assert(crossed(after, y, k) == crossed(before, y, k));
            assert(after[k] == edge);
            if is_crossing(edge, y) {
                let c = crossed(before, y, k);
                assert(c.push(edge).drop_last() =~= c);
            }
        }
    }
}

proof fn lemma_edges_turn(polygons: Seq<Vec<Point>>, y: u32, n: int)
    requires
        singles::is_finite(y),
        n <= polygons.len(),
    ensures
        go_up_or_down(edges_of(polygons, n)),
        turning(crossed(edges_of(polygons, n), y, edges_of(polygons, n).len() as int)) == 0,
    decreases n,
{
    if n > 0 {
        lemma_edges_turn(polygons, y, n - 1);
        let polygon = polygons[n - 1]@;
        if is_fillable(polygon) {
            let before = edges_of(polygons, n - 1);
            let more = sides(polygon, polygon.len() as int);
            lemma_sides_turn(polygon, y, polygon.len() as int);
            lemma_crossed_joined(before, more, y, (before.len() + more.len()) as int);
            lemma_crossed_joined(before, more, y, before.len() as int);
            let a = crossed(before, y, before.len() as int);
            let b = crossed(more, y, more.len() as int);
            lemma_turning_joined(a, b);
            if more.len() == 0 {
                assert(b =~= Seq::empty());
                assert(before + more =~= before);
            }
        }
    }
}

/// Polygons are closed: at any height as many of their sides go up as go down, so that
/// an even number is crossed.
pub proof fn law_crossings_cancel(polygons: Seq<Vec<Point>>, y: u32)
    requires
        singles::is_finite(y),
    ensures
        ({
            let edges = edges_of(polygons, polygons.len() as int);
            let found = crossed(edges, y, edges.len() as int);
            turning(found) == 0 && found.len() % 2 == 0
        }),
{
    let edges = edges_of(polygons, polygons.len() as int);
    let found = crossed(edges, y, edges.len() as int);
    lemma_edges_turn(polygons, y, polygons.len() as int);
    lemma_crossed_go_up_or_down(edges, y, edges.len() as int);
    lemma_turning_parity(found);
}

/// Each crossing is one of an edge.
pub open spec fn are_crossings_of(crossings: Seq<Crossing>, edges: Seq<Edge>) -> bool {
    crossings.len() == edges.len() && forall|i: int|
        0 <= i < edges.len() ==> (#[trigger] crossings[i]).direction == edges[i].direction
}

proof fn lemma_winding_is_turning(crossings: Seq<Crossing>, edges: Seq<Edge>, n: int)
    requires
        are_crossings_of(crossings, edges),
        0 <= n <= edges.len(),
    ensures
        winding(crossings, n) == turning(edges.take(n)),
    decreases n,
{
    if n > 0 {
        lemma_winding_is_turning(crossings, edges, n - 1);
        assert(edges.take(n).drop_last() =~= edges.take(n - 1));
        assert(crossings[n - 1].direction == edges[n - 1].direction);
    }
}

proof fn lemma_winding_of_front(crossings: Seq<Crossing>, more: Crossing, n: int)
    requires
        0 <= n <= crossings.len(),
    ensures
        winding(crossings.push(more), n) == winding(crossings, n),
    decreases n,
{
    if n > 0 {
        lemma_winding_of_front(crossings, more, n - 1);
    }
}

proof fn lemma_inserted_winding(sorted: Seq<Crossing>, c: Crossing)
    ensures
        inserted(sorted, c).len() == sorted.len() + 1,
        winding(inserted(sorted, c), (sorted.len() + 1) as int) == winding(sorted, sorted.len() as int)
            + c.direction,
    decreases sorted.len(),
{
    if sorted.len() > 0 && singles::is_less(c.x, sorted.last().x) {
        let front = sorted.drop_last();
        lemma_inserted_winding(front, c);
        lemma_winding_of_front(inserted(front, c), sorted.last(), sorted.len() as int);
        lemma_winding_of_front(front, sorted.last(), front.len() as int);
        assert(front.push(sorted.last()) =~= sorted);
    } else {
        lemma_winding_of_front(sorted, c, sorted.len() as int);
    }
}

proof fn lemma_sorted_winding(crossings: Seq<Crossing>)
    ensures
        stably_sorted(crossings).len() == crossings.len(),
        winding(stably_sorted(crossings), crossings.len() as int) == winding(
            crossings,
            crossings.len() as int,
        ),
    decreases crossings.len(),
{
    if crossings.len() > 0 {
        let front = crossings.drop_last();
        lemma_sorted_winding(front);
        lemma_inserted_winding(stably_sorted(front), crossings.last());
        lemma_winding_of_front(front, crossings.last(), front.len() as int);
        assert(front.push(crossings.last()) =~= crossings);
    }
}

/// A pixel of a line is filled if and only if the crossings of the line up to the
/// pixel's middle leave it inside of the polygons. `found` are the places where the
/// sides of the polygons cross the line.
pub proof fn law_filled_is_inside(
    polygons: Seq<Vec<Point>>,
    y: u32,
    found: Seq<Crossing>,
    even_odd: bool,
    width: i32,
    column: int,
)
    requires
        singles::is_finite(y),
        are_crossings_of(
            found,
            crossed(
                edges_of(polygons, polygons.len() as int),
                y,
                edges_of(polygons, polygons.len() as int).len() as int,
            ),
        ),
        columns_grow(stably_sorted(found)),
        0 <= column < width,
    ensures
        ({
            let crossings = stably_sorted(found);
            let spans = spans_of(crossings, even_odd, width, crossings.len() - 1);
            (exists|s: int| 0 <= s < spans.len() && covers(#[trigger] spans[s], column))
                <==> is_inside(
                crossings,
                even_odd,
                passed(crossings, column, crossings.len() as int),
            )
        }),
{
    let edges = edges_of(polygons, polygons.len() as int);
    let through = crossed(edges, y, edges.len() as int);
    let crossings = stably_sorted(found);
    let all = crossings.len() as int;
    law_crossings_cancel(polygons, y);
    lemma_sorted_winding(found);
    lemma_winding_is_turning(found, through, all);
    assert(through.take(all) =~= through);
    lemma_passed(crossings, column, all);
    if all > 0 {
        lemma_spans(crossings, even_odd, width, column, all - 1);
    }
}

/// A line of a stroke, between two points of a part of a path, and at which ends it
/// goes on by half of its width.
#[derive(Clone, Copy, Debug, PartialEq, Eq, Structural)]
pub struct StrokeSegment {
    pub from: Point,
    pub to: Point,
    pub extend_start: bool,
    pub extend_end: bool,
}

/// How many lines a part of a path has.
pub open spec fn segment_count(points: nat, closed: bool) -> int {
    if points < 2 {
        0
    } else if closed {
        points as int
    } else {
        points - 1
    }
}

/// The lines of a part of a path. All ends go on but those of an open part.
pub open spec fn segment_at(points: Seq<Point>, closed: bool, i: int) -> StrokeSegment {
    StrokeSegment {
        from: points[i],
        to: next_point(points, i),
        extend_start: closed || i > 0,
        extend_end: closed || i + 1 < segment_count(points.len(), closed),
    }
}

pub fn stroke_segments(subpath: &SubPath) -> (segments: Vec<StrokeSegment>)
    ensures
        segments@ == Seq::new(
            segment_count(subpath.points@.len(), subpath.closed) as nat,
            |i: int| segment_at(subpath.points@, subpath.closed, i),
        ),
{
    let mut segments: Vec<StrokeSegment> = Vec::new();
    let n: usize = subpath.points.len();
    if n < 2 {
        return segments;
    }
    let count: usize = if subpath.closed {
        n
    } else {
        n - 1
    };
    let mut i: usize = 0;
    while i < count
        invariant
            i <= count,
            n == subpath.points@.len(),
            n >= 2,
            count == segment_count(n as nat, subpath.closed),
            segments@ == Seq::new(
                i as nat,
                |k: int| segment_at(subpath.points@, subpath.closed, k),
            ),
        decreases count - i,
    {
        let to: Point = if i + 1 < n {
            subpath.points[i + 1]
        } else {
            subpath.points[0]
        };
        segments.push(
            StrokeSegment {
                from: subpath.points[i],
                to,
                extend_start: subpath.closed || i > 0,
                extend_end: subpath.closed || i + 1 < count,
            },
        );
        i = i + 1;
        assert(segments@ =~= Seq::new(
            i as nat,
            |k: int| segment_at(subpath.points@, subpath.closed, k),
        ));
    }
    segments
}

/// A polygon is closed: its last point leads back to its first. It is filled if it has
/// three points, none of them without a place.
pub proof fn law_polygon(polygon: Seq<Point>, i: int)
    requires
        polygon.len() > 0,
    ensures
        next_point(polygon, polygon.len() - 1) == polygon[0],
        0 <= i && i + 1 < polygon.len() ==> next_point(polygon, i) == polygon[i + 1],
        polygon.len() < 3 ==> !is_fillable(polygon),
        0 <= i < polygon.len() && !(singles::is_finite(polygon[i].x) && singles::is_finite(
            polygon[i].y,
        )) ==> !is_fillable(polygon),
        polygon.len() >= 3 && (forall|k: int|
            0 <= k < polygon.len() ==> singles::is_finite((#[trigger] polygon[k]).x)
                && singles::is_finite(polygon[k].y)) ==> is_fillable(polygon),
{
}

/// A side from one point to the next is an edge, which goes up or down, unless it is level.
pub proof fn law_sides(polygon: Seq<Point>, n: int)
    requires
        0 <= n < polygon.len(),
        singles::is_finite(polygon[n].y),
        singles::is_finite(next_point(polygon, n).y),
    ensures
        sides(polygon, 0).len() == 0,
        ({
            let (from, to) = (polygon[n], next_point(polygon, n));
            let (low, high) = (singles::rank(from.y), singles::rank(to.y));
            &&& low == high ==> sides(polygon, n + 1) == sides(polygon, n)
            &&& low < high ==> sides(polygon, n + 1) == sides(polygon, n).push(
                Edge { from, to, direction: 1 },
            )
            &&& low > high ==> sides(polygon, n + 1) == sides(polygon, n).push(
                Edge { from, to, direction: -1i32 },
            )
        }),
{
}

/// A line crosses an edge from its lower end on and up to its upper end, which does not
/// belong to it, whichever way it goes.
pub proof fn law_crossing(edge: Edge, y: u32)
    requires
        singles::is_finite(edge.from.y),
        singles::is_finite(edge.to.y),
        singles::is_finite(y),
    ensures
        ({
            let (a, b, at) = (
                singles::rank(edge.from.y),
                singles::rank(edge.to.y),
                singles::rank(y),
            );
            is_crossing(edge, y) <==> (a <= at < b) || (b <= at < a)
        }),
        is_crossing(edge, y) == is_crossing(
            Edge { from: edge.to, to: edge.from, direction: edge.direction },
            y,
        ),
{
}

/// A crossing is put behind all that are not to the right of it.
pub proof fn law_inserted(left: Seq<Crossing>, right: Seq<Crossing>, c: Crossing)
    requires
        left.len() > 0 ==> !singles::is_less(c.x, left.last().x),
        forall|k: int| 0 <= k < right.len() ==> singles::is_less(c.x, (#[trigger] right[k]).x),
    ensures
        inserted(left + right, c) == left.push(c) + right,
        stably_sorted(Seq::empty()) == Seq::<Crossing>::empty(),
        stably_sorted(left.push(c)) == inserted(stably_sorted(left), c),
    decreases right.len(),
{
    let whole = left + right;
    assert(left.push(c).drop_last() =~= left);
    if right.len() > 0 {
        let rest = right.drop_last();
        assert(singles::is_less(c.x, right[right.len() - 1].x));
        assert(whole.last() == right.last());
        assert(whole.drop_last() =~= left + rest);
        law_inserted(left, rest, c);
        assert((left.push(c) + rest).push(right.last()) =~= left.push(c) + right);
    } else {
        assert(whole =~= left);
        assert(left.push(c) + right =~= left.push(c));
    }
}

/// Sorted crossings stand from left to right, and are those that there were.
pub proof fn law_sorted(crossings: Seq<Crossing>)
    requires
        are_numbers(crossings),
    ensures
        are_numbers(stably_sorted(crossings)),
        are_sorted(stably_sorted(crossings)),
        stably_sorted(crossings).to_multiset() == crossings.to_multiset(),
    decreases crossings.len(),
{
    broadcast use vstd::seq_lib::group_to_multiset_ensures;

    if crossings.len() > 0 {
        let rest = crossings.drop_last();
        let c = crossings.last();
        assert(!singles::is_nan(crossings[crossings.len() - 1].x));
        assert forall|i: int| 0 <= i < rest.len() implies !singles::is_nan(#[trigger] rest[i].x) by {
            assert(!singles::is_nan(crossings[i].x));
        }
        law_sorted(rest);
        lemma_inserted_is_sorted(stably_sorted(rest), c);
        assert(rest.push(c) =~= crossings);
    }
}

proof fn lemma_inserted_is_sorted(sorted: Seq<Crossing>, c: Crossing)
    requires
        are_numbers(sorted),
        are_sorted(sorted),
        !singles::is_nan(c.x),
    ensures
        are_numbers(inserted(sorted, c)),
        are_sorted(inserted(sorted, c)),
        inserted(sorted, c).to_multiset() == sorted.to_multiset().insert(c),
        forall|d: Crossing| #[trigger]
            inserted(sorted, c).contains(d) <==> sorted.contains(d) || d == c,
    decreases sorted.len(),
{
    broadcast use vstd::seq_lib::group_to_multiset_ensures;

    let after = inserted(sorted, c);
    if sorted.len() > 0 && singles::is_less(c.x, sorted.last().x) {
        let front = sorted.drop_last();
        let last = sorted.last();
        assert forall|i: int| 0 <= i < front.len() implies !singles::is_nan(
            #[trigger] front[i].x,
        ) by {
            assert(!singles::is_nan(sorted[i].x));
        }
        assert forall|i: int, j: int| 0 <= i <= j < front.len() implies !singles::is_less(
            (#[trigger] front[j]).x,
            (#[trigger] front[i]).x,
        ) by {
            assert(!singles::is_less(sorted[j].x, sorted[i].x));
        }
        lemma_inserted_is_sorted(front, c);
        let before = inserted(front, c);
        assert(!singles::is_nan(sorted[sorted.len() - 1].x));
        assert forall|i: int| 0 <= i < before.len() implies !singles::is_less(
            last.x,
            (#[trigger] before[i]).x,
        ) by {
            assert(before.contains(before[i]));
            if before[i] != c {
                let k = choose|k: int| 0 <= k < front.len() && front[k] == before[i];
                assert(!singles::is_less(sorted[sorted.len() - 1].x, sorted[k].x));
            }
        }
        assert forall|i: int, j: int| 0 <= i <= j < after.len() implies !singles::is_less(
            (#[trigger] after[j]).x,
            (#[trigger] after[i]).x,
        ) by {
            if j < before.len() {
                assert(!singles::is_less(before[j].x, before[i].x));
            } else if i < before.len() {
                assert(!singles::is_less(last.x, before[i].x));
            }
        }
        assert(front.push(last) =~= sorted);
        assert(after.to_multiset() =~= sorted.to_multiset().insert(c));
        assert forall|d: Crossing| #[trigger] after.contains(d) <==> sorted.contains(d) || d
            == c by {
            lemma_contains_pushed(before, last, d);
            lemma_contains_pushed(front, last, d);
            assert(before.contains(d) <==> front.contains(d) || d == c);
        }
    } else {
        assert forall|i: int, j: int| 0 <= i <= j < after.len() implies !singles::is_less(
            (#[trigger] after[j]).x,
            (#[trigger] after[i]).x,
        ) by {
            if j < sorted.len() {
                assert(!singles::is_less(sorted[j].x, sorted[i].x));
            } else if i < sorted.len() {
                assert(!singles::is_less(sorted[sorted.len() - 1].x, sorted[i].x));
                assert(!singles::is_nan(sorted[i].x));
                assert(!singles::is_nan(sorted[sorted.len() - 1].x));
            }
        }
        assert forall|d: Crossing| #[trigger] after.contains(d) <==> sorted.contains(d) || d
            == c by {
            lemma_contains_pushed(sorted, c, d);
        }
    }
}

proof fn lemma_contains_pushed(s: Seq<Crossing>, last: Crossing, d: Crossing)
    ensures
        s.push(last).contains(d) <==> s.contains(d) || d == last,
{
    if s.contains(d) {
        let k = choose|k: int| 0 <= k < s.len() && s[k] == d;
        assert(s.push(last)[k] == d);
    }
    assert(s.push(last)[s.len() as int] == last);
    if s.push(last).contains(d) && d != last {
        let k = choose|k: int| 0 <= k < s.push(last).len() && s.push(last)[k] == d;
        assert(s[k] == d);
    }
}

/// By the even-odd rule one is inside behind an odd number of crossings, and else where
/// more of them have gone one way than the other.
pub proof fn law_inside(crossings: Seq<Crossing>, c: Crossing, n: int)
    requires
        0 <= n < crossings.len(),
    ensures
        winding(crossings, 0) == 0,
        winding(crossings, n + 1) == winding(crossings, n) + crossings[n].direction,
        is_inside(crossings, true, n + 1) == !is_inside(crossings, true, n),
        !is_inside(crossings, true, 0) && !is_inside(crossings, false, 0),
        is_inside(crossings, false, n) <==> winding(crossings, n) != 0,
{
}

/// A span covers the columns of the picture from that of its one crossing to that before
/// the other.
pub proof fn law_span(from: Crossing, to: Crossing, width: i32, column: int)
    requires
        0 <= column < width,
    ensures
        covers(span_between(from, to, width), column) <==> from.column <= column < to.column,
        0 <= span_between(from, to, width).0,
        span_between(from, to, width).1 <= width,
{
}

/// A stroke has a segment between any two points that follow each other, and one back to
/// the first if it is closed. A segment is extended where another one goes on.
pub proof fn law_segments(points: Seq<Point>, i: int)
    ensures
        points.len() < 2 ==> segment_count(points.len(), true) == 0 && segment_count(
            points.len(),
            false,
        ) == 0,
        points.len() >= 2 ==> segment_count(points.len(), true) == points.len() && segment_count(
            points.len(),
            false,
        ) + 1 == points.len(),
        points.len() >= 2 ==> {
            let back = segment_at(points, true, points.len() - 1);
            back.from == points.last() && back.to == points[0] && back.extend_start
                && back.extend_end
        },
        0 <= i && i + 1 < points.len() ==> {
            let open = segment_at(points, false, i);
            let closed = segment_at(points, true, i);
            &&& open.from == points[i] && open.to == points[i + 1]
            &&& closed.from == points[i] && closed.to == points[i + 1]
            &&& closed.extend_start && closed.extend_end
            &&& open.extend_start <==> i > 0
            &&& open.extend_end <==> i + 2 < points.len()
        },
{
}

} // verus!
