//! Which points and resources are marked, and where.

use vstd::prelude::*;

use crate::binary32::order;
use crate::binary32::Binary32;
use crate::resource::Resource;
use crate::spot::{Area, Spot};
use crate::ui::draw::Mark;
use crate::ui::OverlayApp;

verus! {

/// A place whose coordinates are numbers.
pub open spec fn is_finite_spot(p: Spot) -> bool {
    p.x.is_finite_spec() && p.y.is_finite_spec()
}

/// An area holds the places from its one corner to the other, along each axis.
pub proof fn an_area_holds_the_places_between_its_corners(area: Area, p: Spot)
    requires
        is_finite_spot(area.min),
        is_finite_spot(area.max),
        is_finite_spot(p),
    ensures
        area.holds(p) <==> area.min.x.value() <= p.x.value() <= area.max.x.value()
            && area.min.y.value() <= p.y.value() <= area.max.y.value(),
{
    order::lemma_order_of_values(area.min.x, p.x);
    order::lemma_order_of_values(p.x, area.max.x);
    order::lemma_order_of_values(area.min.y, p.y);
    order::lemma_order_of_values(p.y, area.max.y);
}

/// The `k`th line joins the `k`th point and the next.
pub open spec fn joins(a: &OverlayApp, center: Spot, k: int, m: Mark) -> bool {
    let base = a.cfg.route.color@;
    m matches Mark::Segment { from, to, width, color } && {
        &&& from == a.on_screen(a.moved(a.points()[k]), center)
        &&& to == a.on_screen(a.moved(a.points()[k + 1]), center)
        &&& width == a.cfg.route.line_width
        &&& color.r == base[0] && color.g == base[1] && color.b == base[2]
        &&& !a.row()[k] ==> color.a == base[3]
    }
}

proof fn lemma_lines(a: &OverlayApp, center: Spot, n: int)
    requires
        n >= 1,
    ensures
        a.lines(center, n).len() == n - 1,
        forall|k: int| 0 <= k < n - 1 ==> joins(a, center, k, #[trigger] a.lines(center, n)[k]),
    decreases n,
{
    if n > 1 {
        lemma_lines(a, center, n - 1);
        let before = a.lines(center, n - 1);
        assert forall|k: int| 0 <= k < n - 1 implies joins(
            a,
            center,
            k,
            #[trigger] a.lines(center, n)[k],
        ) by {
            if k < n - 2 {
                assert(a.lines(center, n)[k] == before[k]);
            }
        }
    }
}

/// A route whose points are in order is drawn as lines from each point to the next, below
/// all else; a line keeps its colour until the point that it starts at has been reached.
pub proof fn the_lines_of_a_route_join_its_points_in_order(
    a: &OverlayApp,
    area: Area,
    center: Spot,
    k: int,
)
    requires
        a.has_route(),
        a.routes@[a.selected as int].is_path,
        0 <= k < a.points().len() - 1,
    ensures
        k < a.route_shown(area, center).len(),
        joins(a, center, k, a.route_shown(area, center)[k]),
{
    let n = a.points().len() as int;
    lemma_lines(a, center, n);
    assert(a.route_shown(area, center)[k] == a.lines(center, n)[k]);
}

/// The marks of a point stand where those of the earlier points end.
proof fn lemma_dot_in_dots(a: &OverlayApp, area: Area, center: Spot, n: int, i: int, m: int)
    requires
        0 <= i < n,
        0 <= m < a.dot(area, center, i).len(),
    ensures
        a.dots(area, center, i).len() + m < a.dots(area, center, n).len(),
        a.dots(area, center, n)[a.dots(area, center, i).len() + m] == a.dot(area, center, i)[m],
    decreases n,
{
    if i < n - 1 {
        lemma_dot_in_dots(a, area, center, n - 1, i, m);
    }
}

/// `marks` holds a disc at `at`, and right above it a ring around it, at the place `j`.
pub open spec fn is_dotted(marks: Seq<Mark>, j: int, at: Spot, radius: Binary32) -> bool {
    &&& 0 <= j < marks.len() - 1
    &&& marks[j] matches Mark::Disc { at: there, radius: r, .. } && there == at && r == radius
    &&& marks[j + 1] matches Mark::Ring { at: there, radius: r, .. } && there == at && r
        == radius.plus(Binary32::one())
}

/// Every point of the route that is seen has its disc and its ring.
pub proof fn a_point_that_is_seen_is_marked(a: &OverlayApp, area: Area, center: Spot, i: int)
    requires
        a.has_route(),
        0 <= i < a.points().len(),
        area.holds(a.on_screen(a.moved(a.points()[i]), center)),
    ensures
        exists|j: int| #[trigger]
            is_dotted(
                a.route_shown(area, center),
                j,
                a.on_screen(a.moved(a.points()[i]), center),
                a.cfg.route.point_radius,
            ),
{
    let n = a.points().len() as int;
    let dots = a.dots(area, center, n);
    let shown = a.route_shown(area, center);
    let under = shown.len() - dots.len();
    let at = a.on_screen(a.moved(a.points()[i]), center);
    assert(at == a.point_at(i, center));
    lemma_dot_in_dots(a, area, center, n, i, 0);
    lemma_dot_in_dots(a, area, center, n, i, 1);
    let j = under + a.dots(area, center, i).len();
    assert(shown[j] == dots[j - under]);
    assert(shown[j + 1] == dots[j + 1 - under]);
    assert(is_dotted(shown, j, at, a.cfg.route.point_radius));
}

/// The `i`th point of the route is seen, at `at`.
pub open spec fn is_seen_at(a: &OverlayApp, area: Area, center: Spot, i: int, at: Spot) -> bool {
    &&& 0 <= i < a.points().len()
    &&& at == a.on_screen(a.moved(a.points()[i]), center)
    &&& area.holds(at)
}

/// A disc is at a point that is seen, and a label above one that has a text.
pub open spec fn is_of_a_point(a: &OverlayApp, area: Area, center: Spot, m: Mark) -> bool {
    match m {
        Mark::Disc { at, .. } => exists|i: int| #[trigger] is_seen_at(a, area, center, i, at),
        Mark::Label { point, .. } => {
            let p = a.on_screen(a.moved(a.points()[point as int]), center);
            &&& a.show_point_labels
            &&& is_seen_at(a, area, center, point as int, p)
            &&& a.points()[point as int].label is Some
        },
        Mark::Ring { at, .. } => exists|i: int| #[trigger] is_seen_at(a, area, center, i, at),
        _ => false,
    }
}

proof fn lemma_marks_are_of_points(a: &OverlayApp, area: Area, center: Spot, n: int, j: int)
    requires
        0 <= n <= a.points().len(),
        n <= usize::MAX,
        0 <= j < a.dots(area, center, n).len(),
    ensures
        is_of_a_point(a, area, center, a.dots(area, center, n)[j]),
    decreases n,
{
    if n > 0 {
        let before = a.dots(area, center, n - 1);
        if j < before.len() {
            lemma_marks_are_of_points(a, area, center, n - 1, j);
            assert(a.dots(area, center, n)[j] == before[j]);
        } else {
            let dot = a.dot(area, center, n - 1);
            assert(a.dots(area, center, n)[j] == dot[j - before.len()]);
            let m = j - before.len();
            let at = a.point_at(n - 1, center);
            assert(is_seen_at(a, area, center, n - 1, at));
            if m == 0 {
                assert(dot[m] matches Mark::Disc { at: there, .. } && there == at);
            } else if m == 1 {
                assert(dot[m] matches Mark::Ring { at: there, .. } && there == at);
            } else {
                assert(m == 2);
                assert(((n - 1) as usize) as int == n - 1);
                assert(dot[m] matches Mark::Label { point, .. } && point as int == n - 1);
            }
        }
    }
}

/// What is drawn of the points of a route without lines is drawn of points that are
/// seen, and no label is drawn that is not asked for.
pub proof fn only_points_that_are_seen_are_marked(
    a: &OverlayApp,
    area: Area,
    center: Spot,
    j: int,
)
    requires
        a.has_route(),
        !a.routes@[a.selected as int].is_path,
        a.points().len() <= usize::MAX,
        0 <= j < a.route_shown(area, center).len(),
    ensures
        is_of_a_point(a, area, center, a.route_shown(area, center)[j]),
{
    let n = a.points().len() as int;
    lemma_marks_are_of_points(a, area, center, n, j);
    assert(a.route_shown(area, center)[j] == a.dots(area, center, n)[j]);
}

/// The `i`th of the resources is of a kind that is shown, and it is seen at `at`.
pub open spec fn is_found_at(a: &OverlayApp, area: Area, center: Spot, i: int, at: Spot) -> bool {
    let res: Resource = a.resources@[i];
    &&& a.show_resource@[res.kind.place()]
    &&& at == a.on_screen(Spot { x: res.x, y: res.y }, center)
    &&& area.holds(at)
}

/// The `j`th of the marks is the sign of the `i`th resource.
pub open spec fn is_sign_of(
    a: &OverlayApp,
    area: Area,
    center: Spot,
    marks: Seq<Mark>,
    j: int,
    i: int,
) -> bool {
    &&& 0 <= j < marks.len()
    &&& marks[j] matches Mark::Icon { at, kind } && kind == a.resources@[i].kind && is_found_at(
        a,
        area,
        center,
        i,
        at,
    )
}

/// Each resource of a kind that is shown has its sign where it is seen.
pub proof fn a_resource_that_is_seen_has_its_sign(
    a: &OverlayApp,
    area: Area,
    center: Spot,
    n: int,
    i: int,
    at: Spot,
)
    requires
        0 <= i < n <= a.resources@.len(),
        is_found_at(a, area, center, i, at),
    ensures
        exists|j: int| #[trigger]
            is_sign_of(a, area, center, a.icons(area, center, n), j, i),
    decreases n,
{
    let marks = a.icons(area, center, n);
    let before = a.icons(area, center, n - 1);
    if i == n - 1 {
        assert(is_sign_of(a, area, center, marks, before.len() as int, i));
    } else {
        a_resource_that_is_seen_has_its_sign(a, area, center, n - 1, i, at);
        let j = choose|j: int| #[trigger] is_sign_of(a, area, center, before, j, i);
        assert(marks[j] == before[j]);
        assert(is_sign_of(a, area, center, marks, j, i));
    }
}

/// Each sign is that of a resource of a kind that is shown, and it is there that the
/// resource is seen.
pub proof fn a_sign_is_that_of_a_resource(
    a: &OverlayApp,
    area: Area,
    center: Spot,
    n: int,
    j: int,
)
    requires
        0 <= n <= a.resources@.len(),
        0 <= j < a.icons(area, center, n).len(),
    ensures
        exists|i: int|
            0 <= i < n && #[trigger] is_sign_of(
                a,
                area,
                center,
                a.icons(area, center, n),
                j,
                i,
            ),
    decreases n,
{
    if n > 0 {
        let marks = a.icons(area, center, n);
        let before = a.icons(area, center, n - 1);
        if j < before.len() {
            a_sign_is_that_of_a_resource(a, area, center, n - 1, j);
            let i = choose|i: int|
                0 <= i < n - 1 && #[trigger] is_sign_of(a, area, center, before, j, i);
            assert(marks[j] == before[j]);
            assert(is_sign_of(a, area, center, marks, j, i));
        } else {
            assert(is_sign_of(a, area, center, marks, j, n - 1));
        }
    }
}

} // verus!
