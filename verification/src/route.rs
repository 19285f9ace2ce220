//! Routes: points on the map to visit.

use vstd::prelude::*;
use vstd::string::*;

use crate::binary32::Binary32;
use crate::text;

verus! {

/// A point of a route, in pixels of the map before the route is moved.
#[derive(Clone, Debug)]
pub struct RoutePoint {
    pub x: Binary32,
    pub y: Binary32,
    pub label: Option<String>,
}

/// A route, from one file.
#[derive(Clone, Debug)]
pub struct Route {
    pub name: String,
    pub points: Vec<RoutePoint>,
    /// The points are visited in order, not a mere collection.
    pub is_path: bool,
    /// How the route is moved, across and down, unless the user changes it.
    pub default_offset: [Binary32; 2],
    /// How the route is stretched, across and down, unless the user changes it.
    pub default_scale: [Binary32; 2],
}

/// What a file of a route says.
pub struct ExternalRouteFile {
    pub name: Option<String>,
    pub offset_x: Binary32,
    pub offset_y: Binary32,
    pub scale_x: Binary32,
    pub scale_y: Binary32,
    /// Points in order.
    pub points: Vec<RoutePoint>,
    /// Points without an order.
    pub items: Vec<RoutePoint>,
}

/// The stretch of a route whose file gives none.
pub fn default_scale() -> (r: Binary32)
    ensures
        r == Binary32::one(),
{
    Binary32::one()
}

/// The route in a file: named as the file says, or else after the file, and
/// made of the points in order if there are any.
pub fn from_file(file: ExternalRouteFile, stem: &str) -> (r: Route)
    ensures
        r.name@ == match file.name {
            Some(name) => name@,
            None => stem@,
        },
        r.is_path == (file.points@.len() > 0),
        r.points@ == if file.points@.len() > 0 {
            file.points@
        } else {
            file.items@
        },
        r.default_offset@ == seq![file.offset_x, file.offset_y],
        r.default_scale@ == seq![file.scale_x, file.scale_y],
{
    let name: String = match file.name {
        Some(name) => name,
        None => stem.to_owned(),
    };
    let is_path: bool = file.points.len() > 0;
    let points: Vec<RoutePoint> = if is_path {
        file.points
    } else {
        file.items
    };
    let default_offset: [Binary32; 2] = [file.offset_x, file.offset_y];
    let default_scale: [Binary32; 2] = [file.scale_x, file.scale_y];
    assert(default_offset@ =~= seq![file.offset_x, file.offset_y]);
    assert(default_scale@ =~= seq![file.scale_x, file.scale_y]);
    Route { name, points, is_path, default_offset, default_scale }
}

/// A file name with something before the ending `.json`.
pub open spec fn is_json(name: Seq<char>) -> bool {
    name.len() > 5 && name.skip(name.len() - 5) == seq!['.', 'j', 's', 'o', 'n']
}

/// The part of the name of a `.json` file before its ending.
pub fn stem_of(name: &str) -> (r: Option<&str>)
    ensures
        match r {
            None => !is_json(name@),
            Some(stem) => is_json(name@) && stem@ == name@.take(name@.len() - 5),
        },
{
    let n: usize = name.unicode_len();
    if n <= 5 {
        return None;
    }
    if name.get_char(n - 5) == '.' && name.get_char(n - 4) == 'j' && name.get_char(n - 3) == 's'
        && name.get_char(n - 2) == 'o' && name.get_char(n - 1) == 'n' {
        assert(name@.skip(n - 5) =~= seq!['.', 'j', 's', 'o', 'n']);
        let stem: &str = name.substring_char(0, n - 5);
        assert(stem@ =~= name@.take(n - 5));
        Some(stem)
    } else {
        proof {
            if is_json(name@) {
                let tail = name@.skip(n - 5);
                assert(tail[0] == name@[n - 5] && tail[1] == name@[n - 4] && tail[2] == name@[n - 3]
                    && tail[3] == name@[n - 2] && tail[4] == name@[n - 1]);
            }
        }
        None
    }
}

/// Of two names, the first comes before the second: by their text, and by
/// their place where the texts are the same.
pub open spec fn comes_first(names: Seq<Seq<char>>, i: int, j: int) -> bool {
    text::precedes(names[i], names[j]) || (names[i] == names[j] && i < j)
}

/// The places of the `.json` names, in the order in which they are read.
pub open spec fn in_order(names: Seq<Seq<char>>, order: Seq<usize>, n: int) -> bool {
    &&& forall|k: int|
        0 <= k < order.len() ==> (#[trigger] order[k]) < n && is_json(names[order[k] as int])
    &&& forall|i: int| 0 <= i < n && #[trigger] is_json(names[i]) ==> order.contains(i as usize)
    &&& forall|k: int, l: int|
        0 <= k < l < order.len() ==> comes_first(
            names,
            #[trigger] order[k] as int,
            #[trigger] order[l] as int,
        )
}

/// Which files of a directory hold routes, by their places, in the order in
/// which they are read: every `.json` file once, by name.
pub fn route_files(names: &Vec<String>) -> (order: Vec<usize>)
    ensures
        in_order(text::views(names@), order@, names@.len() as int),
{
    let ghost all = text::views(names@);
    let mut order: Vec<usize> = Vec::new();
    let mut i: usize = 0;
    while i < names.len()
        invariant
            0 <= i <= names@.len(),
            all == text::views(names@),
            in_order(all, order@, i as int),
        decreases names@.len() - i,
    {
        if stem_of(names[i].as_str()).is_some() {
            let mut p: usize = order.len();
            while p > 0 && text::less(names[i].as_str(), names[order[p - 1]].as_str())
                invariant
                    0 <= i < names@.len(),
                    all == text::views(names@),
                    in_order(all, order@, i as int),
                    0 <= p <= order@.len(),
                    forall|k: int|
                        p <= k < order@.len() ==> text::precedes(
                            all[i as int],
                            all[#[trigger] order@[k] as int],
                        ),
                decreases p,
            {
                p = p - 1;
            }
            let ghost before = order@;
            order.insert(p, i);
            proof {
                lemma_inserted(all, before, p as int, i);
            }
        }
        i = i + 1;
    }
    order
}

proof fn lemma_inserted(names: Seq<Seq<char>>, order: Seq<usize>, p: int, i: usize)
    requires
        i < names.len(),
        in_order(names, order, i as int),
        0 <= p <= order.len(),
        is_json(names[i as int]),
        forall|k: int|
            p <= k < order.len() ==> text::precedes(
                names[i as int],
                names[#[trigger] order[k] as int],
            ),
        p > 0 ==> !text::precedes(names[i as int], names[order[p - 1] as int]),
    ensures
        in_order(names, order.insert(p, i), i + 1),
{
    let after = order.insert(p, i);
    assert forall|k: int| 0 <= k < p implies comes_first(
        names,
        #[trigger] order[k] as int,
        i as int,
    ) by {
        let near = order[p - 1] as int;
        text::lemma_one_precedes(names[near], names[i as int]);
        assert(comes_first(names, near, i as int));
        if k < p - 1 {
            assert(comes_first(names, order[k] as int, near));
            if text::precedes(names[order[k] as int], names[near]) && text::precedes(
                names[near],
                names[i as int],
            ) {
                text::lemma_precedes_transitive(
                    names[order[k] as int],
                    names[near],
                    names[i as int],
                );
            }
        }
    }
    assert forall|k: int, l: int| 0 <= k < l < after.len() implies comes_first(
        names,
        #[trigger] after[k] as int,
        #[trigger] after[l] as int,
    ) by {
        if l < p {
            assert(after[k] == order[k] && after[l] == order[l]);
        } else if l == p {
            assert(after[k] == order[k]);
        } else if k < p {
            assert(after[k] == order[k] && after[l] == order[l - 1]);
        } else if k == p {
            assert(after[l] == order[l - 1]);
        } else {
            assert(after[k] == order[k - 1] && after[l] == order[l - 1]);
        }
    }
    assert forall|j: int| 0 <= j < i + 1 && #[trigger] is_json(names[j]) implies after.contains(
        j as usize,
    ) by {
        if j == i {
            assert(after[p] == i);
        } else {
            let k = choose|k: int| 0 <= k < order.len() && order[k] == j as usize;
            assert(after[if k < p {
                k
            } else {
                k + 1
            }] == j as usize);
        }
    }
    assert forall|k: int| 0 <= k < after.len() implies (#[trigger] after[k]) < i + 1 && is_json(
        names[after[k] as int],
    ) by {
        if k < p {
            assert(after[k] == order[k]);
        } else if k > p {
            assert(after[k] == order[k - 1]);
        }
    }
}

/// There is only one order in which the files can be read.
pub proof fn the_order_of_files_is_fixed(names: Seq<Seq<char>>, a: Seq<usize>, b: Seq<usize>)
    requires
        names.len() <= usize::MAX,
        in_order(names, a, names.len() as int),
        in_order(names, b, names.len() as int),
    ensures
        a == b,
{
    lemma_same_prefix(names, a, b, a.len() as int);
    lemma_same_prefix(names, b, a, b.len() as int);
    assert(a =~= b);
}

proof fn lemma_same_prefix(names: Seq<Seq<char>>, a: Seq<usize>, b: Seq<usize>, n: int)
    requires
        names.len() <= usize::MAX,
        in_order(names, a, names.len() as int),
        in_order(names, b, names.len() as int),
        0 <= n <= a.len(),
    ensures
        n <= b.len(),
        forall|k: int| 0 <= k < n ==> a[k] == b[k],
    decreases n,
{
    if n > 0 {
        lemma_same_prefix(names, a, b, n - 1);
        let i = a[n - 1] as int;
        assert(is_json(names[i]));
        assert(b.contains(i as usize));
        let l = choose|l: int| 0 <= l < b.len() && b[l] == i as usize;
        if l < n - 1 {
            assert(a[l] == b[l]);
            assert(comes_first(names, a[l] as int, a[n - 1] as int));
            text::lemma_one_precedes(names[i], names[i]);
        } else if l > n - 1 {
            let j = b[n - 1] as int;
            assert(is_json(names[j]));
            assert(a.contains(j as usize));
            let k = choose|k: int| 0 <= k < a.len() && a[k] == j as usize;
            assert(comes_first(names, b[n - 1] as int, b[l] as int));
            text::lemma_one_precedes(names[i], names[j]);
            if k < n - 1 {
                assert(a[k] == b[k]);
                assert(comes_first(names, b[k] as int, b[n - 1] as int));
                text::lemma_one_precedes(names[j], names[j]);
            } else if k > n - 1 {
                assert(comes_first(names, a[n - 1] as int, a[k] as int));
            }
        }
    }
}

} // verus!
