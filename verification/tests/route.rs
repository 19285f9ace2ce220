use roco_nav::binary32::Binary32;
use roco_nav::route::{default_scale, from_file, route_files, stem_of, ExternalRouteFile, RoutePoint};

fn of(x: f32) -> Binary32 {
    Binary32::of_bits(x.to_bits())
}

fn point(x: f32, y: f32, label: Option<&str>) -> RoutePoint {
    RoutePoint { x: of(x), y: of(y), label: label.map(|s| s.to_string()) }
}

fn file(name: Option<&str>, points: Vec<RoutePoint>, items: Vec<RoutePoint>) -> ExternalRouteFile {
    ExternalRouteFile {
        name: name.map(|s| s.to_string()),
        offset_x: of(1.0),
        offset_y: of(-2.0),
        scale_x: of(3.0),
        scale_y: default_scale(),
        points,
        items,
    }
}

#[test]
fn points_in_order_come_before_mere_items() {
    let r = from_file(
        file(Some("n"), vec![point(1.0, 2.0, Some("a"))], vec![point(9.0, 9.0, None)]),
        "stem",
    );
    assert_eq!(r.name, "n");
    assert!(r.is_path);
    assert_eq!(r.points.len(), 1);
    assert_eq!(r.points[0].label.as_deref(), Some("a"));
    assert_eq!((r.points[0].x, r.points[0].y), (of(1.0), of(2.0)));
    assert_eq!(r.default_offset, [of(1.0), of(-2.0)]);
    assert_eq!(r.default_scale, [of(3.0), of(1.0)]);
}

#[test]
fn items_are_a_collection_named_after_the_file() {
    let r = from_file(file(None, Vec::new(), vec![point(9.0, 8.0, None), point(7.0, 6.0, None)]), "矿区");
    assert_eq!(r.name, "矿区");
    assert!(!r.is_path);
    assert_eq!(r.points.len(), 2);
    let empty = from_file(file(None, Vec::new(), Vec::new()), "e");
    assert!(!empty.is_path && empty.points.is_empty());
}

#[test]
fn stems_and_endings_agree_with_paths() {
    let names =
        ["a.json", ".json", "..json", "json", "a.JSON", "a.json.bak", "路线.json", "a.b.json", "x.jso"];
    for n in names {
        let p = std::path::Path::new(n);
        let json = p.extension().map_or(false, |e| e == "json");
        assert_eq!(stem_of(n).is_some(), json, "{}", n);
        if json {
            assert_eq!(stem_of(n), p.file_stem().and_then(|s| s.to_str()), "{}", n);
        }
    }
}

#[test]
fn files_are_read_by_name() {
    let names: Vec<String> = ["b.json", "a.txt", "10.json", "2.json", "b.json", "路.json", "B.json"]
        .iter()
        .map(|s| s.to_string())
        .collect();
    assert_eq!(route_files(&names), vec![2, 3, 6, 0, 4, 5]);
    assert!(route_files(&Vec::new()).is_empty());
}
