use roco_nav::binary32::Binary32;
use roco_nav::config::{
    d_center_exclude_ratio, d_ema_alpha, d_inner_ratio, d_min_score, d_route_dir, d_scale,
    d_scale_search, DebugConfig, DisplayConfig, LocatingConfig, NavConfig, ResourceConfig,
    RouteConfig, TrackingConfig,
};
use roco_nav::resource::ResourceKind;

fn back(x: Binary32) -> f32 {
    f32::from_bits(x.bits)
}

#[test]
fn matching_defaults_are_the_documented_ones() {
    assert_eq!(back(d_inner_ratio()), 0.92);
    assert_eq!(back(d_center_exclude_ratio()), 0.22);
    assert_eq!(back(d_scale()), 1.45);
    assert_eq!(back(d_scale_search()), 0.18);
    assert_eq!(back(d_min_score()), 0.45);
    assert_eq!(back(d_ema_alpha()), 0.5);
}

#[test]
fn section_defaults_are_the_documented_ones() {
    let l = LocatingConfig::default();
    assert_eq!((l.coarse_width, l.scale_steps, l.refine_diam, l.interval_ms), (640, 13, 110, 700));
    let t = TrackingConfig::default();
    assert_eq!(back(t.search_radius), 150.0);
    assert_eq!((t.coarse_diam, t.fine_diam, t.interval_ms, t.lost_patience), (56, 120, 40, 4));
    let d = DisplayConfig::default();
    assert_eq!(d.max_texture, 2048);
    assert_eq!(back(d.view_zoom), 1.0);
    assert_eq!(back(NavConfig::default().turn_smooth_ms), 120.0);
    assert_eq!(ResourceConfig::default().file, "res/resources.json");
    let g = DebugConfig::default();
    assert!(g.enabled && !g.save_minimap);
    assert_eq!(g.save_path, "debug_minimap.png");
}

#[test]
fn route_defaults_are_the_documented_ones() {
    let r = RouteConfig::default();
    assert_eq!(r.dir, d_route_dir());
    assert_eq!(r.dir, "res/routes");
    assert_eq!(back(r.line_width), 1.5);
    assert_eq!(back(r.point_radius), 3.0);
    assert_eq!(back(r.reach_radius), 10.0);
    assert_eq!(r.color, [220, 50, 50, 255]);
    assert_eq!(back(r.passed_opacity), 0.12);
}

#[test]
fn resource_kinds_have_their_names_in_order() {
    let names: Vec<&str> = ResourceKind::ALL.iter().map(|k| k.label()).collect();
    assert_eq!(names, vec!["矿物", "花朵", "星星"]);
    for (i, k) in ResourceKind::ALL.iter().enumerate() {
        assert_eq!(k.index(), i);
    }
}
