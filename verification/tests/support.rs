use argon_core::hier::{bbox_union, transform_bbox, Angle, BBox, Placement};
use argon_core::naming::VarIdPass;
use argon_core::rat::Rat;
use argon_core::workspace::{default_argon_home, get_mod, Config, ModPathError};

fn r(n: i64) -> Rat {
    Rat::from_i64(n)
}

fn bb(x0: i64, y0: i64, x1: i64, y1: i64) -> BBox {
    BBox { x0: r(x0), y0: r(y0), x1: r(x1), y1: r(y1) }
}

#[test]
fn bbox_union_has_none_as_identity() {
    let b = bb(0, 0, 10, 20);
    assert_eq!(bbox_union(&None, &None), None);
    assert_eq!(bbox_union(&Some(b.clone()), &None), Some(b.clone()));
    assert_eq!(bbox_union(&None, &Some(b.clone())), Some(b.clone()));
    let c = bb(-5, 5, 3, 30);
    assert_eq!(bbox_union(&Some(b), &Some(c)), Some(bb(-5, 0, 10, 30)));
}

#[test]
fn placement_rotates_then_translates() {
    // a quarter turn maps (x, y) to (-y, x); then the offset is added
    let b = bb(0, 0, 10, 20);
    let pl = Placement { x: r(100), y: r(50), angle: Angle::R90, reflect: false };
    let t = transform_bbox(&b, &pl).unwrap();
    assert_eq!(t, bb(80, 50, 100, 60));
    // the mirror flips y after the rotation
    let plm = Placement { x: r(0), y: r(0), angle: Angle::R0, reflect: true };
    let m = transform_bbox(&b, &plm).unwrap();
    assert_eq!(m, bb(0, -20, 10, 0));
}

#[test]
fn var_id_pass_shadows_inner_scopes() {
    let mut pass = VarIdPass::new();
    assert_eq!(pass.lookup(&"w".to_string()), None);
    let outer = pass.declare("w".to_string());
    assert_eq!(pass.lookup(&"w".to_string()), Some(outer));
    pass.enter_scope();
    let inner = pass.declare("w".to_string());
    assert_ne!(outer, inner);
    assert_eq!(pass.lookup(&"w".to_string()), Some(inner));
    pass.exit_scope();
    assert_eq!(pass.lookup(&"w".to_string()), Some(outer));
}

#[test]
fn get_mod_resolves_direct_and_module_files() {
    let root = vec!["lib".to_string()];
    let path = vec!["sub".to_string()];
    // both candidates on disk: ambiguous
    assert_eq!(get_mod(&root, &path, true, true), Err(ModPathError::BothExist));
    // only the direct file
    let (comps, direct) = get_mod(&root, &path, true, false).unwrap();
    assert!(direct);
    assert_eq!(comps, vec!["sub".to_string()]);
    // only the module file
    let (comps, direct) = get_mod(&root, &path, false, true).unwrap();
    assert!(!direct);
    assert_eq!(comps, vec!["sub".to_string(), "mod".to_string()]);
    // a direct candidate naming the root itself is circular
    let selfpath = vec!["lib".to_string()];
    assert_eq!(get_mod(&root, &selfpath, true, false), Err(ModPathError::Circular));
    // the empty path resolves to the root library
    let (comps, direct) = get_mod(&root, &vec![], false, false).unwrap();
    assert!(direct);
    assert_eq!(comps, root);
}

#[test]
fn argon_home_hangs_off_the_home_directory() {
    assert_eq!(default_argon_home(None), None);
    assert_eq!(
        default_argon_home(Some("/home/u".to_string())),
        Some("/home/u/.local/state/argon".to_string())
    );
    let c = Config::default();
    assert!(c.lyp.is_none());
    assert!(c.mods.is_empty());
}
