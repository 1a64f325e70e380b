//! Tests for the data-model helpers.

use brs::save::{Collision, Color, Direction, Preview, Rotation, User, BrickOwner, SaveData};

#[test]
fn color_wire_conversions() {
    let c = Color::from_bytes_bgra([1, 2, 3, 4]);
    assert_eq!(c, Color { r: 3, g: 2, b: 1, a: 4 });
    let c = Color::from_bytes_rgb([9, 8, 7]);
    assert_eq!(c, Color { r: 9, g: 8, b: 7, a: 255 });
}

#[test]
fn direction_and_rotation_codes() {
    assert_eq!(Direction::ZPositive.as_u8(), 4);
    assert_eq!(Direction::from_u8(5), Some(Direction::ZNegative));
    assert_eq!(Direction::from_u8(6), None);
    assert_eq!(Rotation::Deg180.as_u8(), 2);
    assert_eq!(Rotation::from_u8(3), Some(Rotation::Deg270));
    assert_eq!(Rotation::from_u8(4), None);
}

#[test]
fn collision_for_all() {
    let c = Collision::for_all(false);
    assert!(!c.player && !c.weapon && !c.interaction && !c.tool);
    assert_eq!(Collision::default(), Collision::for_all(true));
}

#[test]
fn preview_accessors() {
    assert_eq!(Preview::Absent.type_byte(), 0);
    assert_eq!(Preview::PNG(vec![1]).type_byte(), 1);
    assert_eq!(Preview::JPEG(vec![1]).type_byte(), 2);
    assert_eq!(Preview::Unknown(9, vec![]).type_byte(), 9);
    assert!(Preview::Absent.is_none());
    assert!(Preview::PNG(vec![]).is_some());
    assert_eq!(Preview::Absent.into_bytes(), None);
    assert_eq!(Preview::JPEG(vec![5]).into_bytes(), Some(vec![5]));
    assert_eq!(Preview::Unknown(7, vec![8]).unwrap(), vec![8]);
}

#[test]
fn owner_from_user() {
    let u = User { name: "u".to_string(), id: brs::save::Uuid { bytes: [1u8; 16] } };
    let o = BrickOwner::from_user_bricks(u.clone(), 7);
    assert_eq!(o.bricks, 7);
    assert_eq!(o.name, "u");
    let o2 = BrickOwner::from_user(u);
    assert_eq!(o2.bricks, 0);
}

#[test]
fn default_save_shape() {
    let s = SaveData::default();
    assert_eq!(s.version, brs::SAVE_VERSION);
    assert_eq!(s.header2.brick_assets, vec!["PB_DefaultBrick".to_string()]);
    assert_eq!(s.header2.materials, vec!["BMC_Plastic".to_string()]);
    assert_eq!(s.header2.physical_materials, vec!["BPMC_Default".to_string()]);
}
