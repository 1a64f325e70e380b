//! Whole-save scenarios: encoding a save and decoding it back.

use brs::read::{ReadError, SaveReader};
use brs::save::{
    Brick, BrickColor, Collision, Color, Component, Direction, Preview, Rotation, SaveData,
    Size, UnrealType, User, Uuid,
};
use brs::write::SaveWriter;
use brs::SAVE_VERSION;

fn read_back(bytes: Vec<u8>) -> SaveData {
    let mut reader = SaveReader::new(bytes).expect("prelude should parse");
    assert_eq!(reader.version, SAVE_VERSION);
    reader.read_all().expect("save should parse")
}

#[test]
fn empty_save_wire_prefix() {
    let bytes = SaveWriter::new(SaveData::default()).write().expect("write should succeed");
    assert_eq!(bytes[0..3], [0x42, 0x52, 0x53]);
    assert_eq!(bytes[3..5], [0x0A, 0x00]);
    assert_eq!(bytes[5..9], [0, 0, 0, 0]);
}

#[test]
fn empty_save_round_trip() {
    let bytes = SaveWriter::new(SaveData::default()).write().expect("write should succeed");
    let got = read_back(bytes);
    let want = SaveData::default();
    assert_eq!(got.version, SAVE_VERSION);
    assert_eq!(got.game_version, 0);
    assert_eq!(got.header1.map, want.header1.map);
    assert_eq!(got.header1.description, want.header1.description);
    assert_eq!(got.header1.author, want.header1.author);
    // the writer stands the author in for an absent host
    assert_eq!(got.header1.host, Some(want.header1.author.clone()));
    assert_eq!(got.header1.brick_count, 0);
    assert_eq!(got.header2, want.header2);
    assert_eq!(got.preview, Preview::Absent);
    assert_eq!(got.bricks, want.bricks);
    assert_eq!(got.components, want.components);
}

fn one_brick() -> Brick {
    Brick {
        asset_name_index: 0,
        size: Size::Procedural(5, 5, 6),
        position: (10, 20, 30),
        direction: Direction::ZPositive,
        rotation: Rotation::Deg0,
        collision: Collision::for_all(true),
        visibility: true,
        material_index: 0,
        physical_index: 0,
        material_intensity: 5,
        color: BrickColor::Index(0),
        owner_index: 0,
        components: Vec::new(),
    }
}

#[test]
fn single_procedural_brick_round_trip() {
    let mut data = SaveData::default();
    data.header2.colors = vec![Color { r: 255, g: 0, b: 0, a: 255 }];
    data.bricks = vec![one_brick()];
    let bytes = SaveWriter::new(data).write().expect("write should succeed");
    let got = read_back(bytes);
    assert_eq!(got.header1.brick_count, 1);
    assert_eq!(got.bricks.len(), 1);
    assert_eq!(got.bricks[0], one_brick());
}

#[test]
fn grid_with_unique_colors_round_trip() {
    let mut data = SaveData::default();
    let mut want: Vec<Brick> = Vec::new();
    for x in 0..10i32 {
        for y in 0..10i32 {
            let mut b = one_brick();
            b.position = (x * 10, y * 10, 10);
            b.color = BrickColor::Unique(Color {
                r: (x * 255 / 10) as u8,
                g: 255,
                b: (y * 255 / 10) as u8,
                a: 255,
            });
            want.push(b);
        }
    }
    for x in 0..10i32 {
        for y in 0..10i32 {
            let mut b = one_brick();
            b.position = (x * 10, y * 10, 10);
            b.color = BrickColor::Unique(Color {
                r: (x * 255 / 10) as u8,
                g: 255,
                b: (y * 255 / 10) as u8,
                a: 255,
            });
            data.bricks.push(b);
        }
    }
    let bytes = SaveWriter::new(data).write().expect("write should succeed");
    let got = read_back(bytes);
    assert_eq!(got.bricks.len(), 100);
    assert_eq!(got.bricks, want);
}

#[test]
fn unknown_preview_round_trip() {
    let mut data = SaveData::default();
    data.preview = Preview::Unknown(7, vec![0xAB, 0xCD]);
    let bytes = SaveWriter::new(data).write().expect("write should succeed");
    let got = read_back(bytes);
    assert_eq!(got.preview, Preview::Unknown(7, vec![0xAB, 0xCD]));
}

#[test]
fn png_preview_round_trip() {
    let mut data = SaveData::default();
    data.preview = Preview::PNG(vec![1, 2, 3, 4]);
    let bytes = SaveWriter::new(data).write().expect("write should succeed");
    let got = read_back(bytes);
    assert_eq!(got.preview, Preview::PNG(vec![1, 2, 3, 4]));
}

#[test]
fn component_round_trip() {
    let mut data = SaveData::default();
    let mut b = one_brick();
    data.header2.colors = vec![Color { r: 1, g: 2, b: 3, a: 255 }];
    b.components = vec![(
        "BCD_Interact".to_string(),
        vec![("bIsActive".to_string(), UnrealType::Boolean(true))],
    )];
    data.bricks = vec![b];
    data.components = vec![(
        "BCD_Interact".to_string(),
        Component {
            version: 1,
            brick_indices: vec![0],
            properties: vec![("bIsActive".to_string(), "Boolean".to_string())],
        },
    )];
    let bytes = SaveWriter::new(data).write().expect("write should succeed");
    let got = read_back(bytes);
    assert_eq!(got.components.len(), 1);
    assert_eq!(got.components[0].0, "BCD_Interact");
    assert_eq!(got.components[0].1.version, 1);
    assert_eq!(got.components[0].1.brick_indices, vec![0]);
    assert_eq!(
        got.components[0].1.properties,
        vec![("bIsActive".to_string(), "Boolean".to_string())]
    );
    assert_eq!(
        got.bricks[0].components,
        vec![(
            "BCD_Interact".to_string(),
            vec![("bIsActive".to_string(), UnrealType::Boolean(true))],
        )]
    );
}

#[test]
fn component_property_values_round_trip() {
    let mut data = SaveData::default();
    data.header2.colors = vec![Color { r: 1, g: 2, b: 3, a: 255 }];
    let mut b = one_brick();
    b.components = vec![(
        "BCD_PointLight".to_string(),
        vec![
            ("Brightness".to_string(), UnrealType::Float(1.5f32.to_bits())),
            ("LightColor".to_string(), UnrealType::Color(Color { r: 9, g: 8, b: 7, a: 6 })),
            ("Kind".to_string(), UnrealType::Byte(3)),
            ("Label".to_string(), UnrealType::String("lamp".to_string())),
            (
                "Spin".to_string(),
                UnrealType::Rotator(
                    1.0f32.to_bits(),
                    2.0f32.to_bits(),
                    3.0f32.to_bits(),
                ),
            ),
        ],
    )];
    data.bricks = vec![b];
    data.components = vec![(
        "BCD_PointLight".to_string(),
        Component {
            version: 2,
            brick_indices: vec![0],
            properties: vec![
                ("Brightness".to_string(), "Float".to_string()),
                ("LightColor".to_string(), "Color".to_string()),
                ("Kind".to_string(), "Byte".to_string()),
                ("Label".to_string(), "String".to_string()),
                ("Spin".to_string(), "Rotator".to_string()),
            ],
        },
    )];
    let bytes = SaveWriter::new(data).write().expect("write should succeed");
    let got = read_back(bytes);
    let table = &got.bricks[0].components[0].1;
    assert_eq!(table[0].1, UnrealType::Float(1.5f32.to_bits()));
    assert_eq!(table[1].1, UnrealType::Color(Color { r: 9, g: 8, b: 7, a: 6 }));
    assert_eq!(table[2].1, UnrealType::Byte(3));
    assert_eq!(table[3].1, UnrealType::String("lamp".to_string()));
}

#[test]
fn missing_component_property_fails() {
    let mut data = SaveData::default();
    data.header2.colors = vec![Color { r: 1, g: 2, b: 3, a: 255 }];
    let mut b = one_brick();
    b.components = vec![("BCD_Interact".to_string(), vec![])];
    data.bricks = vec![b];
    data.components = vec![(
        "BCD_Interact".to_string(),
        Component {
            version: 1,
            brick_indices: vec![0],
            properties: vec![("bIsActive".to_string(), "Boolean".to_string())],
        },
    )];
    let r = SaveWriter::new(data).write();
    assert_eq!(r, Err(brs::write::WriteError::ComponentBrickError));
}

#[test]
fn section_order_enforced() {
    let bytes = SaveWriter::new(SaveData::default()).write().expect("write should succeed");
    let mut reader = SaveReader::new(bytes).expect("prelude should parse");
    let h1 = reader.read_header1().expect("first header should parse");
    let h2 = reader.read_header2().expect("second header should parse");
    // the preview was not read yet, so the bricks must be refused
    let r = reader.read_bricks(&h1, &h2);
    assert!(matches!(r, Err(ReadError::BadSectionReadOrder)));
}

#[test]
fn header2_before_header1_refused() {
    let bytes = SaveWriter::new(SaveData::default()).write().expect("write should succeed");
    let mut reader = SaveReader::new(bytes).expect("prelude should parse");
    let r = reader.read_header2();
    assert!(matches!(r, Err(ReadError::BadSectionReadOrder)));
}

#[test]
fn bad_magic_refused() {
    let bytes = vec![0x42, 0x52, 0x58, 0x0A, 0x00];
    assert!(matches!(SaveReader::new(bytes), Err(ReadError::BadHeader)));
}

#[test]
fn truncated_prelude_refused() {
    assert!(matches!(SaveReader::new(vec![0x42, 0x52]), Err(ReadError::Eof)));
}

#[test]
fn skip_preview_then_bricks() {
    let mut data = SaveData::default();
    data.preview = Preview::JPEG(vec![9, 9, 9]);
    data.header2.colors = vec![Color { r: 1, g: 2, b: 3, a: 255 }];
    data.bricks = vec![one_brick()];
    let bytes = SaveWriter::new(data).write().expect("write should succeed");
    let mut reader = SaveReader::new(bytes).expect("prelude should parse");
    let h1 = reader.read_header1().expect("first header should parse");
    let h2 = reader.read_header2().expect("second header should parse");
    reader.skip_preview().expect("the preview should skip");
    let (bricks, comps) = reader.read_bricks(&h1, &h2).expect("bricks should parse");
    assert_eq!(bricks.len(), 1);
    assert_eq!(bricks[0], one_brick());
    assert!(comps.is_empty());
}

#[test]
fn skip_headers_then_read_rest() {
    let mut data = SaveData::default();
    data.header2.colors = vec![Color { r: 1, g: 2, b: 3, a: 255 }];
    data.bricks = vec![one_brick()];
    let bytes = SaveWriter::new(data).write().expect("write should succeed");
    let mut reader = SaveReader::new(bytes).expect("prelude should parse");
    reader.skip_header1().expect("the first header should skip");
    reader.skip_header2().expect("the second header should skip");
    reader.read_preview().expect("the preview should parse");
}

#[test]
fn uncompressed_writer_round_trip() {
    let mut data = SaveData::default();
    data.header1.description = "an uncompressed save".to_string();
    data.header2.colors = vec![Color { r: 4, g: 5, b: 6, a: 7 }];
    data.bricks = vec![one_brick()];
    let bytes = SaveWriter::uncompressed(data).write().expect("write should succeed");
    // every section is framed with a zero deflated size
    assert_eq!(bytes[13..17], [0, 0, 0, 0]);
    let got = read_back(bytes);
    assert_eq!(got.header1.description, "an uncompressed save");
    assert_eq!(got.bricks.len(), 1);
}

#[test]
fn owners_and_palettes_round_trip() {
    let mut data = SaveData::default();
    data.header1.map = "Plate".to_string();
    data.header1.author = User {
        name: "builder".to_string(),
        id: Uuid { bytes: [7u8; 16] },
    };
    data.header2.mods = vec!["ModA".to_string(), "ModB".to_string()];
    data.header2.brick_assets = vec!["PB_DefaultBrick".to_string(), "PB_Ramp".to_string()];
    data.header2.materials = vec!["BMC_Plastic".to_string(), "BMC_Glow".to_string()];
    data.header2.physical_materials = vec!["BPMC_Default".to_string()];
    data.header2.brick_owners = vec![brs::save::BrickOwner {
        name: "owner one".to_string(),
        id: Uuid { bytes: [9u8; 16] },
        bricks: 42,
    }];
    data.header2.colors = vec![
        Color { r: 1, g: 2, b: 3, a: 4 },
        Color { r: 5, g: 6, b: 7, a: 8 },
    ];
    let bytes = SaveWriter::new(data).write().expect("write should succeed");
    let got = read_back(bytes);
    assert_eq!(got.header1.map, "Plate");
    assert_eq!(got.header1.author.name, "builder");
    assert_eq!(got.header2.mods, vec!["ModA".to_string(), "ModB".to_string()]);
    assert_eq!(got.header2.brick_owners.len(), 1);
    assert_eq!(got.header2.brick_owners[0].name, "owner one");
    assert_eq!(got.header2.brick_owners[0].bricks, 42);
    assert_eq!(got.header2.colors[1], Color { r: 5, g: 6, b: 7, a: 8 });
}

#[test]
fn negative_brick_count_is_invalid_header1() {
    // craft a save, then re-frame the first header with a negative count
    let bytes = SaveWriter::uncompressed(SaveData::default()).write().expect("write");
    // the first header section starts at offset 9; its payload is raw
    let ulen = i32::from_le_bytes([bytes[9], bytes[10], bytes[11], bytes[12]]) as usize;
    let mut tampered = bytes.clone();
    let payload_start = 9 + 8;
    // the brick count is the last four bytes of the header-one payload
    let count_at = payload_start + ulen - 4;
    tampered[count_at..count_at + 4].copy_from_slice(&(-1i32).to_le_bytes());
    let mut reader = SaveReader::new(tampered).expect("prelude");
    assert!(matches!(reader.read_header1(), Err(ReadError::InvalidDataHeader1)));
}

#[test]
fn duplicate_component_name_is_invalid() {
    let mut data = SaveData::default();
    data.header2.colors = vec![Color { r: 1, g: 2, b: 3, a: 255 }];
    let mut b = one_brick();
    b.components = vec![(
        "BCD_Interact".to_string(),
        vec![("bIsActive".to_string(), UnrealType::Boolean(true))],
    )];
    data.bricks = vec![b];
    data.components = vec![
        (
            "BCD_Interact".to_string(),
            Component {
                version: 1,
                brick_indices: vec![0],
                properties: vec![("bIsActive".to_string(), "Boolean".to_string())],
            },
        ),
        (
            "BCD_Interact".to_string(),
            Component { version: 1, brick_indices: vec![], properties: vec![] },
        ),
    ];
    // the writer emits both entries; the reader refuses the repeated name
    let bytes = SaveWriter::new(data).write().expect("write");
    let mut reader = SaveReader::new(bytes).expect("prelude");
    let r = reader.read_all();
    assert!(matches!(r, Err(ReadError::InvalidData)));
}
