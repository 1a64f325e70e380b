//! The save-file data model: headers, palette entries, bricks and components.

use vstd::prelude::*;

verus! {

/// A 128-bit identifier held as its 16 canonical bytes.
///
/// On the wire the identifier is laid out as four little-endian 32-bit words;
/// reading each word as little-endian and re-serialising it big-endian yields
/// these canonical bytes.
#[derive(Debug, Clone, Copy, PartialEq, Eq)]
pub struct Uuid {
    pub bytes: [u8; 16],
}

impl Uuid {
    /// The nil identifier: all sixteen bytes zero.
    pub fn nil() -> (r: Uuid)
        ensures
            r.bytes@ == Seq::new(16, |i: int| 0u8),
    {
        let r = Uuid { bytes: [0u8; 16] };
        proof {
            assert(r.bytes@ =~= Seq::new(16, |i: int| 0u8));
        }
        r
    }
}

/// A color, stored as RGBA; the wire order for palette entries is BGRA.
#[derive(Debug, Clone, Copy, PartialEq, Eq, Hash)]
pub struct Color {
    pub r: u8,
    pub g: u8,
    pub b: u8,
    pub a: u8,
}

impl Color {
    /// Converts 4 wire bytes in BGRA order to a Color (RGBA).
    pub fn from_bytes_bgra(slice: [u8; 4]) -> (c: Color)
        ensures
            c.r == slice@[2],
            c.g == slice@[1],
            c.b == slice@[0],
            c.a == slice@[3],
    {
        Color { r: slice[2], g: slice[1], b: slice[0], a: slice[3] }
    }

    /// Converts 3 wire bytes in RGB order to a Color, with alpha 255.
    pub fn from_bytes_rgb(slice: [u8; 3]) -> (c: Color)
        ensures
            c.r == slice@[0],
            c.g == slice@[1],
            c.b == slice@[2],
            c.a == 255,
    {
        Color { r: slice[0], g: slice[1], b: slice[2], a: 255 }
    }
}

/// A user: a name and an identifier.
#[derive(Debug, Clone, PartialEq, Eq)]
pub struct User {
    pub name: String,
    pub id: Uuid,
}

impl Default for User {
    /// The default user is named "Unknown" and carries the nil identifier.
    fn default() -> (r: Self)
        ensures
            r.name@ == "Unknown"@,
            r.id.bytes@ == Seq::new(16, |i: int| 0u8),
    {
        User { name: "Unknown".to_owned(), id: Uuid::nil() }
    }
}

/// A brick owner: a user together with the count of bricks attributed to them.
#[derive(Debug, Clone, PartialEq, Eq)]
pub struct BrickOwner {
    pub name: String,
    pub id: Uuid,
    pub bricks: u32,
}

impl BrickOwner {
    /// Builds a brick owner from a user and a brick count.
    pub fn from_user_bricks(user: User, bricks: u32) -> (r: BrickOwner)
        ensures
            r.name == user.name,
            r.id == user.id,
            r.bricks == bricks,
    {
        BrickOwner { name: user.name, id: user.id, bricks }
    }

    /// Builds a brick owner from a user, with a zero brick count.
    pub fn from_user(user: User) -> (r: BrickOwner)
        ensures
            r.name == user.name,
            r.id == user.id,
            r.bricks == 0,
    {
        BrickOwner { name: user.name, id: user.id, bricks: 0 }
    }
}

/// A brick direction: which axis the brick points along, and which way.
#[derive(Debug, Clone, Copy, PartialEq, Eq, Structural)]
pub enum Direction {
    XPositive,
    XNegative,
    YPositive,
    YNegative,
    ZPositive,
    ZNegative,
}

impl Direction {
    /// The wire value of this direction.
    pub open spec fn spec_as_u8(self) -> u8 {
        match self {
            Direction::XPositive => 0,
            Direction::XNegative => 1,
            Direction::YPositive => 2,
            Direction::YNegative => 3,
            Direction::ZPositive => 4,
            Direction::ZNegative => 5,
        }
    }

    /// Returns the wire value of this direction.
    #[verifier::when_used_as_spec(spec_as_u8)]
    pub fn as_u8(self) -> (r: u8)
        ensures
            r == self.spec_as_u8(),
    {
        match self {
            Direction::XPositive => 0,
            Direction::XNegative => 1,
            Direction::YPositive => 2,
            Direction::YNegative => 3,
            Direction::ZPositive => 4,
            Direction::ZNegative => 5,
        }
    }

    /// The direction a wire value denotes, if any.
    pub open spec fn spec_from_u8(v: u8) -> Option<Direction> {
        if v == 0 {
            Some(Direction::XPositive)
        } else if v == 1 {
            Some(Direction::XNegative)
        } else if v == 2 {
            Some(Direction::YPositive)
        } else if v == 3 {
            Some(Direction::YNegative)
        } else if v == 4 {
            Some(Direction::ZPositive)
        } else if v == 5 {
            Some(Direction::ZNegative)
        } else {
            None
        }
    }

    /// Parses a wire value into a direction.
    #[verifier::when_used_as_spec(spec_from_u8)]
    pub fn from_u8(v: u8) -> (r: Option<Direction>)
        ensures
            r == Direction::spec_from_u8(v),
    {
        if v == 0 {
            Some(Direction::XPositive)
        } else if v == 1 {
            Some(Direction::XNegative)
        } else if v == 2 {
            Some(Direction::YPositive)
        } else if v == 3 {
            Some(Direction::YNegative)
        } else if v == 4 {
            Some(Direction::ZPositive)
        } else if v == 5 {
            Some(Direction::ZNegative)
        } else {
            None
        }
    }
}

/// A brick rotation about its direction axis, in quarter turns.
#[derive(Debug, Clone, Copy, PartialEq, Eq, Structural)]
pub enum Rotation {
    Deg0,
    Deg90,
    Deg180,
    Deg270,
}

impl Rotation {
    /// The wire value of this rotation.
    pub open spec fn spec_as_u8(self) -> u8 {
        match self {
            Rotation::Deg0 => 0,
            Rotation::Deg90 => 1,
            Rotation::Deg180 => 2,
            Rotation::Deg270 => 3,
        }
    }

    /// Returns the wire value of this rotation.
    #[verifier::when_used_as_spec(spec_as_u8)]
    pub fn as_u8(self) -> (r: u8)
        ensures
            r == self.spec_as_u8(),
    {
        match self {
            Rotation::Deg0 => 0,
            Rotation::Deg90 => 1,
            Rotation::Deg180 => 2,
            Rotation::Deg270 => 3,
        }
    }

    /// The rotation a wire value denotes, if any.
    pub open spec fn spec_from_u8(v: u8) -> Option<Rotation> {
        if v == 0 {
            Some(Rotation::Deg0)
        } else if v == 1 {
            Some(Rotation::Deg90)
        } else if v == 2 {
            Some(Rotation::Deg180)
        } else if v == 3 {
            Some(Rotation::Deg270)
        } else {
            None
        }
    }

    /// Parses a wire value into a rotation.
    #[verifier::when_used_as_spec(spec_from_u8)]
    pub fn from_u8(v: u8) -> (r: Option<Rotation>)
        ensures
            r == Rotation::spec_from_u8(v),
    {
        if v == 0 {
            Some(Rotation::Deg0)
        } else if v == 1 {
            Some(Rotation::Deg90)
        } else if v == 2 {
            Some(Rotation::Deg180)
        } else if v == 3 {
            Some(Rotation::Deg270)
        } else {
            None
        }
    }
}

/// A storable brick size: a singularity for static-mesh bricks, or the three
/// half-extents of a procedural brick.
#[derive(Debug, Clone, Copy, PartialEq, Eq, Hash)]
pub enum Size {
    Empty,
    Procedural(u32, u32, u32),
}

/// A brick's color: an index into the save's color palette, or a color of its own.
#[derive(Debug, Clone, Copy, PartialEq, Eq)]
pub enum BrickColor {
    Index(u32),
    Unique(Color),
}

/// A brick's collision flags.
#[derive(Debug, Clone, Copy, PartialEq, Eq)]
pub struct Collision {
    /// Whether players collide with the brick.
    pub player: bool,
    /// Whether projectiles collide with the brick.
    pub weapon: bool,
    /// Whether player interactions collide with the brick.
    pub interaction: bool,
    /// Whether tool clicks consider the brick.
    pub tool: bool,
}

impl Collision {
    /// Builds a Collision with all four flags set to `state`.
    pub fn for_all(state: bool) -> (r: Collision)
        ensures
            r.player == state,
            r.weapon == state,
            r.interaction == state,
            r.tool == state,
    {
        Collision { player: state, weapon: state, interaction: state, tool: state }
    }
}

impl Default for Collision {
    /// By default all four collision flags are on.
    fn default() -> (r: Self)
        ensures
            r.player && r.weapon && r.interaction && r.tool,
    {
        Collision::for_all(true)
    }
}

/// A dynamically typed component property value.
///
/// Floating-point properties are carried as their IEEE-754 bit patterns, so
/// that every value the wire can hold round-trips exactly.
#[derive(Debug, Clone, PartialEq, Eq)]
pub enum UnrealType {
    Class(String),
    String(String),
    Boolean(bool),
    /// A 32-bit float, held as its bit pattern.
    Float(u32),
    Color(Color),
    Byte(u8),
    /// Three 32-bit floats, held as their bit patterns.
    Rotator(u32, u32, u32),
}

/// The property values one component stores on one brick, in declaration order.
pub type PropertyValues = Vec<(String, UnrealType)>;

/// A brick.
#[derive(Debug, PartialEq, Eq)]
pub struct Brick {
    /// Index into `Header2.brick_assets`.
    pub asset_name_index: u32,
    /// The size of the brick; `Size::Empty` for non-procedural bricks.
    pub size: Size,
    /// The position of the brick.
    pub position: (i32, i32, i32),
    /// The direction of the brick.
    pub direction: Direction,
    /// The rotation of the brick.
    pub rotation: Rotation,
    /// The collision flags of the brick.
    pub collision: Collision,
    /// Whether the brick is visible.
    pub visibility: bool,
    /// Index into `Header2.materials`.
    pub material_index: u32,
    /// Index into `Header2.physical_materials`.
    pub physical_index: u32,
    /// The material intensity, below 11.
    pub material_intensity: u32,
    /// The color of the brick.
    pub color: BrickColor,
    /// 0 for a public brick; otherwise a 1-based index into `Header2.brick_owners`.
    pub owner_index: u32,
    /// The property tables of the components on this brick, keyed by component
    /// name; names are unique.
    pub components: Vec<(String, PropertyValues)>,
}

impl Default for Brick {
    /// The default brick: asset 0 at the origin, visible, fully colliding,
    /// palette color 0, intensity 5, publicly owned, with no components.
    fn default() -> (r: Self)
        ensures
            r.asset_name_index == 0,
            r.size == Size::Empty,
            r.position == (0i32, 0i32, 0i32),
            r.direction == Direction::ZPositive,
            r.rotation == Rotation::Deg0,
            r.collision.player && r.collision.weapon && r.collision.interaction
                && r.collision.tool,
            r.visibility,
            r.material_index == 0,
            r.physical_index == 0,
            r.material_intensity == 5,
            r.color == BrickColor::Index(0u32),
            r.owner_index == 0,
            r.components@.len() == 0,
    {
        Brick {
            asset_name_index: 0,
            size: Size::Empty,
            position: (0, 0, 0),
            direction: Direction::ZPositive,
            rotation: Rotation::Deg0,
            collision: Collision::for_all(true),
            visibility: true,
            material_index: 0,
            physical_index: 0,
            material_intensity: 5,
            color: BrickColor::Index(0),
            owner_index: 0,
            components: Vec::new(),
        }
    }
}

/// An image preview embedded in a save.
#[derive(Debug, Clone, PartialEq, Eq)]
pub enum Preview {
    /// No preview.
    Absent,
    /// A PNG preview.
    PNG(Vec<u8>),
    /// A JPEG preview.
    JPEG(Vec<u8>),
    /// A preview of an unknown type: its type byte and its bytes.
    Unknown(u8, Vec<u8>),
}

impl Preview {
    /// The wire type byte of this preview.
    pub open spec fn spec_type_byte(&self) -> u8 {
        match self {
            Preview::Absent => 0,
            Preview::PNG(_) => 1,
            Preview::JPEG(_) => 2,
            Preview::Unknown(byte, _) => *byte,
        }
    }

    /// Returns the wire type byte of this preview.
    #[verifier::when_used_as_spec(spec_type_byte)]
    pub fn type_byte(&self) -> (r: u8)
        ensures
            r == self.spec_type_byte(),
    {
        match self {
            Preview::Absent => 0,
            Preview::PNG(_) => 1,
            Preview::JPEG(_) => 2,
            Preview::Unknown(byte, _) => *byte,
        }
    }

    /// The bytes of this preview, if any.
    pub open spec fn spec_bytes_opt(self) -> Option<Vec<u8>> {
        match self {
            Preview::Absent => None,
            Preview::PNG(bytes) => Some(bytes),
            Preview::JPEG(bytes) => Some(bytes),
            Preview::Unknown(_, bytes) => Some(bytes),
        }
    }

    /// Consumes the preview, extracting its bytes; `None` if no preview was set.
    pub fn into_bytes(self) -> (r: Option<Vec<u8>>)
        ensures
            r == self.spec_bytes_opt(),
    {
        match self {
            Preview::Absent => None,
            Preview::PNG(bytes) => Some(bytes),
            Preview::JPEG(bytes) => Some(bytes),
            Preview::Unknown(_, bytes) => Some(bytes),
        }
    }

    /// Whether the preview is unset.
    pub fn is_none(&self) -> (r: bool)
        ensures
            r == (self is Absent),
    {
        match self {
            Preview::Absent => true,
            _ => false,
        }
    }

    /// Whether the preview is set.
    pub fn is_some(&self) -> (r: bool)
        ensures
            r == !(self is Absent),
    {
        !self.is_none()
    }

    /// Extracts the preview's bytes; the preview must be set.
    pub fn unwrap(self) -> (r: Vec<u8>)
        requires
            !(self is Absent),
        ensures
            Some(r) == self.spec_bytes_opt(),
    {
        match self {
            Preview::Absent => unreached(),
            Preview::PNG(bytes) => bytes,
            Preview::JPEG(bytes) => bytes,
            Preview::Unknown(_, bytes) => bytes,
        }
    }
}

/// The first header: basic save information.
#[derive(Debug, Clone, PartialEq, Eq)]
pub struct Header1 {
    /// The map the save was saved on.
    pub map: String,
    /// The description given to the save.
    pub description: String,
    /// The user who saved the file.
    pub author: User,
    /// The host of the server the save was made on; present in versions 8 and up.
    pub host: Option<User>,
    /// The save time, eight opaque bytes.
    pub save_time: [u8; 8],
    /// The advisory brick count; on write the authoritative count is the
    /// length of `SaveData.bricks`.
    pub brick_count: u32,
}

impl Default for Header1 {
    /// The default first header: map "Unknown", empty description, default
    /// author, no host, zero save time and zero brick count.
    fn default() -> (r: Self)
        ensures
            r.map@ == "Unknown"@,
            r.description@ == ""@,
            r.author.name@ == "Unknown"@,
            r.author.id.bytes@ == Seq::new(16, |i: int| 0u8),
            r.host is None,
            r.save_time@ == Seq::new(8, |i: int| 0u8),
            r.brick_count == 0,
    {
        let r = Header1 {
            map: "Unknown".to_owned(),
            description: "".to_owned(),
            author: User::default(),
            host: None,
            save_time: [0u8; 8],
            brick_count: 0,
        };
        proof {
            assert(r.save_time@ =~= Seq::new(8, |i: int| 0u8));
        }
        r
    }
}

/// The second header: the palettes that bricks index into.
#[derive(Debug, Clone, PartialEq, Eq)]
pub struct Header2 {
    /// The mods the save uses.
    pub mods: Vec<String>,
    /// The brick asset palette.
    pub brick_assets: Vec<String>,
    /// The color palette; `BrickColor::Index` refers to this list.
    pub colors: Vec<Color>,
    /// The material palette.
    pub materials: Vec<String>,
    /// The brick owners; `Brick.owner_index` refers to this list, 1-based.
    pub brick_owners: Vec<BrickOwner>,
    /// The physical material palette.
    pub physical_materials: Vec<String>,
}

impl Default for Header2 {
    /// The default second header: one default brick asset, one plastic
    /// material, one default physical material, and no mods, colors or owners.
    fn default() -> (r: Self)
        ensures
            r.mods@.len() == 0,
            r.brick_assets@.len() == 1 && r.brick_assets@[0]@ == "PB_DefaultBrick"@,
            r.colors@.len() == 0,
            r.materials@.len() == 1 && r.materials@[0]@ == "BMC_Plastic"@,
            r.brick_owners@.len() == 0,
            r.physical_materials@.len() == 1 && r.physical_materials@[0]@
                == "BPMC_Default"@,
    {
        let mut brick_assets: Vec<String> = Vec::new();
        brick_assets.push("PB_DefaultBrick".to_owned());
        let mut materials: Vec<String> = Vec::new();
        materials.push("BMC_Plastic".to_owned());
        let mut physical_materials: Vec<String> = Vec::new();
        physical_materials.push("BPMC_Default".to_owned());
        Header2 {
            mods: Vec::new(),
            brick_assets,
            colors: Vec::new(),
            materials,
            brick_owners: Vec::new(),
            physical_materials,
        }
    }
}

/// A brick component: a schema shared by the bricks that carry it.
#[derive(Debug, Clone, PartialEq, Eq)]
pub struct Component {
    /// The version of this component.
    pub version: i32,
    /// The indices of the bricks this component is on.
    pub brick_indices: Vec<u32>,
    /// The declared properties: name and type name, in declaration order;
    /// names are unique.
    pub properties: Vec<(String, String)>,
}

impl Default for Component {
    /// The default component: version 1, no bricks, no properties.
    fn default() -> (r: Self)
        ensures
            r.version == 1,
            r.brick_indices@.len() == 0,
            r.properties@.len() == 0,
    {
        Component { version: 1, brick_indices: Vec::new(), properties: Vec::new() }
    }
}

/// An entire save file.
#[derive(Debug, PartialEq, Eq)]
pub struct SaveData {
    /// The container version of the save; reads report the version found,
    /// writes always emit [`crate::SAVE_VERSION`].
    pub version: u16,
    /// The game version the save was saved on.
    pub game_version: i32,
    /// The first header.
    pub header1: Header1,
    /// The second header.
    pub header2: Header2,
    /// The embedded preview, if any.
    pub preview: Preview,
    /// The bricks in the save.
    pub bricks: Vec<Brick>,
    /// The components in the save, keyed by component name; names are unique.
    pub components: Vec<(String, Component)>,
}

impl Default for SaveData {
    /// The default save: current version, default headers, no preview, no
    /// bricks and no components.
    fn default() -> (r: Self)
        ensures
            r.version == crate::SAVE_VERSION,
            r.game_version == 0,
            r.header1.map@ == "Unknown"@,
            r.header1.description@ == ""@,
            r.header1.host is None,
            r.header1.brick_count == 0,
            r.header2.brick_assets@.len() == 1,
            r.header2.colors@.len() == 0,
            r.header2.materials@.len() == 1,
            r.header2.brick_owners@.len() == 0,
            r.header2.physical_materials@.len() == 1,
            r.preview is Absent,
            r.bricks@.len() == 0,
            r.components@.len() == 0,
    {
        SaveData {
            version: crate::SAVE_VERSION,
            game_version: 0,
            header1: Header1::default(),
            header2: Header2::default(),
            preview: Preview::Absent,
            bricks: Vec::new(),
            components: Vec::new(),
        }
    }
}

// ----------------------------------------------------------------------
// Mathematical views of the model types.
// ----------------------------------------------------------------------

/// The view of a user: its name's characters and its identifier's bytes.
pub struct UserV {
    pub name: Seq<char>,
    pub id: Seq<u8>,
}

impl View for User {
    type V = UserV;

    open spec fn view(&self) -> UserV {
        UserV { name: self.name@, id: self.id.bytes@ }
    }
}

/// The view of a brick owner.
pub struct BrickOwnerV {
    pub name: Seq<char>,
    pub id: Seq<u8>,
    pub bricks: u32,
}

impl View for BrickOwner {
    type V = BrickOwnerV;

    open spec fn view(&self) -> BrickOwnerV {
        BrickOwnerV { name: self.name@, id: self.id.bytes@, bricks: self.bricks }
    }
}

/// The view of the first header.
pub struct Header1V {
    pub map: Seq<char>,
    pub description: Seq<char>,
    pub author: UserV,
    pub host: Option<UserV>,
    pub save_time: Seq<u8>,
    pub brick_count: u32,
}

impl View for Header1 {
    type V = Header1V;

    open spec fn view(&self) -> Header1V {
        Header1V {
            map: self.map@,
            description: self.description@,
            author: self.author@,
            host: match self.host {
                Some(u) => Some(u@),
                None => None,
            },
            save_time: self.save_time@,
            brick_count: self.brick_count,
        }
    }
}

/// The view of the second header.
pub struct Header2V {
    pub mods: Seq<Seq<char>>,
    pub brick_assets: Seq<Seq<char>>,
    pub colors: Seq<Color>,
    pub materials: Seq<Seq<char>>,
    pub brick_owners: Seq<BrickOwnerV>,
    pub physical_materials: Seq<Seq<char>>,
}

impl View for Header2 {
    type V = Header2V;

    open spec fn view(&self) -> Header2V {
        Header2V {
            mods: self.mods@.map_values(|s: String| s@),
            brick_assets: self.brick_assets@.map_values(|s: String| s@),
            colors: self.colors@,
            materials: self.materials@.map_values(|s: String| s@),
            brick_owners: self.brick_owners@.map_values(|o: BrickOwner| o@),
            physical_materials: self.physical_materials@.map_values(|s: String| s@),
        }
    }
}

/// The view of a preview.
pub enum PreviewV {
    Absent,
    PNG(Seq<u8>),
    JPEG(Seq<u8>),
    Unknown(u8, Seq<u8>),
}

impl View for Preview {
    type V = PreviewV;

    open spec fn view(&self) -> PreviewV {
        match self {
            Preview::Absent => PreviewV::Absent,
            Preview::PNG(b) => PreviewV::PNG(b@),
            Preview::JPEG(b) => PreviewV::JPEG(b@),
            Preview::Unknown(t, b) => PreviewV::Unknown(*t, b@),
        }
    }
}

/// The view of a component property value.
pub enum UnrealTypeV {
    Class(Seq<char>),
    String(Seq<char>),
    Boolean(bool),
    Float(u32),
    Color(Color),
    Byte(u8),
    Rotator(u32, u32, u32),
}

impl View for UnrealType {
    type V = UnrealTypeV;

    open spec fn view(&self) -> UnrealTypeV {
        match self {
            UnrealType::Class(s) => UnrealTypeV::Class(s@),
            UnrealType::String(s) => UnrealTypeV::String(s@),
            UnrealType::Boolean(b) => UnrealTypeV::Boolean(*b),
            UnrealType::Float(f) => UnrealTypeV::Float(*f),
            UnrealType::Color(c) => UnrealTypeV::Color(*c),
            UnrealType::Byte(b) => UnrealTypeV::Byte(*b),
            UnrealType::Rotator(x, y, z) => UnrealTypeV::Rotator(*x, *y, *z),
        }
    }
}

/// The view of one component's property values on one brick.
pub open spec fn props_view(props: Seq<(String, UnrealType)>) -> Seq<(Seq<char>, UnrealTypeV)> {
    props.map_values(|q: (String, UnrealType)| (q.0@, q.1@))
}

/// The view of a brick.
pub struct BrickV {
    pub asset_name_index: u32,
    pub size: Size,
    pub position: (i32, i32, i32),
    pub direction: Direction,
    pub rotation: Rotation,
    pub collision: Collision,
    pub visibility: bool,
    pub material_index: u32,
    pub physical_index: u32,
    pub material_intensity: u32,
    pub color: BrickColor,
    pub owner_index: u32,
    pub components: Seq<(Seq<char>, Seq<(Seq<char>, UnrealTypeV)>)>,
}

impl View for Brick {
    type V = BrickV;

    open spec fn view(&self) -> BrickV {
        BrickV {
            asset_name_index: self.asset_name_index,
            size: self.size,
            position: self.position,
            direction: self.direction,
            rotation: self.rotation,
            collision: self.collision,
            visibility: self.visibility,
            material_index: self.material_index,
            physical_index: self.physical_index,
            material_intensity: self.material_intensity,
            color: self.color,
            owner_index: self.owner_index,
            components: self.components@.map_values(
                |p: (String, PropertyValues)| (p.0@, props_view(p.1@)),
            ),
        }
    }
}

/// The view of a component.
pub struct ComponentV {
    pub version: i32,
    pub brick_indices: Seq<u32>,
    pub properties: Seq<(Seq<char>, Seq<char>)>,
}

impl View for Component {
    type V = ComponentV;

    open spec fn view(&self) -> ComponentV {
        ComponentV {
            version: self.version,
            brick_indices: self.brick_indices@,
            properties: self.properties@.map_values(
                |q: (String, String)| (q.0@, q.1@),
            ),
        }
    }
}

/// The view of an entire save.
pub struct SaveDataV {
    pub version: u16,
    pub game_version: i32,
    pub header1: Header1V,
    pub header2: Header2V,
    pub preview: PreviewV,
    pub bricks: Seq<BrickV>,
    pub components: Seq<(Seq<char>, ComponentV)>,
}

impl View for SaveData {
    type V = SaveDataV;

    open spec fn view(&self) -> SaveDataV {
        SaveDataV {
            version: self.version,
            game_version: self.game_version,
            header1: self.header1@,
            header2: self.header2@,
            preview: self.preview@,
            bricks: self.bricks@.map_values(|b: Brick| b@),
            components: self.components@.map_values(|c: (String, Component)| (c.0@, c.1@)),
        }
    }
}


} // verus!
