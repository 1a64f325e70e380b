//! A sparse per-chunk octree over brick bounding volumes, for spatial
//! queries over a save's bricks.

use vstd::prelude::*;
use crate::save::{Brick, BrickV, Direction, SaveData, Size};

verus! {

/// The edge length, in units, of an octree chunk.
pub const CHUNK_SIZE: i32 = 1024;

/// The octant bit set when a point lies at or right of a center.
pub const RIGHT: i32 = 1;

/// The octant bit set when a point lies at or behind a center.
pub const BACK: i32 = 2;

/// The octant bit set when a point lies at or below a center.
pub const BOTTOM: i32 = 4;

/// An integer point in space.
#[derive(Debug, Clone, Copy, PartialEq, Eq, Structural)]
pub struct Point {
    pub x: i32,
    pub y: i32,
    pub z: i32,
}

/// Flooring division of a coordinate by the chunk size.
pub open spec fn chunk_floor(a: int) -> int {
    a / (CHUNK_SIZE as int)
}

impl Point {
    /// Builds a point.
    pub fn new(x: i32, y: i32, z: i32) -> (r: Point)
        ensures
            r == (Point { x, y, z }),
    {
        Point { x, y, z }
    }

    /// The chunk this point lies in, by flooring division on each axis.
    pub fn chunk(&self) -> (r: Point)
        ensures
            r.x == chunk_floor(self.x as int),
            r.y == chunk_floor(self.y as int),
            r.z == chunk_floor(self.z as int),
    {
        Point { x: div_floor(self.x), y: div_floor(self.y), z: div_floor(self.z) }
    }

    /// Whether this point lies within the box `[min, max]`, inclusive.
    pub fn is_in(self, min: Point, max: Point) -> (r: bool)
        ensures
            r == (min.x <= self.x <= max.x && min.y <= self.y <= max.y && min.z <= self.z
                <= max.z),
    {
        min.x <= self.x && self.x <= max.x && min.y <= self.y && self.y <= max.y && min.z
            <= self.z && self.z <= max.z
    }

    /// The octant of `point` relative to this center: one bit per axis, set
    /// when the point's coordinate is at least the center's.
    pub fn octant(self, point: Point) -> (r: i32)
        ensures
            r == (if point.x >= self.x {
                1int
            } else {
                0int
            }) + (if point.y >= self.y {
                2int
            } else {
                0int
            }) + (if point.z >= self.z {
                4int
            } else {
                0int
            }),
            0 <= r < 8,
    {
        (if point.x >= self.x {
            1
        } else {
            0
        }) + (if point.y >= self.y {
            2
        } else {
            0
        }) + (if point.z >= self.z {
            4
        } else {
            0
        })
    }

    /// The midpoint of the chunk with these chunk coordinates.
    pub fn chunk_midpoint(self) -> (r: Point)
        requires
            -0x0020_0000 <= self.x <= 0x001F_FFFF,
            -0x0020_0000 <= self.y <= 0x001F_FFFF,
            -0x0020_0000 <= self.z <= 0x001F_FFFF,
        ensures
            r.x == self.x * 1024 + 512,
            r.y == self.y * 1024 + 512,
            r.z == self.z * 1024 + 512,
    {
        Point { x: self.x * 1024 + 512, y: self.y * 1024 + 512, z: self.z * 1024 + 512 }
    }

    /// This point shifted by an offset on each axis.
    pub fn shifted(self, x: i32, y: i32, z: i32) -> (r: Point)
        requires
            i32::MIN <= self.x + x <= i32::MAX,
            i32::MIN <= self.y + y <= i32::MAX,
            i32::MIN <= self.z + z <= i32::MAX,
        ensures
            r.x == self.x + x,
            r.y == self.y + y,
            r.z == self.z + z,
    {
        Point { x: self.x + x, y: self.y + y, z: self.z + z }
    }
}

/// Flooring division by the chunk size.
fn div_floor(a: i32) -> (r: i32)
    ensures
        r == chunk_floor(a as int),
{
    if a >= 0 {
        a / 1024
    } else {
        let m = -(a as i64);
        let q = (m + 1023) / 1024;
        proof {
            assert(0 - q == (0 - m) / 1024) by (nonlinear_arith)
                requires
                    1 <= m && q == (m + 1023) / 1024,
            ;
        }
        (-q) as i32
    }
}

/// A node value: a leaf carrying an optional brick index, or eight children.
#[derive(Debug)]
pub enum NodeValue {
    Value(Option<usize>),
    Children(Vec<Node>),
}

/// A node of the octree: an axis-aligned cube of half-width `half` centered
/// at `point`, subdividing `depth` more times at most.
#[derive(Debug)]
pub struct Node {
    /// The center of the node's cube.
    pub point: Point,
    /// How many times this node may still subdivide.
    pub depth: u32,
    /// The node's value or children.
    pub value: NodeValue,
    /// Half the cube's edge length.
    pub half: u32,
}

/// Well-formedness of a node at recursion budget `d`: the depth matches, the
/// half-width is within bounds, and children are eight well-formed nodes one
/// level down.
pub open spec fn wf_node(n: Node, d: nat) -> bool
    decreases d,
{
    &&& n.depth == d
    &&& n.half >= 1
    &&& n.half <= 0x2000_0000
    &&& match n.value {
        NodeValue::Value(_) => true,
        NodeValue::Children(cs) => {
            &&& d >= 1
            &&& cs@.len() == 8
            &&& forall|i: int| 0 <= i < 8 ==> wf_node(#[trigger] cs@[i], (d - 1) as nat)
        },
    }
}

/// After reduction no subtree is eight leaves carrying one value: every
/// children node keeps at least two distinct leaf values or a deeper child.
pub open spec fn reduced(n: Node, d: nat) -> bool
    decreases d,
{
    match n.value {
        NodeValue::Value(_) => true,
        NodeValue::Children(cs) => {
            &&& d >= 1
            &&& cs@.len() == 8
            &&& (forall|i: int| 0 <= i < 8 ==> reduced(#[trigger] cs@[i], (d - 1) as nat))
            &&& !(forall|i: int|
                0 <= i < 8 ==> #[trigger] leaf_value_of(cs@[i]) is Some && leaf_value_of(
                    cs@[i],
                ) == leaf_value_of(cs@[0]))
        },
    }
}

/// Whether a node's cube lies fully within the box `[min, max]`.
pub open spec fn inside_box(n: Node, min: Point, max: Point) -> bool {
    n.point.x - n.half >= min.x && n.point.x + n.half <= max.x && n.point.y - n.half >= min.y
        && n.point.y + n.half <= max.y && n.point.z - n.half >= min.z && n.point.z + n.half
        <= max.z
}

/// Whether a node's cube lies fully outside the box `[min, max]`.
pub open spec fn outside_box(n: Node, min: Point, max: Point) -> bool {
    n.point.x + n.half <= min.x || n.point.x - n.half >= max.x || n.point.y + n.half <= min.y
        || n.point.y - n.half >= max.y || n.point.z + n.half <= min.z || n.point.z - n.half
        >= max.z
}

/// The octant a point selects relative to a center.
pub open spec fn octant_of(c: Point, p: Point) -> int {
    (if p.x >= c.x {
        1int
    } else {
        0int
    }) + (if p.y >= c.y {
        2int
    } else {
        0int
    }) + (if p.z >= c.z {
        4int
    } else {
        0int
    })
}

/// The value stored at a point: descend by octant until a leaf.
pub open spec fn node_val_at(n: Node, p: Point, d: nat) -> Option<usize>
    decreases d,
{
    match n.value {
        NodeValue::Value(v) => v,
        NodeValue::Children(cs) => {
            if d >= 1 && cs@.len() == 8 {
                node_val_at(cs@[octant_of(n.point, p)], p, (d - 1) as nat)
            } else {
                None
            }
        },
    }
}

/// The values of the leaves a search over `[min, max]` reaches in a node.
pub open spec fn values_in(n: Node, min: Point, max: Point, d: nat) -> Set<usize>
    decreases d, 1nat, 0nat,
{
    match n.value {
        NodeValue::Value(v) => match v {
            Some(x) => Set::empty().insert(x),
            None => Set::empty(),
        },
        NodeValue::Children(cs) => {
            if d >= 1 && cs@.len() == 8 {
                values_in_kids(cs@, 0, min, max, d)
            } else {
                Set::empty()
            }
        },
    }
}

/// The values a search reaches among the children from index `k` on.
pub open spec fn values_in_kids(
    cs: Seq<Node>,
    k: nat,
    min: Point,
    max: Point,
    d: nat,
) -> Set<usize>
    decreases d, 0nat, (9 - k) as nat,
{
    if k >= 8 || k >= cs.len() || d < 1 {
        Set::empty()
    } else {
        (if outside_box(cs[k as int], min, max) {
            Set::empty()
        } else {
            values_in(cs[k as int], min, max, (d - 1) as nat)
        }).union(values_in_kids(cs, k + 1, min, max, d))
    }
}

/// The values stored anywhere in a node.
pub open spec fn node_values(n: Node, d: nat) -> Set<usize>
    decreases d, 1nat, 0nat,
{
    match n.value {
        NodeValue::Value(v) => match v {
            Some(x) => Set::empty().insert(x),
            None => Set::empty(),
        },
        NodeValue::Children(cs) => {
            if d >= 1 && cs@.len() == 8 {
                node_values_kids(cs@, 0, d)
            } else {
                Set::empty()
            }
        },
    }
}

/// The values stored among the children from index `k` on.
pub open spec fn node_values_kids(cs: Seq<Node>, k: nat, d: nat) -> Set<usize>
    decreases d, 0nat, (9 - k) as nat,
{
    if k >= 8 || k >= cs.len() || d < 1 {
        Set::empty()
    } else {
        node_values(cs[k as int], (d - 1) as nat).union(node_values_kids(cs, k + 1, d))
    }
}

/// A search reaches only stored values.
pub proof fn lemma_values_in_subset(n: Node, min: Point, max: Point, d: nat)
    ensures
        forall|v: usize|
            values_in(n, min, max, d).contains(v) ==> node_values(n, d).contains(v),
    decreases d, 1nat, 0nat,
{
    assert forall|v: usize| values_in(n, min, max, d).contains(v) implies node_values(
        n,
        d,
    ).contains(v) by {
        match n.value {
            NodeValue::Value(_) => {},
            NodeValue::Children(cs) => {
                if d >= 1 && cs@.len() == 8 {
                    assert(values_in(n, min, max, d) == values_in_kids(cs@, 0, min, max, d));
                    assert(node_values(n, d) == node_values_kids(cs@, 0, d));
                    lemma_values_in_kids_subset(cs@, 0, min, max, d);
                    assert(values_in_kids(cs@, 0, min, max, d).contains(v));
                }
            },
        }
    }
}

/// A search among children reaches only stored values.
pub proof fn lemma_values_in_kids_subset(cs: Seq<Node>, k: nat, min: Point, max: Point, d: nat)
    ensures
        forall|v: usize|
            values_in_kids(cs, k, min, max, d).contains(v) ==> node_values_kids(
                cs,
                k,
                d,
            ).contains(v),
    decreases d, 0nat, (9 - k) as nat,
{
    assert forall|v: usize| values_in_kids(cs, k, min, max, d).contains(v)
        implies node_values_kids(cs, k, d).contains(v) by {
        if k >= 8 || k >= cs.len() || d < 1 {
        } else {
            let head: Set<usize> = if outside_box(cs[k as int], min, max) {
                Set::empty()
            } else {
                values_in(cs[k as int], min, max, (d - 1) as nat)
            };
            assert(values_in_kids(cs, k, min, max, d) == head.union(values_in_kids(cs, k + 1,
                min, max, d)));
            assert(node_values_kids(cs, k, d) == node_values(cs[k as int], (d - 1) as nat)
                .union(node_values_kids(cs, k + 1, d)));
            if head.contains(v) {
                lemma_values_in_subset(cs[k as int], min, max, (d - 1) as nat);
                assert(node_values(cs[k as int], (d - 1) as nat).contains(v));
            } else {
                assert(values_in_kids(cs, k + 1, min, max, d).contains(v));
                lemma_values_in_kids_subset(cs, k + 1, min, max, d);
            }
        }
    }
}

/// Membership in the children's search values is membership in some child's.
pub proof fn lemma_values_in_kids_exists(
    cs: Seq<Node>,
    k: nat,
    min: Point,
    max: Point,
    d: nat,
    v: usize,
)
    requires
        cs.len() == 8,
        d >= 1,
        k <= 8,
    ensures
        values_in_kids(cs, k, min, max, d).contains(v) <==> exists|i: int|
            k <= i < 8 && !outside_box(#[trigger] cs[i], min, max) && values_in(
                cs[i],
                min,
                max,
                (d - 1) as nat,
            ).contains(v),
    decreases 9 - k,
{
    if k < 8 {
        lemma_values_in_kids_exists(cs, k + 1, min, max, d, v);
    }
}

/// The value of a leaf node, or `None` for a node with children.
pub open spec fn leaf_value_of(n: Node) -> Option<Option<usize>> {
    match n.value {
        NodeValue::Value(v) => Some(v),
        NodeValue::Children(_) => None,
    }
}

/// The center of the synthetic child a splitting leaf gains, per octant: one
/// bit per axis, shifted right, back or down when set.
pub open spec fn split_point(c: Point, shift: int, o: int) -> Point {
    Point {
        x: (c.x + if o % 2 == 1 {
            shift
        } else {
            -shift
        }) as i32,
        y: (c.y + if (o / 2) % 2 == 1 {
            shift
        } else {
            -shift
        }) as i32,
        z: (c.z + if o / 4 == 1 {
            shift
        } else {
            -shift
        }) as i32,
    }
}

/// The synthetic child a splitting leaf gains in octant `o`: one level down,
/// carrying the leaf's value.
pub open spec fn split_child(n: Node, v0: Option<usize>, o: int) -> Node {
    Node {
        point: split_point(n.point, n.half as int / 2, o),
        depth: (n.depth - 1) as u32,
        half: if n.depth >= 2 {
            1u32 << ((n.depth - 2) as u32)
        } else {
            1u32
        },
        value: NodeValue::Value(v0),
    }
}

/// Whether a leaf cannot split: its children's depth or centers would leave
/// the ranges the tree works in, so an insert leaves it untouched.
pub open spec fn split_blocked(n: Node) -> bool {
    let sh = n.half as int / 2;
    ||| n.depth - 1 > 30
    ||| n.point.x - sh < -0x8000_0000
    ||| n.point.x + sh > 0x7FFF_FFFF
    ||| n.point.y - sh < -0x8000_0000
    ||| n.point.y + sh > 0x7FFF_FFFF
    ||| n.point.z - sh < -0x8000_0000
    ||| n.point.z + sh > 0x7FFF_FFFF
}

/// Two to the power of one less than the depth, floored at one: the
/// half-width of every node this module builds.
pub open spec fn pow2_half(d: nat) -> u32 {
    if d == 0 {
        1u32
    } else {
        1u32 << ((d - 1) as u32)
    }
}

/// The half-width of a depth-ten chunk root.
pub proof fn lemma_half_ten()
    ensures
        pow2_half(10) == 512,
{
    assert(1u32 << 9u32 == 512) by (bit_vector);
}

/// Bounds and the halving law of the regular grid's half-widths.
pub proof fn lemma_pow2_half_bounds(d: nat)
    requires
        d <= 30,
    ensures
        1 <= pow2_half(d) <= 0x2000_0000,
        d >= 2 ==> pow2_half(d) == 2 * pow2_half((d - 1) as nat),
        d == 1 ==> pow2_half(d) == 1,
{
    if d >= 1 {
        let e: u32 = (d - 1) as u32;
        assert(1u32 << e >= 1 && 1u32 << e <= 0x2000_0000) by (bit_vector)
            requires
                e <= 29,
        ;
        if d >= 2 {
            assert(1u32 << e == 2 * (1u32 << ((e - 1) as u32))) by (bit_vector)
                requires
                    1 <= e <= 29,
            ;
        } else {
            assert(1u32 << 0u32 == 1) by (bit_vector);
        }
    }
}

/// Geometric well-formedness at depth `d`: the half-width follows the depth,
/// the cube stays in the 32-bit range, and children sit on the regular split
/// grid one level down.
pub open spec fn geo_node(n: Node, d: nat) -> bool
    decreases d,
{
    &&& n.depth == d
    &&& d <= 30
    &&& n.half == pow2_half(d)
    &&& n.point.x - n.half >= -0x8000_0000 && n.point.x + n.half <= 0x8000_0000
    &&& n.point.y - n.half >= -0x8000_0000 && n.point.y + n.half <= 0x8000_0000
    &&& n.point.z - n.half >= -0x8000_0000 && n.point.z + n.half <= 0x8000_0000
    &&& match n.value {
        NodeValue::Value(_) => true,
        NodeValue::Children(cs) => {
            &&& d >= 1
            &&& cs@.len() == 8
            &&& (forall|o: int|
                0 <= o < 8 ==> (#[trigger] cs@[o]).point == split_point(
                    n.point,
                    n.half as int / 2,
                    o,
                ))
            &&& (forall|o: int| 0 <= o < 8 ==> geo_node(#[trigger] cs@[o], (d - 1) as nat))
        },
    }
}

/// Whether a point lies in the cube centered at `c` with half-width `h`.
pub open spec fn in_cube(c: Point, h: int, p: Point) -> bool {
    &&& c.x - h <= p.x < c.x + h
    &&& c.y - h <= p.y < c.y + h
    &&& c.z - h <= p.z < c.z + h
}

/// Whether an insert over `[m, M)` reaches the point `p` under the regular
/// grid: descending from a cube centered at `c` with depth `d` by `p`'s
/// octant, some cube on the way lies fully inside the box before one lies
/// fully outside or the descent ends.
pub open spec fn covers(c: Point, d: nat, p: Point, m: Point, M: Point) -> bool
    decreases d,
{
    let h = pow2_half(d) as int;
    if c.x - h >= m.x && c.x + h <= M.x && c.y - h >= m.y && c.y + h <= M.y && c.z - h >= m.z
        && c.z + h <= M.z {
        true
    } else if d == 0 {
        false
    } else {
        let ch = split_point(c, h / 2, octant_of(c, p));
        let h1 = pow2_half((d - 1) as nat) as int;
        if ch.x + h1 <= m.x || ch.x - h1 >= M.x || ch.y + h1 <= m.y || ch.y - h1 >= M.y
            || ch.z + h1 <= m.z || ch.z - h1 >= M.z {
            false
        } else {
            covers(ch, (d - 1) as nat, p, m, M)
        }
    }
}

/// Under the regular grid, an insert stores the value exactly on the points
/// its descent covers and leaves every other point's value unchanged.
pub proof fn lemma_ins_covers(n: Node, value: usize, m: Point, M: Point, p: Point, d: nat)
    requires
        geo_node(n, d),
        d <= 30,
    ensures
        ins_val_at(n, value, m, M, p, d) == (if covers(n.point, d, p, m, M) {
            Some(value)
        } else {
            node_val_at(n, p, d)
        }),
    decreases d,
{
    let h = pow2_half(d) as int;
    assert(n.half == pow2_half(d));
    if inside_box(n, m, M) {
        assert(covers(n.point, d, p, m, M));
    } else if d == 0 {
        assert(!covers(n.point, d, p, m, M));
    } else {
        let o = octant_of(n.point, p);
        assert(0 <= o < 8);
        let sh = h / 2;
        let h1 = pow2_half((d - 1) as nat) as int;
        lemma_pow2_half_bounds(d);
        lemma_pow2_half_bounds((d - 1) as nat);
        assert(h >= 1);
        if d >= 2 {
            assert(sh == h1);
        } else {
            assert(d == 1 && h == 1 && sh == 0 && h1 == 1);
        }
        let ch = split_point(n.point, sh, o);
        assert(!split_blocked(n)) by {
            if d >= 2 {
                assert(n.point.x + sh <= 0x7FFF_FFFF && n.point.x - sh >= -0x8000_0000
                    && n.point.y + sh <= 0x7FFF_FFFF && n.point.y - sh >= -0x8000_0000
                    && n.point.z + sh <= 0x7FFF_FFFF && n.point.z - sh >= -0x8000_0000);
            }
        }
        match n.value {
            NodeValue::Value(v0) => {
                let child = split_child(n, v0, o);
                assert(child.point == ch);
                if d >= 2 {
                    assert(child.half == 1u32 << ((d - 2) as u32));
                    assert(pow2_half((d - 1) as nat) == 1u32 << ((d - 2) as u32));
                }
                assert(child.half as int == h1);
                if outside_box(child, m, M) {
                    assert(!covers(n.point, d, p, m, M));
                } else {
                    assert(geo_node(child, (d - 1) as nat)) by {
                        if d >= 2 {
                            assert(n.point.x - h <= ch.x - h1 && ch.x + h1 <= n.point.x + h
                                && n.point.y - h <= ch.y - h1 && ch.y + h1 <= n.point.y + h
                                && n.point.z - h <= ch.z - h1 && ch.z + h1 <= n.point.z + h);
                        }
                    }
                    lemma_ins_covers(child, value, m, M, p, (d - 1) as nat);
                    assert(node_val_at(child, p, (d - 1) as nat) == v0);
                    assert(node_val_at(n, p, d) == v0);
                    assert(covers(n.point, d, p, m, M) == covers(ch, (d - 1) as nat, p, m, M));
                }
            },
            NodeValue::Children(cs) => {
                let child = cs@[o];
                assert(geo_node(child, (d - 1) as nat));
                assert(child.point == ch);
                assert(child.half == pow2_half((d - 1) as nat));
                if outside_box(child, m, M) {
                    assert(!covers(n.point, d, p, m, M));
                    assert(node_val_at(n, p, d) == node_val_at(child, p, (d - 1) as nat));
                } else {
                    lemma_ins_covers(child, value, m, M, p, (d - 1) as nat);
                    assert(node_val_at(n, p, d) == node_val_at(child, p, (d - 1) as nat));
                    assert(covers(n.point, d, p, m, M) == covers(ch, (d - 1) as nat, p, m, M));
                }
            },
        }
    }
}

/// The value at a point after inserting over `[min, max)`, mirroring
/// `Node::insert`: a node fully inside takes the value everywhere; a node at
/// depth zero, or a leaf that cannot split, is untouched; otherwise the
/// point's octant child recurses unless its cube lies outside the box.
pub open spec fn ins_val_at(
    n: Node,
    value: usize,
    min: Point,
    max: Point,
    p: Point,
    d: nat,
) -> Option<usize>
    decreases d,
{
    if inside_box(n, min, max) {
        Some(value)
    } else if d == 0 {
        node_val_at(n, p, d)
    } else {
        match n.value {
            NodeValue::Value(v0) => {
                if split_blocked(n) {
                    v0
                } else {
                    let child = split_child(n, v0, octant_of(n.point, p));
                    if outside_box(child, min, max) {
                        v0
                    } else {
                        ins_val_at(child, value, min, max, p, (d - 1) as nat)
                    }
                }
            },
            NodeValue::Children(cs) => {
                if cs@.len() == 8 {
                    let child = cs@[octant_of(n.point, p)];
                    if outside_box(child, min, max) {
                        node_val_at(child, p, (d - 1) as nat)
                    } else {
                        ins_val_at(child, value, min, max, p, (d - 1) as nat)
                    }
                } else {
                    node_val_at(n, p, d)
                }
            },
        }
    }
}

impl Node {
    /// Builds a leaf node; its half-width is two to the power of one less
    /// than its depth, floored at one.
    pub fn new(point: Point, depth: u32, value: Option<usize>) -> (r: Node)
        requires
            depth <= 30,
        ensures
            wf_node(r, depth as nat),
            r.point == point,
            r.depth == depth,
            r.value == NodeValue::Value(value),
            depth >= 1 ==> r.half == (1u32 << (depth - 1)),
            depth == 0 ==> r.half == 1,
    {
        let e: u32 = if depth >= 1 {
            depth - 1
        } else {
            0
        };
        let half = 1u32 << e;
        proof {
            lemma_pow2_half_bounds(1);
            assert(1u32 << 0u32 == 1);
            if depth >= 1 {
                lemma_pow2_half_bounds(depth as nat);
                assert(half == pow2_half(depth as nat));
            }
        }
        Node { point, depth, value: NodeValue::Value(value), half }
    }

    /// Whether the box `[min, max]` has exactly this node's edge length on
    /// every axis.
    pub fn would_fill_node(&self, min: Point, max: Point) -> (r: bool)
        requires
            self.depth <= 30,
        ensures
            r == ((max.x - min.x == (1i64 << self.depth) as int) && (max.y - min.y == (1i64
                << self.depth) as int) && (max.z - min.z == (1i64 << self.depth) as int)),
    {
        let d = self.depth;
        let size: i64 = 1i64 << d;
        proof {
            assert((1i64 << d) > 0) by (bit_vector)
                requires
                    d <= 30,
            ;
        }
        (max.x as i64 - min.x as i64) == size && (max.y as i64 - min.y as i64) == size && (
        max.z as i64 - min.z as i64) == size
    }

    /// Whether this node's cube lies fully within the box `[min, max]`.
    pub fn is_inside(&self, min: Point, max: Point) -> (r: bool)
        ensures
            r == (self.point.x - self.half >= min.x && self.point.x + self.half <= max.x
                && self.point.y - self.half >= min.y && self.point.y + self.half <= max.y
                && self.point.z - self.half >= min.z && self.point.z + self.half <= max.z),
    {
        let h = self.half as i64;
        self.point.x as i64 - h >= min.x as i64 && self.point.x as i64 + h <= max.x as i64
            && self.point.y as i64 - h >= min.y as i64 && self.point.y as i64 + h <= max.y
            as i64 && self.point.z as i64 - h >= min.z as i64 && self.point.z as i64 + h
            <= max.z as i64
    }

    /// Whether this node's cube lies fully outside the box `[min, max]`.
    pub fn is_outside(&self, min: Point, max: Point) -> (r: bool)
        ensures
            r == (self.point.x + self.half <= min.x || self.point.x - self.half >= max.x
                || self.point.y + self.half <= min.y || self.point.y - self.half >= max.y
                || self.point.z + self.half <= min.z || self.point.z - self.half >= max.z),
    {
        let h = self.half as i64;
        self.point.x as i64 + h <= min.x as i64 || self.point.x as i64 - h >= max.x as i64
            || self.point.y as i64 + h <= min.y as i64 || self.point.y as i64 - h >= max.y
            as i64 || self.point.z as i64 + h <= min.z as i64 || self.point.z as i64 - h
            >= max.z as i64
    }

    /// Law: after reduction, no subtree of eight identical-value leaves
    /// remains; the tree stays well formed with its shape data unchanged.
    pub fn reduce(&mut self)
        requires
            wf_node(*old(self), old(self).depth as nat),
        ensures
            wf_node(*final(self), final(self).depth as nat),
            reduced(*final(self), final(self).depth as nat),
            final(self).depth == old(self).depth,
            final(self).point == old(self).point,
            final(self).half == old(self).half,
            forall|p: Point|
                #![trigger node_val_at(*final(self), p, final(self).depth as nat)]
                node_val_at(*final(self), p, final(self).depth as nat) == node_val_at(
                    *old(self),
                    p,
                    old(self).depth as nat,
                ),
        decreases old(self).depth,
    {
        let depth = self.depth;
        let point = self.point;
        let half = self.half;
        let mut value = NodeValue::Value(None);
        core::mem::swap(&mut value, &mut self.value);
        match value {
            NodeValue::Value(v) => {
                self.value = NodeValue::Value(v);
            },
            NodeValue::Children(mut nodes) => {
                let ghost nodes0 = nodes@;
                proof {
                    assert forall|p: Point|
                        node_val_at(*old(self), p, depth as nat) == node_val_at(
                            #[trigger] nodes0[octant_of(point, p)],
                            p,
                            (depth - 1) as nat,
                        ) by {}
                }
                let mut i: usize = 0;
                while i < 8
                    invariant
                        i <= 8,
                        nodes@.len() == 8,
                        nodes0.len() == 8,
                        depth >= 1,
                        depth == old(self).depth,
                        forall|j: int|
                            0 <= j < 8 ==> wf_node(#[trigger] nodes@[j], (depth - 1) as nat),
                        forall|j: int|
                            0 <= j < i ==> reduced(#[trigger] nodes@[j], (depth - 1) as nat),
                        forall|j: int, p: Point|
                            #![trigger node_val_at(nodes@[j], p, (depth - 1) as nat)]
                            0 <= j < 8 ==> node_val_at(nodes@[j], p, (depth - 1) as nat)
                                == node_val_at(nodes0[j], p, (depth - 1) as nat),
                    decreases 8 - i,
                {
                    let ghost before = nodes@;
                    let mut child = nodes.remove(i);
                    proof {
                        assert(wf_node(child, (depth - 1) as nat));
                        assert(child.depth < depth);
                    }
                    child.reduce();
                    nodes.insert(i, child);
                    proof {
                        assert(nodes@ =~= before.update(i as int, child));
                        assert forall|j: int| 0 <= j < 8 implies wf_node(
                            #[trigger] nodes@[j],
                            (depth - 1) as nat,
                        ) by {}
                        assert forall|j: int, p: Point|
                            0 <= j < 8 implies #[trigger] node_val_at(nodes@[j], p, (
                        depth - 1) as nat) == node_val_at(nodes0[j], p, (depth - 1) as nat) by {
                            if j != i {
                                assert(nodes@[j] == before[j]);
                            }
                        }
                    }
                    i = i + 1;
                }
                let mut all_equal_leaves = true;
                let first = leaf_value_exec(&nodes[0]);
                match first {
                    Some(v0) => {
                        let mut k: usize = 1;
                        while k < 8
                            invariant
                                1 <= k <= 8,
                                nodes@.len() == 8,
                                leaf_value_of(nodes@[0]) == Some(v0),
                                all_equal_leaves == (forall|j: int|
                                    0 <= j < k ==> #[trigger] leaf_value_of(nodes@[j]) is Some
                                        && leaf_value_of(nodes@[j]) == leaf_value_of(
                                        nodes@[0],
                                    )),
                            decreases 8 - k,
                        {
                            let lk = leaf_value_exec(&nodes[k]);
                            let same = match (lk, v0) {
                                (Some(Some(a)), Some(b)) => a == b,
                                (Some(None), None) => true,
                                _ => false,
                            };
                            if !same {
                                all_equal_leaves = false;
                            }
                            proof {
                                if same {
                                    assert(leaf_value_of(nodes@[k as int]) == Some(v0));
                                }
                            }
                            k = k + 1;
                        }
                    },
                    None => {
                        all_equal_leaves = false;
                    },
                }
                let ghost ns = nodes@;
                if all_equal_leaves {
                    let v = match first {
                        Some(v) => v,
                        None => {
                            proof {
                                assert(false);
                            }
                            None
                        },
                    };
                    self.value = NodeValue::Value(v);
                    proof {
                        assert forall|p: Point|
                            #![trigger octant_of(point, p)]
                            node_val_at(ns[octant_of(point, p)], p, (depth - 1) as nat)
                                == v by {
                            let o = octant_of(point, p);
                            assert(leaf_value_of(ns[o]) == Some(v));
                        }
                    }
                } else {
                    self.value = NodeValue::Children(nodes);
                    proof {
                        assert(match self.value {
                            NodeValue::Children(cs) => cs@ == ns,
                            NodeValue::Value(_) => false,
                        });
                    }
                }
                proof {
                    assert forall|p: Point|
                        #![trigger octant_of(point, p)]
                        node_val_at(
                            Node { point, depth, half, value: self.value },
                            p,
                            depth as nat,
                        ) == node_val_at(*old(self), p, old(self).depth as nat) by {
                        let o = octant_of(point, p);
                        assert(node_val_at(ns[o], p, (depth - 1) as nat) == node_val_at(
                            nodes0[o],
                            p,
                            (depth - 1) as nat,
                        ));
                    }
                }
            },
        }
        self.point = point;
        self.depth = depth;
        self.half = half;
        proof {
            assert(*self == (Node {
                point,
                depth,
                half,
                value: self.value,
            }));
        }
    }

    /// Inserts a value over the box `[min, max]`: a node fully inside takes
    /// the value; otherwise the node splits (above depth zero) and the
    /// children meeting the box recurse.
    #[verifier::rlimit(100)]
    #[verifier::spinoff_prover]
    pub fn insert(&mut self, value: usize, min: Point, max: Point)
        requires
            wf_node(*old(self), old(self).depth as nat),
        ensures
            wf_node(*final(self), final(self).depth as nat),
            final(self).depth == old(self).depth,
            final(self).point == old(self).point,
            final(self).half == old(self).half,
            inside_box(*old(self), min, max) ==> final(self).value == NodeValue::Value(
                Some(value),
            ),
            forall|p: Point|
                #![trigger node_val_at(*final(self), p, final(self).depth as nat)]
                node_val_at(*final(self), p, final(self).depth as nat) == ins_val_at(
                    *old(self),
                    value,
                    min,
                    max,
                    p,
                    old(self).depth as nat,
                ),
            geo_node(*old(self), old(self).depth as nat) ==> geo_node(
                *final(self),
                final(self).depth as nat,
            ),
        decreases old(self).depth,
    {
        if self.is_inside(min, max) {
            self.value = NodeValue::Value(Some(value));
            proof {
                if geo_node(*old(self), old(self).depth as nat) {
                    assert(geo_node(*self, self.depth as nat));
                }
                assert forall|p: Point|
                    #![trigger node_val_at(*self, p, self.depth as nat)]
                    node_val_at(*self, p, self.depth as nat) == ins_val_at(
                        *old(self),
                        value,
                        min,
                        max,
                        p,
                        old(self).depth as nat,
                    ) by {}
            }
            return ;
        }
        if self.depth == 0 {
            proof {
                assert forall|p: Point|
                    #![trigger node_val_at(*self, p, self.depth as nat)]
                    node_val_at(*self, p, self.depth as nat) == ins_val_at(
                        *old(self),
                        value,
                        min,
                        max,
                        p,
                        old(self).depth as nat,
                    ) by {}
            }
            return ;
        }
        let depth = self.depth;
        let point = self.point;
        let half = self.half;
        let is_leaf = match &self.value {
            NodeValue::Value(_) => true,
            NodeValue::Children(_) => false,
        };
        if is_leaf {
            let mut taken = NodeValue::Value(None);
            core::mem::swap(&mut taken, &mut self.value);
            let old_value = match taken {
                NodeValue::Value(v) => v,
                NodeValue::Children(_) => {
                    proof {
                        assert(false);
                    }
                    None
                },
            };
            let child_depth = self.depth - 1;
            let child_shift = (self.half / 2) as i32;
            if child_depth > 30 {
                self.value = NodeValue::Value(old_value);
                proof {
                    assert(*self == *old(self));
                    assert(split_blocked(*old(self)));
                    assert forall|p: Point|
                        #![trigger node_val_at(*self, p, self.depth as nat)]
                        node_val_at(*self, p, self.depth as nat) == ins_val_at(
                            *old(self),
                            value,
                            min,
                            max,
                            p,
                            old(self).depth as nat,
                        ) by {}
                }
                return ;
            }
            let cx = self.point.x;
            let cy = self.point.y;
            let cz = self.point.z;
            let lo: i64 = -0x8000_0000;
            let hi: i64 = 0x7FFF_FFFF;
            let sh = child_shift as i64;
            if (cx as i64) - sh < lo || (cx as i64) + sh > hi || (cy as i64) - sh < lo || (cy
                as i64) + sh > hi || (cz as i64) - sh < lo || (cz as i64) + sh > hi {
                self.value = NodeValue::Value(old_value);
                proof {
                    assert(*self == *old(self));
                    assert(split_blocked(*old(self)));
                    assert forall|p: Point|
                        #![trigger node_val_at(*self, p, self.depth as nat)]
                        node_val_at(*self, p, self.depth as nat) == ins_val_at(
                            *old(self),
                            value,
                            min,
                            max,
                            p,
                            old(self).depth as nat,
                        ) by {}
                }
                return ;
            }
            let mut cs: Vec<Node> = Vec::new();
            cs.push(Node::new(Point::new(cx - child_shift, cy - child_shift, cz - child_shift), child_depth, old_value));
            cs.push(Node::new(Point::new(cx + child_shift, cy - child_shift, cz - child_shift), child_depth, old_value));
            cs.push(Node::new(Point::new(cx - child_shift, cy + child_shift, cz - child_shift), child_depth, old_value));
            cs.push(Node::new(Point::new(cx + child_shift, cy + child_shift, cz - child_shift), child_depth, old_value));
            cs.push(Node::new(Point::new(cx - child_shift, cy - child_shift, cz + child_shift), child_depth, old_value));
            cs.push(Node::new(Point::new(cx + child_shift, cy - child_shift, cz + child_shift), child_depth, old_value));
            cs.push(Node::new(Point::new(cx - child_shift, cy + child_shift, cz + child_shift), child_depth, old_value));
            cs.push(Node::new(Point::new(cx + child_shift, cy + child_shift, cz + child_shift), child_depth, old_value));
            self.value = NodeValue::Children(cs);
        }
        let mut taken2 = NodeValue::Value(None);
        core::mem::swap(&mut taken2, &mut self.value);
        let mut nodes = match taken2 {
            NodeValue::Children(cs) => cs,
            NodeValue::Value(_) => {
                proof {
                    assert(false);
                }
                Vec::new()
            },
        };
        let ghost nodes0 = nodes@;
        proof {
            match old(self).value {
                NodeValue::Value(w) => {
                    assert(!split_blocked(*old(self)));
                    assert(nodes0[0] == split_child(*old(self), w, 0));
                    assert(nodes0[1] == split_child(*old(self), w, 1));
                    assert(nodes0[2] == split_child(*old(self), w, 2));
                    assert(nodes0[3] == split_child(*old(self), w, 3));
                    assert(nodes0[4] == split_child(*old(self), w, 4));
                    assert(nodes0[5] == split_child(*old(self), w, 5));
                    assert(nodes0[6] == split_child(*old(self), w, 6));
                    assert(nodes0[7] == split_child(*old(self), w, 7));
                },
                NodeValue::Children(cs0) => {
                    assert(nodes0 == cs0@);
                },
            }
            if geo_node(*old(self), depth as nat) {
                let h = pow2_half(depth as nat) as int;
                let sh = h / 2;
                assert(depth <= 30);
                lemma_pow2_half_bounds(depth as nat);
                lemma_pow2_half_bounds((depth - 1) as nat);
                assert forall|o: int| 0 <= o < 8 implies geo_node(
                    #[trigger] nodes0[o],
                    (depth - 1) as nat,
                ) && nodes0[o].point == split_point(point, half as int / 2, o) by {
                    match old(self).value {
                        NodeValue::Value(w) => {
                            assert(nodes0[o] == split_child(*old(self), w, o));
                            let ch = split_point(point, sh, o);
                            if depth >= 2 {
                                assert(h == 2 * pow2_half((depth - 1) as nat));
                                assert(sh == pow2_half((depth - 1) as nat));
                                assert(point.x - h <= ch.x - sh && ch.x + sh <= point.x + h
                                    && point.y - h <= ch.y - sh && ch.y + sh <= point.y + h
                                    && point.z - h <= ch.z - sh && ch.z + sh <= point.z + h);
                            } else {
                                assert(sh == 0 && pow2_half((depth - 1) as nat) == 1 && h
                                    == 1);
                            }
                        },
                        NodeValue::Children(cs0) => {},
                    }
                }
            }
        }
        let mut i: usize = 0;
        while i < 8
            invariant
                i <= 8,
                nodes@.len() == 8,
                nodes0.len() == 8,
                depth >= 1,
                depth == old(self).depth,
                forall|j: int| 0 <= j < 8 ==> wf_node(#[trigger] nodes@[j], (depth - 1) as nat),
                forall|j: int| i <= j < 8 ==> nodes@[j] == nodes0[j],
                forall|j: int, p: Point|
                    #![trigger node_val_at(nodes@[j], p, (depth - 1) as nat)]
                    0 <= j < i ==> node_val_at(nodes@[j], p, (depth - 1) as nat) == (
                    if outside_box(nodes0[j], min, max) {
                        node_val_at(nodes0[j], p, (depth - 1) as nat)
                    } else {
                        ins_val_at(nodes0[j], value, min, max, p, (depth - 1) as nat)
                    }),
                geo_node(*old(self), depth as nat) ==> (forall|j: int|
                    0 <= j < 8 ==> geo_node(#[trigger] nodes@[j], (depth - 1) as nat)
                        && nodes@[j].point == split_point(point, half as int / 2, j)),
            decreases 8 - i,
        {
            let outside = nodes[i].is_outside(min, max);
            if !outside {
                let ghost before = nodes@;
                let mut child = nodes.remove(i);
                proof {
                    assert(wf_node(child, (depth - 1) as nat));
                    assert(child.depth < depth);
                    assert(child == nodes0[i as int]);
                }
                child.insert(value, min, max);
                nodes.insert(i, child);
                proof {
                    assert(nodes@ =~= before.update(i as int, child));
                    assert forall|j: int, p: Point|
                        0 <= j < i + 1 implies #[trigger] node_val_at(nodes@[j], p, (
                    depth - 1) as nat) == (if outside_box(nodes0[j], min, max) {
                        node_val_at(nodes0[j], p, (depth - 1) as nat)
                    } else {
                        ins_val_at(nodes0[j], value, min, max, p, (depth - 1) as nat)
                    }) by {
                        if j != i {
                            assert(nodes@[j] == before[j]);
                        } else {
                            assert(nodes@[j] == child);
                        }
                    }
                    assert forall|j: int| i + 1 <= j < 8 implies nodes@[j] == nodes0[j] by {
                        assert(nodes@[j] == before[j]);
                    }
                    if geo_node(*old(self), depth as nat) {
                        assert forall|j: int| 0 <= j < 8 implies geo_node(
                            #[trigger] nodes@[j],
                            (depth - 1) as nat,
                        ) && nodes@[j].point == split_point(point, half as int / 2, j) by {
                            if j != i {
                                assert(nodes@[j] == before[j]);
                            }
                        }
                    }
                }
            }
            i = i + 1;
        }
        self.value = NodeValue::Children(nodes);
        self.point = point;
        self.depth = depth;
        self.half = half;
        proof {
            if geo_node(*old(self), depth as nat) {
                assert(geo_node(*self, depth as nat));
            }
            assert forall|p: Point|
                #![trigger node_val_at(*self, p, depth as nat)]
                node_val_at(*self, p, depth as nat) == ins_val_at(
                    *old(self),
                    value,
                    min,
                    max,
                    p,
                    old(self).depth as nat,
                ) by {
                let o = octant_of(point, p);
                assert(node_val_at(*self, p, depth as nat) == node_val_at(nodes@[o], p, (
                depth - 1) as nat));
                match old(self).value {
                    NodeValue::Value(w) => {
                        assert(nodes0[o] == split_child(*old(self), w, o));
                        if outside_box(nodes0[o], min, max) {
                            assert(node_val_at(nodes0[o], p, (depth - 1) as nat) == w);
                        }
                    },
                    NodeValue::Children(cs0) => {
                        assert(nodes0[o] == cs0@[o]);
                    },
                }
            }
        }
    }

    /// Collects the values of the leaves a search over `[min, max]` reaches,
    /// without duplicates: afterwards `acc` holds exactly what it held before
    /// plus those values.
    pub fn search(&self, min: Point, max: Point, acc: &mut Vec<usize>)
        requires
            wf_node(*self, self.depth as nat),
            no_dup(old(acc)@),
        ensures
            no_dup(final(acc)@),
            forall|v: usize|
                #[trigger] final(acc)@.contains(v) <==> (old(acc)@.contains(v) || values_in(
                    *self,
                    min,
                    max,
                    self.depth as nat,
                ).contains(v)),
        decreases self.depth,
    {
        match &self.value {
            NodeValue::Value(v) => {
                match v {
                    Some(value) => {
                        push_unique(acc, *value);
                    },
                    None => {},
                }
            },
            NodeValue::Children(nodes) => {
                let ghost d1 = (self.depth - 1) as nat;
                let mut i: usize = 0;
                while i < 8
                    invariant
                        i <= 8,
                        nodes@.len() == 8,
                        self.depth >= 1,
                        d1 == (self.depth - 1) as nat,
                        no_dup(acc@),
                        forall|j: int|
                            0 <= j < 8 ==> wf_node(#[trigger] nodes@[j], (
                            self.depth - 1) as nat),
                        forall|v: usize|
                            #[trigger] acc@.contains(v) <==> (old(acc)@.contains(v) || exists|
                                j: int,
                            |
                                0 <= j < i && !outside_box(nodes@[j], min, max) && #[trigger]
                                values_in(nodes@[j], min, max, d1).contains(v)),
                    decreases 8 - i,
                {
                    let node = &nodes[i];
                    proof {
                        assert(wf_node(nodes@[i as int], (self.depth - 1) as nat));
                        assert(node.depth < self.depth);
                    }
                    let ghost accpre = acc@;
                    if !node.is_outside(min, max) {
                        node.search(min, max, acc);
                        proof {
                            assert forall|v: usize| #[trigger] acc@.contains(v) implies (
                            old(acc)@.contains(v) || exists|j: int|
                                0 <= j < i + 1 && !outside_box(nodes@[j], min, max)
                                    && #[trigger] values_in(nodes@[j], min, max, d1).contains(
                                    v,
                                )) by {
                                if !accpre.contains(v) {
                                    assert(values_in(nodes@[i as int], min, max, d1).contains(
                                        v,
                                    ));
                                }
                            }
                            assert forall|v: usize|
                                (old(acc)@.contains(v) || exists|j: int|
                                    0 <= j < i + 1 && !outside_box(nodes@[j], min, max)
                                        && #[trigger] values_in(nodes@[j], min, max,
                                        d1,
                                    ).contains(v)) implies #[trigger] acc@.contains(v) by {}
                        }
                    } else {
                        proof {
                            assert forall|v: usize| #[trigger] acc@.contains(v) implies (
                            old(acc)@.contains(v) || exists|j: int|
                                0 <= j < i + 1 && !outside_box(nodes@[j], min, max)
                                    && #[trigger] values_in(nodes@[j], min, max, d1).contains(
                                    v,
                                )) by {}
                            assert forall|v: usize|
                                (old(acc)@.contains(v) || exists|j: int|
                                    0 <= j < i + 1 && !outside_box(nodes@[j], min, max)
                                        && #[trigger] values_in(nodes@[j], min, max,
                                        d1,
                                    ).contains(v)) implies #[trigger] acc@.contains(v) by {
                                if !old(acc)@.contains(v) {
                                    let j = choose|j: int|
                                        0 <= j < i + 1 && !outside_box(nodes@[j], min, max)
                                            && #[trigger] values_in(nodes@[j], min, max,
                                            d1,
                                        ).contains(v);
                                    assert(j < i);
                                }
                            }
                        }
                    }
                    i = i + 1;
                }
                proof {
                    assert forall|v: usize| #[trigger] acc@.contains(v) <==> (old(
                        acc,
                    )@.contains(v) || values_in(*self, min, max, self.depth as nat).contains(
                        v,
                    )) by {
                        lemma_values_in_kids_exists(nodes@, 0, min, max, self.depth as nat,
                            v);
                        assert(values_in(*self, min, max, self.depth as nat)
                            == values_in_kids(nodes@, 0, min, max, self.depth as nat));
                    }
                }
            },
        }
    }

    /// The value stored at exactly `point`: descend by octant to a leaf.
    pub fn get(&self, point: Point) -> (r: Option<usize>)
        requires
            wf_node(*self, self.depth as nat),
        ensures
            r == node_val_at(*self, point, self.depth as nat),
        decreases self.depth,
    {
        match &self.value {
            NodeValue::Value(v) => *v,
            NodeValue::Children(nodes) => {
                let o = self.point.octant(point);
                proof {
                    assert(wf_node(nodes@[o as int], (self.depth - 1) as nat));
                    assert(nodes@[o as int].depth < self.depth);
                }
                nodes[o as usize].get(point)
            },
        }
    }
}

/// The value of a leaf, or `None` for a node with children.
fn leaf_value_exec(n: &Node) -> (r: Option<Option<usize>>)
    ensures
        r == leaf_value_of(*n),
{
    match &n.value {
        NodeValue::Value(v) => Some(*v),
        NodeValue::Children(_) => None,
    }
}

/// A sequence holds no element twice.
pub open spec fn no_dup(s: Seq<usize>) -> bool {
    forall|i: int, j: int| 0 <= i < j < s.len() ==> s[i] != s[j]
}

/// Appends a value unless it is already present.
fn push_unique(acc: &mut Vec<usize>, v: usize)
    requires
        no_dup(old(acc)@),
    ensures
        no_dup(final(acc)@),
        final(acc)@.contains(v),
        forall|x: usize| #[trigger] final(acc)@.contains(x) ==> old(acc)@.contains(x) || x == v,
        forall|x: usize| old(acc)@.contains(x) ==> #[trigger] final(acc)@.contains(x),
{
    let n = acc.len();
    let mut k: usize = 0;
    while k < n
        invariant
            k <= n,
            n == acc@.len(),
            acc@ == old(acc)@,
            no_dup(acc@),
            forall|j: int| 0 <= j < k ==> acc@[j] != v,
        decreases n - k,
    {
        if acc[k] == v {
            proof {
                assert(acc@.contains(v));
            }
            return ;
        }
        k = k + 1;
    }
    acc.push(v);
    proof {
        assert(acc@ =~= old(acc)@.push(v));
        assert(acc@.contains(v)) by {
            assert(acc@[acc@.len() - 1] == v);
        }
        assert forall|x: usize| old(acc)@.contains(x) implies #[trigger] acc@.contains(x) by {
            let w = choose|w: int| 0 <= w < old(acc)@.len() && old(acc)@[w] == x;
            assert(acc@[w] == x);
        }
        assert forall|x: usize| #[trigger] acc@.contains(x) implies old(acc)@.contains(x) || x
            == v by {
            let w = choose|w: int| 0 <= w < acc@.len() && acc@[w] == x;
            if w < acc@.len() - 1 {
                assert(old(acc)@[w] == x);
            }
        }
    }
}


/// The chunk coordinates of a point.
pub open spec fn chunk_of(p: Point) -> Point {
    Point {
        x: chunk_floor(p.x as int) as i32,
        y: chunk_floor(p.y as int) as i32,
        z: chunk_floor(p.z as int) as i32,
    }
}

/// The first chunk root stored under the given chunk coordinates.
pub open spec fn chunk_root(cs: Seq<(Node, Point)>, cp: Point) -> Option<Node>
    decreases cs.len(),
{
    if cs.len() == 0 {
        None
    } else if cs[0].1 == cp {
        Some(cs[0].0)
    } else {
        chunk_root(cs.drop_first(), cp)
    }
}

/// The value a chunk tree stores at a point.
pub open spec fn tree_val_at(cs: Seq<(Node, Point)>, p: Point) -> Option<usize> {
    match chunk_root(cs, chunk_of(p)) {
        Some(n) => node_val_at(n, p, n.depth as nat),
        None => None,
    }
}

/// A stored chunk root is some entry of the list.
pub proof fn lemma_chunk_root_exists(cs: Seq<(Node, Point)>, cp: Point)
    ensures
        match chunk_root(cs, cp) {
            Some(n) => exists|i: int| 0 <= i < cs.len() && (#[trigger] cs[i]).0 == n,
            None => true,
        },
    decreases cs.len(),
{
    if cs.len() > 0 && cs[0].1 != cp {
        lemma_chunk_root_exists(cs.drop_first(), cp);
        match chunk_root(cs.drop_first(), cp) {
            Some(n) => {
                let i = choose|i: int|
                    0 <= i < cs.drop_first().len() && (#[trigger] cs.drop_first()[i]).0 == n;
                assert(cs[i + 1].0 == n);
            },
            None => {},
        }
    }
}

/// The values a search over one per-chunk piece reaches.
pub open spec fn piece_values(cs: Seq<(Node, Point)>, piece: (Point, Point)) -> Set<usize> {
    match chunk_root(cs, chunk_of(piece.0)) {
        Some(n) => values_in(n, piece.0, piece.1, n.depth as nat),
        None => Set::empty(),
    }
}

/// Whether a search over the box `[min, max)` finds the value: the search of
/// some per-chunk piece of the box reaches it.
pub open spec fn region_has(cs: Seq<(Node, Point)>, min: Point, max: Point, v: usize) -> bool {
    exists|k: int|
        0 <= k < piece_count(min, max) && piece_values(
            cs,
            #[trigger] piece_for(min, max, piece_chunk(min, max, k)),
        ).contains(v)
}

/// Whether a box's cells all lie in one chunk.
pub open spec fn one_chunk(min: Point, max: Point) -> bool {
    &&& chunk_floor(min.x as int) == chunk_floor(max.x - 1)
    &&& chunk_floor(min.y as int) == chunk_floor(max.y - 1)
    &&& chunk_floor(min.z as int) == chunk_floor(max.z - 1)
}

/// The count of chunks the half-open span `[lo, hi)` meets.
pub open spec fn chunk_span(lo: i32, hi: i32) -> int {
    chunk_floor(hi - 1) - chunk_floor(lo as int) + 1
}

/// The number of per-chunk pieces a box is cut into.
pub open spec fn piece_count(min: Point, max: Point) -> int {
    chunk_span(min.x, max.x) * chunk_span(min.y, max.y) * chunk_span(min.z, max.z)
}

/// The chunk coordinates of the piece at position `k` of the cut list:
/// pieces run in x-major, then y, then z order over the inclusive chunk
/// range of the box.
pub open spec fn piece_chunk(min: Point, max: Point, k: int) -> Point {
    let ny = chunk_span(min.y, max.y);
    let nz = chunk_span(min.z, max.z);
    Point {
        x: (chunk_floor(min.x as int) + k / (ny * nz)) as i32,
        y: (chunk_floor(min.y as int) + (k / nz) % ny) as i32,
        z: (chunk_floor(min.z as int) + k % nz) as i32,
    }
}

/// The lower bound of the piece of a span starting at `lo` in the chunk with
/// coordinate `c`: the span's own start in its first chunk, the chunk's floor
/// elsewhere.
pub open spec fn piece_lo(lo: i32, c: int) -> i32 {
    if c == chunk_floor(lo as int) {
        lo
    } else {
        (c * 1024) as i32
    }
}

/// The upper bound of the piece of a span ending at `hi` in the chunk with
/// coordinate `c`: the chunk's ceiling, or the span's own end where that
/// comes first.
pub open spec fn piece_hi(hi: i32, c: int) -> i32 {
    if (c + 1) * 1024 < hi {
        ((c + 1) * 1024) as i32
    } else {
        hi
    }
}

/// The intersection of the box `[min, max)` with the cube of chunk `c`.
pub open spec fn piece_for(min: Point, max: Point, c: Point) -> (Point, Point) {
    (
        Point {
            x: piece_lo(min.x, c.x as int),
            y: piece_lo(min.y, c.y as int),
            z: piece_lo(min.z, c.z as int),
        },
        Point {
            x: piece_hi(max.x, c.x as int),
            y: piece_hi(max.y, c.y as int),
            z: piece_hi(max.z, c.z as int),
        },
    )
}

/// Whether a chunk lies in the inclusive chunk range of the box `[min, max)`.
pub open spec fn chunk_in_range(min: Point, max: Point, c: Point) -> bool {
    &&& chunk_floor(min.x as int) <= c.x <= chunk_floor(max.x - 1)
    &&& chunk_floor(min.y as int) <= c.y <= chunk_floor(max.y - 1)
    &&& chunk_floor(min.z as int) <= c.z <= chunk_floor(max.z - 1)
}

/// The position in the cut list of the piece in chunk `c`.
pub open spec fn piece_rank(min: Point, max: Point, c: Point) -> int {
    let ny = chunk_span(min.y, max.y);
    let nz = chunk_span(min.z, max.z);
    (c.x - chunk_floor(min.x as int)) * (ny * nz) + (c.y - chunk_floor(min.y as int)) * nz + (
    c.z - chunk_floor(min.z as int))
}

/// Each position in the cut list names a chunk in the box's range, and is
/// recovered from that chunk's coordinates.
pub proof fn lemma_piece_rank(min: Point, max: Point, k: int)
    requires
        chunk_floor(min.x as int) <= chunk_floor(max.x - 1),
        chunk_floor(min.y as int) <= chunk_floor(max.y - 1),
        chunk_floor(min.z as int) <= chunk_floor(max.z - 1),
        0 <= k < piece_count(min, max),
    ensures
        chunk_in_range(min, max, piece_chunk(min, max, k)),
        piece_rank(min, max, piece_chunk(min, max, k)) == k,
{
    let nx = chunk_span(min.x, max.x);
    let ny = chunk_span(min.y, max.y);
    let nz = chunk_span(min.z, max.z);
    assert(nx >= 1 && ny >= 1 && nz >= 1);
    assert(ny * nz >= 1) by (nonlinear_arith)
        requires
            ny >= 1,
            nz >= 1,
    ;
    assert(piece_count(min, max) == nx * ny * nz);
    let q1 = k / (ny * nz);
    let r1 = k % (ny * nz);
    vstd::arithmetic::div_mod::lemma_fundamental_div_mod(k, ny * nz);
    vstd::arithmetic::div_mod::lemma_mod_bound(k, ny * nz);
    let q2 = k / nz;
    let r2 = k % nz;
    vstd::arithmetic::div_mod::lemma_fundamental_div_mod(k, nz);
    vstd::arithmetic::div_mod::lemma_mod_bound(k, nz);
    let r3 = q2 % ny;
    vstd::arithmetic::div_mod::lemma_fundamental_div_mod(q2, ny);
    vstd::arithmetic::div_mod::lemma_mod_bound(q2, ny);
    let q3 = q2 / ny;
    assert(k == q3 * (ny * nz) + (nz * r3 + r2) && 0 <= nz * r3 + r2 < ny * nz) by (
    nonlinear_arith)
        requires
            k == nz * q2 + r2,
            q2 == ny * q3 + r3,
            0 <= r2 < nz,
            0 <= r3 < ny,
    ;
    vstd::arithmetic::div_mod::lemma_fundamental_div_mod_converse(k, ny * nz, q3, nz * r3
        + r2);
    assert(q1 == q3);
    assert(0 <= q1 < nx) by (nonlinear_arith)
        requires
            k == (ny * nz) * q1 + r1,
            0 <= r1 < ny * nz,
            0 <= k,
            k < nx * ny * nz,
            ny * nz >= 1,
    ;
    let mnx = chunk_floor(min.x as int);
    let mny = chunk_floor(min.y as int);
    let mnz = chunk_floor(min.z as int);
    assert(-0x0020_0000 <= mnx <= 0x001F_FFFF) by (nonlinear_arith)
        requires
            mnx == min.x as int / 1024 && -0x8000_0000 <= min.x < 0x8000_0000,
    ;
    assert(-0x0020_0000 <= mny <= 0x001F_FFFF) by (nonlinear_arith)
        requires
            mny == min.y as int / 1024 && -0x8000_0000 <= min.y < 0x8000_0000,
    ;
    assert(-0x0020_0000 <= mnz <= 0x001F_FFFF) by (nonlinear_arith)
        requires
            mnz == min.z as int / 1024 && -0x8000_0000 <= min.z < 0x8000_0000,
    ;
    assert(-0x0020_0002 < chunk_floor(max.x - 1) < 0x0020_0000) by (nonlinear_arith)
        requires
            chunk_floor(max.x - 1) == (max.x - 1) / 1024 && -0x8000_0001 <= max.x - 1
                <= 0x7FFF_FFFE,
    ;
    assert(-0x0020_0002 < chunk_floor(max.y - 1) < 0x0020_0000) by (nonlinear_arith)
        requires
            chunk_floor(max.y - 1) == (max.y - 1) / 1024 && -0x8000_0001 <= max.y - 1
                <= 0x7FFF_FFFE,
    ;
    assert(-0x0020_0002 < chunk_floor(max.z - 1) < 0x0020_0000) by (nonlinear_arith)
        requires
            chunk_floor(max.z - 1) == (max.z - 1) / 1024 && -0x8000_0001 <= max.z - 1
                <= 0x7FFF_FFFE,
    ;
    let c = piece_chunk(min, max, k);
    assert(c.x as int == mnx + q1 && c.y as int == mny + r3 && c.z as int == mnz + r2);
    assert(piece_rank(min, max, c) == (q1 * (ny * nz) + r3 * nz + r2));
    assert(q1 * (ny * nz) + r3 * nz + r2 == k) by (nonlinear_arith)
        requires
            k == q3 * (ny * nz) + (nz * r3 + r2),
            q1 == q3,
    ;
}

/// The piece in each chunk of the box's range stands in the cut list, at its
/// own rank.
pub proof fn lemma_piece_rank_of(min: Point, max: Point, c: Point)
    requires
        chunk_floor(min.x as int) <= chunk_floor(max.x - 1),
        chunk_floor(min.y as int) <= chunk_floor(max.y - 1),
        chunk_floor(min.z as int) <= chunk_floor(max.z - 1),
        chunk_in_range(min, max, c),
    ensures
        0 <= piece_rank(min, max, c) < piece_count(min, max),
        piece_chunk(min, max, piece_rank(min, max, c)) == c,
{
    let nx = chunk_span(min.x, max.x);
    let ny = chunk_span(min.y, max.y);
    let nz = chunk_span(min.z, max.z);
    let a = c.x - chunk_floor(min.x as int);
    let b = c.y - chunk_floor(min.y as int);
    let cc = c.z - chunk_floor(min.z as int);
    let k = piece_rank(min, max, c);
    assert(0 <= a < nx && 0 <= b < ny && 0 <= cc < nz);
    assert(0 <= b * nz + cc < ny * nz && k == a * (ny * nz) + (b * nz + cc) && k == (a * ny
        + b) * nz + cc && 0 <= k < nx * (ny * nz) && nx * (ny * nz) == piece_count(min, max))
        by (nonlinear_arith)
        requires
            0 <= a < nx,
            0 <= b < ny,
            0 <= cc < nz,
            k == a * (ny * nz) + b * nz + cc,
            piece_count(min, max) == nx * ny * nz,
    ;
    vstd::arithmetic::div_mod::lemma_fundamental_div_mod_converse(k, ny * nz, a, b * nz + cc);
    vstd::arithmetic::div_mod::lemma_fundamental_div_mod_converse(k, nz, a * ny + b, cc);
    vstd::arithmetic::div_mod::lemma_fundamental_div_mod_converse(a * ny + b, ny, a, b);
}

/// The lower corner of a chunk's piece lies in that chunk.
pub proof fn lemma_piece_chunk_of(min: Point, max: Point, c: Point)
    requires
        chunk_in_range(min, max, c),
    ensures
        chunk_of(piece_for(min, max, c).0) == c,
{
    vstd::arithmetic::div_mod::lemma_fundamental_div_mod_converse(c.x as int * 1024, 1024,
        c.x as int, 0);
    vstd::arithmetic::div_mod::lemma_fundamental_div_mod_converse(c.y as int * 1024, 1024,
        c.y as int, 0);
    vstd::arithmetic::div_mod::lemma_fundamental_div_mod_converse(c.z as int * 1024, 1024,
        c.z as int, 0);
}

/// The midpoint of the cube of the chunk with coordinates `c`.
pub open spec fn chunk_mid(c: Point) -> Point {
    Point {
        x: (c.x * 1024 + 512) as i32,
        y: (c.y * 1024 + 512) as i32,
        z: (c.z * 1024 + 512) as i32,
    }
}

/// The chunk root an insert works on: the stored root, or a fresh depth-ten
/// leaf centered on the chunk.
pub open spec fn base_root(cs: Seq<(Node, Point)>, c: Point) -> Node {
    match chunk_root(cs, c) {
        Some(n) => n,
        None => Node { point: chunk_mid(c), depth: 10, half: 512, value: NodeValue::Value(None) },
    }
}

/// A chunk root on the regular grid: geometrically well formed at depth ten
/// and centered on its chunk's cube.
pub open spec fn geo_root(n: Node, c: Point) -> bool {
    &&& geo_node(n, 10)
    &&& n.point == chunk_mid(c)
    &&& -0x0020_0000 <= c.x <= 0x001F_FFFF
    &&& -0x0020_0000 <= c.y <= 0x001F_FFFF
    &&& -0x0020_0000 <= c.z <= 0x001F_FFFF
}

/// Every chunk root of the tree sits on the regular grid.
pub open spec fn geo_chunks(cs: Seq<(Node, Point)>) -> bool {
    forall|i: int| 0 <= i < cs.len() ==> geo_root((#[trigger] cs[i]).0, cs[i].1)
}

/// Whether an insert over the box `[min, max)` reaches the point `p`: `p`'s
/// chunk lies in the box's range and the descent through that chunk's piece
/// covers `p`.
pub open spec fn box_covers(min: Point, max: Point, p: Point) -> bool {
    let c = chunk_of(p);
    &&& chunk_in_range(min, max, c)
    &&& covers(chunk_mid(c), 10, p, piece_for(min, max, c).0, piece_for(min, max, c).1)
}

/// The value the index stores at a point after inserting the first `k`
/// bricks: the last indexable brick among them whose bounds cover the point.
pub open spec fn built_val_at(
    bricks: Seq<BrickV>,
    k: int,
    exts: Seq<(u32, u32, u32)>,
    p: Point,
) -> Option<usize>
    decreases k,
{
    if k <= 0 {
        None
    } else if indexable(bricks[k - 1], exts) && box_covers(
        brick_min_point(bricks[k - 1], exts),
        brick_max_point(bricks[k - 1], exts),
        p,
    ) {
        Some((k - 1) as usize)
    } else {
        built_val_at(bricks, k - 1, exts, p)
    }
}

/// The build fold keeps the index of the last brick that covers a point.
pub proof fn lemma_built_last(
    bricks: Seq<BrickV>,
    k: int,
    i: int,
    exts: Seq<(u32, u32, u32)>,
    p: Point,
)
    requires
        0 <= i < k <= bricks.len(),
        indexable(bricks[i], exts),
        box_covers(brick_min_point(bricks[i], exts), brick_max_point(bricks[i], exts), p),
        forall|j: int|
            i < j < k ==> !(indexable(#[trigger] bricks[j], exts) && box_covers(
                brick_min_point(bricks[j], exts),
                brick_max_point(bricks[j], exts),
                p,
            )),
    ensures
        built_val_at(bricks, k, exts, p) == Some(i as usize),
    decreases k,
{
    if k > i + 1 {
        lemma_built_last(bricks, k - 1, i, exts, p);
    }
}

/// A value stored at a point on the grid is reached by every search whose box
/// strictly contains that point.
pub proof fn lemma_val_in_values(n: Node, d: nat, p: Point, m: Point, M: Point, v: usize)
    requires
        geo_node(n, d),
        node_val_at(n, p, d) == Some(v),
        in_cube(n.point, n.half as int, p),
        m.x <= p.x < M.x,
        m.y <= p.y < M.y,
        m.z <= p.z < M.z,
    ensures
        values_in(n, m, M, d).contains(v),
    decreases d,
{
    match n.value {
        NodeValue::Value(w) => {},
        NodeValue::Children(cs) => {
            let o = octant_of(n.point, p);
            let child = cs@[o];
            assert(geo_node(child, (d - 1) as nat));
            let h = pow2_half(d) as int;
            let sh = h / 2;
            let h1 = pow2_half((d - 1) as nat) as int;
            lemma_pow2_half_bounds(d);
            lemma_pow2_half_bounds((d - 1) as nat);
            assert(child.point == split_point(n.point, sh, o));
            assert(child.half as int == h1);
            if d >= 2 {
                assert(h == 2 * h1 && sh == h1);
                assert(in_cube(child.point, h1, p));
            } else {
                assert(sh == 0 && h == 1 && h1 == 1);
                assert(child.point == n.point);
                assert(in_cube(child.point, h1, p));
            }
            assert(!outside_box(child, m, M));
            lemma_val_in_values(child, (d - 1) as nat, p, m, M, v);
            lemma_values_in_kids_exists(cs@, 0, m, M, d, v);
            assert(values_in(n, m, M, d) == values_in_kids(cs@, 0, m, M, d));
        },
    }
}

/// On a grid-aligned tree, the stored root of a chunk is centered on it.
pub proof fn lemma_chunk_root_geo(cs: Seq<(Node, Point)>, c: Point)
    requires
        geo_chunks(cs),
    ensures
        chunk_root(cs, c) matches Some(n) ==> geo_root(n, c),
    decreases cs.len(),
{
    if cs.len() > 0 && cs[0].1 != c {
        assert(forall|i: int|
            0 <= i < cs.drop_first().len() ==> (#[trigger] cs.drop_first()[i]) == cs[i + 1]);
        lemma_chunk_root_geo(cs.drop_first(), c);
    }
}

/// On a grid-aligned tree, an insert stores the value exactly on the points
/// its boxes cover and leaves every other point's value unchanged.
pub proof fn lemma_tree_ins_covers(
    cs: Seq<(Node, Point)>,
    value: usize,
    min: Point,
    max: Point,
    p: Point,
)
    requires
        geo_chunks(cs),
    ensures
        tree_ins_val_at(cs, value, min, max, p) == (if box_covers(min, max, p) {
            Some(value)
        } else {
            tree_val_at(cs, p)
        }),
{
    let c = chunk_of(p);
    if chunk_in_range(min, max, c) {
        let base = base_root(cs, c);
        assert(geo_node(base, 10) && base.point == chunk_mid(c)) by {
            match chunk_root(cs, c) {
                Some(n) => {
                    lemma_chunk_root_geo(cs, c);
                },
                None => {
                    lemma_half_ten();
                    assert(-0x0020_0000 <= c.x <= 0x001F_FFFF && -0x0020_0000 <= c.y
                        <= 0x001F_FFFF && -0x0020_0000 <= c.z <= 0x001F_FFFF) by (
                    nonlinear_arith)
                        requires
                            c.x == p.x as int / 1024 && c.y == p.y as int / 1024 && c.z
                                == p.z as int / 1024 && -0x8000_0000 <= p.x < 0x8000_0000
                                && -0x8000_0000 <= p.y < 0x8000_0000 && -0x8000_0000 <= p.z
                                < 0x8000_0000,
                    ;
                    assert(-0x0020_0000 * 1024 <= c.x * 1024 <= 0x001F_FFFF * 1024
                        && -0x0020_0000 * 1024 <= c.y * 1024 <= 0x001F_FFFF * 1024
                        && -0x0020_0000 * 1024 <= c.z * 1024 <= 0x001F_FFFF * 1024) by (
                    nonlinear_arith)
                        requires
                            -0x0020_0000 <= c.x <= 0x001F_FFFF && -0x0020_0000 <= c.y
                                <= 0x001F_FFFF && -0x0020_0000 <= c.z <= 0x001F_FFFF,
                    ;
                },
            }
        }
        assert(base.depth == 10);
        lemma_ins_covers(base, value, piece_for(min, max, c).0, piece_for(min, max, c).1, p,
            10);
        if !covers(chunk_mid(c), 10, p, piece_for(min, max, c).0, piece_for(min, max, c).1) {
            match chunk_root(cs, c) {
                Some(n) => {},
                None => {
                    assert(node_val_at(base, p, 10) == None::<usize>);
                },
            }
        }
    }
}

/// The value a chunk tree stores at a point after inserting a value over the
/// box `[min, max)`: within the box's chunk range, the point's chunk root
/// (fresh where absent) takes the insert over that chunk's piece; elsewhere
/// nothing changes.
pub open spec fn tree_ins_val_at(
    cs: Seq<(Node, Point)>,
    value: usize,
    min: Point,
    max: Point,
    p: Point,
) -> Option<usize> {
    let c = chunk_of(p);
    if chunk_in_range(min, max, c) {
        ins_val_at(
            base_root(cs, c),
            value,
            piece_for(min, max, c).0,
            piece_for(min, max, c).1,
            p,
            base_root(cs, c).depth as nat,
        )
    } else {
        tree_val_at(cs, p)
    }
}

/// Replacing the first entry of a chunk moves the stored root of that chunk
/// alone.
pub proof fn lemma_chunk_root_update_first(
    cs: Seq<(Node, Point)>,
    i: int,
    e: (Node, Point),
    cp: Point,
)
    requires
        0 <= i < cs.len(),
        e.1 == cs[i].1,
        forall|j: int| 0 <= j < i ==> (#[trigger] cs[j]).1 != e.1,
    ensures
        chunk_root(cs.update(i, e), cp) == (if cp == e.1 {
            Some(e.0)
        } else {
            chunk_root(cs, cp)
        }),
    decreases cs.len(),
{
    if i == 0 {
        if cs[0].1 != cp {
            assert(cs.update(0, e).drop_first() =~= cs.drop_first());
        }
    } else {
        assert(cs.update(i, e).drop_first() =~= cs.drop_first().update(i - 1, e));
        assert(forall|j: int|
            0 <= j < i - 1 ==> (#[trigger] cs.drop_first()[j]).1 == cs[j + 1].1);
        lemma_chunk_root_update_first(cs.drop_first(), i - 1, e, cp);
        assert(cs[0].1 != e.1);
    }
}

/// Appending an entry for a chunk with no stored root adds that root alone.
pub proof fn lemma_chunk_root_push_new(cs: Seq<(Node, Point)>, e: (Node, Point), cp: Point)
    requires
        chunk_root(cs, e.1) is None,
    ensures
        chunk_root(cs.push(e), cp) == (if cp == e.1 {
            Some(e.0)
        } else {
            chunk_root(cs, cp)
        }),
    decreases cs.len(),
{
    if cs.len() == 0 {
        assert(cs.push(e)[0] == e);
        assert(cs.push(e).drop_first() =~= Seq::<(Node, Point)>::empty());
        assert(chunk_root(cs, cp) is None);
        assert(chunk_root(cs.push(e).drop_first(), cp) is None);
        if cp == e.1 {
            assert(chunk_root(cs.push(e), cp) == Some(e.0));
        }
    } else {
        assert(cs.push(e)[0] == cs[0]);
        assert(cs.push(e).drop_first() =~= cs.drop_first().push(e));
        assert(cs[0].1 != e.1);
        lemma_chunk_root_push_new(cs.drop_first(), e, cp);
        if cs[0].1 == cp {
            assert(chunk_root(cs.push(e), cp) == Some(cs[0].0));
            assert(chunk_root(cs, cp) == Some(cs[0].0));
        } else {
            assert(chunk_root(cs.push(e), cp) == chunk_root(cs.drop_first().push(e), cp));
            assert(chunk_root(cs, cp) == chunk_root(cs.drop_first(), cp));
        }
    }
}

/// Well-formedness of a chunk tree: every chunk root is well formed.
pub open spec fn wf_chunks(cs: Seq<(Node, Point)>) -> bool {
    forall|i: int| 0 <= i < cs.len() ==> wf_node(#[trigger] cs[i].0, cs[i].0.depth as nat)
}

/// A sparse collection of per-chunk octree roots.
#[derive(Debug)]
pub struct ChunkTree {
    /// The chunk roots, each with its chunk coordinates.
    pub chunks: Vec<(Node, Point)>,
}

impl ChunkTree {
    /// Builds an empty chunk tree.
    pub fn new() -> (r: ChunkTree)
        ensures
            r.chunks@.len() == 0,
            wf_chunks(r.chunks@),
    {
        ChunkTree { chunks: Vec::new() }
    }

    /// Law: reduces every chunk root, so that no subtree of eight
    /// identical-value leaves remains anywhere in the tree.
    pub fn reduce(&mut self)
        requires
            wf_chunks(old(self).chunks@),
        ensures
            wf_chunks(final(self).chunks@),
            final(self).chunks@.len() == old(self).chunks@.len(),
            forall|i: int|
                0 <= i < final(self).chunks@.len() ==> reduced(
                    #[trigger] final(self).chunks@[i].0,
                    final(self).chunks@[i].0.depth as nat,
                ),
    {
        let n = self.chunks.len();
        let mut i: usize = 0;
        while i < n
            invariant
                i <= n,
                n == self.chunks@.len(),
                wf_chunks(self.chunks@),
                forall|j: int|
                    0 <= j < i ==> reduced(
                        #[trigger] self.chunks@[j].0,
                        self.chunks@[j].0.depth as nat,
                    ),
            decreases n - i,
        {
            let mut entry = self.chunks.remove(i);
            entry.0.reduce();
            self.chunks.insert(i, entry);
            proof {
                assert(wf_chunks(self.chunks@));
            }
            i = i + 1;
        }
    }

    /// The per-chunk pieces of the box `[min, max)`: one piece per chunk in
    /// the box's inclusive chunk range, in x-major order, each the
    /// intersection of the box with that chunk's cube. The caller must keep
    /// the box's last cell at or past its first chunk on every axis.
    pub fn chunks_from_bounds(&self, min: Point, max: Point) -> (r: Vec<(Point, Point)>)
        requires
            chunk_floor(min.x as int) <= chunk_floor(max.x - 1),
            chunk_floor(min.y as int) <= chunk_floor(max.y - 1),
            chunk_floor(min.z as int) <= chunk_floor(max.z - 1),
        ensures
            r@.len() == piece_count(min, max),
            forall|k: int|
                0 <= k < r@.len() ==> r@[k] == piece_for(min, max, piece_chunk(min, max, k)),
            r@.len() >= 1,
            r@[0].0 == min,
            one_chunk(min, max) ==> r@ == seq![(min, max)],
    {
        let min_chunk = min.chunk();
        let max_chunk = Point::new(
            div_floor_m1(max.x),
            div_floor_m1(max.y),
            div_floor_m1(max.z),
        );
        let ghost nx = chunk_span(min.x, max.x);
        let ghost ny = chunk_span(min.y, max.y);
        let ghost nz = chunk_span(min.z, max.z);
        proof {
            assert(nx >= 1 && ny >= 1 && nz >= 1);
            vstd::arithmetic::div_mod::lemma_fundamental_div_mod(max.x - 1, 1024);
            vstd::arithmetic::div_mod::lemma_fundamental_div_mod(max.y - 1, 1024);
            vstd::arithmetic::div_mod::lemma_fundamental_div_mod(max.z - 1, 1024);
            vstd::arithmetic::div_mod::lemma_fundamental_div_mod(min.x as int, 1024);
            vstd::arithmetic::div_mod::lemma_fundamental_div_mod(min.y as int, 1024);
            vstd::arithmetic::div_mod::lemma_fundamental_div_mod(min.z as int, 1024);
        }
        let mut v: Vec<(Point, Point)> = Vec::new();
        let mut x = min_chunk.x;
        while x <= max_chunk.x
            invariant
                min_chunk == chunk_of(min),
                max_chunk.x == chunk_floor(max.x - 1),
                max_chunk.y == chunk_floor(max.y - 1),
                max_chunk.z == chunk_floor(max.z - 1),
                nx == chunk_span(min.x, max.x),
                ny == chunk_span(min.y, max.y),
                nz == chunk_span(min.z, max.z),
                min_chunk.x <= x <= max_chunk.x + 1,
                min_chunk.y <= max_chunk.y,
                min_chunk.z <= max_chunk.z,
                max_chunk.x < 0x0020_0000,
                max_chunk.y < 0x0020_0000,
                max_chunk.z < 0x0020_0000,
                x > -0x0020_0001,
                min_chunk.y > -0x0020_0001,
                min_chunk.z > -0x0020_0001,
                v@.len() == (x - min_chunk.x) * (ny * nz),
                forall|k: int|
                    0 <= k < v@.len() ==> v@[k] == piece_for(min, max, piece_chunk(min, max, k)),
            decreases max_chunk.x + 1 - x,
        {
            let min_x: i32 = if x == min_chunk.x {
                min.x
            } else {
                x * 1024
            };
            let max_x: i32 = min_i64((x as i64 + 1) * 1024, max.x);
            let mut y = min_chunk.y;
            while y <= max_chunk.y
                invariant
                    min_chunk == chunk_of(min),
                    max_chunk.x == chunk_floor(max.x - 1),
                    max_chunk.y == chunk_floor(max.y - 1),
                    max_chunk.z == chunk_floor(max.z - 1),
                    nx == chunk_span(min.x, max.x),
                    ny == chunk_span(min.y, max.y),
                    nz == chunk_span(min.z, max.z),
                    min_chunk.x <= x <= max_chunk.x,
                    min_chunk.y <= y <= max_chunk.y + 1,
                    min_chunk.z <= max_chunk.z,
                    max_chunk.y < 0x0020_0000,
                    max_chunk.z < 0x0020_0000,
                    x > -0x0020_0001,
                    min_chunk.y > -0x0020_0001,
                    min_chunk.z > -0x0020_0001,
                    min_x as int == piece_lo(min.x, x as int),
                    max_x as int == piece_hi(max.x, x as int),
                    v@.len() == (x - min_chunk.x) * (ny * nz) + (y - min_chunk.y) * nz,
                    forall|k: int|
                        0 <= k < v@.len() ==> v@[k] == piece_for(min, max, piece_chunk(min,
                        max, k)),
                decreases max_chunk.y + 1 - y,
            {
                let min_y: i32 = if y == min_chunk.y {
                    min.y
                } else {
                    y * 1024
                };
                let max_y: i32 = min_i64((y as i64 + 1) * 1024, max.y);
                let mut z = min_chunk.z;
                while z <= max_chunk.z
                    invariant
                        min_chunk == chunk_of(min),
                        max_chunk.x == chunk_floor(max.x - 1),
                        max_chunk.y == chunk_floor(max.y - 1),
                        max_chunk.z == chunk_floor(max.z - 1),
                        nx == chunk_span(min.x, max.x),
                        ny == chunk_span(min.y, max.y),
                        nz == chunk_span(min.z, max.z),
                        min_chunk.x <= x <= max_chunk.x,
                        min_chunk.y <= y <= max_chunk.y,
                        min_chunk.z <= z <= max_chunk.z + 1,
                        max_chunk.z < 0x0020_0000,
                        x > -0x0020_0001,
                        min_chunk.y > -0x0020_0001,
                        min_chunk.z > -0x0020_0001,
                        min_x as int == piece_lo(min.x, x as int),
                        max_x as int == piece_hi(max.x, x as int),
                        min_y as int == piece_lo(min.y, y as int),
                        max_y as int == piece_hi(max.y, y as int),
                        v@.len() == (x - min_chunk.x) * (ny * nz) + (y - min_chunk.y) * nz + (
                        z - min_chunk.z),
                        forall|k: int|
                            0 <= k < v@.len() ==> v@[k] == piece_for(min, max, piece_chunk(
                            min, max, k)),
                    decreases max_chunk.z + 1 - z,
                {
                    let min_z: i32 = if z == min_chunk.z {
                        min.z
                    } else {
                        z * 1024
                    };
                    let max_z: i32 = min_i64((z as i64 + 1) * 1024, max.z);
                    let ghost k = v@.len() as int;
                    v.push((Point::new(min_x, min_y, min_z), Point::new(max_x, max_y, max_z)));
                    proof {
                        let a = x - min_chunk.x;
                        let b = y - min_chunk.y;
                        let c = z - min_chunk.z;
                        assert(0 <= b * nz + c < ny * nz && a * (ny * nz) + b * nz + c == (a
                            * ny + b) * nz + c) by (nonlinear_arith)
                            requires
                                0 <= b < ny,
                                0 <= c < nz,
                                1 <= nz,
                                0 <= a,
                        ;
                        vstd::arithmetic::div_mod::lemma_fundamental_div_mod_converse(k, ny
                            * nz, a, b * nz + c);
                        vstd::arithmetic::div_mod::lemma_fundamental_div_mod_converse(k, nz, a
                            * ny + b, c);
                        vstd::arithmetic::div_mod::lemma_fundamental_div_mod_converse(a * ny
                            + b, ny, a, b);
                        assert(piece_chunk(min, max, k) == (Point { x, y, z }));
                        assert(v@[k] == piece_for(min, max, Point { x, y, z }));
                    }
                    z = z + 1;
                }
                proof {
                    assert((y + 1 - min_chunk.y) * nz == (y - min_chunk.y) * nz + (max_chunk.z
                        + 1 - min_chunk.z)) by (nonlinear_arith)
                        requires
                            nz == max_chunk.z + 1 - min_chunk.z,
                    ;
                }
                y = y + 1;
            }
            proof {
                assert((x + 1 - min_chunk.x) * (ny * nz) == (x - min_chunk.x) * (ny * nz) + (
                max_chunk.y + 1 - min_chunk.y) * nz) by (nonlinear_arith)
                    requires
                        ny == max_chunk.y + 1 - min_chunk.y,
                ;
            }
            x = x + 1;
        }
        proof {
            assert(v@.len() == nx * (ny * nz));
            assert(nx * (ny * nz) == piece_count(min, max)) by (nonlinear_arith)
                requires
                    nx == chunk_span(min.x, max.x),
                    ny == chunk_span(min.y, max.y),
                    nz == chunk_span(min.z, max.z),
                    piece_count(min, max) == chunk_span(min.x, max.x) * chunk_span(min.y,
                    max.y) * chunk_span(min.z, max.z),
            ;
            assert(v@.len() >= 1) by (nonlinear_arith)
                requires
                    v@.len() == nx * (ny * nz),
                    nx >= 1,
                    ny >= 1,
                    nz >= 1,
            ;
            assert(piece_chunk(min, max, 0) == chunk_of(min)) by {
                assert(ny * nz >= 1) by (nonlinear_arith)
                    requires
                        ny >= 1,
                        nz >= 1,
                ;
                assert(0int / (ny * nz) == 0 && 0int / nz == 0 && 0int % ny == 0 && 0int % nz
                    == 0);
            }
            assert(v@[0].0 == min);
            if one_chunk(min, max) {
                assert(v@.len() == 1) by (nonlinear_arith)
                    requires
                        v@.len() == nx * (ny * nz),
                        nx == 1,
                        ny == 1,
                        nz == 1,
                ;
                vstd::arithmetic::div_mod::lemma_fundamental_div_mod(max.x - 1, 1024);
                vstd::arithmetic::div_mod::lemma_fundamental_div_mod(max.y - 1, 1024);
                vstd::arithmetic::div_mod::lemma_fundamental_div_mod(max.z - 1, 1024);
                assert(v@[0].1 == max);
                assert(v@ =~= seq![(min, max)]);
            }
        }
        v
    }

    /// A reference to the chunk root holding `point`, if any.
    pub fn chunk_at(&self, point: Point) -> (r: Option<&Node>)
        requires
            wf_chunks(self.chunks@),
        ensures
            match chunk_root(self.chunks@, chunk_of(point)) {
                Some(m) => r matches Some(n) && *n == m && wf_node(*n, n.depth as nat),
                None => r is None,
            },
    {
        let ghost cs = self.chunks@;
        let cp = point.chunk();
        proof {
            assert(cp == chunk_of(point));
            assert(cs.skip(0) =~= cs);
        }
        let n = self.chunks.len();
        let mut i: usize = 0;
        while i < n
            invariant
                i <= n,
                n == self.chunks@.len(),
                cs == self.chunks@,
                cp == chunk_of(point),
                wf_chunks(self.chunks@),
                chunk_root(cs, cp) == chunk_root(cs.skip(i as int), cp),
            decreases n - i,
        {
            proof {
                assert(cs.skip(i as int)[0] == cs[i as int]);
                assert(cs.skip(i as int).drop_first() =~= cs.skip(i + 1));
            }
            let e = &self.chunks[i];
            if e.1 == cp {
                return Some(&e.0);
            }
            i = i + 1;
        }
        proof {
            assert(cs.skip(n as int) =~= Seq::<(Node, Point)>::empty());
        }
        None
    }

    /// The position of the chunk root holding `point`, if any.
    fn chunk_index_at(&self, point: Point) -> (r: Option<usize>)
        ensures
            match r {
                Some(i) => i < self.chunks@.len() && self.chunks@[i as int].1 == chunk_of(
                    point,
                ) && chunk_root(self.chunks@, chunk_of(point)) == Some(
                    self.chunks@[i as int].0,
                ) && (forall|j: int| 0 <= j < i ==> (#[trigger] self.chunks@[j]).1 != chunk_of(
                    point,
                )),
                None => chunk_root(self.chunks@, chunk_of(point)) is None,
            },
    {
        let ghost cs = self.chunks@;
        let cp = point.chunk();
        proof {
            assert(cp == chunk_of(point));
            assert(cs.skip(0) =~= cs);
        }
        let n = self.chunks.len();
        let mut i: usize = 0;
        while i < n
            invariant
                i <= n,
                n == self.chunks@.len(),
                cs == self.chunks@,
                cp == chunk_of(point),
                chunk_root(cs, cp) == chunk_root(cs.skip(i as int), cp),
                forall|j: int| 0 <= j < i ==> (#[trigger] cs[j]).1 != cp,
            decreases n - i,
        {
            proof {
                assert(cs.skip(i as int)[0] == cs[i as int]);
                assert(cs.skip(i as int).drop_first() =~= cs.skip(i + 1));
            }
            if self.chunks[i].1 == cp {
                return Some(i);
            }
            i = i + 1;
        }
        proof {
            assert(cs.skip(n as int) =~= Seq::<(Node, Point)>::empty());
        }
        None
    }

    /// A mutable reference to the chunk root holding `point`, if any.
    pub fn chunk_at_mut(&mut self, point: Point) -> (r: Option<&mut Node>)
        requires
            wf_chunks(old(self).chunks@),
    {
        let idx = self.chunk_index_at(point);
        match idx {
            Some(i) => Some(&mut self.chunks[i].0),
            None => None,
        }
    }

    /// The values the search reaches over the boxes that `[min, max)` cuts
    /// to, without duplicates: every returned value is stored in some chunk,
    /// and over a box within one chunk the result is exactly the values the
    /// search reaches there.
    pub fn search(&self, min_bound: Point, max_bound: Point) -> (r: Vec<usize>)
        requires
            wf_chunks(self.chunks@),
            chunk_floor(min_bound.x as int) <= chunk_floor(max_bound.x - 1),
            chunk_floor(min_bound.y as int) <= chunk_floor(max_bound.y - 1),
            chunk_floor(min_bound.z as int) <= chunk_floor(max_bound.z - 1),
        ensures
            no_dup(r@),
            forall|v: usize|
                #[trigger] r@.contains(v) ==> exists|ci: int|
                    0 <= ci < self.chunks@.len() && node_values(
                        (#[trigger] self.chunks@[ci]).0,
                        self.chunks@[ci].0.depth as nat,
                    ).contains(v),
            forall|v: usize|
                #[trigger] r@.contains(v) <==> region_has(self.chunks@, min_bound, max_bound, v),
            one_chunk(min_bound, max_bound) ==> forall|v: usize|
                #[trigger] r@.contains(v) <==> piece_values(
                    self.chunks@,
                    (min_bound, max_bound),
                ).contains(v),
    {
        let ghost cs = self.chunks@;
        let pieces = self.chunks_from_bounds(min_bound, max_bound);
        let mut acc: Vec<usize> = Vec::new();
        let n = pieces.len();
        let mut i: usize = 0;
        while i < n
            invariant
                i <= n,
                n == pieces@.len(),
                cs == self.chunks@,
                wf_chunks(self.chunks@),
                no_dup(acc@),
                forall|v: usize|
                    #[trigger] acc@.contains(v) <==> exists|pi: int|
                        0 <= pi < i && #[trigger] piece_values(cs, pieces@[pi]).contains(v),
            decreases n - i,
        {
            let piece = &pieces[i];
            let ghost accpre = acc@;
            match self.chunk_at(piece.0) {
                Some(node) => {
                    node.search(piece.0, piece.1, &mut acc);
                    proof {
                        assert(piece_values(cs, pieces@[i as int]) == values_in(
                            chunk_root(cs, chunk_of(piece.0)).unwrap(),
                            piece.0,
                            piece.1,
                            chunk_root(cs, chunk_of(piece.0)).unwrap().depth as nat,
                        ));
                        assert forall|v: usize| #[trigger] acc@.contains(v) implies exists|
                            pi: int,
                        | 0 <= pi < i + 1 && #[trigger] piece_values(cs, pieces@[pi]).contains(
                            v,
                        ) by {
                            if !accpre.contains(v) {
                                assert(piece_values(cs, pieces@[i as int]).contains(v));
                            }
                        }
                        assert forall|v: usize|
                            (exists|pi: int|
                                0 <= pi < i + 1 && #[trigger] piece_values(cs,
                                    pieces@[pi]).contains(v)) implies #[trigger] acc@.contains(
                            v,
                        ) by {}
                    }
                },
                None => {
                    proof {
                        assert(piece_values(cs, pieces@[i as int]) =~= Set::<usize>::empty());
                        assert forall|v: usize| #[trigger] acc@.contains(v) implies exists|
                            pi: int,
                        | 0 <= pi < i + 1 && #[trigger] piece_values(cs, pieces@[pi]).contains(
                            v,
                        ) by {}
                        assert forall|v: usize|
                            (exists|pi: int|
                                0 <= pi < i + 1 && #[trigger] piece_values(cs,
                                    pieces@[pi]).contains(v)) implies #[trigger] acc@.contains(
                            v,
                        ) by {
                            if !acc@.contains(v) {
                                let pi = choose|pi: int|
                                    0 <= pi < i + 1 && #[trigger] piece_values(cs,
                                        pieces@[pi]).contains(v);
                                assert(pi < i);
                            }
                        }
                    }
                },
            }
            i = i + 1;
        }
        proof {
            assert forall|v: usize| #[trigger] acc@.contains(v) implies exists|ci: int|
                0 <= ci < cs.len() && node_values((#[trigger] cs[ci]).0,
                    cs[ci].0.depth as nat).contains(v) by {
                let pi = choose|pi: int|
                    0 <= pi < n && #[trigger] piece_values(cs, pieces@[pi]).contains(v);
                let cp = chunk_of(pieces@[pi].0);
                match chunk_root(cs, cp) {
                    Some(nd) => {
                        lemma_values_in_subset(nd, pieces@[pi].0, pieces@[pi].1,
                            nd.depth as nat);
                        lemma_chunk_root_exists(cs, cp);
                    },
                    None => {},
                }
            }
            assert forall|v: usize| #[trigger] acc@.contains(v) <==> region_has(
                cs,
                min_bound,
                max_bound,
                v,
            ) by {
                if acc@.contains(v) {
                    let pi = choose|pi: int|
                        0 <= pi < n && #[trigger] piece_values(cs, pieces@[pi]).contains(v);
                    assert(pieces@[pi] == piece_for(min_bound, max_bound, piece_chunk(
                        min_bound,
                        max_bound,
                        pi,
                    )));
                    assert(region_has(cs, min_bound, max_bound, v));
                }
                if region_has(cs, min_bound, max_bound, v) {
                    let k = choose|k: int|
                        0 <= k < piece_count(min_bound, max_bound) && piece_values(
                            cs,
                            #[trigger] piece_for(min_bound, max_bound, piece_chunk(
                                min_bound,
                                max_bound,
                                k,
                            )),
                        ).contains(v);
                    assert(piece_values(cs, pieces@[k]).contains(v));
                }
            }
            if one_chunk(min_bound, max_bound) {
                assert(pieces@ == seq![(min_bound, max_bound)]);
                assert forall|v: usize| #[trigger] acc@.contains(v) <==> piece_values(
                    cs,
                    (min_bound, max_bound),
                ).contains(v) by {
                    assert(pieces@[0] == (min_bound, max_bound));
                    if piece_values(cs, (min_bound, max_bound)).contains(v) {
                        assert(piece_values(cs, pieces@[0]).contains(v));
                    }
                }
            }
        }
        acc
    }

    /// The value stored at exactly `point`, if any.
    pub fn get(&self, point: Point) -> (r: Option<usize>)
        requires
            wf_chunks(self.chunks@),
        ensures
            r == tree_val_at(self.chunks@, point),
    {
        match self.chunk_at(point) {
            Some(node) => node.get(point),
            None => None,
        }
    }

    /// Inserts a value over the box `[min, max)`, cutting it per chunk and
    /// creating depth-ten chunk roots where none stand yet: afterwards the
    /// tree stores at every point what `tree_ins_val_at` gives.
    pub fn insert(&mut self, value: usize, min_bound: Point, max_bound: Point)
        requires
            wf_chunks(old(self).chunks@),
            chunk_floor(min_bound.x as int) <= chunk_floor(max_bound.x - 1),
            chunk_floor(min_bound.y as int) <= chunk_floor(max_bound.y - 1),
            chunk_floor(min_bound.z as int) <= chunk_floor(max_bound.z - 1),
        ensures
            wf_chunks(final(self).chunks@),
            forall|cp: Point|
                chunk_root(old(self).chunks@, cp) is Some ==> #[trigger] chunk_root(
                    final(self).chunks@,
                    cp,
                ) is Some,
            chunk_root(final(self).chunks@, chunk_of(min_bound)) is Some,
            forall|p: Point|
                #![trigger tree_val_at(final(self).chunks@, p)]
                tree_val_at(final(self).chunks@, p) == tree_ins_val_at(
                    old(self).chunks@,
                    value,
                    min_bound,
                    max_bound,
                    p,
                ),
            geo_chunks(old(self).chunks@) ==> geo_chunks(final(self).chunks@),
    {
        let ghost orig = old(self).chunks@;
        let pieces = self.chunks_from_bounds(min_bound, max_bound);
        let n = pieces.len();
        let mut i: usize = 0;
        while i < n
            invariant
                i <= n,
                n == pieces@.len(),
                n >= 1,
                n == piece_count(min_bound, max_bound),
                pieces@[0].0 == min_bound,
                forall|k: int|
                    0 <= k < n ==> pieces@[k] == piece_for(min_bound, max_bound, piece_chunk(
                    min_bound, max_bound, k)),
                chunk_floor(min_bound.x as int) <= chunk_floor(max_bound.x - 1),
                chunk_floor(min_bound.y as int) <= chunk_floor(max_bound.y - 1),
                chunk_floor(min_bound.z as int) <= chunk_floor(max_bound.z - 1),
                orig == old(self).chunks@,
                wf_chunks(self.chunks@),
                forall|cp: Point|
                    chunk_root(orig, cp) is Some ==> #[trigger] chunk_root(
                        self.chunks@,
                        cp,
                    ) is Some,
                i >= 1 ==> chunk_root(self.chunks@, chunk_of(min_bound)) is Some,
                geo_chunks(orig) ==> geo_chunks(self.chunks@),
                forall|k: int|
                    i <= k < n ==> #[trigger] chunk_root(self.chunks@, piece_chunk(min_bound,
                    max_bound, k)) == chunk_root(orig, piece_chunk(min_bound, max_bound, k)),
                forall|p: Point|
                    #![trigger tree_val_at(self.chunks@, p)]
                    tree_val_at(self.chunks@, p) == (if exists|k: int|
                        0 <= k < i && #[trigger] piece_chunk(min_bound, max_bound, k)
                            == chunk_of(p) {
                        tree_ins_val_at(orig, value, min_bound, max_bound, p)
                    } else {
                        tree_val_at(orig, p)
                    }),
            decreases n - i,
        {
            let ghost csp = self.chunks@;
            let piece = pieces[i];
            let ghost ck = piece_chunk(min_bound, max_bound, i as int);
            proof {
                lemma_piece_rank(min_bound, max_bound, i as int);
                lemma_piece_chunk_of(min_bound, max_bound, ck);
                assert(pieces@[i as int] == piece_for(min_bound, max_bound, ck));
                assert(chunk_of(piece.0) == ck);
                assert(chunk_root(csp, ck) == chunk_root(orig, ck));
            }
            match self.chunk_index_at(piece.0) {
                Some(ci) => {
                    let mut entry = self.chunks.remove(ci);
                    proof {
                        assert(wf_node(entry.0, entry.0.depth as nat));
                        assert(chunk_root(csp, ck) == Some(entry.0));
                        assert(base_root(orig, ck) == entry.0);
                    }
                    let ghost root0 = entry.0;
                    entry.0.insert(value, piece.0, piece.1);
                    self.chunks.insert(ci, entry);
                    proof {
                        assert(wf_chunks(self.chunks@));
                        assert(self.chunks@ =~= csp.update(ci as int, entry));
                        assert forall|cp: Point|
                            #[trigger] chunk_root(self.chunks@, cp) == (if cp == ck {
                                Some(entry.0)
                            } else {
                                chunk_root(csp, cp)
                            }) by {
                            lemma_chunk_root_update_first(csp, ci as int, entry, cp);
                        }
                        assert forall|p: Point| chunk_of(p) == ck implies #[trigger]
                        tree_val_at(self.chunks@, p) == ins_val_at(
                            base_root(orig, ck),
                            value,
                            piece.0,
                            piece.1,
                            p,
                            base_root(orig, ck).depth as nat,
                        ) by {
                            assert(chunk_root(self.chunks@, chunk_of(p)) == Some(entry.0));
                            assert(node_val_at(entry.0, p, entry.0.depth as nat)
                                == ins_val_at(root0, value, piece.0, piece.1, p,
                                root0.depth as nat));
                        }
                        if geo_chunks(orig) {
                            assert(geo_root(csp[ci as int].0, csp[ci as int].1));
                            assert(geo_root(entry.0, entry.1));
                            assert forall|j: int| 0 <= j < self.chunks@.len() implies geo_root(
                                (#[trigger] self.chunks@[j]).0,
                                self.chunks@[j].1,
                            ) by {
                                if j != ci {
                                    assert(self.chunks@[j] == csp[j]);
                                }
                            }
                        }
                    }
                },
                None => {
                    let cp = piece.0.chunk();
                    proof {
                        assert(cp == chunk_of(piece.0));
                        assert(-0x0020_0000 <= cp.x <= 0x001F_FFFF) by (nonlinear_arith)
                            requires
                                cp.x == piece.0.x as int / 1024 && -0x8000_0000 <= piece.0.x
                                    < 0x8000_0000,
                        ;
                        assert(-0x0020_0000 <= cp.y <= 0x001F_FFFF) by (nonlinear_arith)
                            requires
                                cp.y == piece.0.y as int / 1024 && -0x8000_0000 <= piece.0.y
                                    < 0x8000_0000,
                        ;
                        assert(-0x0020_0000 <= cp.z <= 0x001F_FFFF) by (nonlinear_arith)
                            requires
                                cp.z == piece.0.z as int / 1024 && -0x8000_0000 <= piece.0.z
                                    < 0x8000_0000,
                        ;
                    }
                    let mut root = Node::new(cp.chunk_midpoint(), 10, None);
                    proof {
                        lemma_half_ten();
                        assert(chunk_root(orig, ck) is None);
                        assert(base_root(orig, ck) == root);
                    }
                    let ghost root0 = root;
                    root.insert(value, piece.0, piece.1);
                    self.chunks.push((root, cp));
                    proof {
                        assert(wf_chunks(self.chunks@));
                        assert(self.chunks@ =~= csp.push((root, cp)));
                        assert forall|cpx: Point|
                            #[trigger] chunk_root(self.chunks@, cpx) == (if cpx == ck {
                                Some(root)
                            } else {
                                chunk_root(csp, cpx)
                            }) by {
                            lemma_chunk_root_push_new(csp, (root, cp), cpx);
                        }
                        assert forall|p: Point| chunk_of(p) == ck implies #[trigger]
                        tree_val_at(self.chunks@, p) == ins_val_at(
                            base_root(orig, ck),
                            value,
                            piece.0,
                            piece.1,
                            p,
                            base_root(orig, ck).depth as nat,
                        ) by {
                            assert(chunk_root(self.chunks@, chunk_of(p)) == Some(root));
                            assert(node_val_at(root, p, root.depth as nat) == ins_val_at(
                                root0,
                                value,
                                piece.0,
                                piece.1,
                                p,
                                root0.depth as nat,
                            ));
                        }
                        if geo_chunks(orig) {
                            lemma_half_ten();
                            assert(-0x0020_0000 * 1024 <= cp.x * 1024 <= 0x001F_FFFF * 1024
                                && -0x0020_0000 * 1024 <= cp.y * 1024 <= 0x001F_FFFF * 1024
                                && -0x0020_0000 * 1024 <= cp.z * 1024 <= 0x001F_FFFF * 1024)
                                by (nonlinear_arith)
                                requires
                                    -0x0020_0000 <= cp.x <= 0x001F_FFFF && -0x0020_0000
                                        <= cp.y <= 0x001F_FFFF && -0x0020_0000 <= cp.z
                                        <= 0x001F_FFFF,
                            ;
                            assert(geo_root(root0, cp));
                            assert(geo_root(root, cp));
                            assert forall|j: int| 0 <= j < self.chunks@.len() implies geo_root(
                                (#[trigger] self.chunks@[j]).0,
                                self.chunks@[j].1,
                            ) by {
                                if j < csp.len() {
                                    assert(self.chunks@[j] == csp[j]);
                                } else {
                                    assert(self.chunks@[j] == (root, cp));
                                }
                            }
                        }
                    }
                },
            }
            proof {
                let cs1 = self.chunks@;
                assert forall|p: Point|
                    #[trigger] tree_val_at(cs1, p) == (if exists|k: int|
                        0 <= k < i + 1 && #[trigger] piece_chunk(min_bound, max_bound, k)
                            == chunk_of(p) {
                        tree_ins_val_at(orig, value, min_bound, max_bound, p)
                    } else {
                        tree_val_at(orig, p)
                    }) by {
                    if chunk_of(p) == ck {
                        assert(chunk_in_range(min_bound, max_bound, ck));
                        assert(tree_val_at(cs1, p) == ins_val_at(
                            base_root(orig, ck),
                            value,
                            piece.0,
                            piece.1,
                            p,
                            base_root(orig, ck).depth as nat,
                        ));
                        assert(piece_chunk(min_bound, max_bound, i as int) == chunk_of(p));
                    } else {
                        assert(chunk_root(cs1, chunk_of(p)) == chunk_root(csp, chunk_of(p)));
                        assert(tree_val_at(cs1, p) == tree_val_at(csp, p));
                        if exists|k: int|
                            0 <= k < i + 1 && #[trigger] piece_chunk(min_bound, max_bound, k)
                                == chunk_of(p) {
                            let k = choose|k: int|
                                0 <= k < i + 1 && #[trigger] piece_chunk(min_bound,
                                max_bound, k) == chunk_of(p);
                            assert(k != i);
                            assert(exists|k2: int|
                                0 <= k2 < i && #[trigger] piece_chunk(min_bound, max_bound,
                                k2) == chunk_of(p));
                        }
                    }
                }
                assert forall|k: int|
                    i + 1 <= k < n implies #[trigger] chunk_root(self.chunks@, piece_chunk(
                    min_bound, max_bound, k)) == chunk_root(orig, piece_chunk(min_bound,
                    max_bound, k)) by {
                    lemma_piece_rank(min_bound, max_bound, k);
                    assert(piece_chunk(min_bound, max_bound, k) != ck);
                }
                if i == 0 {
                    assert(chunk_of(min_bound) == ck);
                }
            }
            i = i + 1;
        }
        proof {
            assert forall|p: Point|
                #[trigger] tree_val_at(self.chunks@, p) == tree_ins_val_at(
                    orig,
                    value,
                    min_bound,
                    max_bound,
                    p,
                ) by {
                if chunk_in_range(min_bound, max_bound, chunk_of(p)) {
                    lemma_piece_rank_of(min_bound, max_bound, chunk_of(p));
                    assert(piece_chunk(min_bound, max_bound, piece_rank(min_bound, max_bound,
                        chunk_of(p))) == chunk_of(p));
                } else {
                    if exists|k: int|
                        0 <= k < n && #[trigger] piece_chunk(min_bound, max_bound, k)
                            == chunk_of(p) {
                        let k = choose|k: int|
                            0 <= k < n && #[trigger] piece_chunk(min_bound, max_bound, k)
                                == chunk_of(p);
                        lemma_piece_rank(min_bound, max_bound, k);
                        assert(false);
                    }
                }
            }
        }
    }
}

/// Flooring division of `a - 1` by the chunk size.
fn div_floor_m1(a: i32) -> (r: i32)
    ensures
        r == chunk_floor(a - 1),
        -0x0020_0002 < r < 0x0020_0000,
{
    let m = a as i64 - 1;
    let q: i64 = if m >= 0 {
        m / 1024
    } else {
        let p = -m;
        let qq = (p + 1023) / 1024;
        proof {
            assert(0 - qq == (0 - p) / 1024) by (nonlinear_arith)
                requires
                    1 <= p && qq == (p + 1023) / 1024,
            ;
        }
        -qq
    };
    proof {
        assert(-0x0020_0002 < m / 1024 && m / 1024 < 0x0020_0000) by (nonlinear_arith)
            requires
                -0x8000_0001 <= m <= 0x7FFF_FFFE,
        ;
    }
    q as i32
}

/// The smaller of a 64-bit value and a 32-bit bound, as a 32-bit value.
fn min_i64(a: i64, b: i32) -> (r: i32)
    requires
        -0x8000_0000 <= a,
    ensures
        r as int == (if a < b {
            a as int
        } else {
            b as int
        }),
{
    if a < b as i64 {
        a as i32
    } else {
        b
    }
}


/// The one-unit slab on the given side of the box `[min, max]`, or nothing
/// when it would leave the 32-bit range.
pub open spec fn side_slab(
    min: (i32, i32, i32),
    max: (i32, i32, i32),
    dir: Direction,
) -> Option<(Point, Point)> {
    match dir {
        Direction::XPositive => {
            if max.0 == i32::MAX {
                None
            } else {
                Some(
                    (
                        Point { x: max.0, y: min.1, z: min.2 },
                        Point { x: (max.0 + 1) as i32, y: max.1, z: max.2 },
                    ),
                )
            }
        },
        Direction::XNegative => {
            if min.0 == i32::MIN {
                None
            } else {
                Some(
                    (
                        Point { x: (min.0 - 1) as i32, y: min.1, z: min.2 },
                        Point { x: min.0, y: max.1, z: max.2 },
                    ),
                )
            }
        },
        Direction::YPositive => {
            if max.1 == i32::MAX {
                None
            } else {
                Some(
                    (
                        Point { x: min.0, y: max.1, z: min.2 },
                        Point { x: max.0, y: (max.1 + 1) as i32, z: max.2 },
                    ),
                )
            }
        },
        Direction::YNegative => {
            if min.1 == i32::MIN {
                None
            } else {
                Some(
                    (
                        Point { x: min.0, y: (min.1 - 1) as i32, z: min.2 },
                        Point { x: max.0, y: min.1, z: max.2 },
                    ),
                )
            }
        },
        Direction::ZPositive => {
            if max.2 == i32::MAX {
                None
            } else {
                Some(
                    (
                        Point { x: min.0, y: min.1, z: max.2 },
                        Point { x: max.0, y: max.1, z: (max.2 + 1) as i32 },
                    ),
                )
            }
        },
        Direction::ZNegative => {
            if min.2 == i32::MIN {
                None
            } else {
                Some(
                    (
                        Point { x: min.0, y: min.1, z: (min.2 - 1) as i32 },
                        Point { x: max.0, y: max.1, z: min.2 },
                    ),
                )
            }
        },
    }
}

/// Whether a box's chunk range is well ordered on every axis.
pub open spec fn chunks_ordered(a: Point, b: Point) -> bool {
    &&& chunk_floor(a.x as int) <= chunk_floor(b.x - 1)
    &&& chunk_floor(a.y as int) <= chunk_floor(b.y - 1)
    &&& chunk_floor(a.z as int) <= chunk_floor(b.z - 1)
}

/// A spatial index over a save's bricks: per-chunk octrees keyed by brick
/// index. Queries return brick indices into the save's brick list. Static
/// bricks, whose stored size is empty, take their half-extents from a
/// caller-supplied table keyed by asset index.
pub struct SaveOctree {
    data: SaveData,
    tree: ChunkTree,
    extents: Vec<(u32, u32, u32)>,
}

/// Whether a brick enters the index: its bounds are representable, not
/// degenerate, and well ordered chunk-wise on every axis.
pub open spec fn indexable(b: BrickV, exts: Seq<(u32, u32, u32)>) -> bool {
    let minx = b.position.0 - axis_extent(b.size, b.asset_name_index, 0, exts);
    let maxx = b.position.0 + axis_extent(b.size, b.asset_name_index, 0, exts);
    let miny = b.position.1 - axis_extent(b.size, b.asset_name_index, 1, exts);
    let maxy = b.position.1 + axis_extent(b.size, b.asset_name_index, 1, exts);
    let minz = b.position.2 - axis_extent(b.size, b.asset_name_index, 2, exts);
    let maxz = b.position.2 + axis_extent(b.size, b.asset_name_index, 2, exts);
    &&& -0x8000_0000 <= minx && maxx <= 0x7FFF_FFFF
    &&& -0x8000_0000 <= miny && maxy <= 0x7FFF_FFFF
    &&& -0x8000_0000 <= minz && maxz <= 0x7FFF_FFFF
    &&& !(minx == maxx && miny == maxy && minz == maxz)
    &&& chunk_floor(minx) <= chunk_floor(maxx - 1)
    &&& chunk_floor(miny) <= chunk_floor(maxy - 1)
    &&& chunk_floor(minz) <= chunk_floor(maxz - 1)
}

/// The lower corner of an indexable brick's bounds.
pub open spec fn brick_min_point(b: BrickV, exts: Seq<(u32, u32, u32)>) -> Point
    recommends
        indexable(b, exts),
{
    Point {
        x: (b.position.0 - axis_extent(b.size, b.asset_name_index, 0, exts)) as i32,
        y: (b.position.1 - axis_extent(b.size, b.asset_name_index, 1, exts)) as i32,
        z: (b.position.2 - axis_extent(b.size, b.asset_name_index, 2, exts)) as i32,
    }
}

/// The upper corner of an indexable brick's bounds.
pub open spec fn brick_max_point(b: BrickV, exts: Seq<(u32, u32, u32)>) -> Point
    recommends
        indexable(b, exts),
{
    Point {
        x: (b.position.0 + axis_extent(b.size, b.asset_name_index, 0, exts)) as i32,
        y: (b.position.1 + axis_extent(b.size, b.asset_name_index, 1, exts)) as i32,
        z: (b.position.2 + axis_extent(b.size, b.asset_name_index, 2, exts)) as i32,
    }
}

/// The half-extent of a stored size along one axis: a procedural brick's
/// stored extent; a static-mesh brick's entry in the per-asset table, zero
/// when the table has none.
pub open spec fn axis_extent(sz: Size, asset: u32, axis: int, exts: Seq<(u32, u32, u32)>) -> u32 {
    match sz {
        Size::Procedural(x, y, z) => {
            if axis == 0 {
                x
            } else if axis == 1 {
                y
            } else {
                z
            }
        },
        Size::Empty => {
            if asset < exts.len() {
                if axis == 0 {
                    exts[asset as int].0
                } else if axis == 1 {
                    exts[asset as int].1
                } else {
                    exts[asset as int].2
                }
            } else {
                0
            }
        },
    }
}

/// The half-extent of a brick along one axis, under a per-asset extent table.
pub open spec fn spec_axis_size(b: Brick, axis: int, exts: Seq<(u32, u32, u32)>) -> u32 {
    axis_extent(b.size, b.asset_name_index, axis, exts)
}

impl SaveOctree {
    /// The indexed save.
    pub closed spec fn spec_data(&self) -> crate::save::SaveDataV {
        self.data@
    }

    /// The octree is well formed: every chunk root is well formed and sits on
    /// the regular grid.
    pub closed spec fn wf(&self) -> bool {
        &&& wf_chunks(self.tree.chunks@)
        &&& geo_chunks(self.tree.chunks@)
    }

    /// The per-chunk roots, in specifications.
    pub closed spec fn spec_chunks(&self) -> Seq<(Node, Point)> {
        self.tree.chunks@
    }

    /// The per-asset half-extent table for static bricks.
    pub closed spec fn spec_extents(&self) -> Seq<(u32, u32, u32)> {
        self.extents@
    }

    /// Builds the index over a save, consuming it, with no extent table:
    /// every static brick has degenerate bounds and is left out.
    pub fn new(data: SaveData) -> (r: SaveOctree)
        ensures
            r.wf(),
            r.spec_data() == data@,
            r.spec_extents() == Seq::<(u32, u32, u32)>::empty(),
            forall|p: Point|
                #![trigger tree_val_at(r.spec_chunks(), p)]
                tree_val_at(r.spec_chunks(), p) == built_val_at(
                    data@.bricks,
                    data@.bricks.len() as int,
                    r.spec_extents(),
                    p,
                ),
    {
        let extents: Vec<(u32, u32, u32)> = Vec::new();
        SaveOctree::new_with_extents(data, extents)
    }

    /// Builds the index over a save, consuming it. Each brick covers its
    /// bounds, later bricks over earlier ones; a brick with degenerate or
    /// unrepresentable bounds is left out. A static brick's half-extents come
    /// from the table, keyed by its asset index.
    pub fn new_with_extents(data: SaveData, extents: Vec<(u32, u32, u32)>) -> (r: SaveOctree)
        ensures
            r.wf(),
            r.spec_data() == data@,
            r.spec_extents() == extents@,
            forall|p: Point|
                #![trigger tree_val_at(r.spec_chunks(), p)]
                tree_val_at(r.spec_chunks(), p) == built_val_at(
                    data@.bricks,
                    data@.bricks.len() as int,
                    extents@,
                    p,
                ),
    {
        let mut tree = ChunkTree::new();
        let n = data.bricks.len();
        let mut i: usize = 0;
        while i < n
            invariant
                i <= n,
                n == data.bricks@.len(),
                wf_chunks(tree.chunks@),
                geo_chunks(tree.chunks@),
                forall|p: Point|
                    #![trigger tree_val_at(tree.chunks@, p)]
                    tree_val_at(tree.chunks@, p) == built_val_at(
                        data@.bricks,
                        i as int,
                        extents@,
                        p,
                    ),
            decreases n - i,
        {
            let brick = &data.bricks[i];
            let sx = axis_size(brick, 0, &extents) as i64;
            let sy = axis_size(brick, 1, &extents) as i64;
            let sz = axis_size(brick, 2, &extents) as i64;
            let (px, py, pz) = brick.position;
            let lo: i64 = -0x8000_0000;
            let hi: i64 = 0x7FFF_FFFF;
            let minx = px as i64 - sx;
            let maxx = px as i64 + sx;
            let miny = py as i64 - sy;
            let maxy = py as i64 + sy;
            let minz = pz as i64 - sz;
            let maxz = pz as i64 + sz;
            let representable = minx >= lo && maxx <= hi && miny >= lo && maxy <= hi && minz
                >= lo && maxz <= hi;
            let degenerate = minx == maxx && miny == maxy && minz == maxz;
            let ghost bv = data@.bricks[i as int];
            proof {
                assert(bv == brick@);
            }
            if representable && !degenerate {
                let bmin = Point::new(minx as i32, miny as i32, minz as i32);
                let bmax = Point::new(maxx as i32, maxy as i32, maxz as i32);
                let cminx = div_floor(bmin.x);
                let cminy = div_floor(bmin.y);
                let cminz = div_floor(bmin.z);
                let cmaxx = div_floor_m1(bmax.x);
                let cmaxy = div_floor_m1(bmax.y);
                let cmaxz = div_floor_m1(bmax.z);
                if cminx <= cmaxx && cminy <= cmaxy && cminz <= cmaxz {
                    proof {
                        assert(bmin == brick_min_point(bv, extents@));
                        assert(bmax == brick_max_point(bv, extents@));
                        assert(indexable(bv, extents@));
                    }
                    let ghost pre = tree.chunks@;
                    tree.insert(i, bmin, bmax);
                    proof {
                        assert forall|p: Point|
                            #![trigger tree_val_at(tree.chunks@, p)]
                            tree_val_at(tree.chunks@, p) == built_val_at(
                                data@.bricks,
                                i + 1,
                                extents@,
                                p,
                            ) by {
                            lemma_tree_ins_covers(pre, i as usize, bmin, bmax, p);
                            assert(tree_val_at(tree.chunks@, p) == tree_ins_val_at(pre,
                                i as usize, bmin, bmax, p));
                            assert(tree_val_at(pre, p) == built_val_at(data@.bricks, i as int,
                                extents@, p));
                        }
                    }
                } else {
                    proof {
                        assert(!indexable(bv, extents@));
                        assert forall|p: Point|
                            #![trigger tree_val_at(tree.chunks@, p)]
                            tree_val_at(tree.chunks@, p) == built_val_at(
                                data@.bricks,
                                i + 1,
                                extents@,
                                p,
                            ) by {}
                    }
                }
            } else {
                proof {
                    assert(!indexable(bv, extents@));
                    assert forall|p: Point|
                        #![trigger tree_val_at(tree.chunks@, p)]
                        tree_val_at(tree.chunks@, p) == built_val_at(
                            data@.bricks,
                            i + 1,
                            extents@,
                            p,
                        ) by {}
                }
            }
            i = i + 1;
        }
        SaveOctree { data, tree, extents }
    }

    /// A reference to the indexed save.
    pub fn data(&self) -> (r: &SaveData)
        ensures
            r@ == self.spec_data(),
    {
        &self.data
    }

    /// The absolute size of a brick on each axis, regardless of rotation.
    pub fn brick_size(&self, brick: &Brick) -> (r: (u32, u32, u32))
        ensures
            r.0 == spec_axis_size(*brick, 0, self.spec_extents()),
            r.1 == spec_axis_size(*brick, 1, self.spec_extents()),
            r.2 == spec_axis_size(*brick, 2, self.spec_extents()),
    {
        (
            axis_size(brick, 0, &self.extents),
            axis_size(brick, 1, &self.extents),
            axis_size(brick, 2, &self.extents),
        )
    }

    /// The bounds of a brick as two points, each coordinate clipped to the
    /// 32-bit range.
    pub fn brick_bounds(&self, brick: &Brick) -> (r: ((i32, i32, i32), (i32, i32, i32)))
        ensures
            r.0.0 == clip_spec(brick.position.0 - spec_axis_size(*brick, 0, self.spec_extents())),
            r.0.1 == clip_spec(brick.position.1 - spec_axis_size(*brick, 1, self.spec_extents())),
            r.0.2 == clip_spec(brick.position.2 - spec_axis_size(*brick, 2, self.spec_extents())),
            r.1.0 == clip_spec(brick.position.0 + spec_axis_size(*brick, 0, self.spec_extents())),
            r.1.1 == clip_spec(brick.position.1 + spec_axis_size(*brick, 1, self.spec_extents())),
            r.1.2 == clip_spec(brick.position.2 + spec_axis_size(*brick, 2, self.spec_extents())),
    {
        let s0 = axis_size(brick, 0, &self.extents) as i64;
        let s1 = axis_size(brick, 1, &self.extents) as i64;
        let s2 = axis_size(brick, 2, &self.extents) as i64;
        let (px, py, pz) = brick.position;
        (
            (
                clip_i32(px as i64 - s0),
                clip_i32(py as i64 - s1),
                clip_i32(pz as i64 - s2),
            ),
            (
                clip_i32(px as i64 + s0),
                clip_i32(py as i64 + s1),
                clip_i32(pz as i64 + s2),
            ),
        )
    }

    /// The indices of the bricks stored in the box `[min, max)`, without
    /// duplicates.
    pub fn bricks_in(&self, min: (i32, i32, i32), max: (i32, i32, i32)) -> (r: Vec<usize>)
        requires
            self.wf(),
            chunk_floor(min.0 as int) <= chunk_floor(max.0 - 1),
            chunk_floor(min.1 as int) <= chunk_floor(max.1 - 1),
            chunk_floor(min.2 as int) <= chunk_floor(max.2 - 1),
        ensures
            no_dup(r@),
            forall|v: usize|
                #[trigger] r@.contains(v) ==> exists|ci: int|
                    0 <= ci < self.spec_chunks().len() && node_values(
                        (#[trigger] self.spec_chunks()[ci]).0,
                        self.spec_chunks()[ci].0.depth as nat,
                    ).contains(v),
            forall|v: usize|
                #[trigger] r@.contains(v) <==> region_has(
                    self.spec_chunks(),
                    Point { x: min.0, y: min.1, z: min.2 },
                    Point { x: max.0, y: max.1, z: max.2 },
                    v,
                ),
            one_chunk(
                Point { x: min.0, y: min.1, z: min.2 },
                Point { x: max.0, y: max.1, z: max.2 },
            ) ==> forall|v: usize|
                #[trigger] r@.contains(v) <==> piece_values(
                    self.spec_chunks(),
                    (
                        Point { x: min.0, y: min.1, z: min.2 },
                        Point { x: max.0, y: max.1, z: max.2 },
                    ),
                ).contains(v),
    {
        let r = self.tree.search(
            Point::new(min.0, min.1, min.2),
            Point::new(max.0, max.1, max.2),
        );
        proof {
            assert(self.spec_chunks() == self.tree.chunks@);
        }
        r
    }

    /// Law: on a freshly built index, a box query strictly containing a point
    /// that an indexable brick covers, and that no later indexable brick
    /// covers, reports that brick's index. A brick stays findable until later
    /// bricks pave over all its cells.
    pub proof fn lemma_query_contains(&self, i: int, p: Point, min: Point, max: Point)
        requires
            self.wf(),
            forall|q: Point|
                #![trigger tree_val_at(self.spec_chunks(), q)]
                tree_val_at(self.spec_chunks(), q) == built_val_at(
                    self.spec_data().bricks,
                    self.spec_data().bricks.len() as int,
                    self.spec_extents(),
                    q,
                ),
            0 <= i < self.spec_data().bricks.len(),
            indexable(self.spec_data().bricks[i], self.spec_extents()),
            box_covers(
                brick_min_point(self.spec_data().bricks[i], self.spec_extents()),
                brick_max_point(self.spec_data().bricks[i], self.spec_extents()),
                p,
            ),
            forall|j: int|
                i < j < self.spec_data().bricks.len() ==> !(indexable(
                    #[trigger] self.spec_data().bricks[j],
                    self.spec_extents(),
                ) && box_covers(
                    brick_min_point(self.spec_data().bricks[j], self.spec_extents()),
                    brick_max_point(self.spec_data().bricks[j], self.spec_extents()),
                    p,
                )),
            min.x <= p.x < max.x,
            min.y <= p.y < max.y,
            min.z <= p.z < max.z,
        ensures
            region_has(self.spec_chunks(), min, max, i as usize),
    {
        let cs = self.spec_chunks();
        let bricks = self.spec_data().bricks;
        let exts = self.spec_extents();
        lemma_built_last(bricks, bricks.len() as int, i, exts, p);
        assert(tree_val_at(cs, p) == Some(i as usize));
        let c = chunk_of(p);
        vstd::arithmetic::div_mod::lemma_div_is_ordered(min.x as int, p.x as int, 1024);
        vstd::arithmetic::div_mod::lemma_div_is_ordered(min.y as int, p.y as int, 1024);
        vstd::arithmetic::div_mod::lemma_div_is_ordered(min.z as int, p.z as int, 1024);
        vstd::arithmetic::div_mod::lemma_div_is_ordered(p.x as int, max.x - 1, 1024);
        vstd::arithmetic::div_mod::lemma_div_is_ordered(p.y as int, max.y - 1, 1024);
        vstd::arithmetic::div_mod::lemma_div_is_ordered(p.z as int, max.z - 1, 1024);
        assert(chunk_in_range(min, max, c));
        let m = piece_for(min, max, c).0;
        let mm = piece_for(min, max, c).1;
        vstd::arithmetic::div_mod::lemma_fundamental_div_mod(p.x as int, 1024);
        vstd::arithmetic::div_mod::lemma_mod_bound(p.x as int, 1024);
        vstd::arithmetic::div_mod::lemma_fundamental_div_mod(p.y as int, 1024);
        vstd::arithmetic::div_mod::lemma_mod_bound(p.y as int, 1024);
        vstd::arithmetic::div_mod::lemma_fundamental_div_mod(p.z as int, 1024);
        vstd::arithmetic::div_mod::lemma_mod_bound(p.z as int, 1024);
        assert(c.x * 1024 <= p.x < (c.x + 1) * 1024);
        assert(c.y * 1024 <= p.y < (c.y + 1) * 1024);
        assert(c.z * 1024 <= p.z < (c.z + 1) * 1024);
        assert(m.x <= p.x < mm.x && m.y <= p.y < mm.y && m.z <= p.z < mm.z);
        match chunk_root(cs, c) {
            Some(n) => {
                lemma_chunk_root_geo(cs, c);
                lemma_half_ten();
                assert(in_cube(n.point, n.half as int, p));
                lemma_val_in_values(n, n.depth as nat, p, m, mm, i as usize);
                lemma_piece_chunk_of(min, max, c);
                assert(piece_values(cs, piece_for(min, max, c)).contains(i as usize));
                lemma_piece_rank_of(min, max, c);
                assert(piece_values(
                    cs,
                    piece_for(min, max, piece_chunk(min, max, piece_rank(min, max, c))),
                ).contains(i as usize));
            },
            None => {
                assert(false);
            },
        }
    }

    /// The indices of the bricks touching a one-unit slab on the given side
    /// of the box `[min, max]`, without duplicates.
    pub fn bounds_side(&self, min: (i32, i32, i32), max: (i32, i32, i32), dir: Direction) -> (r:
        Option<Vec<usize>>)
        requires
            self.wf(),
        ensures
            r matches Some(out) ==> no_dup(out@) && (forall|v: usize|
                #[trigger] out@.contains(v) ==> exists|ci: int|
                    0 <= ci < self.spec_chunks().len() && node_values(
                        (#[trigger] self.spec_chunks()[ci]).0,
                        self.spec_chunks()[ci].0.depth as nat,
                    ).contains(v)),
            r is Some <==> (match side_slab(min, max, dir) {
                Some((a, b)) => chunks_ordered(a, b),
                None => false,
            }),
            r matches Some(out) ==> (match side_slab(min, max, dir) {
                Some((a, b)) => forall|v: usize|
                    #[trigger] out@.contains(v) <==> region_has(self.spec_chunks(), a, b, v),
                None => false,
            }),
    {
        let lo: i64 = -0x8000_0000;
        let hi: i64 = 0x7FFF_FFFF;
        let (a, b): (Point, Point) = match dir {
            Direction::XPositive => {
                if max.0 as i64 + 1 > hi {
                    return None;
                }
                (Point::new(max.0, min.1, min.2), Point::new(max.0 + 1, max.1, max.2))
            },
            Direction::XNegative => {
                if min.0 as i64 - 1 < lo {
                    return None;
                }
                (Point::new(min.0 - 1, min.1, min.2), Point::new(min.0, max.1, max.2))
            },
            Direction::YPositive => {
                if max.1 as i64 + 1 > hi {
                    return None;
                }
                (Point::new(min.0, max.1, min.2), Point::new(max.0, max.1 + 1, max.2))
            },
            Direction::YNegative => {
                if min.1 as i64 - 1 < lo {
                    return None;
                }
                (Point::new(min.0, min.1 - 1, min.2), Point::new(max.0, min.1, max.2))
            },
            Direction::ZPositive => {
                if max.2 as i64 + 1 > hi {
                    return None;
                }
                (Point::new(min.0, min.1, max.2), Point::new(max.0, max.1, max.2 + 1))
            },
            Direction::ZNegative => {
                if min.2 as i64 - 1 < lo {
                    return None;
                }
                (Point::new(min.0, min.1, min.2 - 1), Point::new(max.0, max.1, min.2))
            },
        };
        let cminx = div_floor(a.x);
        let cminy = div_floor(a.y);
        let cminz = div_floor(a.z);
        let cmaxx = div_floor_m1(b.x);
        let cmaxy = div_floor_m1(b.y);
        let cmaxz = div_floor_m1(b.z);
        if cminx <= cmaxx && cminy <= cmaxy && cminz <= cmaxz {
            let out = self.tree.search(a, b);
            proof {
                assert(self.spec_chunks() == self.tree.chunks@);
            }
            Some(out)
        } else {
            None
        }
    }

    /// The indices of the bricks touching a one-unit slab on the given side
    /// of a brick's bounds, without duplicates.
    pub fn brick_side(&self, brick: &Brick, dir: Direction) -> (r: Option<Vec<usize>>)
        requires
            self.wf(),
        ensures
            r matches Some(out) ==> no_dup(out@) && (forall|v: usize|
                #[trigger] out@.contains(v) ==> exists|ci: int|
                    0 <= ci < self.spec_chunks().len() && node_values(
                        (#[trigger] self.spec_chunks()[ci]).0,
                        self.spec_chunks()[ci].0.depth as nat,
                    ).contains(v)),
            r is Some <==> (match side_slab(
                (
                    clip_spec(brick.position.0 - spec_axis_size(*brick, 0, self.spec_extents())),
                    clip_spec(brick.position.1 - spec_axis_size(*brick, 1, self.spec_extents())),
                    clip_spec(brick.position.2 - spec_axis_size(*brick, 2, self.spec_extents())),
                ),
                (
                    clip_spec(brick.position.0 + spec_axis_size(*brick, 0, self.spec_extents())),
                    clip_spec(brick.position.1 + spec_axis_size(*brick, 1, self.spec_extents())),
                    clip_spec(brick.position.2 + spec_axis_size(*brick, 2, self.spec_extents())),
                ),
                dir,
            ) {
                Some((a, b)) => chunks_ordered(a, b),
                None => false,
            }),
            r matches Some(out) ==> (match side_slab(
                (
                    clip_spec(brick.position.0 - spec_axis_size(*brick, 0, self.spec_extents())),
                    clip_spec(brick.position.1 - spec_axis_size(*brick, 1, self.spec_extents())),
                    clip_spec(brick.position.2 - spec_axis_size(*brick, 2, self.spec_extents())),
                ),
                (
                    clip_spec(brick.position.0 + spec_axis_size(*brick, 0, self.spec_extents())),
                    clip_spec(brick.position.1 + spec_axis_size(*brick, 1, self.spec_extents())),
                    clip_spec(brick.position.2 + spec_axis_size(*brick, 2, self.spec_extents())),
                ),
                dir,
            ) {
                Some((a, b)) => forall|v: usize|
                    #[trigger] out@.contains(v) <==> region_has(self.spec_chunks(), a, b, v),
                None => false,
            }),
    {
        let bounds = self.brick_bounds(brick);
        self.bounds_side(bounds.0, bounds.1, dir)
    }

    /// Returns the save, consuming the index.
    pub fn into_inner(self) -> (r: SaveData)
        ensures
            r@ == self.spec_data(),
    {
        self.data
    }
}


impl SaveData {
    /// Converts this save into a spatial index over its bricks.
    pub fn into_octree(self) -> (r: SaveOctree)
        ensures
            r.wf(),
            r.spec_data() == self@,
    {
        SaveOctree::new(self)
    }
}

/// The half-extent of a brick along one axis, under a per-asset extent table
/// for static bricks.
pub fn axis_size(b: &Brick, axis: u32, extents: &Vec<(u32, u32, u32)>) -> (r: u32)
    ensures
        r == spec_axis_size(*b, axis as int, extents@),
{
    match b.size {
        Size::Procedural(x, y, z) => {
            if axis == 0 {
                x
            } else if axis == 1 {
                y
            } else {
                z
            }
        },
        Size::Empty => {
            if (b.asset_name_index as usize) < extents.len() {
                let e = extents[b.asset_name_index as usize];
                if axis == 0 {
                    e.0
                } else if axis == 1 {
                    e.1
                } else {
                    e.2
                }
            } else {
                0
            }
        },
    }
}

/// A 64-bit value clipped to the 32-bit range.
pub open spec fn clip_spec(a: int) -> i32 {
    if a < -0x8000_0000 {
        i32::MIN
    } else if a > 0x7FFF_FFFF {
        i32::MAX
    } else {
        a as i32
    }
}

/// Clips a 64-bit value to the 32-bit range.
fn clip_i32(a: i64) -> (r: i32)
    ensures
        r == clip_spec(a as int),
{
    if a < -0x8000_0000 {
        i32::MIN
    } else if a > 0x7FFF_FFFF {
        i32::MAX
    } else {
        a as i32
    }
}

} // verus!
