//! Placing a new particle where the pointer is, with a random push.
use rand::Rng;
use vstd::prelude::*;
use crate::fixed::{ONE, clamp_coord, div_trunc, isqrt, quotient, saturate, sqrt_floor};
use crate::point::{Point, RADIUS};
use crate::quadtree::QuadTree;
use crate::vec2::Vec2;

verus! {

/// The smallest magnitude of a direction's coordinate: a tenth of a unit,
/// rounded up.
pub const DIR_MIN: i32 = 6_554;

/// The least speed of a new particle: one unit.
pub const SPEED_MIN: i32 = 65_536;

/// The bound below which the speed of a new particle lies: 25 units.
pub const SPEED_MAX: i32 = 1_638_400;

/// The width of the strip in which particles may be placed: 800 units to
/// the right of the origin.
pub const SPAWN_WIDTH: i32 = 52_428_800;

/// The depth of that strip: 700 units below the origin.
pub const SPAWN_DEPTH: i32 = 45_875_200;

/// Whether `d` can be a coordinate of a direction: at least a tenth and
/// less than one in magnitude.
pub open spec fn is_dir(d: int) -> bool {
    DIR_MIN <= d < ONE || -ONE < d <= -DIR_MIN
}

/// The direction coordinate of magnitude `num` with the given sign.
pub open spec fn signed(is_negative: bool, num: i32) -> int {
    if is_negative {
        -num
    } else {
        num as int
    }
}

/// The vector of length `speed` along `(x, y)`.
pub open spec fn heading(x: i32, y: i32, speed: i32) -> Vec2 {
    let len = sqrt_floor(x * x + y * y);
    Vec2 {
        x: clamp_coord(div_trunc(x * speed, len)),
        y: clamp_coord(div_trunc(y * speed, len)),
    }
}

/// Whether a particle is placed: the button is down and the pointer lies
/// in the strip, its edges included.
pub open spec fn spawn_allowed(world_pos: Vec2, pressed: bool) -> bool {
    &&& pressed
    &&& 0 <= world_pos.x <= SPAWN_WIDTH
    &&& -SPAWN_DEPTH <= world_pos.y <= 0
}

/// The state of a particle placed at `world_pos` and pushed along
/// `(x, y)` with `speed`: it has not moved yet.
pub open spec fn spawned(world_pos: Vec2, x: i32, y: i32, speed: i32) -> Point {
    Point { accel: heading(x, y, speed), last_pos: world_pos, radius: RADIUS }
}

/// The generator of `rand` that belongs to the running thread.
#[verifier::external_type_specification]
#[verifier::external_body]
pub struct ExThreadRng(rand::rngs::ThreadRng);

/// `rand::thread_rng` hands out the thread's generator, which the system
/// seeds. Nothing is claimed of it.
pub assume_specification[ rand::thread_rng ]() -> (rng: rand::rngs::ThreadRng);

/// A coin from `rand::Rng::gen::<bool>`. Nothing is claimed of the outcome.
#[verifier::external_body]
fn draw_bool(rng: &mut rand::rngs::ThreadRng) -> (b: bool) {
    rng.gen::<bool>()
}

/// A number from `rand::Rng::gen_range`, which samples the half-open range
/// `lo..hi` and panics on an empty one. The claim is that the outcome lies
/// in the range.
#[verifier::external_body]
fn draw_between(rng: &mut rand::rngs::ThreadRng, lo: i32, hi: i32) -> (r: i32)
    requires
        lo < hi,
    ensures
        lo <= r < hi,
{
    rng.gen_range(lo..hi)
}

/// Gives a magnitude its sign.
pub fn with_sign(is_negative: bool, num: i32) -> (d: i32)
    requires
        num > i32::MIN,
    ensures
        d == signed(is_negative, num),
{
    if is_negative {
        return -num;
    }
    num
}

/// A random direction coordinate: of either sign, at least a tenth and
/// less than one in magnitude.
pub fn gen_dir() -> (d: i32)
    ensures
        is_dir(d as int),
{
    let mut rng = rand::thread_rng();
    let is_negative = draw_bool(&mut rng);
    let num = draw_between(&mut rng, DIR_MIN, ONE);
    with_sign(is_negative, num)
}

/// Computes [`heading`].
pub fn heading_of(x: i32, y: i32, speed: i32) -> (v: Vec2)
    requires
        x != 0 || y != 0,
    ensures
        v == heading(x, y, speed),
{
    let wx: i128 = x as i128;
    let wy: i128 = y as i128;
    assert(0 <= wx * wx <= 0x4000_0000_0000_0000) by (nonlinear_arith)
        requires
            -0x8000_0000 <= wx <= 0x8000_0000,
    ;
    assert(0 <= wy * wy <= 0x4000_0000_0000_0000) by (nonlinear_arith)
        requires
            -0x8000_0000 <= wy <= 0x8000_0000,
    ;
    assert(wx * wx + wy * wy > 0) by (nonlinear_arith)
        requires
            wx != 0 || wy != 0,
    ;
    let len = isqrt((wx * wx + wy * wy) as u64) as i128;
    assert(len > 0) by (nonlinear_arith)
        requires
            0 <= len,
            wx * wx + wy * wy > 0,
            wx * wx + wy * wy < (len + 1) * (len + 1),
    ;
    assert(-0x4000_0000_0000_0000 <= wx * (speed as i128) <= 0x4000_0000_0000_0000)
        by (nonlinear_arith)
        requires
            -0x8000_0000 <= wx <= 0x8000_0000,
            -0x8000_0000 <= speed <= 0x8000_0000,
    ;
    assert(-0x4000_0000_0000_0000 <= wy * (speed as i128) <= 0x4000_0000_0000_0000)
        by (nonlinear_arith)
        requires
            -0x8000_0000 <= wy <= 0x8000_0000,
            -0x8000_0000 <= speed <= 0x8000_0000,
    ;
    Vec2 {
        x: saturate(quotient(wx * (speed as i128), len)),
        y: saturate(quotient(wy * (speed as i128), len)),
    }
}

/// Computes [`spawn_allowed`].
pub fn may_spawn(world_pos: Vec2, pressed: bool) -> (ok: bool)
    ensures
        ok == spawn_allowed(world_pos, pressed),
{
    if world_pos.x < 0 || world_pos.x > SPAWN_WIDTH || world_pos.y > 0 || world_pos.y
        < -SPAWN_DEPTH {
        return false;
    }
    pressed
}

/// Computes [`spawned`].
pub fn spawn(world_pos: Vec2, x: i32, y: i32, speed: i32) -> (p: Point)
    requires
        x != 0 || y != 0,
    ensures
        p == spawned(world_pos, x, y, speed),
{
    let mut point = Point::new(heading_of(x, y, speed));
    point.last_pos = world_pos;
    point
}

/// Places the particle `id` at the pointer, if one is to be placed: draws
/// a direction and a speed, and stores the particle's position in the
/// tree. Returns the new particle's state.
pub fn place_point(tree: &mut QuadTree, id: u64, world_pos: Vec2, pressed: bool) -> (made: Option<
    Point,
>)
    requires
        old(tree).wf(),
    ensures
        final(tree).wf(),
        old(tree).same_frame(*final(tree)),
        made.is_some() == spawn_allowed(world_pos, pressed),
        made.is_none() ==> *final(tree) == *old(tree),
        made matches Some(p) ==> exists|x: i32, y: i32, speed: i32|
            is_dir(x as int) && is_dir(y as int) && SPEED_MIN <= speed < SPEED_MAX && p
                == #[trigger] spawned(world_pos, x, y, speed),
        final(tree)@ == if spawn_allowed(world_pos, pressed) {
            old(tree)@.insert(
                old(tree).bounds,
                old(tree).capacity as nat,
                old(tree).height as nat,
                (id, world_pos),
            )
        } else {
            old(tree)@
        },
{
    if !may_spawn(world_pos, pressed) {
        return None;
    }
    let mut rng = rand::thread_rng();
    let x = gen_dir();
    let y = gen_dir();
    let speed = draw_between(&mut rng, SPEED_MIN, SPEED_MAX);
    let point = spawn(world_pos, x, y, speed);
    tree.insert_point(id, world_pos);
    Some(point)
}

} // verus!
