//! The mathematical model of XOR sprite drawing.
//!
//! A sprite is `rows` consecutive memory bytes starting at the address
//! register; byte `dy` holds row `dy`, most significant bit leftmost. Bit
//! `dx` of row `dy` targets the framebuffer cell at column `(vx + dx) mod 64`
//! and row `(vy + dy) mod 32`; a set sprite bit toggles that cell. Because a
//! sprite is at most 15 rows of 8 bits, distinct sprite bits always target
//! distinct cells, so the final framebuffer and the collision flag have the
//! closed forms [`draw_disp`] and [`draw_collision`].

use vstd::arithmetic::div_mod::lemma_fundamental_div_mod;
use vstd::arithmetic::div_mod::lemma_mod_bound;
use vstd::prelude::*;

verus! {

/// Whether bit `dx` (0 = leftmost) of sprite row `dy` is set, for the sprite
/// whose rows start at memory address `i`.
pub open spec fn sprite_bit(mem: Seq<u8>, i: int, dy: int, dx: int) -> bool {
    (mem[i + dy] >> ((7 - dx) as u8)) & 1 == 1
}

/// The framebuffer cell (row-major index) that sprite bit `(dy, dx)` of a
/// sprite drawn at `(vx, vy)` targets; both coordinates wrap independently.
pub open spec fn target_cell(vx: int, vy: int, dy: int, dx: int) -> int {
    ((vy + dy) % 32) * 64 + ((vx + dx) % 64)
}

/// Whether sprite position `(a, b)` comes strictly before `(dy, dx)` in the
/// row-by-row, bit-by-bit drawing order.
pub open spec fn pair_before(a: int, b: int, dy: int, dx: int) -> bool {
    a < dy || (a == dy && b < dx)
}

/// Whether some set sprite bit strictly before position `(dy, dx)` targets
/// cell `c`.
pub open spec fn hit_upto(mem: Seq<u8>, i: int, vx: int, vy: int, dy: int, dx: int, c: int) -> bool {
    exists|a: int, b: int|
        0 <= a && 0 <= b < 8 && pair_before(a, b, dy, dx) && #[trigger] sprite_bit(mem, i, a, b)
            && target_cell(vx, vy, a, b) == c
}

/// Whether some set bit of the whole `rows`-row sprite targets cell `c`.
pub open spec fn draw_hit(mem: Seq<u8>, i: int, vx: int, vy: int, rows: int, c: int) -> bool {
    hit_upto(mem, i, vx, vy, rows, 0, c)
}

/// The framebuffer after the draw: every targeted cell is toggled, every
/// other cell keeps its value.
pub open spec fn draw_disp(
    disp: Seq<bool>,
    mem: Seq<u8>,
    i: int,
    vx: int,
    vy: int,
    rows: int,
) -> Seq<bool> {
    Seq::new(
        disp.len(),
        |c: int| if draw_hit(mem, i, vx, vy, rows, c) { !disp[c] } else { disp[c] },
    )
}

/// Whether some set sprite bit strictly before position `(dy, dx)` targets a
/// cell that was lit in `disp`.
pub open spec fn collision_upto(
    disp: Seq<bool>,
    mem: Seq<u8>,
    i: int,
    vx: int,
    vy: int,
    dy: int,
    dx: int,
) -> bool {
    exists|a: int, b: int|
        0 <= a && 0 <= b < 8 && pair_before(a, b, dy, dx) && #[trigger] sprite_bit(mem, i, a, b)
            && disp[target_cell(vx, vy, a, b)]
}

/// Whether the draw collides: some set sprite bit lands on a lit cell.
pub open spec fn draw_collision(
    disp: Seq<bool>,
    mem: Seq<u8>,
    i: int,
    vx: int,
    vy: int,
    rows: int,
) -> bool {
    collision_upto(disp, mem, i, vx, vy, rows, 0)
}

/// Adding offsets below 32 to a common base cannot collide modulo 32.
proof fn lemma_wrap_inj_32(v: int, a: int, b: int)
    requires
        0 <= v,
        0 <= a < 32,
        0 <= b < 32,
        (v + a) % 32 == (v + b) % 32,
    ensures
        a == b,
{
    lemma_fundamental_div_mod(v + a, 32);
    lemma_fundamental_div_mod(v + b, 32);
    let da = (v + a) / 32;
    let db = (v + b) / 32;
    assert(a - b == 32 * da - 32 * db);
}

/// Adding offsets below 64 to a common base cannot collide modulo 64.
proof fn lemma_wrap_inj_64(v: int, a: int, b: int)
    requires
        0 <= v,
        0 <= a < 64,
        0 <= b < 64,
        (v + a) % 64 == (v + b) % 64,
    ensures
        a == b,
{
    lemma_fundamental_div_mod(v + a, 64);
    lemma_fundamental_div_mod(v + b, 64);
    let da = (v + a) / 64;
    let db = (v + b) / 64;
    assert(a - b == 64 * da - 64 * db);
}

/// Distinct sprite positions target distinct framebuffer cells: the row
/// offsets stay below the framebuffer height and the bit offsets below its
/// width, so neither coordinate can wrap onto another offset.
pub proof fn lemma_target_inj(vx: int, vy: int, a1: int, b1: int, a2: int, b2: int)
    requires
        0 <= vx,
        0 <= vy,
        0 <= a1 < 32,
        0 <= a2 < 32,
        0 <= b1 < 64,
        0 <= b2 < 64,
        target_cell(vx, vy, a1, b1) == target_cell(vx, vy, a2, b2),
    ensures
        a1 == a2,
        b1 == b2,
{
    lemma_mod_bound(vy + a1, 32);
    lemma_mod_bound(vy + a2, 32);
    lemma_mod_bound(vx + b1, 64);
    lemma_mod_bound(vx + b2, 64);
    assert((vy + a1) % 32 == (vy + a2) % 32 && (vx + b1) % 64 == (vx + b2) % 64);
    lemma_wrap_inj_32(vy, a1, a2);
    lemma_wrap_inj_64(vx, b1, b2);
}

/// Advancing the drawing frontier by one bit position adds exactly that
/// position's target (if its bit is set) to the hit set.
pub proof fn lemma_hit_step(mem: Seq<u8>, i: int, vx: int, vy: int, dy: int, dx: int, c: int)
    requires
        0 <= dy,
        0 <= dx < 8,
    ensures
        hit_upto(mem, i, vx, vy, dy, dx + 1, c) == (hit_upto(mem, i, vx, vy, dy, dx, c) || (
        sprite_bit(mem, i, dy, dx) && target_cell(vx, vy, dy, dx) == c)),
{
    if hit_upto(mem, i, vx, vy, dy, dx + 1, c) {
        let (a, b) = choose|a: int, b: int|
            0 <= a && 0 <= b < 8 && pair_before(a, b, dy, dx + 1) && #[trigger] sprite_bit(
                mem,
                i,
                a,
                b,
            ) && target_cell(vx, vy, a, b) == c;
        if !(a == dy && b == dx) {
            assert(pair_before(a, b, dy, dx));
            assert(hit_upto(mem, i, vx, vy, dy, dx, c));
        }
    }
    if hit_upto(mem, i, vx, vy, dy, dx, c) {
        let (a, b) = choose|a: int, b: int|
            0 <= a && 0 <= b < 8 && pair_before(a, b, dy, dx) && #[trigger] sprite_bit(mem, i, a, b)
                && target_cell(vx, vy, a, b) == c;
        assert(pair_before(a, b, dy, dx + 1));
        assert(hit_upto(mem, i, vx, vy, dy, dx + 1, c));
    }
    if sprite_bit(mem, i, dy, dx) && target_cell(vx, vy, dy, dx) == c {
        assert(pair_before(dy, dx, dy, dx + 1));
        assert(hit_upto(mem, i, vx, vy, dy, dx + 1, c));
    }
}

/// The same frontier step for the collision predicate.
pub proof fn lemma_coll_step(
    disp: Seq<bool>,
    mem: Seq<u8>,
    i: int,
    vx: int,
    vy: int,
    dy: int,
    dx: int,
)
    requires
        0 <= dy,
        0 <= dx < 8,
    ensures
        collision_upto(disp, mem, i, vx, vy, dy, dx + 1) == (collision_upto(
            disp,
            mem,
            i,
            vx,
            vy,
            dy,
            dx,
        ) || (sprite_bit(mem, i, dy, dx) && disp[target_cell(vx, vy, dy, dx)])),
{
    if collision_upto(disp, mem, i, vx, vy, dy, dx + 1) {
        let (a, b) = choose|a: int, b: int|
            0 <= a && 0 <= b < 8 && pair_before(a, b, dy, dx + 1) && #[trigger] sprite_bit(
                mem,
                i,
                a,
                b,
            ) && disp[target_cell(vx, vy, a, b)];
        if !(a == dy && b == dx) {
            assert(pair_before(a, b, dy, dx));
            assert(collision_upto(disp, mem, i, vx, vy, dy, dx));
        }
    }
    if collision_upto(disp, mem, i, vx, vy, dy, dx) {
        let (a, b) = choose|a: int, b: int|
            0 <= a && 0 <= b < 8 && pair_before(a, b, dy, dx) && #[trigger] sprite_bit(mem, i, a, b)
                && disp[target_cell(vx, vy, a, b)];
        assert(pair_before(a, b, dy, dx + 1));
        assert(collision_upto(disp, mem, i, vx, vy, dy, dx + 1));
    }
    if sprite_bit(mem, i, dy, dx) && disp[target_cell(vx, vy, dy, dx)] {
        assert(pair_before(dy, dx, dy, dx + 1));
        assert(collision_upto(disp, mem, i, vx, vy, dy, dx + 1));
    }
}

/// A frontier past the last bit of row `dy` is the same as one at the start
/// of row `dy + 1`.
pub proof fn lemma_row_step(mem: Seq<u8>, i: int, vx: int, vy: int, dy: int, c: int)
    ensures
        hit_upto(mem, i, vx, vy, dy, 8, c) == hit_upto(mem, i, vx, vy, dy + 1, 0, c),
{
    if hit_upto(mem, i, vx, vy, dy, 8, c) {
        let (a, b) = choose|a: int, b: int|
            0 <= a && 0 <= b < 8 && pair_before(a, b, dy, 8) && #[trigger] sprite_bit(mem, i, a, b)
                && target_cell(vx, vy, a, b) == c;
        assert(pair_before(a, b, dy + 1, 0));
        assert(hit_upto(mem, i, vx, vy, dy + 1, 0, c));
    }
    if hit_upto(mem, i, vx, vy, dy + 1, 0, c) {
        let (a, b) = choose|a: int, b: int|
            0 <= a && 0 <= b < 8 && pair_before(a, b, dy + 1, 0) && #[trigger] sprite_bit(
                mem,
                i,
                a,
                b,
            ) && target_cell(vx, vy, a, b) == c;
        assert(pair_before(a, b, dy, 8));
        assert(hit_upto(mem, i, vx, vy, dy, 8, c));
    }
}

/// The row-boundary step for the collision predicate.
pub proof fn lemma_coll_row_step(disp: Seq<bool>, mem: Seq<u8>, i: int, vx: int, vy: int, dy: int)
    ensures
        collision_upto(disp, mem, i, vx, vy, dy, 8) == collision_upto(
            disp,
            mem,
            i,
            vx,
            vy,
            dy + 1,
            0,
        ),
{
    if collision_upto(disp, mem, i, vx, vy, dy, 8) {
        let (a, b) = choose|a: int, b: int|
            0 <= a && 0 <= b < 8 && pair_before(a, b, dy, 8) && #[trigger] sprite_bit(mem, i, a, b)
                && disp[target_cell(vx, vy, a, b)];
        assert(pair_before(a, b, dy + 1, 0));
        assert(collision_upto(disp, mem, i, vx, vy, dy + 1, 0));
    }
    if collision_upto(disp, mem, i, vx, vy, dy + 1, 0) {
        let (a, b) = choose|a: int, b: int|
            0 <= a && 0 <= b < 8 && pair_before(a, b, dy + 1, 0) && #[trigger] sprite_bit(
                mem,
                i,
                a,
                b,
            ) && disp[target_cell(vx, vy, a, b)];
        assert(pair_before(a, b, dy, 8));
        assert(collision_upto(disp, mem, i, vx, vy, dy, 8));
    }
}

/// No sprite position at all comes before the very first one.
pub proof fn lemma_hit_empty(disp: Seq<bool>, mem: Seq<u8>, i: int, vx: int, vy: int, c: int)
    ensures
        !hit_upto(mem, i, vx, vy, 0, 0, c),
        !collision_upto(disp, mem, i, vx, vy, 0, 0),
{
}

} // verus!
