//! Laws of the instruction set, proved once for all inputs.
//!
//! Each law is stated over the transition function
//! [`crate::chip8::step_spec`] or over the sprite-drawing model of
//! [`crate::draw`], so it holds of every machine the executable interpreter
//! can reach.

use crate::chip8::lowest_key;
use crate::chip8::step_spec;
use crate::chip8::wait_key_state;
use crate::chip8::C8State;
use crate::chip8::Chip8Error;
use crate::chip8::STACK_SIZE;
use crate::draw::draw_collision;
use crate::draw::draw_disp;
use crate::draw::draw_hit;
use crate::draw::pair_before;
use crate::draw::sprite_bit;
use crate::draw::target_cell;
use vstd::prelude::*;

verus! {

/// Law: the load-immediate instruction `6xnn` stores exactly `nn` in Vx and
/// changes nothing else.
pub proof fn lemma_load_immediate(s: C8State, x: u16, nn: u8, rb: u8)
    requires
        s.wf(),
        x < 16,
    ensures
        step_spec(s, (0x6000 | (x << 8)) | (nn as u16), rb) == Ok::<C8State, Chip8Error>(
            C8State { regs: s.regs.update(x as int, nn), ..s },
        ),
        s.regs.update(x as int, nn)[x as int] == nn,
{
    let op: u16 = (0x6000 | (x << 8)) | (nn as u16);
    assert((op >> 12) & 0xF == 6 && (op >> 8) & 0xF == x && (op & 0xFF) == nn as u16)
        by (bit_vector)
        requires
            op == (0x6000 | (x << 8)) | (nn as u16),
            x < 16,
    ;
}

/// Law: add-immediate wraps modulo 256 and touches no flag. With Vx = 0xFF,
/// `7x02` yields Vx = 0x01, and every register but Vx keeps its value.
pub proof fn lemma_add_immediate_wraps(s: C8State, x: u16, rb: u8)
    requires
        s.wf(),
        x < 16,
        s.regs[x as int] == 0xFF,
    ensures
        step_spec(s, (0x7000 | (x << 8)) | 0x02, rb) == Ok::<C8State, Chip8Error>(
            C8State { regs: s.regs.update(x as int, 0x01u8), ..s },
        ),
{
    let op: u16 = (0x7000 | (x << 8)) | 0x02;
    assert((op >> 12) & 0xF == 7 && (op >> 8) & 0xF == x && (op & 0xFF) == 0x02) by (bit_vector)
        requires
            op == (0x7000 | (x << 8)) | 0x02,
            x < 16,
    ;
}

/// Law: a call `2nnn` pushes the post-fetch program counter and jumps, and a
/// later return `00EE` that finds that entry on top of the stack restores the
/// program counter to the value right after the call instruction, popping the
/// entry.
pub proof fn lemma_call_return(s: C8State, nnn: u16, t: C8State, rb1: u8, rb2: u8)
    requires
        s.wf(),
        t.wf(),
        nnn < 4096,
        s.stack.len() < STACK_SIZE,
    ensures
        step_spec(s, 0x2000 | nnn, rb1) == Ok::<C8State, Chip8Error>(
            C8State { stack: s.stack.push(s.pc), pc: nnn, ..s },
        ),
        t.stack == s.stack.push(s.pc) ==> step_spec(t, 0x00EE, rb2) == Ok::<C8State, Chip8Error>(
            C8State { pc: s.pc, stack: s.stack, ..t },
        ),
{
    let op: u16 = 0x2000 | nnn;
    assert((op >> 12) & 0xF == 2 && (op & 0xFFF) == nnn) by (bit_vector)
        requires
            op == 0x2000 | nnn,
            nnn < 4096,
    ;
    assert((0x00EEu16 >> 12) & 0xF == 0) by (bit_vector);
    if t.stack == s.stack.push(s.pc) {
        assert(t.stack.last() == s.pc);
        assert(t.stack.drop_last() =~= s.stack);
    }
}

/// What the lowest-pressed-key scan returns: the first pressed index at or
/// above `j` if a key is pressed there, and nothing when none is.
pub proof fn lemma_lowest_key(keys: Seq<bool>, j: int)
    requires
        0 <= j <= 16,
    ensures
        match lowest_key(keys, j) {
            Some(kk) => j <= kk < 16 && keys[kk as int] && (forall|m: int|
                j <= m < kk ==> !keys[m]),
            None => forall|m: int| j <= m < 16 ==> !keys[m],
        },
    decreases 16 - j,
{
    if j < 16 {
        lemma_lowest_key(keys, j + 1);
    }
}

/// Law: the wait-for-key instruction `Fx0A` blocks by rewinding. With no key
/// pressed it rewinds the program counter by one instruction, exactly
/// undoing the fetch advance of its own cycle; with some key pressed it
/// stores the lowest pressed index in Vx and the program counter stays put.
pub proof fn lemma_wait_key(s: C8State, x: u16, rb: u8)
    requires
        s.wf(),
        x < 16,
    ensures
        step_spec(s, 0xF00A | (x << 8), rb) == Ok::<C8State, Chip8Error>(
            wait_key_state(s, x as int),
        ),
        (forall|k: int| 0 <= k < 16 ==> !s.keys[k]) ==> wait_key_state(s, x as int) == (C8State {
            pc: (s.pc - 2) as u16,
            ..s
        }),
        (exists|k: int| 0 <= k < 16 && s.keys[k]) ==> match lowest_key(s.keys, 0) {
            Some(kk) => 0 <= kk < 16 && s.keys[kk as int] && (forall|m: int|
                0 <= m < kk ==> !s.keys[m]) && wait_key_state(s, x as int) == (C8State {
                regs: s.regs.update(x as int, kk),
                ..s
            }),
            None => false,
        },
{
    let op: u16 = 0xF00A | (x << 8);
    assert((op >> 12) & 0xF == 0xF && (op >> 8) & 0xF == x && (op & 0xFF) == 0x0A) by (bit_vector)
        requires
            op == 0xF00A | (x << 8),
            x < 16,
    ;
    lemma_lowest_key(s.keys, 0);
    if exists|k: int| 0 <= k < 16 && s.keys[k] {
        let k = choose|k: int| 0 <= k < 16 && s.keys[k];
        if lowest_key(s.keys, 0) is None {
            assert(!s.keys[k]);
        }
    }
}

/// Law: XOR sprite drawing is an involution. Drawing the same sprite rows at
/// the same coordinates twice restores every framebuffer cell, and the
/// second draw reports a collision whenever the first draw lit some cell.
pub proof fn lemma_draw_twice(disp: Seq<bool>, mem: Seq<u8>, i: int, vx: int, vy: int, rows: int)
    ensures
        draw_disp(draw_disp(disp, mem, i, vx, vy, rows), mem, i, vx, vy, rows) == disp,
        (exists|dy: int, dx: int|
            0 <= dy < rows && 0 <= dx < 8 && #[trigger] sprite_bit(mem, i, dy, dx) && 0
                <= target_cell(vx, vy, dy, dx) < disp.len() && !disp[target_cell(
                vx,
                vy,
                dy,
                dx,
            )]) ==> draw_collision(draw_disp(disp, mem, i, vx, vy, rows), mem, i, vx, vy, rows),
{
    let once = draw_disp(disp, mem, i, vx, vy, rows);
    let twice = draw_disp(once, mem, i, vx, vy, rows);
    assert(twice =~= disp);
    if exists|dy: int, dx: int|
        0 <= dy < rows && 0 <= dx < 8 && #[trigger] sprite_bit(mem, i, dy, dx) && 0 <= target_cell(
            vx,
            vy,
            dy,
            dx,
        ) < disp.len() && !disp[target_cell(vx, vy, dy, dx)] {
        let (dy, dx) = choose|dy: int, dx: int|
            0 <= dy < rows && 0 <= dx < 8 && #[trigger] sprite_bit(mem, i, dy, dx) && 0
                <= target_cell(vx, vy, dy, dx) < disp.len() && !disp[target_cell(vx, vy, dy, dx)];
        let c = target_cell(vx, vy, dy, dx);
        assert(pair_before(dy, dx, rows, 0));
        assert(draw_hit(mem, i, vx, vy, rows, c));
        assert(once[c] == !disp[c]);
        assert(draw_collision(once, mem, i, vx, vy, rows));
    }
}

} // verus!
