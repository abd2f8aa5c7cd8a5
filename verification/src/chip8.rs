//! The CHIP-8 machine: state, decoding, and the instruction semantics.
//!
//! The executable state is [`Chip8`]; its mathematical view is [`C8State`].
//! The semantics of one already-fetched instruction is the spec function
//! [`step_spec`]; a whole fetch-decode-execute cycle is [`iter_spec`].

use crate::decode::lemma_decode_bounds;
use crate::decode::op_hi;
use crate::decode::op_n;
use crate::decode::op_nn;
use crate::decode::op_nnn;
use crate::decode::op_x;
use crate::decode::op_y;
use crate::draw::collision_upto;
use crate::draw::draw_collision;
use crate::draw::draw_disp;
use crate::draw::hit_upto;
use crate::draw::lemma_coll_row_step;
use crate::draw::lemma_coll_step;
use crate::draw::lemma_hit_empty;
use crate::draw::lemma_hit_step;
use crate::draw::lemma_row_step;
use crate::draw::lemma_target_inj;
use crate::draw::pair_before;
use crate::draw::sprite_bit;
use crate::draw::target_cell;
use vstd::prelude::*;

verus! {

/// Framebuffer width in pixels.
pub const C8_WIDTH: usize = 64;
/// Framebuffer height in pixels.
pub const C8_HEIGHT: usize = 32;
/// Number of framebuffer cells (row-major: index = row * 64 + column).
pub const DISPLAY_SIZE: usize = 2048;
/// Size of the addressable memory in bytes.
pub const MEMORY_SIZE: usize = 4096;
/// First address of the loaded program image.
pub const PROG_START: usize = 0x200;
/// Capacity of the call stack.
pub const STACK_SIZE: usize = 16;
/// Number of bytes occupied by the built-in font (16 glyphs of 5 bytes).
pub const FONTSET_SIZE: usize = 80;

/// A fatal condition: the machine cannot continue safely, and the state is
/// left exactly as it was before the offending cycle.
#[derive(Clone, Copy, Debug, PartialEq, Eq, Structural)]
pub enum Chip8Error {
    /// The fetched opcode matches no instruction of the set.
    UnknownOpcode(u16),
    /// A call instruction arrived with the 16-entry stack already full.
    StackOverflow,
    /// A return instruction arrived with an empty stack.
    StackUnderflow,
    /// The program counter does not point at two readable memory bytes.
    ProgramCounterOutOfBounds,
    /// A memory-indexed instruction reaches past the end of memory.
    AddressOutOfBounds,
    /// A key-skip instruction names a key index outside 0..16.
    KeyOutOfRange,
}

/// The mathematical view of the machine state.
pub ghost struct C8State {
    /// Memory contents, 4096 bytes.
    pub mem: Seq<u8>,
    /// Framebuffer cells, row-major, 2048 entries.
    pub disp: Seq<bool>,
    /// Live call-stack entries, oldest first; its length is the stack pointer.
    pub stack: Seq<u16>,
    /// The 16 general-purpose registers V0..VF.
    pub regs: Seq<u8>,
    /// The 16 keypad flags.
    pub keys: Seq<bool>,
    /// The address register I.
    pub i: u16,
    /// The program counter.
    pub pc: u16,
    /// The delay timer.
    pub dt: u8,
    /// The sound timer.
    pub st: u8,
}

impl C8State {
    /// Well-formedness: the fixed sizes of the machine, the stack-capacity
    /// bound, and the 12-bit bound on the address register.
    pub open spec fn wf(self) -> bool {
        &&& self.mem.len() == MEMORY_SIZE
        &&& self.disp.len() == DISPLAY_SIZE
        &&& self.stack.len() <= STACK_SIZE
        &&& self.regs.len() == 16
        &&& self.keys.len() == 16
        &&& self.i < MEMORY_SIZE
    }
}

// ---------------------------------------------------------------------------
// The built-in font.
// ---------------------------------------------------------------------------

/// The five rows of a font glyph, packed big-endian into the low 40 bits:
/// the top row is the most significant of the five bytes.
pub open spec fn glyph_bits(g: int) -> u64 {
    if g == 0x0 { 0xF0909090F0 }
    else if g == 0x1 { 0x2060202070 }
    else if g == 0x2 { 0xF010F080F0 }
    else if g == 0x3 { 0xF010F010F0 }
    else if g == 0x4 { 0x9090F01010 }
    else if g == 0x5 { 0xF080F010F0 }
    else if g == 0x6 { 0xF080F090F0 }
    else if g == 0x7 { 0xF010204040 }
    else if g == 0x8 { 0xF090F090F0 }
    else if g == 0x9 { 0xF090F010F0 }
    else if g == 0xA { 0xF090F09090 }
    else if g == 0xB { 0xE090E090E0 }
    else if g == 0xC { 0xF0808080F0 }
    else if g == 0xD { 0xE0909090E0 }
    else if g == 0xE { 0xF080F080F0 }
    else { 0xF080F08080 }
}

/// Byte `j` of the font region: row `j % 5` of glyph `j / 5`.
pub open spec fn font_byte(j: int) -> u8 {
    ((glyph_bits(j / 5) >> ((8 * (4 - j % 5)) as u64)) & 0xFF) as u8
}

/// Memory as initialization leaves it: the font in the first 80 bytes,
/// zero everywhere else.
pub open spec fn init_mem() -> Seq<u8> {
    Seq::new(MEMORY_SIZE as nat, |j: int| if j < FONTSET_SIZE { font_byte(j) } else { 0u8 })
}

/// The machine state right after initialization.
pub open spec fn init_state() -> C8State {
    C8State {
        mem: init_mem(),
        disp: Seq::new(DISPLAY_SIZE as nat, |c: int| false),
        stack: Seq::empty(),
        regs: Seq::new(16, |r: int| 0u8),
        keys: Seq::new(16, |k: int| false),
        i: 0,
        pc: PROG_START as u16,
        dt: 0,
        st: 0,
    }
}

fn glyph_bits_exec(g: u16) -> (r: u64)
    requires
        g < 16,
    ensures
        r == glyph_bits(g as int),
{
    if g == 0x0 { 0xF0909090F0 }
    else if g == 0x1 { 0x2060202070 }
    else if g == 0x2 { 0xF010F080F0 }
    else if g == 0x3 { 0xF010F010F0 }
    else if g == 0x4 { 0x9090F01010 }
    else if g == 0x5 { 0xF080F010F0 }
    else if g == 0x6 { 0xF080F090F0 }
    else if g == 0x7 { 0xF010204040 }
    else if g == 0x8 { 0xF090F090F0 }
    else if g == 0x9 { 0xF090F010F0 }
    else if g == 0xA { 0xF090F09090 }
    else if g == 0xB { 0xE090E090E0 }
    else if g == 0xC { 0xF0808080F0 }
    else if g == 0xD { 0xE0909090E0 }
    else if g == 0xE { 0xF080F080F0 }
    else { 0xF080F08080 }
}

// ---------------------------------------------------------------------------
// The instruction semantics, as a mathematical transition function.
// ---------------------------------------------------------------------------

/// The state with the next instruction skipped: the program counter advanced
/// by one more instruction.
pub open spec fn skip_next(s: C8State) -> C8State {
    C8State { pc: (s.pc + 2) as u16, ..s }
}

/// The lowest pressed key index at or above `k`, if any.
pub open spec fn lowest_key(keys: Seq<bool>, k: int) -> Option<u8>
    decreases 16 - k,
{
    if k < 0 || k >= 16 {
        None
    } else if keys[k] {
        Some(k as u8)
    } else {
        lowest_key(keys, k + 1)
    }
}

/// An all-dark framebuffer.
pub open spec fn cleared_disp() -> Seq<bool> {
    Seq::new(DISPLAY_SIZE as nat, |c: int| false)
}

/// Memory after storing V0..=Vx at the address register.
pub open spec fn stored_mem(s: C8State, x: int) -> Seq<u8> {
    Seq::new(
        s.mem.len(),
        |j: int| if s.i <= j <= s.i + x { s.regs[j - s.i] } else { s.mem[j] },
    )
}

/// Registers after loading V0..=Vx from the address register.
pub open spec fn loaded_regs(s: C8State, x: int) -> Seq<u8> {
    Seq::new(s.regs.len(), |j: int| if j <= x { s.mem[s.i + j] } else { s.regs[j] })
}

/// Memory after writing the three decimal digits of Vx at the address
/// register: hundreds, tens, ones.
pub open spec fn bcd_mem(s: C8State, x: int) -> Seq<u8> {
    s.mem.update(s.i as int, (s.regs[x] as int / 100) as u8).update(
        s.i as int + 1,
        ((s.regs[x] as int / 10) % 10) as u8,
    ).update(s.i as int + 2, (s.regs[x] as int % 10) as u8)
}

/// The state after an XOR sprite draw of `rows` rows at (Vx, Vy): the
/// framebuffer toggled at every targeted cell, and VF set to 1 exactly when
/// some set sprite bit landed on a lit cell.
pub open spec fn draw_state(s: C8State, x: int, y: int, rows: int) -> C8State {
    C8State {
        disp: draw_disp(s.disp, s.mem, s.i as int, s.regs[x] as int, s.regs[y] as int, rows),
        regs: s.regs.update(
            0xF,
            if draw_collision(
                s.disp,
                s.mem,
                s.i as int,
                s.regs[x] as int,
                s.regs[y] as int,
                rows,
            ) {
                1u8
            } else {
                0u8
            },
        ),
        ..s
    }
}

/// The state after the wait-for-key instruction: if some key is pressed, Vx
/// receives the lowest pressed index; otherwise the program counter rewinds
/// by one instruction so the fetch repeats next cycle.
pub open spec fn wait_key_state(s: C8State, x: int) -> C8State {
    match lowest_key(s.keys, 0) {
        Some(k) => C8State { regs: s.regs.update(x, k), ..s },
        None => C8State { pc: (s.pc - 2) as u16, ..s },
    }
}

/// The effect of one already-fetched instruction `op` on the state `s`,
/// whose program counter has already been advanced past the instruction.
/// `rb` is the byte the random source produced, read only by the
/// random-masking instruction. An `Err` means the machine must halt; the
/// caller keeps the state unchanged in that case.
pub open spec fn step_spec(s: C8State, op: u16, rb: u8) -> Result<C8State, Chip8Error> {
    let x = op_x(op);
    let y = op_y(op);
    let n = op_n(op);
    let nn = op_nn(op);
    let nnn = op_nnn(op);
    let vx = s.regs[x];
    let vy = s.regs[y];
    if op_hi(op) == 0x0 {
        if op == 0x0000 {
            Ok(s)
        } else if op == 0x00E0 {
            Ok(C8State { disp: cleared_disp(), ..s })
        } else if op == 0x00EE {
            if s.stack.len() == 0 {
                Err(Chip8Error::StackUnderflow)
            } else {
                Ok(C8State { pc: s.stack.last(), stack: s.stack.drop_last(), ..s })
            }
        } else {
            Err(Chip8Error::UnknownOpcode(op))
        }
    } else if op_hi(op) == 0x1 {
        Ok(C8State { pc: nnn, ..s })
    } else if op_hi(op) == 0x2 {
        if s.stack.len() >= STACK_SIZE {
            Err(Chip8Error::StackOverflow)
        } else {
            Ok(C8State { stack: s.stack.push(s.pc), pc: nnn, ..s })
        }
    } else if op_hi(op) == 0x3 {
        Ok(if vx == nn { skip_next(s) } else { s })
    } else if op_hi(op) == 0x4 {
        Ok(if vx != nn { skip_next(s) } else { s })
    } else if op_hi(op) == 0x5 {
        Ok(if vx == vy { skip_next(s) } else { s })
    } else if op_hi(op) == 0x6 {
        Ok(C8State { regs: s.regs.update(x, nn), ..s })
    } else if op_hi(op) == 0x7 {
        Ok(C8State { regs: s.regs.update(x, ((vx + nn) % 256) as u8), ..s })
    } else if op_hi(op) == 0x8 {
        if n == 0x0 {
            Ok(C8State { regs: s.regs.update(x, vy), ..s })
        } else if n == 0x1 {
            Ok(C8State { regs: s.regs.update(x, vx | vy), ..s })
        } else if n == 0x2 {
            Ok(C8State { regs: s.regs.update(x, vx & vy), ..s })
        } else if n == 0x3 {
            Ok(C8State { regs: s.regs.update(x, vx ^ vy), ..s })
        } else if n == 0x4 {
            Ok(
                C8State {
                    regs: s.regs.update(x, ((vx + vy) % 256) as u8).update(
                        0xF,
                        if vx + vy > 255 { 1u8 } else { 0u8 },
                    ),
                    ..s
                },
            )
        } else if n == 0x5 {
            Ok(
                C8State {
                    regs: s.regs.update(x, ((vx + 256 - vy) % 256) as u8).update(
                        0xF,
                        if vx >= vy { 1u8 } else { 0u8 },
                    ),
                    ..s
                },
            )
        } else if n == 0x6 {
            Ok(C8State { regs: s.regs.update(x, vx / 2).update(0xF, vx % 2), ..s })
        } else if n == 0x7 {
            Ok(
                C8State {
                    regs: s.regs.update(x, ((vy + 256 - vx) % 256) as u8).update(
                        0xF,
                        if vy >= vx { 1u8 } else { 0u8 },
                    ),
                    ..s
                },
            )
        } else if n == 0xE {
            Ok(C8State { regs: s.regs.update(x, ((vx * 2) % 256) as u8).update(0xF, vx / 128), ..s })
        } else {
            Err(Chip8Error::UnknownOpcode(op))
        }
    } else if op_hi(op) == 0x9 {
        if n == 0x0 {
            Ok(if vx != vy { skip_next(s) } else { s })
        } else {
            Err(Chip8Error::UnknownOpcode(op))
        }
    } else if op_hi(op) == 0xA {
        Ok(C8State { i: nnn, ..s })
    } else if op_hi(op) == 0xB {
        Ok(C8State { pc: (s.regs[0] + nnn) as u16, ..s })
    } else if op_hi(op) == 0xC {
        Ok(C8State { regs: s.regs.update(x, rb & nn), ..s })
    } else if op_hi(op) == 0xD {
        if s.i + n > MEMORY_SIZE {
            Err(Chip8Error::AddressOutOfBounds)
        } else {
            Ok(draw_state(s, x, y, n as int))
        }
    } else if op_hi(op) == 0xE {
        if nn == 0x9E {
            if vx >= 16 {
                Err(Chip8Error::KeyOutOfRange)
            } else {
                Ok(if s.keys[vx as int] { skip_next(s) } else { s })
            }
        } else if nn == 0xA1 {
            if vx >= 16 {
                Err(Chip8Error::KeyOutOfRange)
            } else {
                Ok(if !s.keys[vx as int] { skip_next(s) } else { s })
            }
        } else {
            Err(Chip8Error::UnknownOpcode(op))
        }
    } else {
        if nn == 0x07 {
            Ok(C8State { regs: s.regs.update(x, s.dt), ..s })
        } else if nn == 0x0A {
            Ok(wait_key_state(s, x))
        } else if nn == 0x15 {
            Ok(C8State { dt: vx, ..s })
        } else if nn == 0x18 {
            Ok(C8State { st: vx, ..s })
        } else if nn == 0x1E {
            Ok(C8State { i: ((s.i + vx) % 4096) as u16, ..s })
        } else if nn == 0x29 {
            Ok(C8State { i: (vx * 5) as u16, ..s })
        } else if nn == 0x33 {
            if s.i + 2 >= MEMORY_SIZE {
                Err(Chip8Error::AddressOutOfBounds)
            } else {
                Ok(C8State { mem: bcd_mem(s, x), ..s })
            }
        } else if nn == 0x55 {
            if s.i + x >= MEMORY_SIZE {
                Err(Chip8Error::AddressOutOfBounds)
            } else {
                Ok(C8State { mem: stored_mem(s, x), ..s })
            }
        } else if nn == 0x65 {
            if s.i + x >= MEMORY_SIZE {
                Err(Chip8Error::AddressOutOfBounds)
            } else {
                Ok(C8State { regs: loaded_regs(s, x), ..s })
            }
        } else {
            Err(Chip8Error::UnknownOpcode(op))
        }
    }
}

/// The opcode two consecutive memory bytes at the program counter spell,
/// big-endian.
pub open spec fn fetched_op(s: C8State) -> u16 {
    ((s.mem[s.pc as int] as u16) << 8) | (s.mem[s.pc as int + 1] as u16)
}

/// The state with the program counter advanced past the fetched instruction.
pub open spec fn advanced(s: C8State) -> C8State {
    C8State { pc: (s.pc + 2) as u16, ..s }
}

/// One whole fetch-decode-execute cycle: the program counter must point at
/// two readable bytes; the fetched opcode then acts on the pre-advanced
/// state.
pub open spec fn iter_spec(s: C8State, rb: u8) -> Result<C8State, Chip8Error> {
    if s.pc + 1 >= MEMORY_SIZE {
        Err(Chip8Error::ProgramCounterOutOfBounds)
    } else {
        step_spec(advanced(s), fetched_op(s), rb)
    }
}

/// Relies on rand::random: one independently drawn byte; nothing is assumed
/// of its value.
#[verifier::external_body]
fn random_byte() -> u8 {
    rand::random::<u8>()
}

// ---------------------------------------------------------------------------
// The machine.
// ---------------------------------------------------------------------------

/// The CHIP-8 machine state. Construct it with [`Chip8::new`], load a program
/// with [`Chip8::load_program`], and drive it with [`Chip8::do_iteration`]
/// and [`Chip8::timer_advance`].
pub struct Chip8 {
    /// Framebuffer cells, row-major (index = row * 64 + column), 2048 entries.
    pub display_buf: Vec<bool>,
    /// Memory, 4096 bytes; the font occupies the first 80.
    pub memory: Vec<u8>,
    /// Live call-stack entries; the length acts as the stack pointer.
    pub stack: Vec<u16>,
    /// The address register I.
    pub addr_register: u16,
    /// The 16 general-purpose registers V0..VF.
    pub register: Vec<u8>,
    /// The program counter.
    pub prog_counter: u16,
    /// The delay timer.
    pub delay_timer: u8,
    /// The sound timer.
    pub audio_timer: u8,
    /// The 16 keypad flags, written by the host's input source.
    pub key_state: Vec<bool>,
}

impl View for Chip8 {
    type V = C8State;

    open spec fn view(&self) -> C8State {
        C8State {
            mem: self.memory@,
            disp: self.display_buf@,
            stack: self.stack@,
            regs: self.register@,
            keys: self.key_state@,
            i: self.addr_register,
            pc: self.prog_counter,
            dt: self.delay_timer,
            st: self.audio_timer,
        }
    }
}

impl Chip8 {
    /// A freshly initialized machine: memory zeroed except for the font,
    /// everything else zero, program counter at the program start.
    pub fn new() -> (r: Chip8)
        ensures
            r@ == init_state(),
            r@.wf(),
    {
        let mut memory: Vec<u8> = Vec::new();
        let mut j: usize = 0;
        while j < FONTSET_SIZE
            invariant
                j <= FONTSET_SIZE,
                memory@.len() == j,
                forall|k: int| 0 <= k < j ==> memory@[k] == font_byte(k),
            decreases FONTSET_SIZE - j,
        {
            let row: u64 = (8 * (4 - (j % 5))) as u64;
            let b: u8 = ((glyph_bits_exec((j / 5) as u16) >> row) & 0xFF) as u8;
            memory.push(b);
            j += 1;
        }
        while j < MEMORY_SIZE
            invariant
                FONTSET_SIZE <= j <= MEMORY_SIZE,
                memory@.len() == j,
                forall|k: int| 0 <= k < j ==> memory@[k] == init_mem()[k],
            decreases MEMORY_SIZE - j,
        {
            memory.push(0);
            j += 1;
        }
        let r = Chip8 {
            display_buf: vec![false; DISPLAY_SIZE],
            memory,
            stack: Vec::new(),
            addr_register: 0,
            register: vec![0u8; 16],
            prog_counter: PROG_START as u16,
            delay_timer: 0,
            audio_timer: 0,
            key_state: vec![false; 16],
        };
        proof {
            assert(r@.mem =~= init_mem());
            assert(r@.disp =~= init_state().disp);
            assert(r@.regs =~= init_state().regs);
            assert(r@.keys =~= init_state().keys);
            assert(r@.stack =~= init_state().stack);
        }
        r
    }

    /// A read-only view of the framebuffer, row-major, 2048 cells.
    pub fn get_display(&self) -> (r: &Vec<bool>)
        ensures
            r@ == self@.disp,
    {
        &self.display_buf
    }

    /// A copy of the 16 keypad flags.
    pub fn get_keys(&self) -> (r: Vec<bool>)
        requires
            self@.wf(),
        ensures
            r@ == self@.keys,
    {
        let mut r: Vec<bool> = Vec::new();
        let mut k: usize = 0;
        while k < 16
            invariant
                self@.wf(),
                k <= 16,
                r@.len() == k,
                forall|j: int| 0 <= j < k ==> r@[j] == self@.keys[j],
            decreases 16 - k,
        {
            r.push(self.key_state[k]);
            k += 1;
        }
        proof {
            assert(r@ =~= self@.keys);
        }
        r
    }

    /// Writes one keypad flag; the host's input source calls this while a
    /// key is pressed or released.
    pub fn set_key(&mut self, key: usize, down: bool)
        requires
            old(self)@.wf(),
            key < 16,
        ensures
            final(self)@ == (C8State { keys: old(self)@.keys.update(key as int, down), ..old(self)@ }),
            final(self)@.wf(),
    {
        self.key_state[key] = down;
    }

    /// Decrements the two timers, each floored at zero, and reports whether
    /// the speaker should sound: exactly when the sound timer was 1 at the
    /// start of this call, the tick that silences it.
    pub fn timer_advance(&mut self) -> (beep: bool)
        ensures
            final(self)@ == (C8State {
                dt: if old(self)@.dt > 0 { (old(self)@.dt - 1) as u8 } else { 0u8 },
                st: if old(self)@.st > 0 { (old(self)@.st - 1) as u8 } else { 0u8 },
                ..old(self)@
            }),
            beep == (old(self)@.st == 1),
            old(self)@.wf() ==> final(self)@.wf(),
    {
        let mut beep = false;
        if self.delay_timer > 0 {
            self.delay_timer = self.delay_timer - 1;
        }
        if self.audio_timer > 0 {
            if self.audio_timer == 1 {
                beep = true;
            }
            self.audio_timer = self.audio_timer - 1;
        }
        beep
    }

    /// Copies a program image into memory starting at the program start
    /// address. The image must fit in the memory that lies past that
    /// address; the font region and all other machine state are untouched.
    pub fn load_program(&mut self, data: &[u8])
        requires
            old(self)@.wf(),
            data@.len() <= MEMORY_SIZE - PROG_START,
        ensures
            final(self)@ == (C8State { mem: final(self)@.mem, ..old(self)@ }),
            final(self)@.mem.len() == MEMORY_SIZE,
            forall|j: int| 0 <= j < data@.len()
                ==> final(self)@.mem[PROG_START + j] == data@[j],
            forall|j: int| 0 <= j < MEMORY_SIZE
                && !(PROG_START <= j < PROG_START + data@.len())
                ==> final(self)@.mem[j] == old(self)@.mem[j],
            final(self)@.wf(),
    {
        let mut k: usize = 0;
        let n = data.len();
        while k < n
            invariant
                old(self)@.wf(),
                n == data@.len(),
                n <= MEMORY_SIZE - PROG_START,
                k <= n,
                self@ == (C8State { mem: self@.mem, ..old(self)@ }),
                self@.mem.len() == MEMORY_SIZE,
                forall|j: int| 0 <= j < k ==> self@.mem[PROG_START + j] == data@[j],
                forall|j: int| 0 <= j < MEMORY_SIZE
                    && !(PROG_START <= j < PROG_START + k)
                    ==> self@.mem[j] == old(self)@.mem[j],
            decreases n - k,
        {
            self.memory[PROG_START + k] = data[k];
            k += 1;
        }
    }

    fn push(&mut self, val: u16)
        requires
            old(self)@.wf(),
            old(self)@.stack.len() < STACK_SIZE,
        ensures
            final(self)@ == (C8State { stack: old(self)@.stack.push(val), ..old(self)@ }),
            final(self)@.wf(),
    {
        self.stack.push(val);
    }

    fn pop(&mut self) -> (r: u16)
        requires
            old(self)@.wf(),
            old(self)@.stack.len() > 0,
        ensures
            r == old(self)@.stack.last(),
            final(self)@ == (C8State { stack: old(self)@.stack.drop_last(), ..old(self)@ }),
            final(self)@.wf(),
    {
        match self.stack.pop() {
            Some(v) => v,
            None => 0,
        }
    }

    fn fetch_opcode(&mut self) -> (op: u16)
        requires
            old(self)@.wf(),
            old(self)@.pc + 1 < MEMORY_SIZE,
        ensures
            op == fetched_op(old(self)@),
            final(self)@ == advanced(old(self)@),
            final(self)@.wf(),
    {
        let opcode: u16 = ((self.memory[self.prog_counter as usize] as u16) << 8) | (
        self.memory[self.prog_counter as usize + 1] as u16);
        self.prog_counter += 2;
        opcode
    }

    fn op_clear(&mut self)
        requires
            old(self)@.wf(),
        ensures
            final(self)@ == (C8State { disp: cleared_disp(), ..old(self)@ }),
            final(self)@.wf(),
    {
        let mut c: usize = 0;
        while c < DISPLAY_SIZE
            invariant
                old(self)@.wf(),
                c <= DISPLAY_SIZE,
                self@ == (C8State { disp: self@.disp, ..old(self)@ }),
                self@.disp.len() == DISPLAY_SIZE,
                forall|j: int| 0 <= j < c ==> self@.disp[j] == false,
            decreases DISPLAY_SIZE - c,
        {
            self.display_buf[c] = false;
            c += 1;
        }
        proof {
            assert(self@.disp =~= cleared_disp());
        }
    }

    fn op_wait_key(&mut self, x: usize)
        requires
            old(self)@.wf(),
            x < 16,
            old(self)@.pc >= 2,
        ensures
            final(self)@ == wait_key_state(old(self)@, x as int),
            final(self)@.wf(),
    {
        let mut k: usize = 0;
        while k < 16
            invariant
                old(self)@.wf(),
                x < 16,
                k <= 16,
                self@ == old(self)@,
                lowest_key(old(self)@.keys, 0) == lowest_key(old(self)@.keys, k as int),
            decreases 16 - k,
        {
            if self.key_state[k] {
                self.register[x] = k as u8;
                proof {
                    assert(lowest_key(old(self)@.keys, k as int) == Some(k as u8));
                }
                return ;
            }
            proof {
                assert(lowest_key(old(self)@.keys, k as int) == lowest_key(
                    old(self)@.keys,
                    k as int + 1,
                ));
            }
            k += 1;
        }
        proof {
            assert(lowest_key(old(self)@.keys, 16) is None);
        }
        self.prog_counter = self.prog_counter - 2;
    }

    fn op_store(&mut self, x: usize) -> (r: Result<(), Chip8Error>)
        requires
            old(self)@.wf(),
            x < 16,
        ensures
            final(self)@.wf(),
            old(self)@.i + x < MEMORY_SIZE ==> r is Ok && final(self)@ == (C8State {
                mem: stored_mem(old(self)@, x as int),
                ..old(self)@
            }),
            old(self)@.i + x >= MEMORY_SIZE ==> r == Err::<(), Chip8Error>(
                Chip8Error::AddressOutOfBounds,
            ) && final(self)@ == old(self)@,
    {
        if self.addr_register as usize + x >= MEMORY_SIZE {
            return Err(Chip8Error::AddressOutOfBounds);
        }
        let i0 = self.addr_register as usize;
        let mut k: usize = 0;
        while k <= x
            invariant
                old(self)@.wf(),
                x < 16,
                k <= x + 1,
                i0 == old(self)@.i,
                i0 + x < MEMORY_SIZE,
                self@ == (C8State { mem: self@.mem, ..old(self)@ }),
                self@.mem.len() == MEMORY_SIZE,
                forall|j: int|
                    0 <= j < MEMORY_SIZE && !(i0 <= j < i0 + k) ==> self@.mem[j] == old(
                        self,
                    )@.mem[j],
                forall|j: int| i0 <= j < i0 + k ==> self@.mem[j] == old(self)@.regs[j - i0],
            decreases x + 1 - k,
        {
            self.memory[i0 + k] = self.register[k];
            k += 1;
        }
        proof {
            assert(self@.mem =~= stored_mem(old(self)@, x as int));
        }
        Ok(())
    }

    fn op_load(&mut self, x: usize) -> (r: Result<(), Chip8Error>)
        requires
            old(self)@.wf(),
            x < 16,
        ensures
            final(self)@.wf(),
            old(self)@.i + x < MEMORY_SIZE ==> r is Ok && final(self)@ == (C8State {
                regs: loaded_regs(old(self)@, x as int),
                ..old(self)@
            }),
            old(self)@.i + x >= MEMORY_SIZE ==> r == Err::<(), Chip8Error>(
                Chip8Error::AddressOutOfBounds,
            ) && final(self)@ == old(self)@,
    {
        if self.addr_register as usize + x >= MEMORY_SIZE {
            return Err(Chip8Error::AddressOutOfBounds);
        }
        let i0 = self.addr_register as usize;
        let mut k: usize = 0;
        while k <= x
            invariant
                old(self)@.wf(),
                x < 16,
                k <= x + 1,
                i0 == old(self)@.i,
                i0 + x < MEMORY_SIZE,
                self@ == (C8State { regs: self@.regs, ..old(self)@ }),
                self@.regs.len() == 16,
                forall|j: int| k <= j < 16 ==> self@.regs[j] == old(self)@.regs[j],
                forall|j: int| 0 <= j < k ==> self@.regs[j] == old(self)@.mem[i0 + j],
            decreases x + 1 - k,
        {
            self.register[k] = self.memory[i0 + k];
            k += 1;
        }
        proof {
            assert(self@.regs =~= loaded_regs(old(self)@, x as int));
        }
        Ok(())
    }

    #[verifier::rlimit(60)]
    fn op_draw(&mut self, x: usize, y: usize, rows: u16) -> (r: Result<(), Chip8Error>)
        requires
            old(self)@.wf(),
            x < 16,
            y < 16,
            rows < 16,
        ensures
            final(self)@.wf(),
            old(self)@.i + rows <= MEMORY_SIZE ==> r is Ok && final(self)@ == draw_state(
                old(self)@,
                x as int,
                y as int,
                rows as int,
            ),
            old(self)@.i + rows > MEMORY_SIZE ==> r == Err::<(), Chip8Error>(
                Chip8Error::AddressOutOfBounds,
            ) && final(self)@ == old(self)@,
    {
        if self.addr_register as usize + rows as usize > MEMORY_SIZE {
            return Err(Chip8Error::AddressOutOfBounds);
        }
        let x_cord = self.register[x];
        let y_cord = self.register[y];
        let i0 = self.addr_register as usize;
        let ghost disp0 = self@.disp;
        let ghost mem0 = self@.mem;
        let ghost vxi = x_cord as int;
        let ghost vyi = y_cord as int;
        let mut collision = false;
        let mut del_y: usize = 0;
        proof {
            lemma_hit_empty(disp0, mem0, i0 as int, vxi, vyi, 0);
        }
        while del_y < rows as usize
            invariant
                old(self)@.wf(),
                del_y <= rows < 16,
                i0 == old(self)@.i,
                i0 + rows <= MEMORY_SIZE,
                disp0 == old(self)@.disp,
                mem0 == old(self)@.mem,
                x < 16,
                y < 16,
                vxi == old(self)@.regs[x as int],
                vyi == old(self)@.regs[y as int],
                0 <= vxi < 256,
                0 <= vyi < 256,
                x_cord as int == vxi,
                y_cord as int == vyi,
                self@ == (C8State { disp: self@.disp, ..old(self)@ }),
                self@.disp.len() == DISPLAY_SIZE,
                forall|c: int|
                    0 <= c < DISPLAY_SIZE ==> self@.disp[c] == (if hit_upto(
                        mem0,
                        i0 as int,
                        vxi,
                        vyi,
                        del_y as int,
                        0,
                        c,
                    ) {
                        !disp0[c]
                    } else {
                        disp0[c]
                    }),
                collision == collision_upto(disp0, mem0, i0 as int, vxi, vyi, del_y as int, 0),
            decreases rows - del_y,
        {
            let pixel_data = self.memory[i0 + del_y];
            let mut del_x: usize = 0;
            while del_x < 8
                invariant
                    old(self)@.wf(),
                    del_y < rows < 16,
                    del_x <= 8,
                    i0 == old(self)@.i,
                    i0 + rows <= MEMORY_SIZE,
                    disp0 == old(self)@.disp,
                    mem0 == old(self)@.mem,
                    x < 16,
                    y < 16,
                    vxi == old(self)@.regs[x as int],
                    vyi == old(self)@.regs[y as int],
                    0 <= vxi < 256,
                    0 <= vyi < 256,
                    x_cord as int == vxi,
                    y_cord as int == vyi,
                    pixel_data == mem0[i0 + del_y],
                    self@ == (C8State { disp: self@.disp, ..old(self)@ }),
                    self@.disp.len() == DISPLAY_SIZE,
                    forall|c: int|
                        0 <= c < DISPLAY_SIZE ==> self@.disp[c] == (if hit_upto(
                            mem0,
                            i0 as int,
                            vxi,
                            vyi,
                            del_y as int,
                            del_x as int,
                            c,
                        ) {
                            !disp0[c]
                        } else {
                            disp0[c]
                        }),
                    collision == collision_upto(
                        disp0,
                        mem0,
                        i0 as int,
                        vxi,
                        vyi,
                        del_y as int,
                        del_x as int,
                    ),
                decreases 8 - del_x,
            {
                let ghost dyi = del_y as int;
                let ghost dxi = del_x as int;
                let sh: u8 = (7 - del_x) as u8;
                if (pixel_data >> sh) & 1 == 1 {
                    let tx = (x_cord as usize + del_x) % 64;
                    let ty = (y_cord as usize + del_y) % 32;
                    let idx = ty * 64 + tx;
                    proof {
                        assert(sprite_bit(mem0, i0 as int, dyi, dxi));
                        assert(idx == target_cell(vxi, vyi, dyi, dxi));
                        assert(idx < DISPLAY_SIZE);
                        assert(!hit_upto(mem0, i0 as int, vxi, vyi, dyi, dxi, idx as int)) by {
                            if hit_upto(mem0, i0 as int, vxi, vyi, dyi, dxi, idx as int) {
                                let (a, b) = choose|a: int, b: int|
                                    0 <= a && 0 <= b < 8 && pair_before(a, b, dyi, dxi)
                                        && #[trigger] sprite_bit(mem0, i0 as int, a, b)
                                        && target_cell(vxi, vyi, a, b) == idx as int;
                                lemma_target_inj(vxi, vyi, a, b, dyi, dxi);
                            }
                        }
                    }
                    let cur = self.display_buf[idx];
                    collision = collision || cur;
                    self.display_buf[idx] = !cur;
                    proof {
                        assert(cur == disp0[idx as int]);
                        assert forall|c: int| 0 <= c < DISPLAY_SIZE implies self@.disp[c] == (
                        if hit_upto(mem0, i0 as int, vxi, vyi, dyi, dxi + 1, c) {
                            !disp0[c]
                        } else {
                            disp0[c]
                        }) by {
                            lemma_hit_step(mem0, i0 as int, vxi, vyi, dyi, dxi, c);
                        }
                        lemma_coll_step(disp0, mem0, i0 as int, vxi, vyi, dyi, dxi);
                    }
                } else {
                    proof {
                        assert(!sprite_bit(mem0, i0 as int, dyi, dxi));
                        assert forall|c: int| 0 <= c < DISPLAY_SIZE implies self@.disp[c] == (
                        if hit_upto(mem0, i0 as int, vxi, vyi, dyi, dxi + 1, c) {
                            !disp0[c]
                        } else {
                            disp0[c]
                        }) by {
                            lemma_hit_step(mem0, i0 as int, vxi, vyi, dyi, dxi, c);
                        }
                        lemma_coll_step(disp0, mem0, i0 as int, vxi, vyi, dyi, dxi);
                    }
                }
                del_x += 1;
            }
            proof {
                assert forall|c: int| 0 <= c < DISPLAY_SIZE implies hit_upto(
                    mem0,
                    i0 as int,
                    vxi,
                    vyi,
                    del_y as int,
                    8,
                    c,
                ) == hit_upto(mem0, i0 as int, vxi, vyi, del_y as int + 1, 0, c) by {
                    lemma_row_step(mem0, i0 as int, vxi, vyi, del_y as int, c);
                }
                lemma_coll_row_step(disp0, mem0, i0 as int, vxi, vyi, del_y as int);
            }
            del_y += 1;
        }
        self.register[0xF] = if collision {
            1
        } else {
            0
        };
        proof {
            assert(self@.disp =~= draw_state(old(self)@, x as int, y as int, rows as int).disp);
            assert(self@.regs =~= draw_state(old(self)@, x as int, y as int, rows as int).regs);
        }
        Ok(())
    }

    /// Executes one already-fetched instruction on a machine whose program
    /// counter has been advanced past it. On `Ok` the new state is the one
    /// [`step_spec`] gives for some byte of the random source; on `Err` the
    /// state is unchanged.
    #[verifier::rlimit(60)]
    fn run_opcode(&mut self, opcode: u16) -> (r: Result<(), Chip8Error>)
        requires
            old(self)@.wf(),
            2 <= old(self)@.pc <= 4096,
        ensures
            final(self)@.wf(),
            match r {
                Ok(()) => exists|rb: u8|
                    step_spec(old(self)@, opcode, rb) == Ok::<C8State, Chip8Error>(final(self)@),
                Err(e) => final(self)@ == old(self)@ && step_spec(old(self)@, opcode, 0) == Err::<
                    C8State,
                    Chip8Error,
                >(e),
            },
    {
        proof {
            lemma_decode_bounds(opcode);
        }
        let hi: u16 = (opcode >> 12) & 0xF;
        let x: usize = ((opcode >> 8) & 0xF) as usize;
        let y: usize = ((opcode >> 4) & 0xF) as usize;
        let n: u16 = opcode & 0xF;
        let nn: u8 = (opcode & 0xFF) as u8;
        let nnn: u16 = opcode & 0xFFF;
        if hi == 0x0 {
            if opcode == 0x0000 {
                proof {
                    assert(step_spec(old(self)@, opcode, 0) == Ok::<C8State, Chip8Error>(self@));
                }
                Ok(())
            } else if opcode == 0x00E0 {
                self.op_clear();
                proof {
                    assert(step_spec(old(self)@, opcode, 0) == Ok::<C8State, Chip8Error>(self@));
                }
                Ok(())
            } else if opcode == 0x00EE {
                if self.stack.len() == 0 {
                    return Err(Chip8Error::StackUnderflow);
                }
                let addr = self.pop();
                self.prog_counter = addr;
                proof {
                    assert(step_spec(old(self)@, opcode, 0) == Ok::<C8State, Chip8Error>(self@));
                }
                Ok(())
            } else {
                Err(Chip8Error::UnknownOpcode(opcode))
            }
        } else if hi == 0x1 {
            self.prog_counter = nnn;
            proof {
                assert(step_spec(old(self)@, opcode, 0) == Ok::<C8State, Chip8Error>(self@));
            }
            Ok(())
        } else if hi == 0x2 {
            if self.stack.len() >= STACK_SIZE {
                return Err(Chip8Error::StackOverflow);
            }
            let pc_now = self.prog_counter;
            self.push(pc_now);
            self.prog_counter = nnn;
            proof {
                assert(step_spec(old(self)@, opcode, 0) == Ok::<C8State, Chip8Error>(self@));
            }
            Ok(())
        } else if hi == 0x3 {
            if self.register[x] == nn {
                self.prog_counter = self.prog_counter + 2;
            }
            proof {
                assert(step_spec(old(self)@, opcode, 0) == Ok::<C8State, Chip8Error>(self@));
            }
            Ok(())
        } else if hi == 0x4 {
            if self.register[x] != nn {
                self.prog_counter = self.prog_counter + 2;
            }
            proof {
                assert(step_spec(old(self)@, opcode, 0) == Ok::<C8State, Chip8Error>(self@));
            }
            Ok(())
        } else if hi == 0x5 {
            if self.register[x] == self.register[y] {
                self.prog_counter = self.prog_counter + 2;
            }
            proof {
                assert(step_spec(old(self)@, opcode, 0) == Ok::<C8State, Chip8Error>(self@));
            }
            Ok(())
        } else if hi == 0x6 {
            self.register[x] = nn;
            proof {
                assert(step_spec(old(self)@, opcode, 0) == Ok::<C8State, Chip8Error>(self@));
            }
            Ok(())
        } else if hi == 0x7 {
            let sum: u16 = self.register[x] as u16 + nn as u16;
            self.register[x] = (sum % 256) as u8;
            proof {
                assert(step_spec(old(self)@, opcode, 0) == Ok::<C8State, Chip8Error>(self@));
            }
            Ok(())
        } else if hi == 0x8 {
            let vx = self.register[x];
            let vy = self.register[y];
            if n == 0x0 {
                self.register[x] = vy;
            } else if n == 0x1 {
                self.register[x] = vx | vy;
            } else if n == 0x2 {
                self.register[x] = vx & vy;
            } else if n == 0x3 {
                self.register[x] = vx ^ vy;
            } else if n == 0x4 {
                let sum: u16 = vx as u16 + vy as u16;
                let carry: u8 = if sum > 255 {
                    1
                } else {
                    0
                };
                self.register[x] = (sum % 256) as u8;
                self.register[0xF] = carry;
            } else if n == 0x5 {
                let borrow: u8 = if vx >= vy {
                    1
                } else {
                    0
                };
                let diff: u16 = vx as u16 + 256 - vy as u16;
                self.register[x] = (diff % 256) as u8;
                self.register[0xF] = borrow;
            } else if n == 0x6 {
                self.register[x] = vx / 2;
                self.register[0xF] = vx % 2;
            } else if n == 0x7 {
                let borrow: u8 = if vy >= vx {
                    1
                } else {
                    0
                };
                let diff: u16 = vy as u16 + 256 - vx as u16;
                self.register[x] = (diff % 256) as u8;
                self.register[0xF] = borrow;
            } else if n == 0xE {
                let dbl: u16 = vx as u16 * 2;
                self.register[x] = (dbl % 256) as u8;
                self.register[0xF] = vx / 128;
            } else {
                return Err(Chip8Error::UnknownOpcode(opcode));
            }
            proof {
                assert(step_spec(old(self)@, opcode, 0) == Ok::<C8State, Chip8Error>(self@));
            }
            Ok(())
        } else if hi == 0x9 {
            if n == 0x0 {
                if self.register[x] != self.register[y] {
                    self.prog_counter = self.prog_counter + 2;
                }
                proof {
                    assert(step_spec(old(self)@, opcode, 0) == Ok::<C8State, Chip8Error>(self@));
                }
                Ok(())
            } else {
                Err(Chip8Error::UnknownOpcode(opcode))
            }
        } else if hi == 0xA {
            self.addr_register = nnn;
            proof {
                assert(step_spec(old(self)@, opcode, 0) == Ok::<C8State, Chip8Error>(self@));
            }
            Ok(())
        } else if hi == 0xB {
            self.prog_counter = self.register[0] as u16 + nnn;
            proof {
                assert(step_spec(old(self)@, opcode, 0) == Ok::<C8State, Chip8Error>(self@));
            }
            Ok(())
        } else if hi == 0xC {
            let rb = random_byte();
            self.register[x] = rb & nn;
            proof {
                assert(step_spec(old(self)@, opcode, rb) == Ok::<C8State, Chip8Error>(self@));
            }
            Ok(())
        } else if hi == 0xD {
            let res = self.op_draw(x, y, n);
            proof {
                if old(self)@.i + n <= MEMORY_SIZE {
                    assert(step_spec(old(self)@, opcode, 0) == Ok::<C8State, Chip8Error>(self@));
                } else {
                    assert(step_spec(old(self)@, opcode, 0) == Err::<C8State, Chip8Error>(
                        Chip8Error::AddressOutOfBounds,
                    ));
                }
            }
            res
        } else if hi == 0xE {
            if nn == 0x9E {
                let vx = self.register[x];
                if vx >= 16 {
                    return Err(Chip8Error::KeyOutOfRange);
                }
                if self.key_state[vx as usize] {
                    self.prog_counter = self.prog_counter + 2;
                }
                proof {
                    assert(step_spec(old(self)@, opcode, 0) == Ok::<C8State, Chip8Error>(self@));
                }
                Ok(())
            } else if nn == 0xA1 {
                let vx = self.register[x];
                if vx >= 16 {
                    return Err(Chip8Error::KeyOutOfRange);
                }
                if !self.key_state[vx as usize] {
                    self.prog_counter = self.prog_counter + 2;
                }
                proof {
                    assert(step_spec(old(self)@, opcode, 0) == Ok::<C8State, Chip8Error>(self@));
                }
                Ok(())
            } else {
                Err(Chip8Error::UnknownOpcode(opcode))
            }
        } else {
            if nn == 0x07 {
                self.register[x] = self.delay_timer;
                proof {
                    assert(step_spec(old(self)@, opcode, 0) == Ok::<C8State, Chip8Error>(self@));
                }
                Ok(())
            } else if nn == 0x0A {
                self.op_wait_key(x);
                proof {
                    assert(step_spec(old(self)@, opcode, 0) == Ok::<C8State, Chip8Error>(self@));
                }
                Ok(())
            } else if nn == 0x15 {
                self.delay_timer = self.register[x];
                proof {
                    assert(step_spec(old(self)@, opcode, 0) == Ok::<C8State, Chip8Error>(self@));
                }
                Ok(())
            } else if nn == 0x18 {
                self.audio_timer = self.register[x];
                proof {
                    assert(step_spec(old(self)@, opcode, 0) == Ok::<C8State, Chip8Error>(self@));
                }
                Ok(())
            } else if nn == 0x1E {
                self.addr_register = (self.addr_register + self.register[x] as u16) % 4096;
                proof {
                    assert(step_spec(old(self)@, opcode, 0) == Ok::<C8State, Chip8Error>(self@));
                }
                Ok(())
            } else if nn == 0x29 {
                self.addr_register = self.register[x] as u16 * 5;
                proof {
                    assert(step_spec(old(self)@, opcode, 0) == Ok::<C8State, Chip8Error>(self@));
                }
                Ok(())
            } else if nn == 0x33 {
                if self.addr_register as usize + 2 >= MEMORY_SIZE {
                    return Err(Chip8Error::AddressOutOfBounds);
                }
                let vx = self.register[x];
                let i0 = self.addr_register as usize;
                self.memory[i0] = vx / 100;
                self.memory[i0 + 1] = (vx / 10) % 10;
                self.memory[i0 + 2] = vx % 10;
                proof {
                    assert(step_spec(old(self)@, opcode, 0) == Ok::<C8State, Chip8Error>(self@));
                }
                Ok(())
            } else if nn == 0x55 {
                let res = self.op_store(x);
                proof {
                    if old(self)@.i + x < MEMORY_SIZE {
                        assert(step_spec(old(self)@, opcode, 0) == Ok::<C8State, Chip8Error>(
                            self@,
                        ));
                    } else {
                        assert(step_spec(old(self)@, opcode, 0) == Err::<C8State, Chip8Error>(
                            Chip8Error::AddressOutOfBounds,
                        ));
                    }
                }
                res
            } else if nn == 0x65 {
                let res = self.op_load(x);
                proof {
                    if old(self)@.i + x < MEMORY_SIZE {
                        assert(step_spec(old(self)@, opcode, 0) == Ok::<C8State, Chip8Error>(
                            self@,
                        ));
                    } else {
                        assert(step_spec(old(self)@, opcode, 0) == Err::<C8State, Chip8Error>(
                            Chip8Error::AddressOutOfBounds,
                        ));
                    }
                }
                res
            } else {
                Err(Chip8Error::UnknownOpcode(opcode))
            }
        }
    }

    /// One fetch-decode-execute cycle. On `Ok` the machine took the step
    /// [`iter_spec`] describes for some byte of the random source. On `Err`
    /// the machine is left exactly as it was, so the host can inspect the
    /// state that could not continue.
    pub fn do_iteration(&mut self) -> (r: Result<(), Chip8Error>)
        requires
            old(self)@.wf(),
        ensures
            final(self)@.wf(),
            match r {
                Ok(()) => exists|rb: u8|
                    iter_spec(old(self)@, rb) == Ok::<C8State, Chip8Error>(final(self)@),
                Err(e) => final(self)@ == old(self)@ && iter_spec(old(self)@, 0) == Err::<
                    C8State,
                    Chip8Error,
                >(e),
            },
    {
        if self.prog_counter as usize + 1 >= MEMORY_SIZE {
            return Err(Chip8Error::ProgramCounterOutOfBounds);
        }
        let pc0 = self.prog_counter;
        let opcode = self.fetch_opcode();
        let res = self.run_opcode(opcode);
        match res {
            Ok(()) => {
                proof {
                    let rb = choose|rb: u8|
                        step_spec(advanced(old(self)@), opcode, rb) == Ok::<C8State, Chip8Error>(
                            self@,
                        );
                    assert(iter_spec(old(self)@, rb) == Ok::<C8State, Chip8Error>(self@));
                }
                Ok(())
            },
            Err(e) => {
                self.prog_counter = pc0;
                proof {
                    assert(self@ == old(self)@);
                }
                Err(e)
            },
        }
    }
}

} // verus!
