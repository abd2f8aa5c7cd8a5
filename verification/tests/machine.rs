use chitta::chip8::Chip8;
use chitta::chip8::Chip8Error;

fn machine_with(program: &[u8]) -> Chip8 {
    let mut c = Chip8::new();
    c.load_program(program);
    c
}

fn step_ok(c: &mut Chip8) {
    let r = c.do_iteration();
    assert!(r.is_ok());
}

fn pixel(c: &Chip8, x: usize, y: usize) -> bool {
    c.get_display()[y * 64 + x]
}

#[test]
fn new_machine_holds_font_and_nothing_else() {
    let c = Chip8::new();
    assert_eq!(&c.memory[0..5], &[0xF0, 0x90, 0x90, 0x90, 0xF0]);
    assert_eq!(&c.memory[5..10], &[0x20, 0x60, 0x20, 0x20, 0x70]);
    assert_eq!(&c.memory[40..45], &[0xF0, 0x90, 0xF0, 0x90, 0xF0]);
    assert_eq!(&c.memory[75..80], &[0xF0, 0x80, 0xF0, 0x80, 0x80]);
    for j in 80..4096 {
        assert_eq!(c.memory[j], 0);
    }
    assert_eq!(c.prog_counter, 0x200);
    assert_eq!(c.addr_register, 0);
    assert!(c.stack.is_empty());
    assert!(c.register.iter().all(|&v| v == 0));
    assert!(c.get_display().iter().all(|&p| !p));
    assert!(c.get_keys().iter().all(|&k| !k));
}

#[test]
fn load_program_copies_image_and_keeps_font() {
    let mut c = Chip8::new();
    c.load_program(&[1, 2, 3]);
    assert_eq!(c.memory[0x200], 1);
    assert_eq!(c.memory[0x201], 2);
    assert_eq!(c.memory[0x202], 3);
    assert_eq!(c.memory[0x203], 0);
    assert_eq!(&c.memory[0..5], &[0xF0, 0x90, 0x90, 0x90, 0xF0]);
}

#[test]
fn set_key_shows_up_in_get_keys() {
    let mut c = Chip8::new();
    c.set_key(5, true);
    let keys = c.get_keys();
    assert!(keys[5]);
    assert!(!keys[4]);
    c.set_key(5, false);
    assert!(!c.get_keys()[5]);
}

#[test]
fn clear_screen_darkens_every_pixel() {
    let mut c = machine_with(&[0x00, 0xE0]);
    c.display_buf[100] = true;
    c.display_buf[2047] = true;
    step_ok(&mut c);
    assert!(c.get_display().iter().all(|&p| !p));
}

#[test]
fn draw_sets_pixels_and_reports_no_collision_on_dark_screen() {
    let mut c = machine_with(&[0xD0, 0x11]);
    c.register[0] = 4;
    c.register[1] = 2;
    c.addr_register = 0x300;
    c.memory[0x300] = 0b1010_0001;
    step_ok(&mut c);
    assert!(pixel(&c, 4, 2));
    assert!(!pixel(&c, 5, 2));
    assert!(pixel(&c, 6, 2));
    assert!(pixel(&c, 11, 2));
    assert_eq!(c.register[0xF], 0);
}

#[test]
fn draw_twice_restores_screen_and_reports_collision() {
    let mut c = machine_with(&[0xD0, 0x12, 0xD0, 0x12]);
    c.register[0] = 5;
    c.register[1] = 7;
    c.addr_register = 0x300;
    c.memory[0x300] = 0xFF;
    c.memory[0x301] = 0x81;
    step_ok(&mut c);
    assert!(pixel(&c, 5, 7));
    assert!(pixel(&c, 12, 8));
    assert!(!pixel(&c, 6, 8));
    assert_eq!(c.register[0xF], 0);
    step_ok(&mut c);
    assert!(c.get_display().iter().all(|&p| !p));
    assert_eq!(c.register[0xF], 1);
}

#[test]
fn draw_wraps_around_the_right_edge() {
    let mut c = machine_with(&[0xD0, 0x11]);
    c.register[0] = 63;
    c.register[1] = 0;
    c.addr_register = 0x300;
    c.memory[0x300] = 0xFF;
    step_ok(&mut c);
    assert!(pixel(&c, 63, 0));
    for x in 0..7 {
        assert!(pixel(&c, x, 0));
    }
    assert!(!pixel(&c, 7, 0));
    for y in 1..32 {
        for x in 0..64 {
            assert!(!pixel(&c, x, y));
        }
    }
}

#[test]
fn draw_wraps_around_the_bottom_edge() {
    let mut c = machine_with(&[0xD0, 0x12]);
    c.register[0] = 0;
    c.register[1] = 31;
    c.addr_register = 0x300;
    c.memory[0x300] = 0x80;
    c.memory[0x301] = 0x80;
    step_ok(&mut c);
    assert!(pixel(&c, 0, 31));
    assert!(pixel(&c, 0, 0));
}

#[test]
fn timer_tick_signals_beep_exactly_when_sound_timer_hits_zero() {
    let mut c = Chip8::new();
    c.audio_timer = 2;
    c.delay_timer = 1;
    assert!(!c.timer_advance());
    assert_eq!(c.audio_timer, 1);
    assert_eq!(c.delay_timer, 0);
    assert!(c.timer_advance());
    assert_eq!(c.audio_timer, 0);
    assert!(!c.timer_advance());
    assert_eq!(c.audio_timer, 0);
    assert_eq!(c.delay_timer, 0);
}

#[test]
fn unknown_opcode_is_reported_and_leaves_state_alone() {
    let mut c = machine_with(&[0x80, 0x08]);
    let r = c.do_iteration();
    assert_eq!(r, Err(Chip8Error::UnknownOpcode(0x8008)));
    assert_eq!(c.prog_counter, 0x200);
}

#[test]
fn unknown_misc_opcode_is_reported() {
    let mut c = machine_with(&[0xF0, 0xFF]);
    assert_eq!(c.do_iteration(), Err(Chip8Error::UnknownOpcode(0xF0FF)));
}

#[test]
fn return_with_empty_stack_underflows() {
    let mut c = machine_with(&[0x00, 0xEE]);
    assert_eq!(c.do_iteration(), Err(Chip8Error::StackUnderflow));
    assert_eq!(c.prog_counter, 0x200);
}

#[test]
fn seventeenth_nested_call_overflows_the_stack() {
    let mut c = machine_with(&[0x22, 0x00]);
    for _ in 0..16 {
        step_ok(&mut c);
    }
    assert_eq!(c.stack.len(), 16);
    assert_eq!(c.do_iteration(), Err(Chip8Error::StackOverflow));
    assert_eq!(c.stack.len(), 16);
    assert_eq!(c.prog_counter, 0x200);
}

#[test]
fn fetch_at_end_of_memory_is_out_of_bounds() {
    let mut c = machine_with(&[0x1F, 0xFF]);
    step_ok(&mut c);
    assert_eq!(c.prog_counter, 0xFFF);
    assert_eq!(c.do_iteration(), Err(Chip8Error::ProgramCounterOutOfBounds));
    assert_eq!(c.prog_counter, 0xFFF);
}

#[test]
fn bcd_past_end_of_memory_is_out_of_bounds() {
    let mut c = machine_with(&[0xF1, 0x33]);
    c.addr_register = 0xFFF;
    assert_eq!(c.do_iteration(), Err(Chip8Error::AddressOutOfBounds));
    assert_eq!(c.prog_counter, 0x200);
}

#[test]
fn draw_past_end_of_memory_is_out_of_bounds() {
    let mut c = machine_with(&[0xD0, 0x15]);
    c.addr_register = 0xFFE;
    assert_eq!(c.do_iteration(), Err(Chip8Error::AddressOutOfBounds));
}

#[test]
fn store_past_end_of_memory_is_out_of_bounds() {
    let mut c = machine_with(&[0xF5, 0x55]);
    c.addr_register = 0xFFC;
    assert_eq!(c.do_iteration(), Err(Chip8Error::AddressOutOfBounds));
}

#[test]
fn key_skip_with_bad_key_index_is_rejected() {
    let mut c = machine_with(&[0xE0, 0x9E]);
    c.register[0] = 16;
    assert_eq!(c.do_iteration(), Err(Chip8Error::KeyOutOfRange));
}

#[test]
fn glyph_drawing_scenario_end_to_end() {
    let mut c = machine_with(&[0x00, 0xE0, 0x60, 0x08, 0xF0, 0x29, 0xD0, 0x05]);
    step_ok(&mut c);
    step_ok(&mut c);
    assert_eq!(c.register[0], 8);
    step_ok(&mut c);
    assert_eq!(c.addr_register, 40);
    step_ok(&mut c);
    let glyph = [0xF0u8, 0x90, 0xF0, 0x90, 0xF0];
    for (dy, row) in glyph.iter().enumerate() {
        for dx in 0..8 {
            let expected = row & (0x80 >> dx) != 0;
            assert_eq!(pixel(&c, 8 + dx, 8 + dy), expected);
        }
    }
    for y in 0..32 {
        for x in 0..64 {
            let inside = (8..16).contains(&x) && (8..13).contains(&y);
            if !inside {
                assert!(!pixel(&c, x, y));
            }
        }
    }
    assert_eq!(c.register[0xF], 0);
}
