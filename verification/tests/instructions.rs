use chitta::chip8::Chip8;

fn machine_with(program: &[u8]) -> Chip8 {
    let mut c = Chip8::new();
    c.load_program(program);
    c
}

fn step_ok(c: &mut Chip8) {
    let r = c.do_iteration();
    assert!(r.is_ok());
}

#[test]
fn load_immediate_sets_register() {
    let mut c = machine_with(&[0x63, 0x20]);
    step_ok(&mut c);
    assert_eq!(c.register[3], 0x20);
    assert_eq!(c.prog_counter, 0x202);
}

#[test]
fn add_immediate_wraps_without_flag() {
    let mut c = machine_with(&[0x74, 0x02]);
    c.register[4] = 0xFF;
    step_ok(&mut c);
    assert_eq!(c.register[4], 0x01);
    assert_eq!(c.register[0xF], 0x00);
}

#[test]
fn add_registers_overflow_sets_carry() {
    let mut c = machine_with(&[0x81, 0x24]);
    c.register[1] = 0xFF;
    c.register[2] = 0x01;
    step_ok(&mut c);
    assert_eq!(c.register[1], 0x00);
    assert_eq!(c.register[0xF], 1);
}

#[test]
fn add_registers_no_overflow_clears_carry() {
    let mut c = machine_with(&[0x81, 0x24]);
    c.register[1] = 0x01;
    c.register[2] = 0x01;
    c.register[0xF] = 1;
    step_ok(&mut c);
    assert_eq!(c.register[1], 0x02);
    assert_eq!(c.register[0xF], 0);
}

#[test]
fn sub_registers_borrow_clears_flag() {
    let mut c = machine_with(&[0x81, 0x25]);
    c.register[1] = 0x01;
    c.register[2] = 0x02;
    step_ok(&mut c);
    assert_eq!(c.register[1], 0xFF);
    assert_eq!(c.register[0xF], 0);
}

#[test]
fn sub_registers_no_borrow_sets_flag() {
    let mut c = machine_with(&[0x81, 0x25]);
    c.register[1] = 0x02;
    c.register[2] = 0x01;
    step_ok(&mut c);
    assert_eq!(c.register[1], 0x01);
    assert_eq!(c.register[0xF], 1);
}

#[test]
fn sub_reversed_no_borrow_sets_flag() {
    let mut c = machine_with(&[0x81, 0x27]);
    c.register[1] = 0x01;
    c.register[2] = 0x03;
    step_ok(&mut c);
    assert_eq!(c.register[1], 0x02);
    assert_eq!(c.register[0xF], 1);
}

#[test]
fn shift_right_keeps_low_bit_in_flag() {
    let mut c = machine_with(&[0x81, 0x06]);
    c.register[1] = 0b1001_0011;
    step_ok(&mut c);
    assert_eq!(c.register[1], 0b0100_1001);
    assert_eq!(c.register[0xF], 1);
}

#[test]
fn shift_left_keeps_high_bit_in_flag() {
    let mut c = machine_with(&[0x81, 0x0E]);
    c.register[1] = 0b1001_0011;
    step_ok(&mut c);
    assert_eq!(c.register[1], 0b0010_0110);
    assert_eq!(c.register[0xF], 1);
}

#[test]
fn bitwise_ops_on_registers() {
    let mut c = machine_with(&[0x81, 0x21, 0x81, 0x32, 0x81, 0x43]);
    c.register[1] = 0b1010_0000;
    c.register[2] = 0b0110_0000;
    step_ok(&mut c);
    assert_eq!(c.register[1], 0b1110_0000);
    c.register[3] = 0b0110_0000;
    step_ok(&mut c);
    assert_eq!(c.register[1], 0b0110_0000);
    c.register[4] = 0b0011_0000;
    step_ok(&mut c);
    assert_eq!(c.register[1], 0b0101_0000);
}

#[test]
fn copy_register() {
    let mut c = machine_with(&[0x85, 0x60]);
    c.register[6] = 0x44;
    step_ok(&mut c);
    assert_eq!(c.register[5], 0x44);
}

#[test]
fn skip_if_equal_immediate() {
    let mut c = machine_with(&[0x33, 0x11]);
    c.register[3] = 0x11;
    step_ok(&mut c);
    assert_eq!(c.prog_counter, 0x204);
    let mut d = machine_with(&[0x33, 0x11]);
    d.register[3] = 0x12;
    step_ok(&mut d);
    assert_eq!(d.prog_counter, 0x202);
}

#[test]
fn skip_if_not_equal_immediate() {
    let mut c = machine_with(&[0x43, 0x11]);
    c.register[3] = 0x12;
    step_ok(&mut c);
    assert_eq!(c.prog_counter, 0x204);
}

#[test]
fn skip_on_register_compare() {
    let mut c = machine_with(&[0x51, 0x20]);
    c.register[1] = 7;
    c.register[2] = 7;
    step_ok(&mut c);
    assert_eq!(c.prog_counter, 0x204);
    let mut d = machine_with(&[0x91, 0x20]);
    d.register[1] = 7;
    d.register[2] = 8;
    step_ok(&mut d);
    assert_eq!(d.prog_counter, 0x204);
}

#[test]
fn jump_sets_program_counter() {
    let mut c = machine_with(&[0x13, 0x45]);
    step_ok(&mut c);
    assert_eq!(c.prog_counter, 0x345);
}

#[test]
fn jump_with_offset_adds_v0() {
    let mut c = machine_with(&[0xB3, 0x00]);
    c.register[0] = 0x21;
    step_ok(&mut c);
    assert_eq!(c.prog_counter, 0x321);
}

#[test]
fn call_then_return_restores_program_counter() {
    let mut c = machine_with(&[0x22, 0x06, 0x00, 0x00, 0x00, 0x00, 0x00, 0xEE]);
    step_ok(&mut c);
    assert_eq!(c.prog_counter, 0x206);
    assert_eq!(c.stack, vec![0x202]);
    step_ok(&mut c);
    assert_eq!(c.prog_counter, 0x202);
    assert!(c.stack.is_empty());
}

#[test]
fn set_address_register() {
    let mut c = machine_with(&[0xA7, 0x89]);
    step_ok(&mut c);
    assert_eq!(c.addr_register, 0x789);
}

#[test]
fn add_to_address_register_wraps() {
    let mut c = machine_with(&[0xF0, 0x1E]);
    c.addr_register = 0xFFF;
    c.register[0] = 2;
    step_ok(&mut c);
    assert_eq!(c.addr_register, 1);
}

#[test]
fn font_address_lookup() {
    let mut c = machine_with(&[0xF3, 0x29]);
    c.register[3] = 0xA;
    step_ok(&mut c);
    assert_eq!(c.addr_register, 50);
}

#[test]
fn random_with_zero_mask_is_zero() {
    let mut c = machine_with(&[0xC3, 0x00]);
    c.register[3] = 0x77;
    step_ok(&mut c);
    assert_eq!(c.register[3], 0);
}

#[test]
fn random_is_masked() {
    let mut c = machine_with(&[0xC4, 0x0F]);
    step_ok(&mut c);
    assert_eq!(c.register[4] & 0xF0, 0);
}

#[test]
fn bcd_writes_decimal_digits() {
    let mut c = machine_with(&[0xF5, 0x33]);
    c.register[5] = 0xFF;
    c.addr_register = 0x400;
    step_ok(&mut c);
    assert_eq!(c.memory[0x400], 2);
    assert_eq!(c.memory[0x401], 5);
    assert_eq!(c.memory[0x402], 5);
}

#[test]
fn store_and_load_registers_round_trip() {
    let mut c = machine_with(&[0xF3, 0x55, 0x63, 0x00, 0x62, 0x00, 0xF3, 0x65]);
    c.register[0] = 10;
    c.register[1] = 20;
    c.register[2] = 30;
    c.register[3] = 40;
    c.register[4] = 50;
    c.addr_register = 0x500;
    step_ok(&mut c);
    assert_eq!(c.memory[0x500], 10);
    assert_eq!(c.memory[0x501], 20);
    assert_eq!(c.memory[0x502], 30);
    assert_eq!(c.memory[0x503], 40);
    assert_eq!(c.memory[0x504], 0);
    step_ok(&mut c);
    step_ok(&mut c);
    assert_eq!(c.register[3], 0);
    assert_eq!(c.register[2], 0);
    step_ok(&mut c);
    assert_eq!(c.register[0], 10);
    assert_eq!(c.register[1], 20);
    assert_eq!(c.register[2], 30);
    assert_eq!(c.register[3], 40);
    assert_eq!(c.register[4], 50);
}

#[test]
fn delay_timer_read_and_write() {
    let mut c = machine_with(&[0x61, 0x15, 0xF1, 0x15, 0xF2, 0x07]);
    step_ok(&mut c);
    step_ok(&mut c);
    assert_eq!(c.delay_timer, 0x15);
    step_ok(&mut c);
    assert_eq!(c.register[2], 0x15);
}

#[test]
fn sound_timer_write() {
    let mut c = machine_with(&[0xF1, 0x18]);
    c.register[1] = 9;
    step_ok(&mut c);
    assert_eq!(c.audio_timer, 9);
}

#[test]
fn skip_if_key_pressed() {
    let mut c = machine_with(&[0xE3, 0x9E]);
    c.register[3] = 0xB;
    c.set_key(0xB, true);
    step_ok(&mut c);
    assert_eq!(c.prog_counter, 0x204);
    let mut d = machine_with(&[0xE3, 0x9E]);
    d.register[3] = 0xB;
    step_ok(&mut d);
    assert_eq!(d.prog_counter, 0x202);
}

#[test]
fn skip_if_key_not_pressed() {
    let mut c = machine_with(&[0xE3, 0xA1]);
    c.register[3] = 0xB;
    step_ok(&mut c);
    assert_eq!(c.prog_counter, 0x204);
}

#[test]
fn key_wait_blocks_until_key_arrives() {
    let mut c = machine_with(&[0xF2, 0x0A]);
    step_ok(&mut c);
    assert_eq!(c.prog_counter, 0x200);
    step_ok(&mut c);
    assert_eq!(c.prog_counter, 0x200);
    c.set_key(9, true);
    step_ok(&mut c);
    assert_eq!(c.register[2], 9);
    assert_eq!(c.prog_counter, 0x202);
}

#[test]
fn key_wait_picks_lowest_pressed_key() {
    let mut c = machine_with(&[0xF2, 0x0A]);
    c.set_key(12, true);
    c.set_key(4, true);
    step_ok(&mut c);
    assert_eq!(c.register[2], 4);
}
