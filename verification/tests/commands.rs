use is25xp::commands::{
    erase_block, erase_chip, erase_half_block, erase_sector, get_status, qpi_enable, quad_read,
    quad_write, read, write_enable, write_status,
};
use is25xp::QspiMode;

#[test]
fn commands_without_address_or_data() {
    for (cmd, opcode) in [
        (qpi_enable(), 0x35),
        (write_status(), 0x01),
        (write_enable(), 0x06),
        (erase_chip(), 0xC7),
    ] {
        assert_eq!(cmd.instruction, Some((opcode, QspiMode::SingleChannel)));
        assert_eq!(cmd.address, None);
        assert_eq!(cmd.dummy_cycles, 0);
        assert!(cmd.data.is_none());
    }
}

#[test]
fn erase_commands_take_an_address_on_one_line() {
    for (cmd, opcode) in [
        (erase_block(), 0xD8),
        (erase_half_block(), 0x52),
        (erase_sector(), 0xD7),
    ] {
        assert_eq!(cmd.instruction, Some((opcode, QspiMode::SingleChannel)));
        assert_eq!(cmd.address, Some((0, QspiMode::SingleChannel)));
        assert_eq!(cmd.dummy_cycles, 0);
        assert!(cmd.data.is_none());
    }
}

#[test]
fn page_program_commands() {
    let single = is25xp::commands::write();
    assert_eq!(single.instruction, Some((0x02, QspiMode::SingleChannel)));
    assert_eq!(single.address, Some((0x8, QspiMode::SingleChannel)));
    assert_eq!(single.dummy_cycles, 0);
    assert!(single.data.is_none());
    let quad = quad_write();
    assert_eq!(quad.instruction, Some((0x32, QspiMode::SingleChannel)));
    assert_eq!(quad.address, Some((0x8, QspiMode::SingleChannel)));
    assert_eq!(quad.dummy_cycles, 0);
    let (filler, mode) = quad.data.unwrap();
    assert_eq!(filler, &[0u8]);
    assert_eq!(mode, QspiMode::QuadChannel);
}

#[test]
fn read_commands() {
    let status = get_status();
    assert_eq!(status.instruction, Some((0x05, QspiMode::SingleChannel)));
    assert_eq!(status.address, None);
    assert_eq!(status.dummy_cycles, 0);
    assert_eq!(status.data_mode, QspiMode::SingleChannel);
    assert_eq!(status.receive_length, 1);
    let single = read();
    assert_eq!(single.instruction, Some((0x0b, QspiMode::SingleChannel)));
    assert_eq!(single.address, Some((0x6, QspiMode::SingleChannel)));
    assert_eq!(single.dummy_cycles, 8);
    assert_eq!(single.data_mode, QspiMode::SingleChannel);
    assert_eq!(single.receive_length, 0);
    let quad = quad_read();
    assert_eq!(quad.instruction, Some((0xEB, QspiMode::SingleChannel)));
    assert_eq!(quad.address, Some((0x0, QspiMode::QuadChannel)));
    assert_eq!(quad.dummy_cycles, 6);
    assert_eq!(quad.data_mode, QspiMode::QuadChannel);
    assert_eq!(quad.receive_length, 0);
}

#[test]
fn filling_in_a_write_command_changes_one_phase() {
    let payload = [1u8, 2, 3];
    let cmd = quad_write()
        .address(0x1234, QspiMode::SingleChannel)
        .data(&payload, QspiMode::QuadChannel);
    assert_eq!(cmd.instruction, Some((0x32, QspiMode::SingleChannel)));
    assert_eq!(cmd.address, Some((0x1234, QspiMode::SingleChannel)));
    assert_eq!(cmd.dummy_cycles, 0);
    let (bytes, mode) = cmd.data.unwrap();
    assert_eq!(bytes, &[1u8, 2, 3]);
    assert_eq!(mode, QspiMode::QuadChannel);
    let erase = erase_sector().address(0x3000, QspiMode::SingleChannel);
    assert_eq!(erase.instruction, Some((0xD7, QspiMode::SingleChannel)));
    assert_eq!(erase.address, Some((0x3000, QspiMode::SingleChannel)));
    assert!(erase.data.is_none());
}

#[test]
fn filling_in_a_read_command_changes_one_phase() {
    let cmd = quad_read()
        .address(0xABCDE, QspiMode::QuadChannel)
        .receive_length(4096);
    assert_eq!(cmd.instruction, Some((0xEB, QspiMode::SingleChannel)));
    assert_eq!(cmd.address, Some((0xABCDE, QspiMode::QuadChannel)));
    assert_eq!(cmd.dummy_cycles, 6);
    assert_eq!(cmd.data_mode, QspiMode::QuadChannel);
    assert_eq!(cmd.receive_length, 4096);
}

#[test]
fn a_template_is_the_same_on_every_call() {
    let payload = [7u8; 4];
    let _filled = quad_write()
        .address(0x40, QspiMode::SingleChannel)
        .data(&payload, QspiMode::QuadChannel);
    let again = quad_write();
    assert_eq!(again.address, Some((0x8, QspiMode::SingleChannel)));
    assert_eq!(again.data.unwrap().0, &[0u8]);
    let _read = quad_read().address(0x40, QspiMode::QuadChannel).receive_length(9);
    assert_eq!(quad_read().receive_length, 0);
    assert_eq!(quad_read().address, Some((0, QspiMode::QuadChannel)));
}
