use std::cell::{Cell, RefCell};

use is25xp::{
    Block, Error, HalfBlock, IS25xP, Qspi, QspiMode, QspiReadCommand, QspiWriteCommand, Sector,
    BLOCK_SIZE, HALFBLOCK_SIZE, MEMORY_SIZE, PAGE_SIZE, SECTOR_SIZE,
};

/// What the bus was asked to do.
#[derive(Clone, Debug, PartialEq)]
enum Seen {
    Write {
        opcode: u8,
        address: Option<u32>,
        data: Option<Vec<u8>>,
    },
    Read {
        opcode: u8,
        address: Option<u32>,
        length: u32,
    },
}

/// A chip that keeps its memory, programs by clearing bits and erases by
/// setting them.
struct Chip {
    memory: RefCell<Vec<u8>>,
    seen: RefCell<Vec<Seen>>,
    busy_polls: Cell<u32>,
    fail_after: Cell<Option<usize>>,
}

impl Chip {
    fn new() -> Self {
        Chip {
            memory: RefCell::new(vec![0xFF; MEMORY_SIZE as usize]),
            seen: RefCell::new(Vec::new()),
            busy_polls: Cell::new(0),
            fail_after: Cell::new(None),
        }
    }

    fn busy_for(polls: u32) -> Self {
        let chip = Chip::new();
        chip.busy_polls.set(polls);
        chip
    }

    fn failing_after(transactions: usize) -> Self {
        let chip = Chip::new();
        chip.fail_after.set(Some(transactions));
        chip
    }

    fn fails_now(&self) -> bool {
        match self.fail_after.get() {
            Some(0) => true,
            Some(left) => {
                self.fail_after.set(Some(left - 1));
                false
            }
            None => false,
        }
    }

    fn writes(&self) -> Vec<(u8, Option<u32>, Option<usize>)> {
        self.seen
            .borrow()
            .iter()
            .filter_map(|seen| match seen {
                Seen::Write {
                    opcode,
                    address,
                    data,
                } => Some((*opcode, *address, data.as_ref().map(|d| d.len()))),
                Seen::Read { .. } => None,
            })
            .collect()
    }

    fn writes_from(&self, start: usize) -> Vec<(u8, Option<u32>, Option<usize>)> {
        self.writes()[start..].to_vec()
    }

    fn count(&self, wanted: u8) -> usize {
        self.writes().iter().filter(|(op, _, _)| *op == wanted).count()
    }

    fn reads_of_memory(&self) -> Vec<(Option<u32>, u32)> {
        self.seen
            .borrow()
            .iter()
            .filter_map(|seen| match seen {
                Seen::Read {
                    opcode: 0xEB,
                    address,
                    length,
                } => Some((*address, *length)),
                _ => None,
            })
            .collect()
    }

    fn polls(&self) -> usize {
        self.seen
            .borrow()
            .iter()
            .filter(|seen| matches!(seen, Seen::Read { opcode: 0x05, .. }))
            .count()
    }

    fn erase(&self, start: u32, size: u32) {
        let mut memory = self.memory.borrow_mut();
        for byte in &mut memory[start as usize..(start + size) as usize] {
            *byte = 0xFF;
        }
    }
}

impl Qspi for Chip {
    type Error = ();

    fn write(&self, cmd: QspiWriteCommand) -> Result<(), Self::Error> {
        let opcode = cmd.instruction.unwrap().0;
        let address = cmd.address.map(|a| a.0);
        self.seen.borrow_mut().push(Seen::Write {
            opcode,
            address,
            data: cmd.data.map(|d| d.0.to_vec()),
        });
        if self.fails_now() {
            return Err(());
        }
        match opcode {
            0x32 => {
                let (data, mode) = cmd.data.unwrap();
                assert_eq!(mode, QspiMode::QuadChannel);
                let start = address.unwrap() as usize;
                // A program command never leaves the page that it starts in.
                assert!(start % 256 + data.len() <= 256);
                let mut memory = self.memory.borrow_mut();
                for (i, byte) in data.iter().enumerate() {
                    memory[start + i] &= *byte;
                }
            }
            0xD7 => self.erase(address.unwrap(), SECTOR_SIZE),
            0x52 => self.erase(address.unwrap(), HALFBLOCK_SIZE),
            0xD8 => self.erase(address.unwrap(), BLOCK_SIZE),
            0xC7 => self.erase(0, MEMORY_SIZE),
            _ => {}
        }
        Ok(())
    }

    fn transfer(&self, cmd: QspiReadCommand, buf: &mut [u8]) -> Result<(), Self::Error> {
        let opcode = cmd.instruction.unwrap().0;
        self.seen.borrow_mut().push(Seen::Read {
            opcode,
            address: cmd.address.map(|a| a.0),
            length: cmd.receive_length,
        });
        if self.fails_now() {
            return Err(());
        }
        match opcode {
            0x05 => {
                if self.busy_polls.get() > 0 {
                    self.busy_polls.set(self.busy_polls.get() - 1);
                    buf[0] = 0x01;
                } else {
                    buf[0] = 0x00;
                }
            }
            0xEB => {
                let start = cmd.address.unwrap().0 as usize;
                let memory = self.memory.borrow();
                buf.copy_from_slice(&memory[start..start + buf.len()]);
            }
            _ => {}
        }
        Ok(())
    }
}

fn pattern(len: usize, seed: u8) -> Vec<u8> {
    (0..len).map(|i| (i as u8).wrapping_mul(31).wrapping_add(seed)).collect()
}

#[test]
fn new_driver_waits_and_enables_quad_output() {
    let dev = IS25xP::try_new(Chip::busy_for(3)).unwrap();
    assert_eq!(dev.qspi().polls(), 4);
    assert_eq!(
        *dev.qspi().seen.borrow().last().unwrap(),
        Seen::Write {
            opcode: 0x01,
            address: None,
            data: Some(vec![0x40]),
        }
    );
    assert_eq!(dev.qspi().writes(), vec![(0x01, None, Some(1))]);
}

#[test]
fn new_driver_fails_with_the_bus() {
    assert!(matches!(IS25xP::try_new(Chip::failing_after(0)), Err(Error::Qspi)));
    assert!(matches!(IS25xP::try_new(Chip::failing_after(1)), Err(Error::Qspi)));
    assert!(IS25xP::try_new(Chip::failing_after(2)).is_ok());
}

#[test]
fn read_is_one_transaction_of_any_length() {
    let mut dev = IS25xP::try_new(Chip::new()).unwrap();
    let data = pattern(10_000, 7);
    dev.qspi().memory.borrow_mut()[0x1234..0x1234 + 10_000].copy_from_slice(&data);
    let mut buffer = vec![0u8; 10_000];
    dev.read(0x1234, &mut buffer).unwrap();
    assert_eq!(buffer, data);
    assert_eq!(dev.qspi().reads_of_memory(), vec![(Some(0x1234), 10_000)]);
    let last = dev.qspi().seen.borrow().last().cloned().unwrap();
    assert_eq!(
        last,
        Seen::Read {
            opcode: 0xEB,
            address: Some(0x1234),
            length: 10_000,
        }
    );
}

#[test]
fn read_waits_until_the_chip_is_idle() {
    let mut dev = IS25xP::try_new(Chip::new()).unwrap();
    let before = dev.qspi().polls();
    dev.qspi().busy_polls.set(5);
    let mut buffer = [0u8; 4];
    dev.read_native(0, &mut buffer).unwrap();
    assert_eq!(dev.qspi().polls() - before, 6);
    assert_eq!(buffer, [0xFF; 4]);
}

#[test]
fn read_beyond_the_chip_is_refused() {
    let mut dev = IS25xP::try_new(Chip::new()).unwrap();
    let seen = dev.qspi().seen.borrow().len();
    let mut buffer = [0u8; 4];
    assert!(matches!(dev.read(MEMORY_SIZE + 1, &mut buffer), Err(Error::OutOfBounds)));
    assert!(matches!(dev.read(u32::MAX, &mut buffer), Err(Error::OutOfBounds)));
    assert_eq!(dev.qspi().seen.borrow().len(), seen);
    assert_eq!(buffer, [0u8; 4]);
    let mut nothing = [0u8; 0];
    assert!(dev.read(MEMORY_SIZE, &mut nothing).is_ok());
    assert!(dev.read(MEMORY_SIZE - 4, &mut buffer).is_ok());
}

#[test]
fn read_fails_with_the_bus() {
    let mut dev = IS25xP::try_new(Chip::new()).unwrap();
    dev.qspi().fail_after.set(Some(0));
    let mut buffer = [0u8; 4];
    assert!(matches!(dev.read(0, &mut buffer), Err(Error::Qspi)));
    dev.qspi().fail_after.set(Some(1));
    assert!(matches!(dev.read(0, &mut buffer), Err(Error::Qspi)));
    assert_eq!(dev.qspi().reads_of_memory().len(), 1);
}

#[test]
fn page_program_is_write_enable_then_program() {
    let mut dev = IS25xP::try_new(Chip::new()).unwrap();
    let data = pattern(256, 3);
    dev.write_page(0x4200, &data).unwrap();
    assert_eq!(
        dev.qspi().writes_from(1),
        vec![(0x06, None, None), (0x32, Some(0x4200), Some(256))]
    );
    assert_eq!(&dev.qspi().memory.borrow()[0x4200..0x4300], &data[..]);
    let seen = dev.qspi().seen.borrow();
    assert!(matches!(seen[seen.len() - 1], Seen::Read { opcode: 0x05, .. }));
    assert!(matches!(seen[seen.len() - 4], Seen::Read { opcode: 0x05, .. }));
}

#[test]
fn page_program_of_a_busy_chip_is_refused() {
    let mut dev = IS25xP::try_new(Chip::new()).unwrap();
    dev.qspi().busy_polls.set(1);
    assert!(matches!(dev.write_page(0, &[0u8; 16]), Err(Error::Busy)));
    assert_eq!(dev.qspi().writes().len(), 1);
    assert!(dev.write_page(0, &[0u8; 16]).is_ok());
}

#[test]
fn page_program_of_more_than_a_page_is_refused() {
    let mut dev = IS25xP::try_new(Chip::new()).unwrap();
    assert!(matches!(dev.write_page(0, &[0u8; 257]), Err(Error::Size)));
    assert!(matches!(dev.write_page(0, &[0u8; 4096]), Err(Error::Size)));
    assert_eq!(dev.qspi().writes().len(), 1);
    assert!(dev.write_page(0, &[0u8; 256]).is_ok());
    dev.qspi().busy_polls.set(1);
    assert!(matches!(dev.write_page(0, &[0u8; 257]), Err(Error::Busy)));
}

#[test]
fn page_program_waits_for_the_chip() {
    let mut dev = IS25xP::try_new(Chip::new()).unwrap();
    let before = dev.qspi().polls();
    dev.write_page(0, &[0u8; 1]).unwrap();
    assert_eq!(dev.qspi().polls() - before, 2);
}

#[test]
fn page_program_fails_with_the_bus() {
    for (after, writes) in [(0usize, 0usize), (1, 1), (2, 2), (3, 2)] {
        let mut dev = IS25xP::try_new(Chip::new()).unwrap();
        dev.qspi().fail_after.set(Some(after));
        assert!(matches!(dev.write_page(0, &[0u8; 8]), Err(Error::Qspi)));
        assert_eq!(dev.qspi().writes().len(), 1 + writes);
    }
}

#[test]
fn erase_of_one_unit_is_write_enable_then_erase() {
    let mut dev = IS25xP::try_new(Chip::new()).unwrap();
    dev.erase_sector(&Sector::at(0x5123).unwrap()).unwrap();
    dev.erase_halfblock(&HalfBlock::at(0x1_8123).unwrap()).unwrap();
    dev.erase_block(&Block::at(0x4_5123).unwrap()).unwrap();
    dev.erase_chip().unwrap();
    assert_eq!(
        dev.qspi().writes_from(1),
        vec![
            (0x06, None, None),
            (0xD7, Some(0x5000), None),
            (0x06, None, None),
            (0x52, Some(0x1_8000), None),
            (0x06, None, None),
            (0xD8, Some(0x4_0000), None),
            (0x06, None, None),
            (0xC7, None, None),
        ]
    );
}

#[test]
fn erase_of_a_busy_chip_is_refused() {
    let mut dev = IS25xP::try_new(Chip::new()).unwrap();
    dev.qspi().busy_polls.set(4);
    assert!(matches!(dev.erase_sector(&Sector::at(0).unwrap()), Err(Error::Busy)));
    assert!(matches!(dev.erase_halfblock(&HalfBlock::at(0).unwrap()), Err(Error::Busy)));
    assert!(matches!(dev.erase_block(&Block::at(0).unwrap()), Err(Error::Busy)));
    assert!(matches!(dev.erase_chip(), Err(Error::Busy)));
    assert_eq!(dev.qspi().writes().len(), 1);
    assert!(dev.erase_chip().is_ok());
}

#[test]
fn erase_fails_with_the_bus() {
    for (after, writes) in [(0usize, 0usize), (1, 1), (2, 2), (3, 2)] {
        let mut dev = IS25xP::try_new(Chip::new()).unwrap();
        dev.qspi().fail_after.set(Some(after));
        assert!(matches!(dev.erase_block(&Block::at(0).unwrap()), Err(Error::Qspi)));
        assert_eq!(dev.qspi().writes().len(), 1 + writes);
    }
}

#[test]
fn write_then_read_gives_the_data_back() {
    let mut dev = IS25xP::try_new(Chip::new()).unwrap();
    let data = pattern(3 * 4096 + 777, 11);
    dev.write(0x0F_F123, &data).unwrap();
    let mut back = vec![0u8; data.len()];
    dev.read(0x0F_F123, &mut back).unwrap();
    assert_eq!(back, data);
    assert_eq!(dev.qspi().memory.borrow()[0x0F_F122], 0xFF);
    assert_eq!(dev.qspi().memory.borrow()[0x0F_F123 + data.len()], 0xFF);
}

#[test]
fn write_over_erased_flash_does_not_erase() {
    let mut dev = IS25xP::try_new(Chip::new()).unwrap();
    let data = pattern(10_000, 5);
    dev.write(0x1F80, &data).unwrap();
    assert_eq!(dev.qspi().count(0xD7), 0);
    assert_eq!(
        dev.qspi().reads_of_memory(),
        vec![
            (Some(0x1000), 4096),
            (Some(0x2000), 4096),
            (Some(0x3000), 4096),
            (Some(0x4000), 4096),
        ]
    );
    let programs: Vec<(Option<u32>, Option<usize>)> = dev
        .qspi()
        .writes()
        .iter()
        .filter(|(op, _, _)| *op == 0x32)
        .map(|(_, address, len)| (*address, *len))
        .collect();
    assert_eq!(programs[0], (Some(0x1F80), Some(128)));
    assert_eq!(programs[1], (Some(0x2000), Some(256)));
    assert_eq!(programs[38], (Some(0x4500), Some(256)));
    assert_eq!(programs.len(), 1 + 38 + 1);
    assert_eq!(programs[39], (Some(0x4600), Some(144)));
    assert_eq!(programs.iter().map(|(_, len)| len.unwrap()).sum::<usize>(), 10_000);
}

#[test]
fn write_that_only_clears_bits_does_not_erase() {
    let mut dev = IS25xP::try_new(Chip::new()).unwrap();
    dev.write(0x100, &[0xF0; 64]).unwrap();
    dev.write(0x100, &[0x30; 64]).unwrap();
    dev.write(0x100, &[0x30; 64]).unwrap();
    dev.write(0x100, &[0x00; 64]).unwrap();
    assert_eq!(dev.qspi().count(0xD7), 0);
    assert_eq!(&dev.qspi().memory.borrow()[0x100..0x140], &[0x00; 64]);
}

#[test]
fn write_that_sets_a_bit_erases_the_sector_once_and_keeps_the_rest() {
    let mut dev = IS25xP::try_new(Chip::new()).unwrap();
    let old = pattern(4096, 1);
    dev.write(0x7000, &old).unwrap();
    let writes_before = dev.qspi().writes().len();
    let new = [0xFFu8; 100];
    dev.write(0x7123, &new).unwrap();
    let writes = dev.qspi().writes_from(writes_before);
    assert_eq!(writes[0], (0x06, None, None));
    assert_eq!(writes[1], (0xD7, Some(0x7000), None));
    assert_eq!(writes.len(), 2 + 2 * 16);
    for page in 0..16u32 {
        assert_eq!(writes[2 + 2 * page as usize], (0x06, None, None));
        assert_eq!(
            writes[3 + 2 * page as usize],
            (0x32, Some(0x7000 + page * PAGE_SIZE), Some(256))
        );
    }
    assert_eq!(dev.qspi().count(0xD7), 1);
    let memory = dev.qspi().memory.borrow();
    assert_eq!(&memory[0x7000..0x7123], &old[..0x123]);
    assert_eq!(&memory[0x7123..0x7123 + 100], &new[..]);
    assert_eq!(&memory[0x7123 + 100..0x8000], &old[0x123 + 100..]);
    assert_eq!(memory[0x6FFF], 0xFF);
    assert_eq!(memory[0x8000], 0xFF);
}

#[test]
fn every_write_decides_on_what_the_sector_holds_then() {
    let mut dev = IS25xP::try_new(Chip::new()).unwrap();
    // Erased flash: no erase.
    dev.write(0x3010, &[0x0F; 32]).unwrap();
    assert_eq!(dev.qspi().count(0xD7), 0);
    // Sets bits: one erase.
    dev.write(0x3010, &[0xF0; 32]).unwrap();
    assert_eq!(dev.qspi().count(0xD7), 1);
    // The same data again: the sector holds it now, no erase.
    dev.write(0x3010, &[0xF0; 32]).unwrap();
    assert_eq!(dev.qspi().count(0xD7), 1);
    // Sets bits again: one more erase, not more.
    dev.write(0x3010, &[0xFF; 32]).unwrap();
    assert_eq!(dev.qspi().count(0xD7), 2);
    // What was erased can take anything.
    dev.write(0x3010, &[0x55; 32]).unwrap();
    assert_eq!(dev.qspi().count(0xD7), 2);
    assert_eq!(&dev.qspi().memory.borrow()[0x3010..0x3030], &[0x55; 32]);
    assert_eq!(dev.qspi().reads_of_memory().len(), 5);
    assert!(dev.qspi().reads_of_memory().iter().all(|r| *r == (Some(0x3000), 4096)));
}

#[test]
fn write_erases_only_the_sectors_that_need_it() {
    let mut dev = IS25xP::try_new(Chip::new()).unwrap();
    dev.write(0x5000, &[0x00; 16]).unwrap();
    let writes_before = dev.qspi().writes().len();
    // Three sectors; only the middle one holds bits that must be set.
    let data = vec![0xA5u8; 3 * 4096];
    dev.write(0x4000, &data).unwrap();
    let erases: Vec<(u8, Option<u32>, Option<usize>)> = dev
        .qspi()
        .writes_from(writes_before)
        .into_iter()
        .filter(|(op, _, _)| *op == 0xD7)
        .collect();
    assert_eq!(erases, vec![(0xD7, Some(0x5000), None)]);
    assert_eq!(&dev.qspi().memory.borrow()[0x4000..0x7000], &data[..]);
}

#[test]
fn write_of_nothing_does_nothing() {
    let mut dev = IS25xP::try_new(Chip::new()).unwrap();
    let seen = dev.qspi().seen.borrow().len();
    dev.write(0x110, &[]).unwrap();
    dev.write(0, &[]).unwrap();
    dev.write(MEMORY_SIZE, &[]).unwrap();
    assert_eq!(dev.qspi().seen.borrow().len(), seen);
}

#[test]
fn write_beyond_the_chip_is_refused() {
    let mut dev = IS25xP::try_new(Chip::new()).unwrap();
    let seen = dev.qspi().seen.borrow().len();
    assert!(matches!(dev.write(MEMORY_SIZE, &[0]), Err(Error::OutOfBounds)));
    assert!(matches!(dev.write(MEMORY_SIZE - 1, &[0, 0]), Err(Error::OutOfBounds)));
    assert!(matches!(dev.write(MEMORY_SIZE + 1, &[]), Err(Error::OutOfBounds)));
    assert!(matches!(dev.write(u32::MAX, &[0; 16]), Err(Error::OutOfBounds)));
    assert_eq!(dev.qspi().seen.borrow().len(), seen);
    assert!(dev.write(MEMORY_SIZE - 2, &[0, 0]).is_ok());
    assert_eq!(&dev.qspi().memory.borrow()[MEMORY_SIZE as usize - 2..], &[0, 0]);
}

#[test]
fn write_to_the_last_sector_with_an_erase() {
    let mut dev = IS25xP::try_new(Chip::new()).unwrap();
    dev.write(MEMORY_SIZE - 8, &[0x00; 8]).unwrap();
    dev.write(MEMORY_SIZE - 8, &[0xFF; 8]).unwrap();
    assert_eq!(dev.qspi().count(0xD7), 1);
    assert!(dev.qspi().writes().contains(&(0xD7, Some(MEMORY_SIZE - SECTOR_SIZE), None)));
    assert_eq!(&dev.qspi().memory.borrow()[MEMORY_SIZE as usize - 8..], &[0xFF; 8]);
}

#[test]
fn write_stops_at_the_first_fault_of_the_bus() {
    let mut dev = IS25xP::try_new(Chip::new()).unwrap();
    let writes_before = dev.qspi().writes().len();
    // poll, read, poll, write enable, program, poll, poll, write enable: refused
    dev.qspi().fail_after.set(Some(7));
    assert!(matches!(dev.write(0, &[0u8; 1024]), Err(Error::Qspi)));
    assert_eq!(
        dev.qspi().writes_from(writes_before),
        vec![(0x06, None, None), (0x32, Some(0), Some(256)), (0x06, None, None)]
    );
}

#[test]
fn write_to_a_chip_that_turns_busy_is_refused() {
    let mut dev = IS25xP::try_new(Chip::new()).unwrap();
    let writes_before = dev.qspi().writes().len();
    dev.qspi().busy_polls.set(1);
    // The read waits for the chip, so the write goes through.
    assert!(dev.write(0, &[0u8; 16]).is_ok());
    assert_eq!(dev.qspi().writes_from(writes_before).len(), 2);
}

#[test]
fn erase_needs_sector_boundaries() {
    let mut dev = IS25xP::try_new(Chip::new()).unwrap();
    let seen = dev.qspi().seen.borrow().len();
    assert!(matches!(dev.erase(1, SECTOR_SIZE), Err(Error::Alignment)));
    assert!(matches!(dev.erase(0, 100), Err(Error::Alignment)));
    assert!(matches!(dev.erase(PAGE_SIZE, 2 * SECTOR_SIZE), Err(Error::Alignment)));
    assert!(matches!(dev.erase(0, MEMORY_SIZE - 1), Err(Error::Alignment)));
    assert!(matches!(dev.erase(SECTOR_SIZE + 1, SECTOR_SIZE - 1), Err(Error::Alignment)));
    assert_eq!(dev.qspi().seen.borrow().len(), seen);
}

#[test]
fn erase_of_an_empty_range_does_nothing() {
    let mut dev = IS25xP::try_new(Chip::new()).unwrap();
    let seen = dev.qspi().seen.borrow().len();
    assert!(dev.erase(0, 0).is_ok());
    assert!(dev.erase(SECTOR_SIZE, SECTOR_SIZE).is_ok());
    assert!(dev.erase(BLOCK_SIZE, SECTOR_SIZE).is_ok());
    assert!(dev.erase(MEMORY_SIZE, 0).is_ok());
    assert_eq!(dev.qspi().seen.borrow().len(), seen);
}

#[test]
fn erase_sets_every_bit_of_the_range_and_no_other() {
    let mut dev = IS25xP::try_new(Chip::new()).unwrap();
    dev.write(0, &vec![0u8; 0x3_0000]).unwrap();
    let from = HALFBLOCK_SIZE - SECTOR_SIZE;
    let to = from + SECTOR_SIZE + HALFBLOCK_SIZE + BLOCK_SIZE;
    dev.erase(from, to).unwrap();
    let memory = dev.qspi().memory.borrow();
    assert!(memory[..from as usize].iter().all(|b| *b == 0x00));
    assert!(memory[from as usize..to as usize].iter().all(|b| *b == 0xFF));
    assert!(memory[to as usize..0x3_0000].iter().all(|b| *b == 0x00));
}

#[test]
fn erase_takes_the_largest_unit_that_fits() {
    let mut dev = IS25xP::try_new(Chip::new()).unwrap();
    // From the last sector of a block up to one sector into the block
    // after the next half block.
    dev.erase(BLOCK_SIZE - SECTOR_SIZE, 2 * BLOCK_SIZE + HALFBLOCK_SIZE + SECTOR_SIZE)
        .unwrap();
    let erases: Vec<(u8, Option<u32>)> = dev
        .qspi()
        .writes_from(1)
        .into_iter()
        .filter(|(op, _, _)| *op != 0x06)
        .map(|(op, address, _)| (op, address))
        .collect();
    assert_eq!(
        erases,
        vec![
            (0xD7, Some(BLOCK_SIZE - SECTOR_SIZE)),
            (0xD8, Some(BLOCK_SIZE)),
            (0x52, Some(2 * BLOCK_SIZE)),
            (0xD7, Some(2 * BLOCK_SIZE + HALFBLOCK_SIZE)),
        ]
    );
    assert_eq!(dev.qspi().count(0x06), 4);
}

#[test]
fn erase_of_one_block_anywhere_is_one_command() {
    for block in [0u32, 1, 17, 255] {
        let mut dev = IS25xP::try_new(Chip::new()).unwrap();
        dev.erase(block * BLOCK_SIZE, (block + 1) * BLOCK_SIZE).unwrap();
        assert_eq!(
            dev.qspi().writes_from(1),
            vec![(0x06, None, None), (0xD8, Some(block * BLOCK_SIZE), None)]
        );
    }
}

#[test]
fn erase_of_almost_the_whole_chip_walks_the_blocks() {
    let mut dev = IS25xP::try_new(Chip::new()).unwrap();
    dev.erase(0, MEMORY_SIZE - SECTOR_SIZE).unwrap();
    assert_eq!(dev.qspi().count(0xC7), 0);
    assert_eq!(dev.qspi().count(0xD8), 255);
    assert_eq!(dev.qspi().count(0x52), 1);
    assert_eq!(dev.qspi().count(0xD7), 7);
}

#[test]
fn erase_beyond_the_chip_erases_up_to_its_end_and_fails() {
    let mut dev = IS25xP::try_new(Chip::new()).unwrap();
    let result = dev.erase(MEMORY_SIZE - SECTOR_SIZE, MEMORY_SIZE + SECTOR_SIZE);
    assert!(matches!(result, Err(Error::OutOfBounds)));
    assert_eq!(
        dev.qspi().writes_from(1),
        vec![(0x06, None, None), (0xD7, Some(MEMORY_SIZE - SECTOR_SIZE), None)]
    );
    let seen = dev.qspi().seen.borrow().len();
    assert!(matches!(
        dev.erase(MEMORY_SIZE, MEMORY_SIZE + SECTOR_SIZE),
        Err(Error::OutOfBounds)
    ));
    assert!(matches!(dev.erase(0xFFFF_0000, 0xFFFF_F000), Err(Error::OutOfBounds)));
    assert_eq!(dev.qspi().seen.borrow().len(), seen);
}

#[test]
fn erase_of_a_busy_chip_range_is_refused() {
    let mut dev = IS25xP::try_new(Chip::new()).unwrap();
    dev.qspi().busy_polls.set(1);
    assert!(matches!(dev.erase(0, SECTOR_SIZE), Err(Error::Busy)));
    dev.qspi().busy_polls.set(1);
    assert!(matches!(dev.erase(0, MEMORY_SIZE), Err(Error::Busy)));
    assert_eq!(dev.qspi().writes().len(), 1);
}

#[test]
fn erase_stops_at_the_first_fault_of_the_bus() {
    let mut dev = IS25xP::try_new(Chip::new()).unwrap();
    // poll, write enable, erase, poll, poll, write enable, erase: refused
    dev.qspi().fail_after.set(Some(6));
    assert!(matches!(dev.erase(0, 4 * SECTOR_SIZE), Err(Error::Qspi)));
    assert_eq!(
        dev.qspi().writes_from(1),
        vec![
            (0x06, None, None),
            (0xD7, Some(0), None),
            (0x06, None, None),
            (0xD7, Some(SECTOR_SIZE), None),
        ]
    );
}

#[test]
fn capacity_is_that_of_the_memory_map() {
    let dev = IS25xP::try_new(Chip::new()).unwrap();
    assert_eq!(dev.capacity(), 16_777_216);
    assert_eq!(dev.capacity(), 256 * 65_536);
}

#[test]
fn erase_of_a_range_polls_once_and_stops_where_the_chip_is_busy() {
    let mut dev = IS25xP::try_new(Chip::new()).unwrap();
    let seen = dev.qspi().seen.borrow().len();
    dev.qspi().busy_polls.set(1);
    assert!(matches!(dev.erase(0, SECTOR_SIZE), Err(Error::Busy)));
    let added = dev.qspi().seen.borrow()[seen..].to_vec();
    assert_eq!(
        added,
        vec![Seen::Read {
            opcode: 0x05,
            address: None,
            length: 1,
        }]
    );
}

#[test]
fn erase_of_a_range_is_a_poll_two_writes_and_a_wait_for_each_unit() {
    let mut dev = IS25xP::try_new(Chip::new()).unwrap();
    let seen = dev.qspi().seen.borrow().len();
    dev.erase(SECTOR_SIZE, 3 * SECTOR_SIZE).unwrap();
    let poll = Seen::Read {
        opcode: 0x05,
        address: None,
        length: 1,
    };
    let enable = Seen::Write {
        opcode: 0x06,
        address: None,
        data: None,
    };
    let erase_at = |address: u32| Seen::Write {
        opcode: 0xD7,
        address: Some(address),
        data: None,
    };
    assert_eq!(
        dev.qspi().seen.borrow()[seen..].to_vec(),
        vec![
            poll.clone(),
            enable.clone(),
            erase_at(SECTOR_SIZE),
            poll.clone(),
            poll.clone(),
            enable,
            erase_at(2 * SECTOR_SIZE),
            poll,
        ]
    );
}

#[test]
fn read_polls_until_idle_and_then_reads_once() {
    let mut dev = IS25xP::try_new(Chip::new()).unwrap();
    let seen = dev.qspi().seen.borrow().len();
    dev.qspi().busy_polls.set(2);
    let mut buffer = [0u8; 8];
    dev.read_native(64, &mut buffer).unwrap();
    let poll = Seen::Read {
        opcode: 0x05,
        address: None,
        length: 1,
    };
    assert_eq!(
        dev.qspi().seen.borrow()[seen..].to_vec(),
        vec![
            poll.clone(),
            poll.clone(),
            poll,
            Seen::Read {
                opcode: 0xEB,
                address: Some(64),
                length: 8,
            },
        ]
    );
}

#[test]
fn write_issues_only_polls_writes_and_sector_reads_after_a_poll() {
    let mut dev = IS25xP::try_new(Chip::new()).unwrap();
    dev.write(SECTOR_SIZE - 8, &[0xFFu8; 16]).unwrap();
    let seen = dev.qspi().seen.borrow().len();
    dev.write(SECTOR_SIZE - 8, &pattern(16, 3)).unwrap();
    dev.write(SECTOR_SIZE - 8, &[0xFFu8; 16]).unwrap();
    let all = dev.qspi().seen.borrow().clone();
    assert!(matches!(all[seen], Seen::Read { opcode: 0x05, .. }));
    for i in seen..all.len() {
        match &all[i] {
            Seen::Read { opcode: 0x05, .. } => {}
            Seen::Read { opcode, length, .. } => {
                assert_eq!(*opcode, 0xEB);
                assert_eq!(*length, SECTOR_SIZE);
                assert!(matches!(all[i - 1], Seen::Read { opcode: 0x05, .. }));
            }
            Seen::Write { opcode: 0x06, .. } => {
                assert!(matches!(all[i - 1], Seen::Read { opcode: 0x05, .. }));
            }
            Seen::Write { .. } => {
                assert!(matches!(all[i - 1], Seen::Write { opcode: 0x06, .. }));
            }
        }
    }
    assert_eq!(dev.qspi().reads_of_memory().len(), 6);
}

#[test]
fn write_stops_where_the_poll_after_the_read_fails() {
    let mut dev = IS25xP::try_new(Chip::new()).unwrap();
    let seen = dev.qspi().seen.borrow().len();
    // poll, read of the sector, poll: refused by the bus
    dev.qspi().fail_after.set(Some(2));
    assert!(matches!(dev.write(0, &[0u8; 4]), Err(Error::Qspi)));
    assert_eq!(dev.qspi().seen.borrow().len() - seen, 3);
    assert_eq!(dev.qspi().writes().len(), 1);
}

#[test]
fn write_of_a_piece_is_a_sector_read_and_then_its_commands_in_turn() {
    let mut dev = IS25xP::try_new(Chip::new()).unwrap();
    let seen = dev.qspi().seen.borrow().len();
    dev.write(8, &[0u8; 4]).unwrap();
    let poll = Seen::Read {
        opcode: 0x05,
        address: None,
        length: 1,
    };
    assert_eq!(
        dev.qspi().seen.borrow()[seen..].to_vec(),
        vec![
            poll.clone(),
            Seen::Read {
                opcode: 0xEB,
                address: Some(0),
                length: SECTOR_SIZE,
            },
            poll.clone(),
            Seen::Write {
                opcode: 0x06,
                address: None,
                data: None,
            },
            Seen::Write {
                opcode: 0x32,
                address: Some(8),
                data: Some(vec![0u8; 4]),
            },
            poll,
        ]
    );
}

#[test]
fn write_to_a_chip_that_turns_busy_between_two_pages_stops_there() {
    let mut dev = IS25xP::try_new(Chip::new()).unwrap();
    let writes = dev.qspi().writes().len();
    dev.write(0, &[0u8; 300]).unwrap();
    assert_eq!(dev.qspi().writes().len() - writes, 4);
    // Two pages. The chip is idle for the wait of the driver at its start,
    // for the wait before the sector is read, and before and after the
    // first page is programmed: it is busy before the second.
    let mut dev = IS25xP::try_new(BusyLater::after(4)).unwrap();
    assert!(matches!(dev.write(0, &[0u8; 300]), Err(Error::Busy)));
    assert_eq!(
        dev.qspi().writes,
        RefCell::new(vec![0x01, 0x06, 0x32])
    );
}

/// A chip that is idle for a number of polls and busy from then on.
struct BusyLater {
    idle_polls: Cell<u32>,
    writes: RefCell<Vec<u8>>,
}

impl BusyLater {
    fn after(idle_polls: u32) -> Self {
        BusyLater {
            idle_polls: Cell::new(idle_polls),
            writes: RefCell::new(Vec::new()),
        }
    }
}

impl Qspi for BusyLater {
    type Error = ();

    fn write(&self, cmd: QspiWriteCommand) -> Result<(), Self::Error> {
        self.writes.borrow_mut().push(cmd.instruction.unwrap().0);
        Ok(())
    }

    fn transfer(&self, cmd: QspiReadCommand, buf: &mut [u8]) -> Result<(), Self::Error> {
        if cmd.instruction.unwrap().0 == 0x05 {
            if self.idle_polls.get() > 0 {
                self.idle_polls.set(self.idle_polls.get() - 1);
                buf[0] = 0x00;
            } else {
                buf[0] = 0x01;
            }
        } else {
            for byte in buf.iter_mut() {
                *byte = 0xFF;
            }
        }
        Ok(())
    }
}
