//! Memory map of the chip: the flat address space cut into blocks, half
//! blocks, sectors and pages.
//!
//! Every tier cuts the whole address space into regions of one size, numbered
//! from zero in ascending address order. A region value is the number of the
//! region in its tier.

use vstd::prelude::*;

verus! {

pub const BASE_ADDRESS: u32 = 0x0000_0000;

pub const PAGES_PER_SECTOR: u32 = 16;

pub const SECTORS_PER_BLOCK: u32 = 16;

pub const SECTORS_PER_HALFBLOCK: u32 = 8;

pub const HALFBLOCKS_PER_BLOCK: u32 = 2;

pub const PAGES_PER_BLOCK: u32 = 256;

pub const PAGES_PER_HALFBLOCK: u32 = 128;

pub const PAGE_SIZE: u32 = 256;

pub const SECTOR_SIZE: u32 = 4096;

pub const HALFBLOCK_SIZE: u32 = 32768;

pub const BLOCK_SIZE: u32 = 65536;

pub const MEMORY_SIZE: u32 = 16_777_216;

pub const NUMBER_OF_BLOCKS: u32 = 256;

pub const NUMBER_OF_HALFBLOCKS: u32 = 512;

pub const NUMBER_OF_SECTORS: u32 = 4096;

pub const NUMBER_OF_PAGES: u32 = 65536;

/// Parameters of one family of flash chips.
pub trait FlashParams {

}

/// Parameters that the chip reports about itself.
pub struct JedecAuto;

impl FlashParams for JedecAuto {

}

/// Parameters of the IS25xP family.
pub struct IS25xPParams;

impl FlashParams for IS25xPParams {

}

/// First address of region `index` in a tier of regions of `size` bytes.
pub open spec fn region_start(size: nat, index: nat) -> nat {
    BASE_ADDRESS as nat + index * size
}

/// First address after region `index` in a tier of regions of `size` bytes.
pub open spec fn region_end(size: nat, index: nat) -> nat {
    region_start(size, index) + size
}

/// Whether `address` lies in region `index` of a tier of regions of `size`
/// bytes.
pub open spec fn region_contains(size: nat, index: nat, address: nat) -> bool {
    region_start(size, index) <= address < region_end(size, index)
}

/// Number of the region that holds `address` in a tier of regions of `size`
/// bytes.
pub open spec fn region_of(size: nat, address: nat) -> nat {
    address / size
}

/// Whether regions, each given by its first address and the first address
/// after it, follow one another in ascending order from `from` to `to`
/// without gap or overlap.
pub open spec fn tiles(bounds: Seq<(nat, nat)>, from: nat, to: nat) -> bool {
    &&& bounds.len() > 0
    &&& bounds[0].0 == from
    &&& bounds[bounds.len() - 1].1 == to
    &&& forall|i: int| 0 <= i < bounds.len() ==> (#[trigger] bounds[i]).0 < bounds[i].1
    &&& forall|i: int| 0 <= i < bounds.len() - 1 ==> (#[trigger] bounds[i]).1 == bounds[i + 1].0
}

/// The sizes of the tiers nest exactly, and each tier spans the whole chip.
pub proof fn lemma_tiers_nest()
    ensures
        SECTOR_SIZE == PAGE_SIZE * PAGES_PER_SECTOR,
        HALFBLOCK_SIZE == SECTOR_SIZE * SECTORS_PER_HALFBLOCK,
        BLOCK_SIZE == SECTOR_SIZE * SECTORS_PER_BLOCK,
        BLOCK_SIZE == HALFBLOCK_SIZE * HALFBLOCKS_PER_BLOCK,
        PAGES_PER_HALFBLOCK == PAGES_PER_SECTOR * SECTORS_PER_HALFBLOCK,
        PAGES_PER_BLOCK == PAGES_PER_SECTOR * SECTORS_PER_BLOCK,
        MEMORY_SIZE == NUMBER_OF_BLOCKS * BLOCK_SIZE,
        MEMORY_SIZE == NUMBER_OF_HALFBLOCKS * HALFBLOCK_SIZE,
        MEMORY_SIZE == NUMBER_OF_SECTORS * SECTOR_SIZE,
        MEMORY_SIZE == NUMBER_OF_PAGES * PAGE_SIZE,
{
}

/// In a tier of `count` regions of `size` bytes, every address below the end
/// of the tier lies in exactly one region: the one numbered `address / size`.
pub proof fn lemma_exactly_one_region(size: nat, count: nat, address: nat)
    requires
        size > 0,
        address < count * size,
    ensures
        region_of(size, address) < count,
        region_contains(size, region_of(size, address), address),
        forall|index: nat| region_contains(size, index, address) ==> index == region_of(size, address),
{
    let q = region_of(size, address);
    vstd::arithmetic::div_mod::lemma_fundamental_div_mod(address as int, size as int);
    vstd::arithmetic::div_mod::lemma_mod_bound(address as int, size as int);
    assert(q * size == size * q) by (nonlinear_arith);
    assert(q < count) by (nonlinear_arith)
        requires
            q * size <= address,
            address < count * size,
            size > 0,
    ;
    assert forall|index: nat| region_contains(size, index, address) implies index == q by {
        assert(index == q) by (nonlinear_arith)
            requires
                index * size <= address,
                address < index * size + size,
                q * size <= address,
                address < q * size + size,
                size > 0,
        ;
    }
}

/// The regions of a tier follow one another in ascending order without gap
/// or overlap: the first starts at the base address, each one starts where
/// the one before it ends, and the last of `count` ends `count * size` bytes
/// after the base address.
pub proof fn lemma_tier_is_contiguous(size: nat, count: nat)
    requires
        size > 0,
        count > 0,
    ensures
        region_start(size, 0) == BASE_ADDRESS,
        forall|index: nat| #[trigger] region_end(size, index) == region_start(size, index + 1),
        forall|index: nat| #[trigger] region_start(size, index) < region_end(size, index),
        forall|a: nat, b: nat, address: nat|
            region_contains(size, a, address) && region_contains(size, b, address) ==> a == b,
        region_end(size, (count - 1) as nat) == BASE_ADDRESS + count * size,
{
    assert forall|index: nat| #[trigger] region_end(size, index) == region_start(size, index + 1) by {
        assert(index * size + size == (index + 1) * size) by (nonlinear_arith);
    }
    assert forall|a: nat, b: nat, address: nat|
        region_contains(size, a, address) && region_contains(size, b, address) implies a == b by {
        assert(a == b) by (nonlinear_arith)
            requires
                a * size <= address,
                address < a * size + size,
                b * size <= address,
                address < b * size + size,
                size > 0,
        ;
    }
    assert((count - 1) as nat * size + size == count * size) by (nonlinear_arith)
        requires
            count > 0,
    ;
}

/// A region of `parts * size` bytes is made of the `parts` regions of `size`
/// bytes numbered from `index * parts`: they lie inside it, and the first
/// starts and the last ends where it does.
pub proof fn lemma_regions_nest(size: nat, parts: nat, index: nat, part: nat)
    requires
        size > 0,
        part < parts,
    ensures
        region_start(parts * size, index) <= region_start(size, index * parts + part),
        region_end(size, index * parts + part) <= region_end(parts * size, index),
        region_start(size, index * parts) == region_start(parts * size, index),
        region_end(size, (index * parts + parts - 1) as nat) == region_end(parts * size, index),
{
    assert(index * (parts * size) == (index * parts) * size) by (nonlinear_arith);
    assert((index * parts + part) * size == (index * parts) * size + part * size)
        by (nonlinear_arith);
    assert(part * size + size <= parts * size) by (nonlinear_arith)
        requires
            part < parts,
    ;
    assert((index * parts + parts - 1) as nat * size + size == (index * parts) * size + parts
        * size) by (nonlinear_arith)
        requires
            parts > 0,
    ;
}

/// The whole chip.
pub struct MemoryMap;

/// A 64 KiB erase unit.
pub struct Block(u32);

/// A 32 KiB erase unit, half of a block.
pub struct HalfBlock(u32);

/// A 4 KiB erase unit, the smallest that can be erased.
pub struct Sector(u32);

/// A 256 byte unit, the most that one program command can write.
pub struct Page(u32);

impl MemoryMap {
    /// All blocks of the chip, in ascending address order.
    pub fn blocks() -> (all: Vec<Block>)
        ensures
            all@.len() == NUMBER_OF_BLOCKS,
            forall|i: int| 0 <= i < all@.len() ==> (#[trigger] all@[i]).index() == i,
            tiles(
                Seq::new(all@.len(), |i: int| (all@[i].first(), all@[i].limit())),
                BASE_ADDRESS as nat,
                (BASE_ADDRESS + MEMORY_SIZE) as nat,
            ),
    {
        let mut all: Vec<Block> = Vec::new();
        let mut index: u32 = 0;
        while index < NUMBER_OF_BLOCKS
            invariant
                index <= NUMBER_OF_BLOCKS,
                all@.len() == index,
                forall|i: int| 0 <= i < all@.len() ==> (#[trigger] all@[i]).index() == i,
            decreases NUMBER_OF_BLOCKS - index,
        {
            all.push(Block(index));
            index = index + 1;
        }
        all
    }

    /// All half blocks of the chip, in ascending address order.
    pub fn halfblocks() -> (all: Vec<HalfBlock>)
        ensures
            all@.len() == NUMBER_OF_HALFBLOCKS,
            forall|i: int| 0 <= i < all@.len() ==> (#[trigger] all@[i]).index() == i,
            tiles(
                Seq::new(all@.len(), |i: int| (all@[i].first(), all@[i].limit())),
                BASE_ADDRESS as nat,
                (BASE_ADDRESS + MEMORY_SIZE) as nat,
            ),
    {
        let mut all: Vec<HalfBlock> = Vec::new();
        let mut index: u32 = 0;
        while index < NUMBER_OF_HALFBLOCKS
            invariant
                index <= NUMBER_OF_HALFBLOCKS,
                all@.len() == index,
                forall|i: int| 0 <= i < all@.len() ==> (#[trigger] all@[i]).index() == i,
            decreases NUMBER_OF_HALFBLOCKS - index,
        {
            all.push(HalfBlock(index));
            index = index + 1;
        }
        all
    }

    /// All sectors of the chip, in ascending address order.
    pub fn sectors() -> (all: Vec<Sector>)
        ensures
            all@.len() == NUMBER_OF_SECTORS,
            forall|i: int| 0 <= i < all@.len() ==> (#[trigger] all@[i]).index() == i,
            tiles(
                Seq::new(all@.len(), |i: int| (all@[i].first(), all@[i].limit())),
                BASE_ADDRESS as nat,
                (BASE_ADDRESS + MEMORY_SIZE) as nat,
            ),
    {
        let mut all: Vec<Sector> = Vec::new();
        let mut index: u32 = 0;
        while index < NUMBER_OF_SECTORS
            invariant
                index <= NUMBER_OF_SECTORS,
                all@.len() == index,
                forall|i: int| 0 <= i < all@.len() ==> (#[trigger] all@[i]).index() == i,
            decreases NUMBER_OF_SECTORS - index,
        {
            all.push(Sector(index));
            index = index + 1;
        }
        all
    }

    /// All pages of the chip, in ascending address order.
    pub fn pages() -> (all: Vec<Page>)
        ensures
            all@.len() == NUMBER_OF_PAGES,
            forall|i: int| 0 <= i < all@.len() ==> (#[trigger] all@[i]).index() == i,
            tiles(
                Seq::new(all@.len(), |i: int| (all@[i].first(), all@[i].limit())),
                BASE_ADDRESS as nat,
                (BASE_ADDRESS + MEMORY_SIZE) as nat,
            ),
    {
        let mut all: Vec<Page> = Vec::new();
        let mut index: u32 = 0;
        while index < NUMBER_OF_PAGES
            invariant
                index <= NUMBER_OF_PAGES,
                all@.len() == index,
                forall|i: int| 0 <= i < all@.len() ==> (#[trigger] all@[i]).index() == i,
            decreases NUMBER_OF_PAGES - index,
        {
            all.push(Page(index));
            index = index + 1;
        }
        all
    }

    /// First address of the chip.
    pub fn start() -> (address: u32)
        ensures
            address == BASE_ADDRESS,
    {
        BASE_ADDRESS
    }

    /// First address after the chip.
    pub fn end() -> (address: u32)
        ensures
            address == BASE_ADDRESS + MEMORY_SIZE,
    {
        BASE_ADDRESS + MEMORY_SIZE
    }

    /// Capacity of the chip in bytes.
    pub fn size() -> (bytes: usize)
        ensures
            bytes == MEMORY_SIZE,
            bytes == 16_777_216,
    {
        16_777_216
    }
}

impl Block {
    /// A block value always numbers a block of the chip.
    #[verifier::type_invariant]
    pub open spec fn in_range(self) -> bool {
        self.index() < NUMBER_OF_BLOCKS
    }

    /// Number of the block, counted from the base address.
    pub closed spec fn index(self) -> nat {
        self.0 as nat
    }

    /// First address of the block.
    pub open spec fn first(self) -> nat {
        region_start(BLOCK_SIZE as nat, self.index())
    }

    /// First address after the block.
    pub open spec fn limit(self) -> nat {
        region_end(BLOCK_SIZE as nat, self.index())
    }

    /// Whether `address` lies in the block.
    pub open spec fn holds(self, address: nat) -> bool {
        region_contains(BLOCK_SIZE as nat, self.index(), address)
    }

    /// The sectors of the block, in ascending address order.
    pub fn sectors(&self) -> (parts: Vec<Sector>)
        ensures
            parts@.len() == SECTORS_PER_BLOCK,
            forall|i: int|
                0 <= i < parts@.len() ==> (#[trigger] parts@[i]).index() == self.index()
                    * SECTORS_PER_BLOCK + i,
            tiles(
                Seq::new(parts@.len(), |i: int| (parts@[i].first(), parts@[i].limit())),
                self.first(),
                self.limit(),
            ),
    {
        proof {
            use_type_invariant(self);
        }
        let first: u32 = self.0 * SECTORS_PER_BLOCK;
        let mut parts: Vec<Sector> = Vec::new();
        let mut i: u32 = 0;
        while i < SECTORS_PER_BLOCK
            invariant
                i <= SECTORS_PER_BLOCK,
                self.0 < NUMBER_OF_BLOCKS,
                first == self.0 * SECTORS_PER_BLOCK,
                parts@.len() == i,
                forall|k: int| 0 <= k < parts@.len() ==> (#[trigger] parts@[k]).index() == first + k,
            decreases SECTORS_PER_BLOCK - i,
        {
            parts.push(Sector(first + i));
            i = i + 1;
        }
        parts
    }

    /// The two half blocks of the block, in ascending address order.
    pub fn halfblocks(&self) -> (parts: Vec<HalfBlock>)
        ensures
            parts@.len() == HALFBLOCKS_PER_BLOCK,
            forall|i: int|
                0 <= i < parts@.len() ==> (#[trigger] parts@[i]).index() == self.index()
                    * HALFBLOCKS_PER_BLOCK + i,
            tiles(
                Seq::new(parts@.len(), |i: int| (parts@[i].first(), parts@[i].limit())),
                self.first(),
                self.limit(),
            ),
    {
        proof {
            use_type_invariant(self);
        }
        let first: u32 = self.0 * HALFBLOCKS_PER_BLOCK;
        let mut parts: Vec<HalfBlock> = Vec::new();
        let mut i: u32 = 0;
        while i < HALFBLOCKS_PER_BLOCK
            invariant
                i <= HALFBLOCKS_PER_BLOCK,
                self.0 < NUMBER_OF_BLOCKS,
                first == self.0 * HALFBLOCKS_PER_BLOCK,
                parts@.len() == i,
                forall|k: int| 0 <= k < parts@.len() ==> (#[trigger] parts@[k]).index() == first + k,
            decreases HALFBLOCKS_PER_BLOCK - i,
        {
            parts.push(HalfBlock(first + i));
            i = i + 1;
        }
        parts
    }

    /// The pages of the block, in ascending address order.
    pub fn pages(&self) -> (parts: Vec<Page>)
        ensures
            parts@.len() == PAGES_PER_BLOCK,
            forall|i: int|
                0 <= i < parts@.len() ==> (#[trigger] parts@[i]).index() == self.index()
                    * PAGES_PER_BLOCK + i,
            tiles(
                Seq::new(parts@.len(), |i: int| (parts@[i].first(), parts@[i].limit())),
                self.first(),
                self.limit(),
            ),
    {
        proof {
            use_type_invariant(self);
        }
        let first: u32 = self.0 * PAGES_PER_BLOCK;
        let mut parts: Vec<Page> = Vec::new();
        let mut i: u32 = 0;
        while i < PAGES_PER_BLOCK
            invariant
                i <= PAGES_PER_BLOCK,
                self.0 < NUMBER_OF_BLOCKS,
                first == self.0 * PAGES_PER_BLOCK,
                parts@.len() == i,
                forall|k: int| 0 <= k < parts@.len() ==> (#[trigger] parts@[k]).index() == first + k,
            decreases PAGES_PER_BLOCK - i,
        {
            parts.push(Page(first + i));
            i = i + 1;
        }
        parts
    }

    /// First address of the block.
    pub fn start(&self) -> (address: u32)
        ensures
            address == self.first(),
            address + BLOCK_SIZE <= BASE_ADDRESS + MEMORY_SIZE,
    {
        proof {
            use_type_invariant(self);
        }
        BASE_ADDRESS + self.0 * BLOCK_SIZE
    }

    /// First address after the block.
    pub fn end(&self) -> (address: u32)
        ensures
            address == self.limit(),
    {
        self.start() + BLOCK_SIZE
    }

    /// Whether `address` lies in the block.
    pub fn contains(&self, address: u32) -> (inside: bool)
        ensures
            inside == self.holds(address as nat),
    {
        let start = self.start();
        (start <= address) && (address < start + BLOCK_SIZE)
    }

    /// The block that holds `address`, if the chip has that address.
    pub fn at(address: u32) -> (found: Option<Self>)
        ensures
            found is Some <==> address < MEMORY_SIZE,
            found matches Some(block) ==> block.index() == region_of(
                BLOCK_SIZE as nat,
                address as nat,
            ) && block.holds(address as nat),
    {
        if address < MEMORY_SIZE {
            Some(Block(address / BLOCK_SIZE))
        } else {
            None
        }
    }

    /// Size of a block in bytes.
    pub fn size() -> (bytes: usize)
        ensures
            bytes == BLOCK_SIZE,
    {
        65536
    }
}

impl HalfBlock {
    /// A half block value always numbers a half block of the chip.
    #[verifier::type_invariant]
    pub open spec fn in_range(self) -> bool {
        self.index() < NUMBER_OF_HALFBLOCKS
    }

    /// Number of the half block, counted from the base address.
    pub closed spec fn index(self) -> nat {
        self.0 as nat
    }

    /// First address of the half block.
    pub open spec fn first(self) -> nat {
        region_start(HALFBLOCK_SIZE as nat, self.index())
    }

    /// First address after the half block.
    pub open spec fn limit(self) -> nat {
        region_end(HALFBLOCK_SIZE as nat, self.index())
    }

    /// Whether `address` lies in the half block.
    pub open spec fn holds(self, address: nat) -> bool {
        region_contains(HALFBLOCK_SIZE as nat, self.index(), address)
    }

    /// The sectors of the half block, in ascending address order.
    pub fn sectors(&self) -> (parts: Vec<Sector>)
        ensures
            parts@.len() == SECTORS_PER_HALFBLOCK,
            forall|i: int|
                0 <= i < parts@.len() ==> (#[trigger] parts@[i]).index() == self.index()
                    * SECTORS_PER_HALFBLOCK + i,
            tiles(
                Seq::new(parts@.len(), |i: int| (parts@[i].first(), parts@[i].limit())),
                self.first(),
                self.limit(),
            ),
    {
        proof {
            use_type_invariant(self);
        }
        let first: u32 = self.0 * SECTORS_PER_HALFBLOCK;
        let mut parts: Vec<Sector> = Vec::new();
        let mut i: u32 = 0;
        while i < SECTORS_PER_HALFBLOCK
            invariant
                i <= SECTORS_PER_HALFBLOCK,
                self.0 < NUMBER_OF_HALFBLOCKS,
                first == self.0 * SECTORS_PER_HALFBLOCK,
                parts@.len() == i,
                forall|k: int| 0 <= k < parts@.len() ==> (#[trigger] parts@[k]).index() == first + k,
            decreases SECTORS_PER_HALFBLOCK - i,
        {
            parts.push(Sector(first + i));
            i = i + 1;
        }
        parts
    }

    /// The pages of the half block, in ascending address order.
    pub fn pages(&self) -> (parts: Vec<Page>)
        ensures
            parts@.len() == PAGES_PER_HALFBLOCK,
            forall|i: int|
                0 <= i < parts@.len() ==> (#[trigger] parts@[i]).index() == self.index()
                    * PAGES_PER_HALFBLOCK + i,
            tiles(
                Seq::new(parts@.len(), |i: int| (parts@[i].first(), parts@[i].limit())),
                self.first(),
                self.limit(),
            ),
    {
        proof {
            use_type_invariant(self);
        }
        let first: u32 = self.0 * PAGES_PER_HALFBLOCK;
        let mut parts: Vec<Page> = Vec::new();
        let mut i: u32 = 0;
        while i < PAGES_PER_HALFBLOCK
            invariant
                i <= PAGES_PER_HALFBLOCK,
                self.0 < NUMBER_OF_HALFBLOCKS,
                first == self.0 * PAGES_PER_HALFBLOCK,
                parts@.len() == i,
                forall|k: int| 0 <= k < parts@.len() ==> (#[trigger] parts@[k]).index() == first + k,
            decreases PAGES_PER_HALFBLOCK - i,
        {
            parts.push(Page(first + i));
            i = i + 1;
        }
        parts
    }

    /// First address of the half block.
    pub fn start(&self) -> (address: u32)
        ensures
            address == self.first(),
            address + HALFBLOCK_SIZE <= BASE_ADDRESS + MEMORY_SIZE,
    {
        proof {
            use_type_invariant(self);
        }
        BASE_ADDRESS + self.0 * HALFBLOCK_SIZE
    }

    /// First address after the half block.
    pub fn end(&self) -> (address: u32)
        ensures
            address == self.limit(),
    {
        self.start() + HALFBLOCK_SIZE
    }

    /// Whether `address` lies in the half block.
    pub fn contains(&self, address: u32) -> (inside: bool)
        ensures
            inside == self.holds(address as nat),
    {
        let start = self.start();
        (start <= address) && (address < start + HALFBLOCK_SIZE)
    }

    /// The half block that holds `address`, if the chip has that address.
    pub fn at(address: u32) -> (found: Option<Self>)
        ensures
            found is Some <==> address < MEMORY_SIZE,
            found matches Some(halfblock) ==> halfblock.index() == region_of(
                HALFBLOCK_SIZE as nat,
                address as nat,
            ) && halfblock.holds(address as nat),
    {
        if address < MEMORY_SIZE {
            Some(HalfBlock(address / HALFBLOCK_SIZE))
        } else {
            None
        }
    }

    /// Size of a half block in bytes.
    pub fn size() -> (bytes: usize)
        ensures
            bytes == HALFBLOCK_SIZE,
    {
        32768
    }
}

impl Sector {
    /// A sector value always numbers a sector of the chip.
    #[verifier::type_invariant]
    pub open spec fn in_range(self) -> bool {
        self.index() < NUMBER_OF_SECTORS
    }

    /// Number of the sector, counted from the base address.
    pub closed spec fn index(self) -> nat {
        self.0 as nat
    }

    /// First address of the sector.
    pub open spec fn first(self) -> nat {
        region_start(SECTOR_SIZE as nat, self.index())
    }

    /// First address after the sector.
    pub open spec fn limit(self) -> nat {
        region_end(SECTOR_SIZE as nat, self.index())
    }

    /// Whether `address` lies in the sector.
    pub open spec fn holds(self, address: nat) -> bool {
        region_contains(SECTOR_SIZE as nat, self.index(), address)
    }

    /// The pages of the sector, in ascending address order.
    pub fn pages(&self) -> (parts: Vec<Page>)
        ensures
            parts@.len() == PAGES_PER_SECTOR,
            forall|i: int|
                0 <= i < parts@.len() ==> (#[trigger] parts@[i]).index() == self.index()
                    * PAGES_PER_SECTOR + i,
            tiles(
                Seq::new(parts@.len(), |i: int| (parts@[i].first(), parts@[i].limit())),
                self.first(),
                self.limit(),
            ),
    {
        proof {
            use_type_invariant(self);
        }
        let first: u32 = self.0 * PAGES_PER_SECTOR;
        let mut parts: Vec<Page> = Vec::new();
        let mut i: u32 = 0;
        while i < PAGES_PER_SECTOR
            invariant
                i <= PAGES_PER_SECTOR,
                self.0 < NUMBER_OF_SECTORS,
                first == self.0 * PAGES_PER_SECTOR,
                parts@.len() == i,
                forall|k: int| 0 <= k < parts@.len() ==> (#[trigger] parts@[k]).index() == first + k,
            decreases PAGES_PER_SECTOR - i,
        {
            parts.push(Page(first + i));
            i = i + 1;
        }
        parts
    }

    /// First address of the sector.
    pub fn start(&self) -> (address: u32)
        ensures
            address == self.first(),
            address + SECTOR_SIZE <= BASE_ADDRESS + MEMORY_SIZE,
    {
        proof {
            use_type_invariant(self);
        }
        BASE_ADDRESS + self.0 * SECTOR_SIZE
    }

    /// First address after the sector.
    pub fn end(&self) -> (address: u32)
        ensures
            address == self.limit(),
    {
        self.start() + SECTOR_SIZE
    }

    /// Whether `address` lies in the sector.
    pub fn contains(&self, address: u32) -> (inside: bool)
        ensures
            inside == self.holds(address as nat),
    {
        let start = self.start();
        (start <= address) && (address < start + SECTOR_SIZE)
    }

    /// The sector that holds `address`, if the chip has that address.
    pub fn at(address: u32) -> (found: Option<Self>)
        ensures
            found is Some <==> address < MEMORY_SIZE,
            found matches Some(sector) ==> sector.index() == region_of(
                SECTOR_SIZE as nat,
                address as nat,
            ) && sector.holds(address as nat),
    {
        if address < MEMORY_SIZE {
            Some(Sector(address / SECTOR_SIZE))
        } else {
            None
        }
    }

    /// Size of a sector in bytes.
    pub fn size() -> (bytes: usize)
        ensures
            bytes == SECTOR_SIZE,
    {
        4096
    }
}

impl Page {
    /// A page value always numbers a page of the chip.
    #[verifier::type_invariant]
    pub open spec fn in_range(self) -> bool {
        self.index() < NUMBER_OF_PAGES
    }

    /// Number of the page, counted from the base address.
    pub closed spec fn index(self) -> nat {
        self.0 as nat
    }

    /// First address of the page.
    pub open spec fn first(self) -> nat {
        region_start(PAGE_SIZE as nat, self.index())
    }

    /// First address after the page.
    pub open spec fn limit(self) -> nat {
        region_end(PAGE_SIZE as nat, self.index())
    }

    /// Whether `address` lies in the page.
    pub open spec fn holds(self, address: nat) -> bool {
        region_contains(PAGE_SIZE as nat, self.index(), address)
    }

    /// First address of the page.
    pub fn start(&self) -> (address: u32)
        ensures
            address == self.first(),
            address + PAGE_SIZE <= BASE_ADDRESS + MEMORY_SIZE,
    {
        proof {
            use_type_invariant(self);
        }
        BASE_ADDRESS + self.0 * PAGE_SIZE
    }

    /// First address after the page.
    pub fn end(&self) -> (address: u32)
        ensures
            address == self.limit(),
    {
        self.start() + PAGE_SIZE
    }

    /// Whether `address` lies in the page.
    pub fn contains(&self, address: u32) -> (inside: bool)
        ensures
            inside == self.holds(address as nat),
    {
        let start = self.start();
        (start <= address) && (address < start + PAGE_SIZE)
    }

    /// The page that holds `address`, if the chip has that address.
    pub fn at(address: u32) -> (found: Option<Self>)
        ensures
            found is Some <==> address < MEMORY_SIZE,
            found matches Some(page) ==> page.index() == region_of(
                PAGE_SIZE as nat,
                address as nat,
            ) && page.holds(address as nat),
    {
        if address < MEMORY_SIZE {
            Some(Page(address / PAGE_SIZE))
        } else {
            None
        }
    }

    /// Size of a page in bytes.
    pub fn size() -> (bytes: usize)
        ensures
            bytes == PAGE_SIZE,
    {
        256
    }
}

/// Every address of the chip lies in exactly one region of each tier: in
/// the block, the half block, the sector and the page whose number is the
/// address divided by the size of the tier, and in no other.
pub proof fn lemma_one_region_of_each_tier(address: u32)
    requires
        address < MEMORY_SIZE,
    ensures
        exists|block: Block| block.in_range() && #[trigger] block.holds(address as nat),
        exists|halfblock: HalfBlock|
            halfblock.in_range() && #[trigger] halfblock.holds(address as nat),
        exists|sector: Sector| sector.in_range() && #[trigger] sector.holds(address as nat),
        exists|page: Page| page.in_range() && #[trigger] page.holds(address as nat),
        forall|a: Block, b: Block| a.holds(address as nat) && b.holds(address as nat) ==> a == b,
        forall|a: HalfBlock, b: HalfBlock|
            a.holds(address as nat) && b.holds(address as nat) ==> a == b,
        forall|a: Sector, b: Sector| a.holds(address as nat) && b.holds(address as nat) ==> a == b,
        forall|a: Page, b: Page| a.holds(address as nat) && b.holds(address as nat) ==> a == b,
        forall|block: Block|
            block.holds(address as nat) ==> block.index() == address / BLOCK_SIZE
                && block.in_range(),
        forall|halfblock: HalfBlock|
            halfblock.holds(address as nat) ==> halfblock.index() == address / HALFBLOCK_SIZE
                && halfblock.in_range(),
        forall|sector: Sector|
            sector.holds(address as nat) ==> sector.index() == address / SECTOR_SIZE
                && sector.in_range(),
        forall|page: Page|
            page.holds(address as nat) ==> page.index() == address / PAGE_SIZE && page.in_range(),
{
    let block = Block(address / BLOCK_SIZE);
    assert(block.in_range() && block.holds(address as nat));
    let halfblock = HalfBlock(address / HALFBLOCK_SIZE);
    assert(halfblock.in_range() && halfblock.holds(address as nat));
    let sector = Sector(address / SECTOR_SIZE);
    assert(sector.in_range() && sector.holds(address as nat));
    let page = Page(address / PAGE_SIZE);
    assert(page.in_range() && page.holds(address as nat));
}

/// The region that holds an address starts at the last multiple of the
/// size of the region that is not beyond the address.
pub proof fn lemma_region_start(size: nat, address: nat)
    requires
        size > 0,
    ensures
        region_start(size, region_of(size, address)) == address - address % size,
{
    vstd::arithmetic::div_mod::lemma_fundamental_div_mod(address as int, size as int);
    vstd::arithmetic::mul::lemma_mul_is_commutative(size as int, address as int / (size as int));
}

} // verus!
