//! The image format of the ESP-IDF second-stage bootloader: building the
//! application image and exposing the artifacts to be flashed.

use vstd::prelude::*;

use esp_idf_part::PartitionTable;

use crate::assembly::{app_image_body, assemble_app_image, fits_header};
use crate::digest::{sha256, sha256_of};
use crate::error::Error;
use crate::flash::{patch_bootloader, patched_bootloader, Chip, FlashFrequency, FlashMode, FlashSize};
use crate::partition::{
    app_partition, partition_count, partition_table_bin, select_app_partition, table_bin,
    table_partitions, MAX_PARTITIONS,
};
use crate::segment::{merge_adjacent_segments, merged, models, CodeSegment, RomSegment};

verus! {

/// What an image build needs to know of the chip family.
pub struct Esp32Params {
    /// Where the bootloader is written.
    pub boot_addr: u32,
    /// Where the partition table is written.
    pub partition_addr: u32,
    /// Identifier written into the extended header.
    pub chip_id: u16,
    /// The bootloader used when none is given.
    pub default_bootloader: Vec<u8>,
}

/// What a successful build produces, as values.
pub struct BuildOutput {
    pub bootloader: Seq<u8>,
    pub image: Seq<u8>,
    pub part_offset: u32,
    pub part_size: u32,
}

/// The application image's size as reported: its length, saturated to 32 bits.
pub open spec fn reported_size(len: nat) -> u32 {
    if len <= u32::MAX {
        len as u32
    } else {
        u32::MAX
    }
}

/// The application image: the assembled body followed by its digest.
pub open spec fn app_image(
    boot: Seq<u8>,
    entry: u32,
    chip_id: u16,
    flash: Seq<crate::segment::SegModel>,
    ram: Seq<crate::segment::SegModel>,
) -> Seq<u8> {
    let body = app_image_body(boot, entry, chip_id, merged(flash), merged(ram));
    body + sha256_of(body)
}

/// The outcome of a build: the bootloader is checked and patched, the
/// application image assembled, the receiving partition chosen, and the image
/// rejected where it is larger than that partition.
pub open spec fn build(
    entry: u32,
    flash: Seq<crate::segment::SegModel>,
    ram: Seq<crate::segment::SegModel>,
    chip: Chip,
    chip_id: u16,
    bootloader: Seq<u8>,
    parts: Seq<crate::partition::PartitionModel>,
    mode: Option<FlashMode>,
    size: Option<FlashSize>,
    freq: Option<FlashFrequency>,
) -> Result<BuildOutput, Error> {
    match patched_bootloader(bootloader, chip, mode, size, freq) {
        Err(e) => Err(e),
        Ok(boot) => {
            let image = app_image(boot, entry, chip_id, flash, ram);
            match app_partition(parts) {
                None => Err(Error::NoAppPartition),
                Some((offset, psize)) => if image.len() > psize {
                    Err(Error::ElfTooBig(reported_size(image.len()), psize))
                } else {
                    Ok(BuildOutput { bootloader: boot, image, part_offset: offset, part_size: psize })
                },
            }
        },
    }
}

/// Image format for ESP32 family chips using the second-stage bootloader from
/// ESP-IDF.
pub struct IdfBootloaderFormat {
    params: Esp32Params,
    bootloader: Vec<u8>,
    partition_table: PartitionTable,
    flash_segment: RomSegment,
    app_size: u32,
    part_size: u32,
}

impl IdfBootloaderFormat {
    /// The bootloader as it will be written.
    pub closed spec fn spec_bootloader(&self) -> Seq<u8> {
        self.bootloader@
    }

    /// The application image.
    pub closed spec fn spec_image(&self) -> Seq<u8> {
        self.flash_segment.data@
    }

    /// Where the application image is written.
    pub closed spec fn spec_image_addr(&self) -> u32 {
        self.flash_segment.addr
    }

    /// The reported size of the application image.
    pub closed spec fn spec_app_size(&self) -> u32 {
        self.app_size
    }

    /// The size of the receiving partition.
    pub closed spec fn spec_part_size(&self) -> u32 {
        self.part_size
    }

    /// The chip parameters the image was built with.
    pub closed spec fn spec_params(&self) -> Esp32Params {
        self.params
    }

    /// The partition table the image was placed by.
    pub closed spec fn spec_table(&self) -> PartitionTable {
        self.partition_table
    }

    /// Builds the application image of a firmware with entry point `entry`
    /// and the given flash-mapped and RAM segments, and chooses where it goes.
    pub fn new(
        entry: u32,
        flash_segments: Vec<CodeSegment>,
        ram_segments: Vec<CodeSegment>,
        chip: Chip,
        params: Esp32Params,
        partition_table: PartitionTable,
        bootloader: Option<Vec<u8>>,
        flash_mode: Option<FlashMode>,
        flash_size: Option<FlashSize>,
        flash_freq: Option<FlashFrequency>,
    ) -> (r: Result<Self, Error>)
        requires
            fits_header(merged(models(flash_segments@))),
            fits_header(merged(models(ram_segments@))),
        ensures
            match build(
                entry,
                models(flash_segments@),
                models(ram_segments@),
                chip,
                params.chip_id,
                match bootloader {
                    Some(b) => b@,
                    None => params.default_bootloader@,
                },
                table_partitions(partition_table),
                flash_mode,
                flash_size,
                flash_freq,
            ) {
                Ok(out) => r matches Ok(f) && f.spec_bootloader() == out.bootloader
                    && f.spec_image() == out.image && f.spec_image_addr() == out.part_offset
                    && f.spec_app_size() == out.image.len() && f.spec_part_size() == out.part_size
                    && f.spec_params() == params && f.spec_table() == partition_table,
                Err(e) => r == Err::<Self, Error>(e),
            },
    {
        let boot_bytes = match bootloader {
            Some(b) => b,
            None => copy_bytes(&params.default_bootloader),
        };
        let boot = patch_bootloader(boot_bytes, chip, flash_mode, flash_size, flash_freq)?;
        let flash = merge_adjacent_segments(flash_segments);
        let ram = merge_adjacent_segments(ram_segments);
        let mut data = assemble_app_image(&boot, entry, params.chip_id, flash, ram);
        let hash = sha256(data.as_slice());
        let ghost body = data@;
        let mut i: usize = 0;
        while i < hash.len()
            invariant
                i <= hash@.len(),
                data@ == body + hash@.take(i as int),
            decreases hash@.len() - i,
        {
            data.push(hash[i]);
            i = i + 1;
            assert(data@ =~= body + hash@.take(i as int));
        }
        assert(hash@.take(i as int) =~= hash@);
        let (offset, part_size) = match select_app_partition(&partition_table) {
            Some(p) => p,
            None => {
                return Err(Error::NoAppPartition);
            },
        };
        if data.len() > part_size as usize {
            let app_size: u32 = if data.len() <= u32::MAX as usize {
                data.len() as u32
            } else {
                u32::MAX
            };
            return Err(Error::ElfTooBig(app_size, part_size));
        }
        let app_size = data.len() as u32;
        Ok(IdfBootloaderFormat {
            params,
            bootloader: boot,
            partition_table,
            flash_segment: RomSegment { addr: offset, data },
            app_size,
            part_size,
        })
    }

    /// Everything to flash, in order: the bootloader at the chip's boot
    /// address, the partition table at the chip's partition-table address,
    /// then the application image at its partition's offset. Fails only where
    /// the table has more partitions than its binary form can hold.
    pub fn flash_segments(&self) -> (r: Result<Vec<RomSegment>, Error>)
        ensures
            table_partitions(self.spec_table()).len() > MAX_PARTITIONS ==> r == Err::<
                Vec<RomSegment>,
                Error,
            >(Error::InvalidPartitionTable),
            table_partitions(self.spec_table()).len() <= MAX_PARTITIONS ==> r is Ok,
            r matches Ok(v) ==> v@.len() == 3 && v@[0].addr == self.spec_params().boot_addr && v@[0].data@
                == self.spec_bootloader() && v@[1].addr == self.spec_params().partition_addr
                && v@[1].data@ == table_bin(self.spec_table()) && v@[2].addr
                == self.spec_image_addr() && v@[2].data@ == self.spec_image(),
    {
        if partition_count(&self.partition_table) > MAX_PARTITIONS {
            return Err(Error::InvalidPartitionTable);
        }
        let table = match partition_table_bin(&self.partition_table) {
            Some(t) => t,
            None => {
                return Err(Error::InvalidPartitionTable);
            },
        };
        let mut out: Vec<RomSegment> = Vec::new();
        out.push(RomSegment { addr: self.params.boot_addr, data: copy_bytes(&self.bootloader) });
        out.push(RomSegment { addr: self.params.partition_addr, data: table });
        out.push(self.app_segment());
        Ok(out)
    }

    /// What an over-the-air update writes: the application image alone.
    pub fn ota_segments(&self) -> (r: Vec<RomSegment>)
        ensures
            r@.len() == 1,
            r@[0].addr == self.spec_image_addr(),
            r@[0].data@ == self.spec_image(),
    {
        let mut out: Vec<RomSegment> = Vec::new();
        out.push(self.app_segment());
        out
    }

    /// The application image at its partition's offset.
    fn app_segment(&self) -> (r: RomSegment)
        ensures
            r.addr == self.spec_image_addr(),
            r.data@ == self.spec_image(),
    {
        RomSegment { addr: self.flash_segment.addr, data: copy_bytes(&self.flash_segment.data) }
    }

    /// Size of the application image in bytes.
    pub fn app_size(&self) -> (r: u32)
        ensures
            r == self.spec_app_size(),
    {
        self.app_size
    }

    /// Size of the partition that receives the application image.
    pub fn part_size(&self) -> (r: Option<u32>)
        ensures
            r == Some(self.spec_part_size()),
    {
        Some(self.part_size)
    }
}

/// Rebuilding from identical inputs gives a byte-identical result: any two
/// formats that `new` can return for the same inputs hold the same
/// bootloader and the same application image at the same place.
pub proof fn lemma_build_reproducible(
    entry: u32,
    flash: Seq<crate::segment::SegModel>,
    ram: Seq<crate::segment::SegModel>,
    chip: Chip,
    chip_id: u16,
    bootloader: Seq<u8>,
    parts: Seq<crate::partition::PartitionModel>,
    mode: Option<FlashMode>,
    size: Option<FlashSize>,
    freq: Option<FlashFrequency>,
    f1: IdfBootloaderFormat,
    f2: IdfBootloaderFormat,
)
    requires
        ({
            let r = build(entry, flash, ram, chip, chip_id, bootloader, parts, mode, size, freq);
            &&& r is Ok
            &&& f1.spec_bootloader() == r->Ok_0.bootloader && f1.spec_image() == r->Ok_0.image
                && f1.spec_image_addr() == r->Ok_0.part_offset
            &&& f2.spec_bootloader() == r->Ok_0.bootloader && f2.spec_image() == r->Ok_0.image
                && f2.spec_image_addr() == r->Ok_0.part_offset
        }),
    ensures
        f1.spec_bootloader() == f2.spec_bootloader(),
        f1.spec_image() == f2.spec_image(),
        f1.spec_image_addr() == f2.spec_image_addr(),
{
}

/// A copy of `v`.
fn copy_bytes(v: &Vec<u8>) -> (r: Vec<u8>)
    ensures
        r@ == v@,
{
    let mut out: Vec<u8> = Vec::new();
    let mut i: usize = 0;
    while i < v.len()
        invariant
            i <= v@.len(),
            out@ == v@.take(i as int),
        decreases v@.len() - i,
    {
        out.push(v[i]);
        i = i + 1;
        assert(out@ =~= v@.take(i as int));
    }
    assert(v@.take(i as int) =~= v@);
    out
}

} // verus!
