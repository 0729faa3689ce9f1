//! Flash parameters and the patching of a bootloader's common header.

use vstd::prelude::*;

use crate::error::Error;
use crate::layout::ESP_MAGIC;

verus! {

/// SPI access mode of the flash chip.
#[derive(Clone, Copy, Debug, PartialEq, Eq, Structural)]
pub enum FlashMode {
    Qio,
    Qout,
    Dio,
    Dout,
}

/// Capacity of the flash chip.
#[derive(Clone, Copy, Debug, PartialEq, Eq, Structural)]
pub enum FlashSize {
    _256Kb,
    _512Kb,
    _1Mb,
    _2Mb,
    _4Mb,
    _8Mb,
    _16Mb,
    _32Mb,
    _64Mb,
    _128Mb,
    _256Mb,
}

/// Clock frequency of the flash chip.
#[derive(Clone, Copy, Debug, PartialEq, Eq, Structural)]
pub enum FlashFrequency {
    _12Mhz,
    _15Mhz,
    _16Mhz,
    _20Mhz,
    _24Mhz,
    _26Mhz,
    _30Mhz,
    _40Mhz,
    _48Mhz,
    _60Mhz,
    _80Mhz,
}

/// Supported chip families.
#[derive(Clone, Copy, Debug, PartialEq, Eq, Structural)]
pub enum Chip {
    Esp32,
    Esp32c2,
    Esp32c3,
    Esp32h2,
    Esp32s2,
    Esp32s3,
}

/// The flash-mode byte of a mode.
pub open spec fn mode_byte(mode: FlashMode) -> u8 {
    match mode {
        FlashMode::Qio => 0,
        FlashMode::Qout => 1,
        FlashMode::Dio => 2,
        FlashMode::Dout => 3,
    }
}

/// The mode's value in the header's flash-mode byte.
pub fn encode_flash_mode(mode: FlashMode) -> (r: u8)
    ensures
        r == mode_byte(mode),
{
    match mode {
        FlashMode::Qio => 0,
        FlashMode::Qout => 1,
        FlashMode::Dio => 2,
        FlashMode::Dout => 3,
    }
}

/// The identifier of a flash size.
pub open spec fn size_id(size: FlashSize) -> u8 {
    match size {
        FlashSize::_256Kb => 0x12,
        FlashSize::_512Kb => 0x13,
        FlashSize::_1Mb => 0x14,
        FlashSize::_2Mb => 0x15,
        FlashSize::_4Mb => 0x16,
        FlashSize::_8Mb => 0x17,
        FlashSize::_16Mb => 0x18,
        FlashSize::_32Mb => 0x19,
        FlashSize::_64Mb => 0x1a,
        FlashSize::_128Mb => 0x21,
        FlashSize::_256Mb => 0x22,
    }
}

impl FlashSize {
    /// The identifier that a flash chip reports for this capacity.
    pub fn id(&self) -> (r: u8)
        ensures
            r == size_id(*self),
    {
        match self {
            FlashSize::_256Kb => 0x12,
            FlashSize::_512Kb => 0x13,
            FlashSize::_1Mb => 0x14,
            FlashSize::_2Mb => 0x15,
            FlashSize::_4Mb => 0x16,
            FlashSize::_8Mb => 0x17,
            FlashSize::_16Mb => 0x18,
            FlashSize::_32Mb => 0x19,
            FlashSize::_64Mb => 0x1a,
            FlashSize::_128Mb => 0x21,
            FlashSize::_256Mb => 0x22,
        }
    }
}

/// The size bits of the flash-config byte, where the bootloader has a code for
/// the capacity.
pub open spec fn size_code(size: FlashSize) -> Option<u8> {
    match size {
        FlashSize::_1Mb => Some(0x00u8),
        FlashSize::_2Mb => Some(0x10u8),
        FlashSize::_4Mb => Some(0x20u8),
        FlashSize::_8Mb => Some(0x30u8),
        FlashSize::_16Mb => Some(0x40u8),
        FlashSize::_32Mb => Some(0x19u8),
        FlashSize::_64Mb => Some(0x1au8),
        FlashSize::_128Mb => Some(0x21u8),
        _ => None,
    }
}

/// The frequency bits of the flash-config byte, where the chip family has a
/// code for the frequency.
pub open spec fn frequency_code(chip: Chip, freq: FlashFrequency) -> Option<u8> {
    match chip {
        Chip::Esp32c2 => match freq {
            FlashFrequency::_15Mhz => Some(0x2u8),
            FlashFrequency::_20Mhz => Some(0x1u8),
            FlashFrequency::_30Mhz => Some(0x0u8),
            FlashFrequency::_60Mhz => Some(0xfu8),
            _ => None,
        },
        Chip::Esp32h2 => match freq {
            FlashFrequency::_12Mhz => Some(0x2u8),
            FlashFrequency::_16Mhz => Some(0x1u8),
            FlashFrequency::_24Mhz => Some(0x0u8),
            FlashFrequency::_48Mhz => Some(0xfu8),
            _ => None,
        },
        _ => match freq {
            FlashFrequency::_20Mhz => Some(0x2u8),
            FlashFrequency::_26Mhz => Some(0x1u8),
            FlashFrequency::_40Mhz => Some(0x0u8),
            FlashFrequency::_80Mhz => Some(0xfu8),
            _ => None,
        },
    }
}

/// Encodes the flash size for the header, or fails with `UnsupportedFlash`.
pub fn encode_flash_size(size: FlashSize) -> (r: Result<u8, Error>)
    ensures
        match size_code(size) {
            Some(c) => r == Ok::<u8, Error>(c),
            None => r == Err::<u8, Error>(Error::UnsupportedFlash(size_id(size))),
        },
{
    match size {
        FlashSize::_1Mb => Ok(0x00),
        FlashSize::_2Mb => Ok(0x10),
        FlashSize::_4Mb => Ok(0x20),
        FlashSize::_8Mb => Ok(0x30),
        FlashSize::_16Mb => Ok(0x40),
        FlashSize::_32Mb => Ok(0x19),
        FlashSize::_64Mb => Ok(0x1a),
        FlashSize::_128Mb => Ok(0x21),
        _ => Err(Error::UnsupportedFlash(size.id())),
    }
}

/// Encodes the flash frequency for the given chip family, or fails with
/// `UnsupportedFlashFrequency`.
pub fn encode_flash_frequency(chip: Chip, freq: FlashFrequency) -> (r: Result<u8, Error>)
    ensures
        match frequency_code(chip, freq) {
            Some(c) => r == Ok::<u8, Error>(c),
            None => r == Err::<u8, Error>(Error::UnsupportedFlashFrequency),
        },
{
    match chip {
        Chip::Esp32c2 => match freq {
            FlashFrequency::_15Mhz => Ok(0x2),
            FlashFrequency::_20Mhz => Ok(0x1),
            FlashFrequency::_30Mhz => Ok(0x0),
            FlashFrequency::_60Mhz => Ok(0xf),
            _ => Err(Error::UnsupportedFlashFrequency),
        },
        Chip::Esp32h2 => match freq {
            FlashFrequency::_12Mhz => Ok(0x2),
            FlashFrequency::_16Mhz => Ok(0x1),
            FlashFrequency::_24Mhz => Ok(0x0),
            FlashFrequency::_48Mhz => Ok(0xf),
            _ => Err(Error::UnsupportedFlashFrequency),
        },
        _ => match freq {
            FlashFrequency::_20Mhz => Ok(0x2),
            FlashFrequency::_26Mhz => Ok(0x1),
            FlashFrequency::_40Mhz => Ok(0x0),
            FlashFrequency::_80Mhz => Ok(0xf),
            _ => Err(Error::UnsupportedFlashFrequency),
        },
    }
}

/// Whether `b` starts with a common header carrying the image magic.
pub open spec fn is_bootloader(b: Seq<u8>) -> bool {
    b.len() >= 8 && b[0] == ESP_MAGIC
}

/// The flash-config byte after the overrides: a size replaces the high bits,
/// a frequency the low bits, each leaving the other part as it was.
pub open spec fn patched_config(
    old_config: u8,
    chip: Chip,
    size: Option<FlashSize>,
    freq: Option<FlashFrequency>,
) -> Result<u8, Error> {
    match (size, freq) {
        (None, None) => Ok(old_config),
        (Some(s), _) if size_code(s) is None => Err(Error::UnsupportedFlash(size_id(s))),
        (_, Some(f)) if frequency_code(chip, f) is None => Err(Error::UnsupportedFlashFrequency),
        (Some(s), Some(f)) => Ok((size_code(s).unwrap() & 0xf0) | frequency_code(chip, f).unwrap()),
        (Some(s), None) => Ok((size_code(s).unwrap() & 0xf0) | (old_config & 0x0f)),
        (None, Some(f)) => Ok((old_config & 0xf0) | frequency_code(chip, f).unwrap()),
    }
}

/// The bootloader after the overrides, or why it cannot be used.
pub open spec fn patched_bootloader(
    b: Seq<u8>,
    chip: Chip,
    mode: Option<FlashMode>,
    size: Option<FlashSize>,
    freq: Option<FlashFrequency>,
) -> Result<Seq<u8>, Error> {
    if !is_bootloader(b) {
        Err(Error::InvalidBootloader)
    } else {
        match patched_config(b[3], chip, size, freq) {
            Err(e) => Err(e),
            Ok(cfg) => {
                let mode_b = match mode {
                    Some(m) => mode_byte(m),
                    None => b[2],
                };
                Ok(b.update(2, mode_b).update(3, cfg))
            },
        }
    }
}

/// Computes the flash-config byte that the overrides give.
pub fn patch_flash_config(
    old_config: u8,
    chip: Chip,
    size: Option<FlashSize>,
    freq: Option<FlashFrequency>,
) -> (r: Result<u8, Error>)
    ensures
        r == patched_config(old_config, chip, size, freq),
{
    match (size, freq) {
        (Some(s), Some(f)) => {
            let sc = encode_flash_size(s)?;
            let fc = encode_flash_frequency(chip, f)?;
            Ok((sc & 0xf0) | fc)
        },
        (Some(s), None) => {
            let sc = encode_flash_size(s)?;
            Ok((sc & 0xf0) | (old_config & 0x0f))
        },
        (None, Some(f)) => {
            let fc = encode_flash_frequency(chip, f)?;
            Ok((old_config & 0xf0) | fc)
        },
        (None, None) => Ok(old_config),
    }
}

/// Checks that `bootloader` starts with a valid common header and applies the
/// overrides in place: the mode replaces byte 2, size and frequency patch
/// byte 3. Nothing else changes.
pub fn patch_bootloader(
    bootloader: Vec<u8>,
    chip: Chip,
    mode: Option<FlashMode>,
    size: Option<FlashSize>,
    freq: Option<FlashFrequency>,
) -> (r: Result<Vec<u8>, Error>)
    ensures
        match patched_bootloader(bootloader@, chip, mode, size, freq) {
            Ok(b) => r matches Ok(v) && v@ == b,
            Err(e) => r == Err::<Vec<u8>, Error>(e),
        },
{
    let mut b = bootloader;
    if b.len() < 8 || b[0] != ESP_MAGIC {
        return Err(Error::InvalidBootloader);
    }
    let cfg = patch_flash_config(b[3], chip, size, freq)?;
    if let Some(m) = mode {
        b.set(2, encode_flash_mode(m));
    }
    b.set(3, cfg);
    Ok(b)
}

proof fn lemma_nibble_fields(hi: u8, lo: u8)
    requires
        lo <= 0x0f,
    ensures
        ((hi & 0xf0) | lo) & 0xf0 == hi & 0xf0,
        ((hi & 0xf0) | lo) & 0x0f == lo,
{
    assert(((hi & 0xf0) | lo) & 0xf0 == hi & 0xf0) by (bit_vector)
        requires
            lo <= 0x0f,
    ;
    assert(((hi & 0xf0) | lo) & 0x0f == lo) by (bit_vector)
        requires
            lo <= 0x0f,
    ;
}

/// The overrides touch only their own bits of the bootloader: every byte
/// but the mode byte (2) and the flash-config byte (3) is kept; the mode byte
/// changes only with a mode override; a frequency override alone replaces the
/// low half of the config byte and keeps the high half; a size override alone
/// replaces the high half with that of the size code and keeps the low half;
/// both together set each half from its own code.
pub proof fn lemma_overrides_patch_own_bits(
    b: Seq<u8>,
    chip: Chip,
    mode: Option<FlashMode>,
    size: Option<FlashSize>,
    freq: Option<FlashFrequency>,
)
    requires
        patched_bootloader(b, chip, mode, size, freq) is Ok,
    ensures
        ({
            let p = patched_bootloader(b, chip, mode, size, freq)->Ok_0;
            &&& p.len() == b.len()
            &&& forall|i: int| 0 <= i < b.len() && i != 2 && i != 3 ==> p[i] == b[i]
            &&& p[2] == match mode {
                Some(m) => mode_byte(m),
                None => b[2],
            }
            &&& (size is None && freq is None ==> p[3] == b[3])
            &&& (size is None && freq is Some ==> p[3] & 0xf0 == b[3] & 0xf0
                && p[3] & 0x0f == frequency_code(chip, freq->Some_0)->Some_0)
            &&& (size is Some && freq is None ==> p[3] & 0x0f == b[3] & 0x0f && p[3] & 0xf0
                == size_code(size->Some_0)->Some_0 & 0xf0)
            &&& (size is Some && freq is Some ==> p[3] & 0xf0 == size_code(size->Some_0)->Some_0
                & 0xf0 && p[3] & 0x0f == frequency_code(chip, freq->Some_0)->Some_0)
        }),
{
    let c = b[3];
    match (size, freq) {
        (None, Some(f)) => {
            lemma_nibble_fields(c, frequency_code(chip, f)->Some_0);
        },
        (Some(s), None) => {
            let h = size_code(s)->Some_0;
            assert(((h & 0xf0) | (c & 0x0f)) & 0xf0 == h & 0xf0) by (bit_vector);
            assert(((h & 0xf0) | (c & 0x0f)) & 0x0f == c & 0x0f) by (bit_vector);
        },
        (Some(s), Some(f)) => {
            lemma_nibble_fields(size_code(s)->Some_0, frequency_code(chip, f)->Some_0);
        },
        _ => {},
    }
}

} // verus!
