//! Binary layout of an application image: constants, header encodings,
//! the running checksum and the serialisation of a single segment.

use vstd::prelude::*;

use crate::segment::CodeSegment;

verus! {

/// Flash-mapped segments are placed modulo this alignment unit.
pub const IROM_ALIGN: u32 = 0x10000;

/// Size of the header in front of every serialised segment.
pub const SEG_HEADER_LEN: u32 = 8;

/// First byte of every valid bootloader or application image.
pub const ESP_MAGIC: u8 = 0xE9;

/// Seed of the running checksum.
pub const ESP_CHECKSUM_MAGIC: u8 = 0xEF;

/// Write-protect pin value meaning "disabled".
pub const WP_PIN_DISABLED: u8 = 0xEE;

/// A flash-mapped segment whose end lies less than this many bytes past a
/// page boundary is extended up to it.
pub const PAGE_BUG_THRESHOLD: u32 = 0x24;

/// Little-endian bytes of a 32-bit value.
pub open spec fn le32(x: u32) -> Seq<u8> {
    seq![
        (x % 256) as u8,
        ((x / 256) % 256) as u8,
        ((x / 65536) % 256) as u8,
        ((x / 16777216) % 256) as u8,
    ]
}

/// Little-endian bytes of a 16-bit value.
pub open spec fn le16(x: u16) -> Seq<u8> {
    seq![(x % 256) as u8, ((x / 256) % 256) as u8]
}

/// A run of `n` zero bytes.
pub open spec fn zeros(n: nat) -> Seq<u8> {
    Seq::new(n, |i: int| 0u8)
}

/// The eight bytes of a segment header.
pub open spec fn segment_header_bytes(addr: u32, length: u32) -> Seq<u8> {
    le32(addr) + le32(length)
}

/// The running checksum: every byte XOR-ed into the seed, in order.
pub open spec fn xor_fold(bytes: Seq<u8>, seed: u8) -> u8
    decreases bytes.len(),
{
    if bytes.len() == 0 {
        seed
    } else {
        xor_fold(bytes.drop_last(), seed) ^ bytes.last()
    }
}

/// Zero bytes needed after `n` payload bytes to reach a multiple of four.
pub open spec fn pad4(n: nat) -> nat {
    ((4 - n % 4) % 4) as nat
}

/// What a serialised segment occupies: its header, where the length is
/// rounded up to a multiple of four, its payload, then the zero fill.
pub open spec fn segment_bytes(addr: u32, payload: Seq<u8>) -> Seq<u8> {
    segment_header_bytes(addr, (payload.len() + pad4(payload.len())) as u32) + payload
        + zeros(pad4(payload.len()))
}

/// The padding, in payload bytes, to place before a flash-mapped segment at
/// `addr` when the image so far is `offset` bytes long, so that once the next
/// segment header is written the file offset and the address agree modulo the
/// alignment unit. Amounts of zero or of one whole unit need nothing; amounts
/// too small to carry a header of their own are moved one unit on.
pub open spec fn segment_padding(offset: int, addr: u32) -> u32 {
    let align = IROM_ALIGN as int;
    let align_past = (addr - SEG_HEADER_LEN) % align;
    let raw = ((align - offset % align) + align_past) % align;
    if raw == 0 {
        0
    } else if raw > SEG_HEADER_LEN {
        (raw - SEG_HEADER_LEN) as u32
    } else {
        (raw + align - SEG_HEADER_LEN) as u32
    }
}

/// Zero bytes appended to a flash-mapped payload of `len` bytes written at
/// `offset`, to keep the image's end clear of the bootloader's last-page
/// mapping fault.
pub open spec fn page_bug_extension(offset: int, len: int) -> nat {
    let rem = (offset + len + SEG_HEADER_LEN) % (IROM_ALIGN as int);
    if rem < PAGE_BUG_THRESHOLD {
        (PAGE_BUG_THRESHOLD - rem) as nat
    } else {
        0
    }
}

/// The little-endian bytes of `x`.
pub fn le32_bytes(x: u32) -> (r: [u8; 4])
    ensures
        r@ == le32(x),
{
    let r = [(x % 256) as u8, ((x / 256) % 256) as u8, ((x / 65536) % 256) as u8, ((x / 16777216) % 256) as u8];
    assert(r@ =~= le32(x));
    r
}

/// Appends `x` to `data` in little-endian order.
pub fn push_le32(data: &mut Vec<u8>, x: u32)
    ensures
        final(data)@ == old(data)@ + le32(x),
{
    let b = le32_bytes(x);
    data.push(b[0]);
    data.push(b[1]);
    data.push(b[2]);
    data.push(b[3]);
    assert(final(data)@ =~= old(data)@ + le32(x));
}

/// Appends `n` zero bytes to `data`.
pub fn push_zeros(data: &mut Vec<u8>, n: usize)
    ensures
        final(data)@ == old(data)@ + zeros(n as nat),
{
    let ghost start = data@;
    let mut i: usize = 0;
    while i < n
        invariant
            i <= n,
            data@ == start + zeros(i as nat),
        decreases n - i,
    {
        data.push(0u8);
        i = i + 1;
        assert(data@ =~= start + zeros(i as nat));
    }
}

/// Folds `bytes` into the running checksum.
pub fn update_checksum(bytes: &[u8], checksum: u8) -> (r: u8)
    ensures
        r == xor_fold(bytes@, checksum),
{
    let mut acc = checksum;
    let mut i: usize = 0;
    while i < bytes.len()
        invariant
            i <= bytes@.len(),
            acc == xor_fold(bytes@.take(i as int), checksum),
        decreases bytes@.len() - i,
    {
        assert(bytes@.take(i as int + 1).drop_last() =~= bytes@.take(i as int));
        acc = acc ^ bytes[i];
        i = i + 1;
    }
    assert(bytes@.take(i as int) =~= bytes@);
    acc
}

/// Padding to write before the flash-mapped `segment` when the image is
/// `offset` bytes long.
pub fn get_segment_padding(offset: usize, segment: &CodeSegment) -> (r: u32)
    ensures
        r == segment_padding(offset as int, segment.addr),
        r <= IROM_ALIGN,
{
    let addr = segment.addr;
    let align_past: u32 = if addr >= SEG_HEADER_LEN {
        (addr - SEG_HEADER_LEN) % IROM_ALIGN
    } else {
        addr + IROM_ALIGN - SEG_HEADER_LEN
    };
    let off_rem: u32 = (offset % (IROM_ALIGN as usize)) as u32;
    let raw: u32 = ((IROM_ALIGN - off_rem) + align_past) % IROM_ALIGN;
    if raw == 0 {
        0
    } else if raw > SEG_HEADER_LEN {
        raw - SEG_HEADER_LEN
    } else {
        raw + IROM_ALIGN - SEG_HEADER_LEN
    }
}

proof fn lemma_mod_sum(x: int, y: int)
    requires
        x >= 0,
        y >= 0,
    ensures
        (x % 0x10000 + y % 0x10000 + 8) % 0x10000 == (x + y + 8) % 0x10000,
{
    vstd::arithmetic::div_mod::lemma_add_mod_noop(x, y + 8, 0x10000);
    vstd::arithmetic::div_mod::lemma_add_mod_noop(y, 8, 0x10000);
    vstd::arithmetic::div_mod::lemma_add_mod_noop(x % 0x10000, y % 0x10000 + 8, 0x10000);
    vstd::arithmetic::div_mod::lemma_add_mod_noop(y % 0x10000, 8, 0x10000);
}

/// Writes `segment` to the image: its header, with the length rounded up to
/// a multiple of four, its bytes, then the zero fill. Returns the checksum
/// with the segment's own bytes folded in; the fill is not folded.
pub fn save_segment(data: &mut Vec<u8>, segment: &CodeSegment, checksum: u8) -> (r: u8)
    requires
        segment.data@.len() + 3 <= u32::MAX,
    ensures
        final(data)@ == old(data)@ + segment_bytes(segment.addr, segment.data@),
        r == xor_fold(segment.data@, checksum),
{
    let size = segment.data.len();
    let padding: usize = (4 - size % 4) % 4;
    push_le32(data, segment.addr);
    push_le32(data, (size + padding) as u32);
    let ghost with_header = data@;
    let mut i: usize = 0;
    while i < size
        invariant
            size == segment.data@.len(),
            i <= size,
            data@ == with_header + segment.data@.take(i as int),
        decreases size - i,
    {
        data.push(segment.data[i]);
        i = i + 1;
        assert(data@ =~= with_header + segment.data@.take(i as int));
    }
    assert(segment.data@.take(size as int) =~= segment.data@);
    push_zeros(data, padding);
    assert(final(data)@ =~= old(data)@ + segment_bytes(segment.addr, segment.data@));
    update_checksum(segment.data.as_slice(), checksum)
}

/// Writes a flash-mapped segment. Where the image would end less than the
/// threshold past an alignment boundary, the segment's bytes are first
/// extended with zeros up to it; the extension counts as the segment's own
/// bytes, in its length and in the checksum.
pub fn save_flash_segment(data: &mut Vec<u8>, segment: CodeSegment, checksum: u8) -> (r: u8)
    requires
        segment.data@.len() + PAGE_BUG_THRESHOLD + 3 <= u32::MAX,
    ensures
        ({
            let payload = segment.data@ + zeros(
                page_bug_extension(old(data)@.len() as int, segment.data@.len() as int),
            );
            &&& final(data)@ == old(data)@ + segment_bytes(segment.addr, payload)
            &&& r == xor_fold(payload, checksum)
        }),
{
    let mut segment = segment;
    let a = IROM_ALIGN as usize;
    let end_rem: usize = (data.len() % a + segment.data.len() % a + SEG_HEADER_LEN as usize) % a;
    proof {
        lemma_mod_sum(data@.len() as int, segment.data@.len() as int);
    }
    if end_rem < PAGE_BUG_THRESHOLD as usize {
        push_zeros(&mut segment.data, PAGE_BUG_THRESHOLD as usize - end_rem);
    }
    save_segment(data, &segment, checksum)
}

/// Once a padding segment of the computed length has been written (its
/// header and its zero bytes), the flash-mapped segment at `addr` needs no
/// further padding.
pub proof fn lemma_padding_settles(offset: int, addr: u32)
    requires
        offset >= 0,
        segment_padding(offset, addr) > 0,
    ensures
        segment_padding(offset + SEG_HEADER_LEN + segment_padding(offset, addr), addr) == 0,
{
    let a: int = 0x10000;
    let ap = (addr - 8) % a;
    let raw = ((a - offset % a) + ap) % a;
    let off2 = offset + 8 + segment_padding(offset, addr);
    vstd::arithmetic::div_mod::lemma_fundamental_div_mod(offset, a);
    vstd::arithmetic::div_mod::lemma_fundamental_div_mod((a - offset % a) + ap, a);
    assert(off2 == offset + raw || off2 == offset + raw + a);
    assert(off2 % a == ap) by {
        let q = offset / a;
        let q2 = ((a - offset % a) + ap) / a;
        assert(offset + raw == a * q + a - a * q2 + ap) by (nonlinear_arith)
            requires
                offset == a * q + offset % a,
                (a - offset % a) + ap == a * q2 + raw,
        ;
        assert((a * q + a - a * q2 + ap) % a == ap) by (nonlinear_arith)
            requires
                a == 0x10000,
                0 <= ap < a,
        ;
        assert((a * q + a - a * q2 + ap + a) % a == ap) by (nonlinear_arith)
            requires
                a == 0x10000,
                0 <= ap < a,
        ;
    }
}

/// A serialised segment's header carries its address and, as its length,
/// the number of bytes that follow it: the payload with its zero fill, a
/// multiple of four.
pub proof fn lemma_segment_length_field(addr: u32, payload: Seq<u8>)
    requires
        payload.len() + 3 <= u32::MAX,
    ensures
        ({
            let b = segment_bytes(addr, payload);
            let n = payload.len() + pad4(payload.len());
            &&& n % 4 == 0
            &&& b.len() == SEG_HEADER_LEN + n
            &&& b.subrange(0, 4) == le32(addr)
            &&& b.subrange(4, 8) == le32(n as u32)
            &&& b.subrange(8, 8 + payload.len() as int) == payload
            &&& b.subrange(8 + payload.len() as int, b.len() as int) == zeros(pad4(payload.len()))
        }),
{
    let b = segment_bytes(addr, payload);
    let n = payload.len() + pad4(payload.len());
    assert(b.subrange(0, 4) =~= le32(addr));
    assert(b.subrange(4, 8) =~= le32(n as u32));
    assert(b.subrange(8, 8 + payload.len() as int) =~= payload);
    assert(b.subrange(8 + payload.len() as int, b.len() as int) =~= zeros(pad4(payload.len())));
}

} // verus!
