//! Assembly of the application image: headers, padding, segments, checksum.

use vstd::prelude::*;

use crate::layout::{
    le16, le32, pad4, page_bug_extension, segment_bytes, segment_header_bytes, segment_padding, xor_fold,
    zeros, lemma_padding_settles, ESP_CHECKSUM_MAGIC, PAGE_BUG_THRESHOLD, SEG_HEADER_LEN, WP_PIN_DISABLED,
};
use crate::layout::{get_segment_padding, push_le32, push_zeros, save_flash_segment, save_segment};
use crate::segment::{
    adjacent, coalesce, insert_sorted, merged, models, sort_by_addr, CodeSegment, SegModel,
};

verus! {

/// The image under construction: the bytes so far, the RAM segments not yet
/// written, the running checksum and the number of segments written.
pub struct BuildState {
    pub data: Seq<u8>,
    pub ram: Seq<SegModel>,
    pub checksum: u8,
    pub count: nat,
}

/// Total size of pending RAM segments, each counted one more than its bytes.
pub open spec fn ram_weight(s: Seq<SegModel>) -> nat
    decreases s.len(),
{
    if s.len() == 0 {
        0
    } else {
        s[0].data.len() + 1 + ram_weight(s.skip(1))
    }
}

/// Number of bytes taken from a RAM segment of `len` bytes to fill `pad`.
pub open spec fn borrowed_len(len: nat, pad: nat) -> nat {
    if pad < len {
        pad
    } else {
        len
    }
}

/// The state after one segment `s` is written as it is.
pub open spec fn write_segment(st: BuildState, s: SegModel) -> BuildState {
    BuildState {
        data: st.data + segment_bytes(s.addr, s.data),
        ram: st.ram,
        checksum: xor_fold(s.data, st.checksum),
        count: st.count + 1,
    }
}

/// The state after the leading bytes of the first pending RAM segment have
/// been written to fill `pad` bytes of padding.
pub open spec fn borrow_ram(st: BuildState, pad: nat) -> BuildState {
    let first = st.ram[0];
    let t = borrowed_len(first.data.len(), pad);
    let piece = SegModel { addr: first.addr, data: first.data.take(t as int) };
    let rest = SegModel {
        addr: ((first.addr + t) % 0x1_0000_0000) as u32,
        data: first.data.skip(t as int),
    };
    let ram = if rest.data.len() == 0 {
        st.ram.skip(1)
    } else {
        st.ram.update(0, rest)
    };
    BuildState { ram, ..write_segment(st, piece) }
}

/// The state after a padding segment of `pad` zero bytes at address zero.
pub open spec fn zero_fill(st: BuildState, pad: nat) -> BuildState {
    BuildState {
        data: st.data + segment_header_bytes(0, pad as u32) + zeros(pad),
        ram: st.ram,
        checksum: st.checksum,
        count: st.count + 1,
    }
}

/// Whether the flash-mapped segment at `addr` still needs padding.
pub open spec fn needs_padding(st: BuildState, addr: u32) -> nat {
    if segment_padding(st.data.len() as int, addr) == 0 {
        0
    } else {
        1
    }
}

/// Padding in front of the flash-mapped segment at `addr`, repeated until
/// none is needed: padding longer than a header is filled with the leading
/// bytes of the first pending RAM segment where there is one; otherwise it is
/// written as one zero-filled segment.
pub open spec fn pad_before(st: BuildState, addr: u32) -> BuildState
    decreases ram_weight(st.ram), needs_padding(st, addr),
    via pad_before_decreases
{
    let pad = segment_padding(st.data.len() as int, addr);
    if pad == 0 {
        st
    } else if pad > SEG_HEADER_LEN && st.ram.len() > 0 {
        pad_before(borrow_ram(st, pad as nat), addr)
    } else {
        pad_before(zero_fill(st, pad as nat), addr)
    }
}

#[via_fn]
proof fn pad_before_decreases(st: BuildState, addr: u32) {
    let pad = segment_padding(st.data.len() as int, addr);
    if pad != 0 {
        if pad > SEG_HEADER_LEN && st.ram.len() > 0 {
            lemma_borrow_shrinks(st, pad as nat);
        } else {
            lemma_zero_fill_settles(st, addr);
        }
    }
}

/// After a zero-filled padding segment no further padding is needed.
proof fn lemma_zero_fill_settles(st: BuildState, addr: u32)
    requires
        segment_padding(st.data.len() as int, addr) != 0,
    ensures
        needs_padding(zero_fill(st, segment_padding(st.data.len() as int, addr) as nat), addr) == 0,
{
    let pad = segment_padding(st.data.len() as int, addr);
    lemma_padding_settles(st.data.len() as int, addr);
    assert(zero_fill(st, pad as nat).data.len() == st.data.len() + SEG_HEADER_LEN + pad);
}

/// Borrowing for a non-empty padding leaves less pending RAM.
proof fn lemma_borrow_shrinks(st: BuildState, pad: nat)
    requires
        st.ram.len() > 0,
        pad > 0,
    ensures
        ram_weight(borrow_ram(st, pad).ram) < ram_weight(st.ram),
{
    let first = st.ram[0];
    let t = borrowed_len(first.data.len(), pad);
    let rest = SegModel {
        addr: ((first.addr + t) % 0x1_0000_0000) as u32,
        data: first.data.skip(t as int),
    };
    if rest.data.len() != 0 {
        assert(st.ram.update(0, rest).skip(1) =~= st.ram.skip(1));
    }
}

/// A flash-mapped segment's bytes after the page-boundary extension, when the
/// image so far is `offset` bytes long.
pub open spec fn flash_payload(offset: int, s: SegModel) -> Seq<u8> {
    s.data + zeros(page_bug_extension(offset, s.data.len() as int))
}

/// Writes the flash-mapped segments in order, each after its padding.
pub open spec fn place_flash(st: BuildState, flash: Seq<SegModel>) -> BuildState
    decreases flash.len(),
{
    if flash.len() == 0 {
        st
    } else {
        let s = flash.last();
        let padded = pad_before(place_flash(st, flash.drop_last()), s.addr);
        write_segment(padded, SegModel { addr: s.addr, data: flash_payload(padded.data.len() as int, s) })
    }
}

/// Writes the segments in order, each as it is.
pub open spec fn place_plain(st: BuildState, segs: Seq<SegModel>) -> BuildState
    decreases segs.len(),
{
    if segs.len() == 0 {
        st
    } else {
        write_segment(place_plain(st, segs.drop_last()), segs.last())
    }
}

/// The common header taken over from the bootloader with the entry point
/// replaced, then the extended header.
pub open spec fn app_headers(boot: Seq<u8>, entry: u32, chip_id: u16) -> Seq<u8> {
    seq![boot[0], boot[1], boot[2], boot[3]] + le32(entry) + seq![WP_PIN_DISABLED, 0u8, 0u8, 0u8]
        + le16(chip_id) + seq![0u8] + zeros(8) + seq![1u8]
}

/// Zero fill up to one byte short of a sixteen-byte boundary, the checksum,
/// and the segment count patched into the common header.
pub open spec fn finish(st: BuildState) -> Seq<u8> {
    let padded = st.data + zeros((15 - st.data.len() % 16) as nat) + seq![st.checksum];
    padded.update(1, (st.count % 256) as u8)
}

/// The state once every segment has been written.
pub open spec fn final_state(
    boot: Seq<u8>,
    entry: u32,
    chip_id: u16,
    flash: Seq<SegModel>,
    ram: Seq<SegModel>,
) -> BuildState {
    let init = BuildState {
        data: app_headers(boot, entry, chip_id),
        ram,
        checksum: ESP_CHECKSUM_MAGIC,
        count: 0,
    };
    let after_flash = place_flash(init, flash);
    place_plain(after_flash, after_flash.ram)
}

/// The application image up to, not including, its digest.
pub open spec fn app_image_body(
    boot: Seq<u8>,
    entry: u32,
    chip_id: u16,
    flash: Seq<SegModel>,
    ram: Seq<SegModel>,
) -> Seq<u8> {
    finish(final_state(boot, entry, chip_id, flash, ram))
}

/// Segments that fit the header's 32-bit length field with room for the
/// page-boundary extension and the four-byte fill.
pub open spec fn fits_header(segs: Seq<SegModel>) -> bool {
    forall|i: int| 0 <= i < segs.len() ==> #[trigger] segs[i].data.len() + PAGE_BUG_THRESHOLD + 3 <= u32::MAX
}

/// Ghost view of the exec state of an image under construction.
pub open spec fn state_of(data: Seq<u8>, ram: Seq<CodeSegment>, checksum: u8, count: nat) -> BuildState {
    BuildState { data, ram: models(ram), checksum, count }
}

/// Writes a padding segment of `pad` zero bytes at address zero.
fn write_zero_fill(data: &mut Vec<u8>, pad: u32)
    ensures
        final(data)@ == old(data)@ + segment_header_bytes(0, pad) + zeros(pad as nat),
{
    push_le32(data, 0);
    push_le32(data, pad);
    push_zeros(data, pad as usize);
    assert(final(data)@ =~= old(data)@ + segment_header_bytes(0, pad) + zeros(pad as nat));
}

/// Fills `pad` bytes of padding with the leading bytes of the first pending
/// RAM segment, which is dropped once it is empty.
#[verifier::rlimit(60)]
fn borrow_step(
    data: &mut Vec<u8>,
    ram: &mut Vec<CodeSegment>,
    checksum: &mut u8,
    count: &mut u8,
    pad: u32,
    Ghost(n): Ghost<nat>,
) -> (r: Ghost<nat>)
    requires
        old(ram)@.len() > 0,
        fits_header(models(old(ram)@)),
        *old(count) == n % 256,
    ensures
        state_of(final(data)@, final(ram)@, *final(checksum), r@) == borrow_ram(
            state_of(old(data)@, old(ram)@, *old(checksum), n),
            pad as nat,
        ),
        fits_header(models(final(ram)@)),
        *final(count) == r@ % 256,
{
    let ghost before = ram@;
    assert(models(before)[0] == before[0]@);
    let mut first = ram.remove(0);
    assert(ram@ =~= before.skip(1));
    assert(models(before.skip(1)) =~= models(before).skip(1));
    let take: usize = if (pad as usize) < first.data.len() {
        pad as usize
    } else {
        first.data.len()
    };
    let ghost fd = first.data@;
    let rest = first.data.split_off(take);
    let piece = CodeSegment { addr: first.addr, data: first.data };
    assert(models(before)[0].data.len() + PAGE_BUG_THRESHOLD + 3 <= u32::MAX);
    assert(piece.data@ == fd.take(take as int));
    assert(rest@ == fd.skip(take as int));
    *checksum = save_segment(data, &piece, *checksum);
    *count = count.wrapping_add(1);
    if rest.len() > 0 {
        ram.insert(0, CodeSegment { addr: piece.addr.wrapping_add(take as u32), data: rest });
        assert(models(ram@) =~= models(before).update(0, ram@[0]@));
    }
    Ghost(n + 1)
}

/// Writes padding in front of the flash-mapped `segment`, borrowing
/// bytes from the pending RAM segments where the padding is long enough.
#[verifier::rlimit(60)]
fn write_padding(
    data: &mut Vec<u8>,
    ram: &mut Vec<CodeSegment>,
    checksum: &mut u8,
    count: &mut u8,
    segment: &CodeSegment,
    Ghost(n): Ghost<nat>,
) -> (r: Ghost<nat>)
    requires
        fits_header(models(old(ram)@)),
        *old(count) == n % 256,
    ensures
        state_of(final(data)@, final(ram)@, *final(checksum), r@) == pad_before(
            state_of(old(data)@, old(ram)@, *old(checksum), n),
            segment.addr,
        ),
        fits_header(models(final(ram)@)),
        *final(count) == r@ % 256,
{
    let ghost goal = pad_before(state_of(data@, ram@, *checksum, n), segment.addr);
    let ghost mut g: nat = n;
    loop
        invariant_except_break
            pad_before(state_of(data@, ram@, *checksum, g), segment.addr) == goal,
        invariant
            fits_header(models(ram@)),
            *count == g % 256,
        ensures
            state_of(data@, ram@, *checksum, g) == goal,
        decreases ram_weight(models(ram@)), needs_padding(state_of(data@, ram@, *checksum, g), segment.addr),
    {
        let ghost st = state_of(data@, ram@, *checksum, g);
        let pad = get_segment_padding(data.len(), segment);
        if pad == 0 {
            assert(pad_before(st, segment.addr) == st);
            break;
        }
        if pad > SEG_HEADER_LEN && ram.len() > 0 {
            assert(pad_before(st, segment.addr) == pad_before(borrow_ram(st, pad as nat), segment.addr));
            let Ghost(g2) = borrow_step(data, ram, checksum, count, pad, Ghost(g));
            proof {
                g = g2;
                lemma_borrow_shrinks(st, pad as nat);
            }
        } else {
            assert(pad_before(st, segment.addr) == pad_before(zero_fill(st, pad as nat), segment.addr));
            write_zero_fill(data, pad);
            *count = count.wrapping_add(1);
            proof {
                g = g + 1;
                lemma_zero_fill_settles(st, segment.addr);
            }
            assert(state_of(data@, ram@, *checksum, g) == zero_fill(st, pad as nat));
        }
    }
    Ghost(g)
}

/// Writes one flash-mapped segment after its padding.
#[verifier::rlimit(30)]
fn flash_step(
    data: &mut Vec<u8>,
    ram: &mut Vec<CodeSegment>,
    checksum: &mut u8,
    count: &mut u8,
    seg: CodeSegment,
    Ghost(n): Ghost<nat>,
) -> (r: Ghost<nat>)
    requires
        fits_header(models(old(ram)@)),
        seg.data@.len() + PAGE_BUG_THRESHOLD + 3 <= u32::MAX,
        *old(count) == n % 256,
    ensures
        ({
            let padded = pad_before(state_of(old(data)@, old(ram)@, *old(checksum), n), seg.addr);
            state_of(final(data)@, final(ram)@, *final(checksum), r@) == write_segment(
                padded,
                SegModel { addr: seg.addr, data: flash_payload(padded.data.len() as int, seg@) },
            )
        }),
        fits_header(models(final(ram)@)),
        *final(count) == r@ % 256,
{
    let ghost padded = pad_before(state_of(data@, ram@, *checksum, n), seg.addr);
    let Ghost(g) = write_padding(data, ram, checksum, count, &seg, Ghost(n));
    assert(data@ == padded.data && models(ram@) == padded.ram && *checksum == padded.checksum && g == padded.count);
    let ghost payload = flash_payload(padded.data.len() as int, seg@);
    *checksum = save_flash_segment(data, seg, *checksum);
    assert(data@ == padded.data + segment_bytes(seg.addr, payload));
    *count = count.wrapping_add(1);
    Ghost(g + 1)
}

/// Writes the two headers of an application image.
fn write_app_headers(boot: &Vec<u8>, entry: u32, chip_id: u16) -> (r: Vec<u8>)
    requires
        boot@.len() >= 4,
    ensures
        r@ == app_headers(boot@, entry, chip_id),
{
    let mut data: Vec<u8> = Vec::new();
    data.push(boot[0]);
    data.push(boot[1]);
    data.push(boot[2]);
    data.push(boot[3]);
    push_le32(&mut data, entry);
    data.push(WP_PIN_DISABLED);
    data.push(0u8);
    data.push(0u8);
    data.push(0u8);
    data.push((chip_id % 256) as u8);
    data.push((chip_id / 256) as u8);
    data.push(0u8);
    push_zeros(&mut data, 8);
    data.push(1u8);
    assert(data@ =~= app_headers(boot@, entry, chip_id));
    data
}

/// Builds an application image, up to its digest, from the bootloader's
/// common header, the entry point, the chip identifier and the merged
/// flash-mapped and RAM segments.
pub fn assemble_app_image(
    boot: &Vec<u8>,
    entry: u32,
    chip_id: u16,
    flash: Vec<CodeSegment>,
    ram: Vec<CodeSegment>,
) -> (r: Vec<u8>)
    requires
        boot@.len() >= 4,
        fits_header(models(flash@)),
        fits_header(models(ram@)),
    ensures
        r@ == app_image_body(boot@, entry, chip_id, models(flash@), models(ram@)),
{
    let ghost fm = models(flash@);
    let ghost init = BuildState {
        data: app_headers(boot@, entry, chip_id),
        ram: models(ram@),
        checksum: ESP_CHECKSUM_MAGIC,
        count: 0,
    };
    let mut data = write_app_headers(boot, entry, chip_id);
    let mut ram = ram;
    let mut flash = flash;
    let mut checksum: u8 = ESP_CHECKSUM_MAGIC;
    let mut count: u8 = 0;
    let ghost mut g: nat = 0;
    let ghost mut k: int = 0;
    while flash.len() > 0
        invariant
            0 <= k <= fm.len(),
            models(flash@) == fm.skip(k),
            fits_header(fm),
            fits_header(models(ram@)),
            count == g % 256,
            state_of(data@, ram@, checksum, g) == place_flash(init, fm.take(k)),
        decreases flash@.len(),
    {
        let ghost before = flash@;
        assert(models(before)[0] == before[0]@);
        let seg = flash.remove(0);
        assert(flash@ =~= before.skip(1));
        assert(models(before.skip(1)) =~= models(before).skip(1));
        assert(fm.take(k + 1).drop_last() =~= fm.take(k));
        assert(fm[k] == seg@);
        assert(fm[k].data.len() + PAGE_BUG_THRESHOLD + 3 <= u32::MAX);
        let Ghost(g2) = flash_step(&mut data, &mut ram, &mut checksum, &mut count, seg, Ghost(g));
        proof {
            g = g2;
            k = k + 1;
        }
    }
    assert(fm.take(k) =~= fm);
    let ghost after_flash = place_flash(init, fm);
    let ghost rm = models(ram@);
    let ghost mut j: int = 0;
    while ram.len() > 0
        invariant
            0 <= j <= rm.len(),
            rm == after_flash.ram,
            models(ram@) == rm.skip(j),
            fits_header(rm),
            count == g % 256,
            data@ == place_plain(after_flash, rm.take(j)).data,
            checksum == place_plain(after_flash, rm.take(j)).checksum,
            g == place_plain(after_flash, rm.take(j)).count,
            place_plain(after_flash, rm.take(j)).ram == rm,
        decreases ram@.len(),
    {
        let ghost before = ram@;
        assert(models(before)[0] == before[0]@);
        let seg = ram.remove(0);
        assert(ram@ =~= before.skip(1));
        assert(models(before.skip(1)) =~= models(before).skip(1));
        assert(rm.take(j + 1).drop_last() =~= rm.take(j));
        assert(rm[j] == seg@);
        assert(rm[j].data.len() + PAGE_BUG_THRESHOLD + 3 <= u32::MAX);
        checksum = save_segment(&mut data, &seg, checksum);
        count = count.wrapping_add(1);
        proof {
            g = g + 1;
            j = j + 1;
        }
    }
    assert(rm.take(j) =~= rm);
    let fill: usize = 15 - data.len() % 16;
    push_zeros(&mut data, fill);
    data.push(checksum);
    data.set(1, count);
    data
}

/// XOR of every byte of every segment in the list.
pub open spec fn segs_xor(s: Seq<SegModel>) -> u8
    decreases s.len(),
{
    if s.len() == 0 {
        0
    } else {
        xor_fold(s[0].data, 0) ^ segs_xor(s.skip(1))
    }
}

proof fn lemma_xor_seed(s: Seq<u8>, seed: u8)
    ensures
        xor_fold(s, seed) == seed ^ xor_fold(s, 0),
    decreases s.len(),
{
    if s.len() == 0 {
        assert(seed ^ 0u8 == seed) by (bit_vector);
    } else {
        lemma_xor_seed(s.drop_last(), seed);
        let a = xor_fold(s.drop_last(), 0);
        let l = s.last();
        assert((seed ^ a) ^ l == seed ^ (a ^ l)) by (bit_vector);
    }
}

proof fn lemma_xor_concat(a: Seq<u8>, b: Seq<u8>)
    ensures
        xor_fold(a + b, 0) == xor_fold(a, 0) ^ xor_fold(b, 0),
    decreases b.len(),
{
    let x = xor_fold(a, 0);
    if b.len() == 0 {
        assert(a + b =~= a);
        assert(x ^ 0u8 == x) by (bit_vector);
    } else {
        lemma_xor_concat(a, b.drop_last());
        assert((a + b).drop_last() =~= a + b.drop_last());
        let y = xor_fold(b.drop_last(), 0);
        let l = b.last();
        assert((x ^ y) ^ l == x ^ (y ^ l)) by (bit_vector);
    }
}

proof fn lemma_xor_zeros(n: nat)
    ensures
        xor_fold(zeros(n), 0) == 0,
    decreases n,
{
    if n > 0 {
        assert(zeros(n).drop_last() =~= zeros((n - 1) as nat));
        lemma_xor_zeros((n - 1) as nat);
        assert(0u8 ^ 0u8 == 0u8) by (bit_vector);
    }
}

proof fn lemma_segs_xor_last(s: Seq<SegModel>)
    requires
        s.len() > 0,
    ensures
        segs_xor(s) == segs_xor(s.drop_last()) ^ xor_fold(s.last().data, 0),
    decreases s.len(),
{
    let l = xor_fold(s.last().data, 0);
    if s.len() == 1 {
        assert(s.skip(1) =~= Seq::<SegModel>::empty());
        assert(s.drop_last() =~= Seq::<SegModel>::empty());
        assert(l ^ 0u8 == 0u8 ^ l) by (bit_vector);
    } else {
        lemma_segs_xor_last(s.skip(1));
        assert(s.skip(1).drop_last() =~= s.drop_last().skip(1));
        assert(s.drop_last()[0] == s[0]);
        let f = xor_fold(s[0].data, 0);
        let m = segs_xor(s.drop_last().skip(1));
        assert(f ^ (m ^ l) == (f ^ m) ^ l) by (bit_vector);
    }
}

proof fn lemma_borrow_xor(st: BuildState, pad: nat)
    requires
        st.ram.len() > 0,
    ensures
        borrow_ram(st, pad).checksum ^ segs_xor(borrow_ram(st, pad).ram) == st.checksum ^ segs_xor(
            st.ram,
        ),
{
    let first = st.ram[0];
    let t = borrowed_len(first.data.len(), pad);
    let p = first.data.take(t as int);
    let r = first.data.skip(t as int);
    assert(p + r =~= first.data);
    lemma_xor_concat(p, r);
    lemma_xor_seed(p, st.checksum);
    let c = st.checksum;
    let xp = xor_fold(p, 0);
    let xr = xor_fold(r, 0);
    let rest_sum = segs_xor(st.ram.skip(1));
    let b = borrow_ram(st, pad);
    if r.len() == 0 {
        assert(xr == 0);
        assert((c ^ xp) ^ rest_sum == c ^ ((xp ^ 0u8) ^ rest_sum)) by (bit_vector);
    } else {
        let rest = SegModel { addr: ((first.addr + t) % 0x1_0000_0000) as u32, data: r };
        assert(st.ram.update(0, rest).skip(1) =~= st.ram.skip(1));
        assert((c ^ xp) ^ (xr ^ rest_sum) == c ^ ((xp ^ xr) ^ rest_sum)) by (bit_vector);
    }
}

proof fn lemma_pad_before_xor(st: BuildState, addr: u32)
    ensures
        pad_before(st, addr).checksum ^ segs_xor(pad_before(st, addr).ram) == st.checksum ^ segs_xor(
            st.ram,
        ),
    decreases ram_weight(st.ram), needs_padding(st, addr),
{
    let pad = segment_padding(st.data.len() as int, addr);
    if pad != 0 && pad > SEG_HEADER_LEN && st.ram.len() > 0 {
        lemma_borrow_shrinks(st, pad as nat);
        lemma_borrow_xor(st, pad as nat);
        lemma_pad_before_xor(borrow_ram(st, pad as nat), addr);
    } else if pad != 0 {
        lemma_zero_fill_settles(st, addr);
        lemma_pad_before_xor(zero_fill(st, pad as nat), addr);
    }
}

proof fn lemma_place_flash_xor(st: BuildState, flash: Seq<SegModel>)
    ensures
        place_flash(st, flash).checksum ^ segs_xor(place_flash(st, flash).ram) == (st.checksum
            ^ segs_xor(st.ram)) ^ segs_xor(flash),
    decreases flash.len(),
{
    if flash.len() == 0 {
        let v = st.checksum ^ segs_xor(st.ram);
        assert(v == v ^ 0u8) by (bit_vector);
    } else {
        let d = flash.drop_last();
        let last = flash.last();
        lemma_place_flash_xor(st, d);
        let before = place_flash(st, d);
        lemma_pad_before_xor(before, last.addr);
        let padded = pad_before(before, last.addr);
        let ext = page_bug_extension(padded.data.len() as int, last.data.len() as int);
        lemma_xor_concat(last.data, zeros(ext));
        lemma_xor_zeros(ext);
        lemma_xor_seed(flash_payload(padded.data.len() as int, last), padded.checksum);
        lemma_segs_xor_last(flash);
        let xl = xor_fold(last.data, 0);
        assert(xl ^ 0u8 == xl) by (bit_vector);
        let c = padded.checksum;
        let rs = segs_xor(padded.ram);
        let base = st.checksum ^ segs_xor(st.ram);
        let sd = segs_xor(d);
        assert((c ^ xl) ^ rs == (c ^ rs) ^ xl) by (bit_vector);
        assert((base ^ sd) ^ xl == base ^ (sd ^ xl)) by (bit_vector);
    }
}

proof fn lemma_place_plain_xor(st: BuildState, segs: Seq<SegModel>)
    ensures
        place_plain(st, segs).checksum == st.checksum ^ segs_xor(segs),
        place_plain(st, segs).ram == st.ram,
    decreases segs.len(),
{
    if segs.len() == 0 {
        let c = st.checksum;
        assert(c == c ^ 0u8) by (bit_vector);
    } else {
        let d = segs.drop_last();
        lemma_place_plain_xor(st, d);
        lemma_segs_xor_last(segs);
        lemma_xor_seed(segs.last().data, place_plain(st, d).checksum);
        let c = st.checksum;
        let sd = segs_xor(d);
        let xl = xor_fold(segs.last().data, 0);
        assert((c ^ sd) ^ xl == c ^ (sd ^ xl)) by (bit_vector);
    }
}

/// The checksum byte that closes the image body is the seed XOR every byte
/// of the listed segments, whatever padding, borrowing or page-boundary
/// extension was needed between them.
proof fn lemma_checksum_of_segment_bytes(
    boot: Seq<u8>,
    entry: u32,
    chip_id: u16,
    flash: Seq<SegModel>,
    ram: Seq<SegModel>,
)
    requires
        boot.len() >= 4,
    ensures
        app_image_body(boot, entry, chip_id, flash, ram).last() == (ESP_CHECKSUM_MAGIC ^ segs_xor(
            flash,
        )) ^ segs_xor(ram),
{
    let init = BuildState {
        data: app_headers(boot, entry, chip_id),
        ram,
        checksum: ESP_CHECKSUM_MAGIC,
        count: 0,
    };
    let af = place_flash(init, flash);
    lemma_place_flash_xor(init, flash);
    lemma_place_plain_xor(af, af.ram);
    let m = ESP_CHECKSUM_MAGIC;
    let sr = segs_xor(ram);
    let sf = segs_xor(flash);
    let c = af.checksum;
    let x = segs_xor(af.ram);
    assert(c ^ x == (m ^ sr) ^ sf ==> c ^ x == (m ^ sf) ^ sr) by (bit_vector);
    let st = final_state(boot, entry, chip_id, flash, ram);
    let padded = st.data + zeros((15 - st.data.len() % 16) as nat) + seq![st.checksum];
    assert(padded.len() > 1);
}

/// The 32-bit little-endian value stored at `at`.
pub open spec fn read_le32(b: Seq<u8>, at: int) -> int {
    b[at] + 256 * b[at + 1] + 65536 * b[at + 2] + 16777216 * b[at + 3]
}

/// Where a reader lands after skipping `k` serialised segments from `pos`,
/// each one a header and the number of bytes that its length field gives.
pub open spec fn skip_segments(b: Seq<u8>, pos: int, k: nat) -> int
    decreases k,
{
    if k == 0 {
        pos
    } else {
        let p = skip_segments(b, pos, (k - 1) as nat);
        p + SEG_HEADER_LEN + read_le32(b, p + 4)
    }
}

/// Length of the two headers in front of the first segment.
pub open spec fn headers_len() -> int {
    24
}

/// The segments written so far are exactly what their count announces, and
/// the pending RAM segments fit the header's length field.
pub open spec fn walk_ok(st: BuildState) -> bool {
    &&& st.data.len() >= headers_len()
    &&& skip_segments(st.data, headers_len(), st.count) == st.data.len()
    &&& fits_header(st.ram)
}

proof fn lemma_read_le32(x: u32)
    ensures
        read_le32(le32(x), 0) == x,
{
    let b0 = x % 256;
    let b1 = (x / 256) % 256;
    let b2 = (x / 65536) % 256;
    let b3 = (x / 16777216) % 256;
    assert(x == b0 + 256 * b1 + 65536 * b2 + 16777216 * b3) by (nonlinear_arith)
        requires
            b0 == x % 256,
            b1 == (x / 256) % 256,
            b2 == (x / 65536) % 256,
            b3 == (x / 16777216) % 256,
            0 <= x < 0x1_0000_0000,
    ;
}

proof fn lemma_walk_prefix(b1: Seq<u8>, b2: Seq<u8>, k: nat)
    requires
        b1.len() <= b2.len(),
        forall|i: int| headers_len() <= i < b1.len() ==> b2[i] == b1[i],
        skip_segments(b1, headers_len(), k) <= b1.len(),
    ensures
        skip_segments(b2, headers_len(), k) == skip_segments(b1, headers_len(), k),
    decreases k,
{
    if k > 0 {
        let p = skip_segments(b1, headers_len(), (k - 1) as nat);
        lemma_walk_monotone(b1, (k - 1) as nat);
        lemma_walk_prefix(b1, b2, (k - 1) as nat);
        assert(b1[p + 4] == b2[p + 4]);
        assert(b1[p + 5] == b2[p + 5]);
        assert(b1[p + 6] == b2[p + 6]);
        assert(b1[p + 7] == b2[p + 7]);
    }
}

proof fn lemma_walk_monotone(b: Seq<u8>, k: nat)
    ensures
        skip_segments(b, headers_len(), k) >= headers_len(),
        skip_segments(b, headers_len(), k) + SEG_HEADER_LEN <= skip_segments(b, headers_len(), k + 1),
    decreases k,
{
    if k > 0 {
        lemma_walk_monotone(b, (k - 1) as nat);
    }
    let p = skip_segments(b, headers_len(), k);
    assert(read_le32(b, p + 4) >= 0);
}

proof fn lemma_walk_append(b: Seq<u8>, k: nat, addr: u32, len: u32, tail: Seq<u8>)
    requires
        b.len() >= headers_len(),
        skip_segments(b, headers_len(), k) == b.len(),
        tail.len() == len,
    ensures
        skip_segments(b + segment_header_bytes(addr, len) + tail, headers_len(), k + 1) == (b
            + segment_header_bytes(addr, len) + tail).len(),
{
    let b2 = b + segment_header_bytes(addr, len) + tail;
    lemma_walk_prefix(b, b2, k);
    lemma_read_le32(len);
    let p = b.len() as int;
    assert(b2[p + 4] == le32(len)[0]);
    assert(b2[p + 5] == le32(len)[1]);
    assert(b2[p + 6] == le32(len)[2]);
    assert(b2[p + 7] == le32(len)[3]);
}

proof fn lemma_write_segment_walk(st: BuildState, s: SegModel)
    requires
        walk_ok(st),
        s.data.len() + 3 <= u32::MAX,
    ensures
        walk_ok(BuildState { ram: st.ram, ..write_segment(st, s) }),
{
    let n = s.data.len() + pad4(s.data.len());
    let tail = s.data + zeros(pad4(s.data.len()));
    lemma_walk_append(st.data, st.count, s.addr, n as u32, tail);
    assert(st.data + segment_bytes(s.addr, s.data) =~= st.data + segment_header_bytes(s.addr, n as u32)
        + tail);
}

proof fn lemma_pad_before_walk(st: BuildState, addr: u32)
    requires
        walk_ok(st),
    ensures
        walk_ok(pad_before(st, addr)),
    decreases ram_weight(st.ram), needs_padding(st, addr),
{
    let pad = segment_padding(st.data.len() as int, addr);
    if pad == 0 {
    } else if pad > SEG_HEADER_LEN && st.ram.len() > 0 {
        let first = st.ram[0];
        let t = borrowed_len(first.data.len(), pad as nat);
        let piece = SegModel { addr: first.addr, data: first.data.take(t as int) };
        assert(first.data.len() + PAGE_BUG_THRESHOLD + 3 <= u32::MAX);
        lemma_write_segment_walk(st, piece);
        let b = borrow_ram(st, pad as nat);
        assert(fits_header(b.ram)) by {
            let rest = SegModel {
                addr: ((first.addr + t) % 0x1_0000_0000) as u32,
                data: first.data.skip(t as int),
            };
            if rest.data.len() == 0 {
                assert forall|i: int| 0 <= i < b.ram.len() implies #[trigger] b.ram[i].data.len()
                    + PAGE_BUG_THRESHOLD + 3 <= u32::MAX by {
                    assert(b.ram[i] == st.ram[i + 1]);
                }
            } else {
                assert forall|i: int| 0 <= i < b.ram.len() implies #[trigger] b.ram[i].data.len()
                    + PAGE_BUG_THRESHOLD + 3 <= u32::MAX by {
                    if i > 0 {
                        assert(b.ram[i] == st.ram[i]);
                    }
                }
            }
        }
        lemma_borrow_shrinks(st, pad as nat);
        lemma_pad_before_walk(b, addr);
    } else {
        lemma_walk_append(st.data, st.count, 0, pad, zeros(pad as nat));
        lemma_zero_fill_settles(st, addr);
        lemma_pad_before_walk(zero_fill(st, pad as nat), addr);
    }
}

proof fn lemma_place_flash_walk(st: BuildState, flash: Seq<SegModel>)
    requires
        walk_ok(st),
        fits_header(flash),
    ensures
        walk_ok(place_flash(st, flash)),
    decreases flash.len(),
{
    if flash.len() > 0 {
        let d = flash.drop_last();
        let last = flash.last();
        assert(fits_header(d)) by {
            assert forall|i: int| 0 <= i < d.len() implies #[trigger] d[i].data.len()
                + PAGE_BUG_THRESHOLD + 3 <= u32::MAX by {
                assert(d[i] == flash[i]);
            }
        }
        assert(flash[flash.len() - 1] == last);
        lemma_place_flash_walk(st, d);
        let padded = pad_before(place_flash(st, d), last.addr);
        lemma_pad_before_walk(place_flash(st, d), last.addr);
        let payload = flash_payload(padded.data.len() as int, last);
        lemma_write_segment_walk(padded, SegModel { addr: last.addr, data: payload });
    }
}

proof fn lemma_place_plain_walk(st: BuildState, segs: Seq<SegModel>)
    requires
        walk_ok(st),
        fits_header(segs),
    ensures
        walk_ok(place_plain(st, segs)),
    decreases segs.len(),
{
    if segs.len() > 0 {
        let d = segs.drop_last();
        assert(fits_header(d)) by {
            assert forall|i: int| 0 <= i < d.len() implies #[trigger] d[i].data.len()
                + PAGE_BUG_THRESHOLD + 3 <= u32::MAX by {
                assert(d[i] == segs[i]);
            }
        }
        assert(segs[segs.len() - 1] == segs.last());
        lemma_place_plain_walk(st, d);
        lemma_write_segment_walk(place_plain(st, d), segs.last());
    }
}

proof fn lemma_finish_walk(st: BuildState)
    requires
        walk_ok(st),
        st.count < 256,
    ensures
        ({
            let b = finish(st);
            let end = skip_segments(b, headers_len(), b[1] as nat);
            &&& end == st.data.len()
            &&& b.len() - 16 <= end < b.len()
            &&& b.len() % 16 == 0
        }),
{
    let padded = st.data + zeros((15 - st.data.len() % 16) as nat) + seq![st.checksum];
    let b = padded.update(1, (st.count % 256) as u8);
    assert(b.len() == st.data.len() + (15 - st.data.len() % 16) + 1);
    assert(b[1] as nat == st.count);
    assert forall|i: int| headers_len() <= i < st.data.len() implies b[i] == st.data[i] by {
        assert(padded[i] == st.data[i]);
    }
    lemma_walk_prefix(st.data, b, st.count);
}

/// The segment count patched into the common header is the number of
/// segment headers in the image: reading that many headers from the end of
/// the two image headers, each followed by as many bytes as it announces,
/// ends where the final fill begins, fewer than sixteen bytes before the
/// checksum that closes the body. Holds while the count fits its byte.
pub proof fn lemma_count_matches_headers(
    boot: Seq<u8>,
    entry: u32,
    chip_id: u16,
    flash: Seq<SegModel>,
    ram: Seq<SegModel>,
)
    requires
        boot.len() >= 4,
        fits_header(flash),
        fits_header(ram),
        final_state(boot, entry, chip_id, flash, ram).count < 256,
    ensures
        ({
            let b = app_image_body(boot, entry, chip_id, flash, ram);
            let end = skip_segments(b, headers_len(), b[1] as nat);
            &&& end == final_state(boot, entry, chip_id, flash, ram).data.len()
            &&& b.len() - 16 <= end < b.len()
            &&& b.len() % 16 == 0
        }),
{
    let init = BuildState {
        data: app_headers(boot, entry, chip_id),
        ram,
        checksum: ESP_CHECKSUM_MAGIC,
        count: 0,
    };
    assert(init.data.len() == 24);
    lemma_place_flash_walk(init, flash);
    let af = place_flash(init, flash);
    lemma_place_plain_walk(af, af.ram);
    lemma_finish_walk(place_plain(af, af.ram));
}

proof fn lemma_insert_xor(t: Seq<SegModel>, x: SegModel)
    ensures
        segs_xor(insert_sorted(t, x)) == segs_xor(t) ^ xor_fold(x.data, 0),
    decreases t.len(),
{
    let xx = xor_fold(x.data, 0);
    if t.len() == 0 {
        assert(seq![x].skip(1) =~= Seq::<SegModel>::empty());
        assert(segs_xor(Seq::<SegModel>::empty()) == 0);
        assert(seq![x][0] == x);
        assert(segs_xor(seq![x]) == xx ^ 0u8);
        assert(xx ^ 0u8 == 0u8 ^ xx) by (bit_vector);
    } else if t.last().addr <= x.addr {
        assert(t.push(x).drop_last() =~= t);
        lemma_segs_xor_last(t.push(x));
        assert(insert_sorted(t, x) == t.push(x));
    } else {
        let d = t.drop_last();
        let l = t.last();
        lemma_insert_xor(d, x);
        assert(insert_sorted(t, x) == insert_sorted(d, x).push(l));
        let r = insert_sorted(d, x);
        assert(r.push(l).drop_last() =~= r);
        lemma_segs_xor_last(r.push(l));
        lemma_segs_xor_last(t);
        let sd = segs_xor(d);
        let xl = xor_fold(l.data, 0);
        assert((sd ^ xx) ^ xl == (sd ^ xl) ^ xx) by (bit_vector);
    }
}

proof fn lemma_sort_xor(s: Seq<SegModel>)
    ensures
        segs_xor(sort_by_addr(s)) == segs_xor(s),
    decreases s.len(),
{
    if s.len() > 0 {
        lemma_sort_xor(s.drop_last());
        lemma_insert_xor(sort_by_addr(s.drop_last()), s.last());
        lemma_segs_xor_last(s);
    }
}

proof fn lemma_coalesce_xor(t: Seq<SegModel>)
    ensures
        segs_xor(coalesce(t)) == segs_xor(t),
    decreases t.len(),
{
    if t.len() > 0 {
        let d = t.drop_last();
        let x = t.last();
        lemma_coalesce_xor(d);
        lemma_segs_xor_last(t);
        let m = coalesce(d);
        let xx = xor_fold(x.data, 0);
        if m.len() > 0 && adjacent(m.last(), x) {
            let joined = SegModel { addr: m.last().addr, data: m.last().data + x.data };
            let m2 = m.update(m.len() - 1, joined);
            assert(m2.drop_last() =~= m.drop_last());
            lemma_segs_xor_last(m2);
            lemma_segs_xor_last(m);
            lemma_xor_concat(m.last().data, x.data);
            let a = segs_xor(m.drop_last());
            let b = xor_fold(m.last().data, 0);
            assert(a ^ (b ^ xx) == (a ^ b) ^ xx) by (bit_vector);
        } else {
            assert(m.push(x).drop_last() =~= m);
            lemma_segs_xor_last(m.push(x));
        }
    }
}

/// Merging keeps the XOR of all segment bytes.
pub proof fn lemma_merge_keeps_xor(s: Seq<SegModel>)
    ensures
        segs_xor(merged(s)) == segs_xor(s),
{
    lemma_sort_xor(s);
    lemma_coalesce_xor(sort_by_addr(s));
}

/// The checksum byte that closes the body of a firmware's application image
/// is the seed XOR every byte of every flash-mapped and RAM segment the
/// firmware gave, whatever their order and whatever merging, padding,
/// borrowing or page-boundary extension the image needed.
pub proof fn lemma_checksum_of_firmware_bytes(
    boot: Seq<u8>,
    entry: u32,
    chip_id: u16,
    flash: Seq<SegModel>,
    ram: Seq<SegModel>,
)
    requires
        boot.len() >= 4,
    ensures
        app_image_body(boot, entry, chip_id, merged(flash), merged(ram)).last() == (
        ESP_CHECKSUM_MAGIC ^ segs_xor(flash)) ^ segs_xor(ram),
{
    lemma_checksum_of_segment_bytes(boot, entry, chip_id, merged(flash), merged(ram));
    lemma_merge_keeps_xor(flash);
    lemma_merge_keeps_xor(ram);
}

} // verus!
