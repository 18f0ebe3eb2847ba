//! Writing a recording: the WAV container's header and the sizes it declares,
//! and the dial that reports how far a save has got.

use vstd::prelude::*;

verus! {

/// The channels a recording has.
pub const RECORDING_CHANNELS: u16 = 2;

/// About three seconds of stereo float at 48 kHz. A recording killed between syncs
/// still opens: only the samples past the last one are outside the declared size.
pub const SIZE_SYNC_BYTES: u32 = 1_000_000;

/// Where the RIFF chunk's size sits in the header.
pub const RIFF_SIZE_OFFSET: u64 = 4;

/// Where the data chunk's size sits in the header.
pub const DATA_SIZE_OFFSET: u64 = 40;

/// A value's little-endian bytes.
pub open spec fn le16(value: u16) -> Seq<u8> {
    seq![(value % 256) as u8, (value / 256) as u8]
}

pub open spec fn le32(value: u32) -> Seq<u8> {
    seq![(value % 256) as u8, ((value / 256) % 256) as u8, ((value / 65536) % 256) as u8, (value / 16777216) as u8]
}

pub fn le16_bytes(value: u16) -> (bytes: Vec<u8>)
    ensures
        bytes@ == le16(value),
{
    let bytes = vec![(value % 256) as u8, (value / 256) as u8];
    assert(bytes@ =~= le16(value));
    bytes
}

pub fn le32_bytes(value: u32) -> (bytes: Vec<u8>)
    ensures
        bytes@ == le32(value),
{
    let bytes = vec![
        (value % 256) as u8,
        ((value / 256) % 256) as u8,
        ((value / 65536) % 256) as u8,
        (value / 16777216) as u8,
    ];
    assert(bytes@ =~= le32(value));
    bytes
}

/// 3 is IEEE float, 1 is integer PCM.
pub open spec fn format_tag(bit_depth: u16) -> u16 {
    if bit_depth == 32 {
        3
    } else {
        1
    }
}

/// The header a recording starts with: a stereo `fmt ` chunk at the rate and
/// depth, and both sizes zero until the first sync writes them.
pub open spec fn spec_wav_header(sample_rate: u32, bit_depth: u16) -> Seq<u8> {
    let bytes_per_sample = bit_depth / 8;
    let byte_rate = (sample_rate * 2 * bytes_per_sample) as u32;
    let block_align = (2 * bytes_per_sample) as u16;
    "RIFF"@.map_values(|c: char| c as u8) + le32(0) + "WAVE"@.map_values(|c: char| c as u8) + "fmt "@.map_values(
        |c: char| c as u8,
    ) + le32(16) + le16(format_tag(bit_depth)) + le16(2) + le32(sample_rate) + le32(byte_rate) + le16(
        block_align,
    ) + le16(bit_depth) + "data"@.map_values(|c: char| c as u8) + le32(0)
}

fn push_all(out: &mut Vec<u8>, bytes: Vec<u8>)
    ensures
        final(out)@ == old(out)@ + bytes@,
{
    let ghost start = out@;
    let mut i: usize = 0;
    while i < bytes.len()
        invariant
            i <= bytes.len(),
            out@ == start + bytes@.take(i as int),
        decreases bytes.len() - i,
    {
        out.push(bytes[i]);
        assert(bytes@.take(i + 1) =~= bytes@.take(i as int).push(bytes@[i as int]));
        assert(out@ =~= start + bytes@.take(i + 1));
        i += 1;
    }
    assert(bytes@.take(i as int) =~= bytes@);
}

fn tag_bytes(a: u8, b: u8, c: u8, d: u8) -> (bytes: Vec<u8>)
    ensures
        bytes@ == seq![a, b, c, d],
{
    let bytes = vec![a, b, c, d];
    assert(bytes@ =~= seq![a, b, c, d]);
    bytes
}

/// The header a recording starts with. The byte rate has to fit the header's
/// field, which holds for every rate and depth a device offers.
pub fn wav_header(sample_rate: u32, bit_depth: u16) -> (header: Vec<u8>)
    requires
        sample_rate * 2 <= u32::MAX,
        sample_rate * 2 * (bit_depth / 8) <= u32::MAX,
    ensures
        header@ == spec_wav_header(sample_rate, bit_depth),
        header@.len() == 44,
{
    proof {
        reveal_strlit("RIFF");
        reveal_strlit("WAVE");
        reveal_strlit("fmt ");
        reveal_strlit("data");
    }
    let bytes_per_sample: u32 = (bit_depth / 8) as u32;
    let doubled: u32 = sample_rate * 2;
    assert(doubled * bytes_per_sample <= u32::MAX);
    let byte_rate: u32 = doubled * bytes_per_sample;
    let block_align: u16 = (2 * bytes_per_sample) as u16;
    let tag: u16 = if bit_depth == 32 {
        3
    } else {
        1
    };
    let mut header: Vec<u8> = Vec::new();
    push_all(&mut header, tag_bytes(82, 73, 70, 70));
    push_all(&mut header, le32_bytes(0));
    push_all(&mut header, tag_bytes(87, 65, 86, 69));
    push_all(&mut header, tag_bytes(102, 109, 116, 32));
    push_all(&mut header, le32_bytes(16));
    push_all(&mut header, le16_bytes(tag));
    push_all(&mut header, le16_bytes(RECORDING_CHANNELS));
    push_all(&mut header, le32_bytes(sample_rate));
    push_all(&mut header, le32_bytes(byte_rate));
    push_all(&mut header, le16_bytes(block_align));
    push_all(&mut header, le16_bytes(bit_depth));
    push_all(&mut header, tag_bytes(100, 97, 116, 97));
    push_all(&mut header, le32_bytes(0));
    assert("RIFF"@.map_values(|c: char| c as u8) =~= seq![82u8, 73u8, 70u8, 70u8]);
    assert("WAVE"@.map_values(|c: char| c as u8) =~= seq![87u8, 65u8, 86u8, 69u8]);
    assert("fmt "@.map_values(|c: char| c as u8) =~= seq![102u8, 109u8, 116u8, 32u8]);
    assert("data"@.map_values(|c: char| c as u8) =~= seq![100u8, 97u8, 116u8, 97u8]);
    assert(header@ =~= spec_wav_header(sample_rate, bit_depth));
    header
}

/// The sizes a header declares once `data_bytes` of samples follow it: the RIFF
/// chunk's (the data and the 36 header bytes after its size field, held at the
/// field's largest) and the data chunk's.
pub fn wav_sizes(data_bytes: u32) -> (sizes: (u32, u32))
    ensures
        sizes.0 == (if data_bytes + 36 > u32::MAX {
            u32::MAX as int
        } else {
            data_bytes + 36
        }),
        sizes.1 == data_bytes,
{
    let riff: u32 = if data_bytes > u32::MAX - 36 {
        u32::MAX
    } else {
        data_bytes + 36
    };
    (riff, data_bytes)
}

/// Whether enough has been written since the last sync to declare the sizes again.
pub fn size_sync_due(data_bytes: u32, synced_at: u32) -> (due: bool)
    ensures
        due == (data_bytes >= synced_at && data_bytes - synced_at >= SIZE_SYNC_BYTES),
{
    data_bytes >= synced_at && data_bytes - synced_at >= SIZE_SYNC_BYTES
}

/// The save dial's full reading, written by the store that ends the save.
pub const SAVE_DONE: u32 = 1000;

/// Distinct from any permille, so "nothing is saving" needs no second flag.
pub const SAVE_IDLE: u32 = 0xffff_ffff;

/// Work done out of the total, in thousandths, held below `SAVE_DONE`: a dial
/// reading complete while work remains is worse than one reading 999. Nothing
/// when there is no total to divide by.
pub open spec fn spec_save_permille(done: int, total: int) -> Option<int> {
    if total == 0 {
        None
    } else {
        let scaled = if done * 1000 > u64::MAX {
            u64::MAX as int
        } else {
            done * 1000
        };
        let permille = scaled / total;
        Some(
            if permille < 999 {
                permille
            } else {
                999
            },
        )
    }
}

/// The dial never reads complete while the work is still being counted.
pub proof fn law_the_save_dial_stays_below_done(done: int, total: int)
    requires
        0 <= done,
        0 < total,
    ensures
        spec_save_permille(done, total) matches Some(p) && 0 <= p < SAVE_DONE,
{
    let scaled = if done * 1000 > u64::MAX {
        u64::MAX as int
    } else {
        done * 1000
    };
    assert(scaled >= 0) by (nonlinear_arith)
        requires
            done >= 0,
            scaled == (if done * 1000 > u64::MAX {
                u64::MAX as int
            } else {
                done * 1000
            }),
    ;
    assert(scaled / total >= 0) by (nonlinear_arith)
        requires
            scaled >= 0,
            total > 0,
    ;
}

pub fn save_permille(done: u64, total: u64) -> (permille: Option<u32>)
    ensures
        match (permille, spec_save_permille(done as int, total as int)) {
            (Some(p), Some(q)) => p == q,
            (None, None) => true,
            _ => false,
        },
{
    if total == 0 {
        return None;
    }
    // Saturating, as the dial only needs to know the work is past the total.
    let scaled: u64 = if done > u64::MAX / 1000 {
        u64::MAX
    } else {
        done * 1000
    };
    let permille = scaled / total;
    if permille < 999 {
        Some(permille as u32)
    } else {
        Some(SAVE_DONE - 1)
    }
}

} // verus!
