//! The Windows icon file (ICO) that wraps PNG images of the application icon.

use vstd::prelude::*;
use crate::bytes::append_bytes;

verus! {

/// The two bytes of `v`, least significant first.
pub open spec fn le16(v: int) -> Seq<u8> {
    seq![(v % 256) as u8, ((v / 256) % 256) as u8]
}

/// The four bytes of `v`, least significant first.
pub open spec fn le32(v: int) -> Seq<u8> {
    seq![(v % 256) as u8, ((v / 256) % 256) as u8, ((v / 65536) % 256) as u8, ((v / 16777216) % 256) as u8]
}

/// The image count stored in the header: the number of entries, kept to 16 bits.
pub open spec fn ico_count(n: nat) -> int {
    n as int % 65536
}

/// The length of an image as the directory stores it, kept to 32 bits.
pub open spec fn stored_len(data: Seq<u8>) -> int {
    data.len() as int % 0x1_0000_0000
}

/// The offset of image `i`: past the header and the directory, and past the
/// images before it.
pub open spec fn image_offset(entries: Seq<(u32, Vec<u8>)>, i: int) -> int
    decreases i,
{
    if i <= 0 {
        6 + ico_count(entries.len()) * 16
    } else {
        image_offset(entries, i - 1) + stored_len(entries[i - 1].1@)
    }
}

/// The width and height byte of an image of `size` pixels: 0 stands for 256
/// or more.
pub open spec fn size_byte(size: u32) -> u8 {
    if size >= 256 { 0 } else { size as u8 }
}

/// The directory entry of image `i`: width, height, no palette, reserved,
/// one color plane, 32 bits per pixel, the length and the offset.
pub open spec fn dir_entry(entries: Seq<(u32, Vec<u8>)>, i: int) -> Seq<u8> {
    let w = size_byte(entries[i].0);
    seq![w, w, 0u8, 0u8] + le16(1) + le16(32) + le32(stored_len(entries[i].1@)) + le32(image_offset(entries, i))
}

/// The directory entries of the first `k` images.
pub open spec fn directory(entries: Seq<(u32, Vec<u8>)>, k: int) -> Seq<u8>
    decreases k,
{
    if k <= 0 {
        Seq::empty()
    } else {
        directory(entries, k - 1) + dir_entry(entries, k - 1)
    }
}

/// The data of the first `k` images, one after the other.
pub open spec fn image_data(entries: Seq<(u32, Vec<u8>)>, k: int) -> Seq<u8>
    decreases k,
{
    if k <= 0 {
        Seq::empty()
    } else {
        image_data(entries, k - 1) + entries[k - 1].1@
    }
}

/// The ICO file: the header (reserved, type 1, count), the directory and the images.
pub open spec fn ico_file(entries: Seq<(u32, Vec<u8>)>) -> Seq<u8> {
    le16(0) + le16(1) + le16(ico_count(entries.len())) + directory(entries, entries.len() as int)
        + image_data(entries, entries.len() as int)
}

/// Appends `v` as two little-endian bytes.
fn push_u16(buf: &mut Vec<u8>, v: u16)
    ensures
        final(buf)@ == old(buf)@ + le16(v as int),
{
    buf.push((v % 256) as u8);
    buf.push((v / 256) as u8);
    assert(final(buf)@ =~= old(buf)@ + le16(v as int)) by {
        assert(((v / 256) % 256) == v / 256);
    };
}

/// Appends `v` as four little-endian bytes.
fn push_u32(buf: &mut Vec<u8>, v: u32)
    ensures
        final(buf)@ == old(buf)@ + le32(v as int),
{
    buf.push((v % 256) as u8);
    buf.push(((v / 256) % 256) as u8);
    buf.push(((v / 65536) % 256) as u8);
    buf.push((v / 16777216) as u8);
    assert(final(buf)@ =~= old(buf)@ + le32(v as int)) by {
        assert(((v / 16777216) % 256) == v / 16777216);
    };
}

/// Builds an ICO file holding the PNG images `entries`, each with its size
/// in pixels. The offsets the directory stores must fit in 32 bits.
pub fn build_ico(entries: &[(u32, Vec<u8>)]) -> (res: Vec<u8>)
    requires
        image_offset(entries@, entries@.len() as int) <= u32::MAX,
    ensures
        res@ == ico_file(entries@),
{
    let n = entries.len();
    let count: u16 = (n % 65536) as u16;
    let mut buf: Vec<u8> = Vec::new();
    push_u16(&mut buf, 0);
    push_u16(&mut buf, 1);
    push_u16(&mut buf, count);
    let ghost header = buf@;
    proof {
        lemma_offsets_grow(entries@, 0, n as int);
    }
    let mut data_offset: u32 = 6 + (count as u32) * 16;
    let mut i: usize = 0;
    while i < n
        invariant
            n == entries@.len(),
            i <= n,
            header == le16(0) + le16(1) + le16(ico_count(entries@.len())),
            buf@ == header + directory(entries@, i as int),
            data_offset == image_offset(entries@, i as int),
            image_offset(entries@, n as int) <= u32::MAX,
        decreases n - i,
    {
        let size = entries[i].0;
        let w: u8 = if size >= 256 { 0 } else { size as u8 };
        let ghost before = buf@;
        buf.push(w);
        buf.push(w);
        buf.push(0);
        buf.push(0);
        push_u16(&mut buf, 1);
        push_u16(&mut buf, 32);
        let len = entries[i].1.len();
        let stored: u32 = ((len as u64) % 0x1_0000_0000) as u32;
        push_u32(&mut buf, stored);
        push_u32(&mut buf, data_offset);
        assert(buf@ =~= before + dir_entry(entries@, i as int));
        proof {
            lemma_offsets_grow(entries@, i + 1, n as int);
        }
        data_offset = data_offset + stored;
        i = i + 1;
    }
    let ghost dir_end = buf@;
    let mut j: usize = 0;
    while j < n
        invariant
            n == entries@.len(),
            j <= n,
            dir_end == le16(0) + le16(1) + le16(ico_count(entries@.len())) + directory(entries@, n as int),
            buf@ == dir_end + image_data(entries@, j as int),
        decreases n - j,
    {
        append_bytes(&mut buf, entries[j].1.as_slice());
        assert(buf@ =~= dir_end + image_data(entries@, j + 1));
        j = j + 1;
    }
    buf
}

/// Offsets do not shrink from one image to a later one.
proof fn lemma_offsets_grow(entries: Seq<(u32, Vec<u8>)>, i: int, j: int)
    requires
        0 <= i <= j,
    ensures
        image_offset(entries, i) <= image_offset(entries, j),
    decreases j - i,
{
    if i < j {
        lemma_offsets_grow(entries, i, j - 1);
    }
}

} // verus!
