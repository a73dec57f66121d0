use vstd::prelude::*;

use crate::error::Error;
use crate::pixel::GridView;
use crate::rle::blob_bytes;
use crate::rle::spec_decode_blob;

verus! {

/// `n` zero bytes.
pub open spec fn zeros(n: int) -> Seq<u8> {
    Seq::new(n as nat, |i: int| 0u8)
}

/// Smallest multiple of `align` that is at least `val`.
pub open spec fn spec_align_up(val: int, align: int) -> int {
    ((val + align - 1) / align) * align
}

/// Rounding up to a positive alignment lands on a multiple of the
/// alignment, within one alignment unit above the value.
pub proof fn lemma_align_up(val: int, align: int)
    requires
        0 <= val,
        1 <= align,
    ensures
        val <= spec_align_up(val, align) <= val + align - 1,
        spec_align_up(val, align) % align == 0,
{
    let x = val + align - 1;
    let q = x / align;
    vstd::arithmetic::div_mod::lemma_fundamental_div_mod(x, align);
    vstd::arithmetic::div_mod::lemma_mod_bound(x, align);
    assert(q * align == x - x % align) by (nonlinear_arith)
        requires
            x == align * q + x % align,
    ;
    vstd::arithmetic::div_mod::lemma_mod_multiples_basic(q, align);
}

/// Round `val` up to the next multiple of `align`.
pub fn align_up(val: usize, align: usize) -> (r: usize)
    requires
        1 <= align,
        val + align - 1 <= usize::MAX,
    ensures
        r == spec_align_up(val as int, align as int),
        r % align == 0,
        val <= r < val + align,
{
    proof {
        lemma_align_up(val as int, align as int);
    }
    let x = val + (align - 1);
    let q = x / align;
    q * align
}

/// Extend `data` with zero bytes up to exactly `new_len`.
pub fn pad(data: &mut Vec<u8>, new_len: usize)
    requires
        old(data)@.len() <= new_len,
    ensures
        final(data)@ == old(data)@ + zeros(new_len - old(data)@.len()),
        final(data)@.len() == new_len,
{
    let ghost orig = data@;
    while data.len() < new_len
        invariant
            orig.len() <= new_len,
            orig.len() <= data@.len() <= new_len,
            data@ == orig + zeros(data@.len() - orig.len()),
        decreases new_len - data@.len(),
    {
        data.push(0u8);
        proof {
            assert(data@ =~= orig + zeros(data@.len() - orig.len()));
        }
    }
    proof {
        assert(data@ =~= orig + zeros(new_len - orig.len()));
    }
}

/// The 8-byte magic at the start of an archive: "MotoLogo".
pub open spec fn archive_magic() -> Seq<u8> {
    seq![0x4Du8, 0x6Fu8, 0x74u8, 0x6Fu8, 0x4Cu8, 0x6Fu8, 0x67u8, 0x6Fu8]
}

/// One archive entry: a name of at most 23 bytes and the blob bytes it
/// addresses.
#[derive(Debug, Clone, PartialEq, Eq)]
pub struct ArchiveEntry {
    pub name: Vec<u8>,
    pub blob: Vec<u8>,
}

/// Mathematical view of an archive entry.
#[verifier::ext_equal]
pub struct EntryView {
    pub name: Seq<u8>,
    pub blob: Seq<u8>,
}

impl View for ArchiveEntry {
    type V = EntryView;

    open spec fn view(&self) -> EntryView {
        EntryView { name: self.name@, blob: self.blob@ }
    }
}

pub open spec fn entries_view(es: Seq<ArchiveEntry>) -> Seq<EntryView> {
    es.map(|k: int, e: ArchiveEntry| e@)
}

/// A name fits its 24-byte slot (at most 23 bytes before the NUL).
pub open spec fn names_fit(es: Seq<EntryView>) -> bool {
    forall|k: int| 0 <= k < es.len() ==> (#[trigger] es[k]).name.len() <= 23
}

/// A name that also holds no NUL byte survives the decoder's trimming.
pub open spec fn name_wf(name: Seq<u8>) -> bool {
    name.len() <= 23 && forall|i: int| 0 <= i < name.len() ==> name[i] != 0
}

pub open spec fn entries_wf(es: Seq<EntryView>) -> bool {
    forall|k: int| 0 <= k < es.len() ==> name_wf((#[trigger] es[k]).name)
}

/// The start offset of blob k; k == es.len() gives the padded archive
/// end. The first blob starts at the directory end rounded up to 256;
/// each further blob starts at the previous blob's padded end.
pub open spec fn blob_offset(es: Seq<EntryView>, k: int) -> int
    decreases k,
{
    if k <= 0 {
        spec_align_up(13 + 32 * es.len() as int, 256)
    } else {
        spec_align_up(blob_offset(es, k - 1) + es[k - 1].blob.len(), 256)
    }
}

/// Total size of the encoded archive.
pub open spec fn archive_end(es: Seq<EntryView>) -> int {
    blob_offset(es, es.len() as int)
}

/// A 32-bit value in little-endian byte order.
pub open spec fn le32_bytes(v: int) -> Seq<u8> {
    seq![
        (v % 256) as u8,
        (v / 256 % 256) as u8,
        (v / 65536 % 256) as u8,
        (v / 16777216 % 256) as u8,
    ]
}

/// The value of the 4 little-endian bytes at position p.
pub open spec fn le32_at(b: Seq<u8>, p: int) -> int {
    b[p] as int + 256 * (b[p + 1] as int) + 65536 * (b[p + 2] as int) + 16777216 * (b[p
        + 3] as int)
}

/// The 13-byte archive header: the magic, then the directory length
/// `count * 32 + 13` shifted up one byte, little-endian, then a reserved
/// zero byte.
pub open spec fn archive_header_bytes(count: int) -> Seq<u8> {
    archive_magic() + le32_bytes(256 * (32 * count + 13)) + seq![0u8]
}

/// The 24-byte name slot: the name, then zero fill.
pub open spec fn name_slot_bytes(name: Seq<u8>) -> Seq<u8> {
    name + zeros(24 - name.len())
}

/// One 32-byte directory entry: name slot, offset, size.
pub open spec fn dir_entry_bytes(e: EntryView, off: int) -> Seq<u8> {
    name_slot_bytes(e.name) + le32_bytes(off) + le32_bytes(e.blob.len() as int)
}

/// The directory table from entry k on.
pub open spec fn dir_bytes(es: Seq<EntryView>, k: int) -> Seq<u8>
    decreases es.len() - k,
{
    if k < 0 || k >= es.len() {
        Seq::empty()
    } else {
        dir_entry_bytes(es[k], blob_offset(es, k)) + dir_bytes(es, k + 1)
    }
}

/// The blob region from blob k on: each blob, zero-padded up to the next
/// 256-byte boundary.
pub open spec fn blob_region_bytes(es: Seq<EntryView>, k: int) -> Seq<u8>
    decreases es.len() - k,
{
    if k < 0 || k >= es.len() {
        Seq::empty()
    } else {
        es[k].blob + zeros(blob_offset(es, k + 1) - (blob_offset(es, k) + es[k].blob.len()))
            + blob_region_bytes(es, k + 1)
    }
}

/// The whole archive: header, directory, padding, blob region.
pub open spec fn archive_bytes(es: Seq<EntryView>) -> Seq<u8> {
    archive_header_bytes(es.len() as int) + dir_bytes(es, 0) + zeros(
        blob_offset(es, 0) - (13 + 32 * es.len()),
    ) + blob_region_bytes(es, 0)
}

/// Alignment invariant: every blob's start offset (and the padded end) is
/// a multiple of 256, and lies at or after the directory's end.
pub proof fn lemma_blob_offset_aligned(es: Seq<EntryView>, k: int)
    requires
        0 <= k,
    ensures
        blob_offset(es, k) % 256 == 0,
        13 + 32 * es.len() as int <= blob_offset(es, k),
    decreases k,
{
    if k == 0 {
        lemma_align_up(13 + 32 * es.len() as int, 256);
    } else {
        lemma_blob_offset_aligned(es, k - 1);
        lemma_align_up(blob_offset(es, k - 1) + es[k - 1].blob.len(), 256);
    }
}

/// Each blob ends at or before the next blob's start.
proof fn lemma_blob_step(es: Seq<EntryView>, k: int)
    requires
        0 <= k,
    ensures
        blob_offset(es, k) + es[k].blob.len() <= blob_offset(es, k + 1),
        blob_offset(es, k + 1) <= blob_offset(es, k) + es[k].blob.len() + 255,
{
    lemma_blob_offset_aligned(es, k);
    lemma_align_up(blob_offset(es, k) + es[k].blob.len(), 256);
}

proof fn lemma_blob_offset_mono(es: Seq<EntryView>, j: int, k: int)
    requires
        0 <= j <= k,
    ensures
        blob_offset(es, j) <= blob_offset(es, k),
    decreases k - j,
{
    if j < k {
        lemma_blob_offset_mono(es, j, k - 1);
        lemma_blob_step(es, k - 1);
    }
}

/// Lengths of the directory and blob regions.
proof fn lemma_region_lens(es: Seq<EntryView>, k: int)
    requires
        names_fit(es),
        0 <= k <= es.len(),
    ensures
        dir_bytes(es, k).len() == 32 * (es.len() - k),
        blob_region_bytes(es, k).len() == archive_end(es) - blob_offset(es, k),
    decreases es.len() - k,
{
    if k < es.len() {
        lemma_region_lens(es, k + 1);
        lemma_blob_step(es, k);
        assert(es[k].name.len() <= 23);
    }
}

/// The archive's byte count is exactly the padded end offset.
pub proof fn lemma_archive_len(es: Seq<EntryView>)
    requires
        names_fit(es),
    ensures
        archive_bytes(es).len() == archive_end(es),
{
    lemma_region_lens(es, 0);
    lemma_blob_offset_aligned(es, 0);
    lemma_blob_offset_mono(es, 0, es.len() as int);
}

/// Splitting a 32-bit value into its four bytes and recombining them.
proof fn lemma_u32_byte_decomp(v: int)
    requires
        0 <= v < 0x100000000,
    ensures
        v == (v % 256) + 256 * (v / 256 % 256) + 65536 * (v / 65536 % 256) + 16777216 * (v
            / 16777216 % 256),
        0 <= v / 16777216 < 256,
        v / 16777216 % 256 == v / 16777216,
{
    let q1 = v / 256;
    let q2 = q1 / 256;
    let q3 = q2 / 256;
    vstd::arithmetic::div_mod::lemma_fundamental_div_mod(v, 256);
    vstd::arithmetic::div_mod::lemma_mod_bound(v, 256);
    vstd::arithmetic::div_mod::lemma_fundamental_div_mod(q1, 256);
    vstd::arithmetic::div_mod::lemma_mod_bound(q1, 256);
    vstd::arithmetic::div_mod::lemma_fundamental_div_mod(q2, 256);
    vstd::arithmetic::div_mod::lemma_mod_bound(q2, 256);
    vstd::arithmetic::div_mod::lemma_div_denominator(v, 256, 256);
    vstd::arithmetic::div_mod::lemma_div_denominator(v, 65536, 256);
    vstd::arithmetic::div_mod::lemma_fundamental_div_mod(v, 16777216);
    vstd::arithmetic::div_mod::lemma_mod_bound(v, 16777216);
    assert(q2 == v / 65536);
    assert(q3 == v / 16777216);
    vstd::arithmetic::div_mod::lemma_small_mod((v / 16777216) as nat, 256);
}

/// Reading back the four little-endian bytes of a 32-bit value.
proof fn lemma_le32_roundtrip(b: Seq<u8>, p: int, v: int)
    requires
        0 <= v < 0x100000000,
        0 <= p,
        p + 4 <= b.len(),
        b[p] == le32_bytes(v)[0],
        b[p + 1] == le32_bytes(v)[1],
        b[p + 2] == le32_bytes(v)[2],
        b[p + 3] == le32_bytes(v)[3],
    ensures
        le32_at(b, p) == v,
{
    lemma_u32_byte_decomp(v);
    vstd::arithmetic::div_mod::lemma_mod_bound(v, 256);
    vstd::arithmetic::div_mod::lemma_mod_bound(v / 256, 256);
    vstd::arithmetic::div_mod::lemma_mod_bound(v / 65536, 256);
}

/// Append a 32-bit value, little-endian.
fn push_le32(data: &mut Vec<u8>, v: u32)
    ensures
        final(data)@ == old(data)@ + le32_bytes(v as int),
{
    let ghost orig = data@;
    data.push((v % 256) as u8);
    data.push(((v / 256) % 256) as u8);
    data.push(((v / 65536) % 256) as u8);
    data.push(((v / 16777216) % 256) as u8);
    proof {
        assert(data@ =~= orig + le32_bytes(v as int));
    }
}

/// Read the 32-bit little-endian value at position p.
fn read_le32(bytes: &Vec<u8>, p: usize) -> (v: u32)
    requires
        p + 4 <= bytes@.len(),
    ensures
        v as int == le32_at(bytes@, p as int),
{
    let l = bytes.len();
    (bytes[p] as u32) + 256 * (bytes[p + 1] as u32) + 65536 * (bytes[p + 2] as u32) + 16777216
        * (bytes[p + 3] as u32)
}

/// Serialize an archive from named blobs. Fails with NameTooLong exactly
/// when some name exceeds 23 bytes; otherwise the result is the archive
/// layout: header, directory table, then each blob starting on its
/// 256-byte boundary with zero padding between.
pub fn encode_archive(entries: &Vec<ArchiveEntry>) -> (r: Result<Vec<u8>, Error>)
    requires
        32 * entries@.len() + 13 < 0x1000000,
        archive_end(entries_view(entries@)) < 0x80000000,
    ensures
        match r {
            Ok(bytes) => names_fit(entries_view(entries@)) && bytes@ == archive_bytes(
                entries_view(entries@),
            ),
            Err(e) => e == Error::NameTooLong && !names_fit(entries_view(entries@)),
        },
{
    let ghost ev = entries_view(entries@);
    let n = entries.len();
    let mut k: usize = 0;
    while k < n
        invariant
            ev == entries_view(entries@),
            n == entries@.len(),
            k <= n,
            forall|j: int| 0 <= j < k ==> (#[trigger] ev[j]).name.len() <= 23,
        decreases n - k,
    {
        if entries[k].name.len() > 23 {
            proof {
                assert(ev[k as int].name.len() > 23);
            }
            return Err(Error::NameTooLong);
        }
        proof {
            assert(ev[k as int].name.len() <= 23);
        }
        k = k + 1;
    }
    proof {
        assert(names_fit(ev));
    }
    // Offset pre-pass: where each blob will start.
    let mut offs: Vec<usize> = Vec::new();
    let mut cur = align_up(13 + 32 * n, 256);
    let mut k: usize = 0;
    while k < n
        invariant
            ev == entries_view(entries@),
            n == entries@.len(),
            k <= n,
            32 * n + 13 < 0x1000000,
            archive_end(ev) < 0x80000000,
            offs@.len() == k,
            forall|j: int| 0 <= j < k ==> (#[trigger] offs@[j]) as int == blob_offset(ev, j),
            cur as int == blob_offset(ev, k as int),
        decreases n - k,
    {
        offs.push(cur);
        proof {
            lemma_blob_offset_aligned(ev, k as int);
            lemma_blob_step(ev, k as int);
            lemma_blob_offset_mono(ev, k as int + 1, n as int);
            assert(ev[k as int].blob.len() == entries@[k as int]@.blob.len());
        }
        let bl = entries[k].blob.len();
        cur = align_up(cur + bl, 256);
        k = k + 1;
    }
    // Header.
    let mut data: Vec<u8> = Vec::new();
    data.push(0x4D);
    data.push(0x6F);
    data.push(0x74);
    data.push(0x6F);
    data.push(0x4C);
    data.push(0x6F);
    data.push(0x67);
    data.push(0x6F);
    let v: u32 = 32 * (n as u32) + 13;
    push_le32(&mut data, v * 256);
    data.push(0);
    proof {
        assert(data@ =~= archive_header_bytes(n as int));
    }
    // Directory table.
    let mut k: usize = 0;
    while k < n
        invariant
            ev == entries_view(entries@),
            n == entries@.len(),
            k <= n,
            names_fit(ev),
            32 * n + 13 < 0x1000000,
            archive_end(ev) < 0x80000000,
            offs@.len() == n,
            forall|j: int| 0 <= j < n ==> (#[trigger] offs@[j]) as int == blob_offset(ev, j),
            data@ + dir_bytes(ev, k as int) == archive_header_bytes(n as int) + dir_bytes(ev, 0),
        decreases n - k,
    {
        let ghost d0 = data@;
        let ghost slot = name_slot_bytes(ev[k as int].name);
        proof {
            assert(ev[k as int] == entries@[k as int]@);
            assert(ev[k as int].name.len() <= 23);
            assert(slot.len() == 24);
        }
        let name_len = entries[k].name.len();
        let mut i: usize = 0;
        proof {
            assert(data@ =~= d0 + slot.take(0));
        }
        while i < 24
            invariant
                ev == entries_view(entries@),
                n == entries@.len(),
                k < n,
                slot == name_slot_bytes(ev[k as int].name),
                slot.len() == 24,
                name_len == ev[k as int].name.len(),
                name_len <= 23,
                i <= 24,
                data@ == d0 + slot.take(i as int),
            decreases 24 - i,
        {
            if i < name_len {
                data.push(entries[k].name[i]);
                proof {
                    assert(slot[i as int] == ev[k as int].name[i as int]);
                }
            } else {
                data.push(0);
                proof {
                    assert(slot[i as int] == 0);
                }
            }
            proof {
                assert(data@ =~= d0 + slot.take(i as int + 1));
            }
            i = i + 1;
        }
        proof {
            assert(slot.take(24) =~= slot);
            lemma_blob_offset_aligned(ev, k as int);
            lemma_blob_step(ev, k as int);
            lemma_blob_offset_mono(ev, k as int + 1, n as int);
        }
        let off_k = offs[k];
        push_le32(&mut data, off_k as u32);
        let size_k = entries[k].blob.len();
        push_le32(&mut data, size_k as u32);
        proof {
            assert(ev[k as int].blob.len() == entries@[k as int]@.blob.len());
            assert(data@ =~= d0 + dir_entry_bytes(ev[k as int], blob_offset(ev, k as int)));
            assert(data@ + dir_bytes(ev, k as int + 1) =~= archive_header_bytes(n as int)
                + dir_bytes(ev, 0));
        }
        k = k + 1;
    }
    // Padding up to the first blob boundary, then the blobs.
    proof {
        lemma_region_lens(ev, 0);
        lemma_blob_offset_aligned(ev, 0);
        lemma_blob_offset_mono(ev, 0, n as int);
        assert(dir_bytes(ev, n as int) == Seq::<u8>::empty());
        assert(data@ + Seq::<u8>::empty() =~= data@);
        assert(data@ =~= archive_header_bytes(n as int) + dir_bytes(ev, 0));
        assert(data@.len() == 13 + 32 * n);
    }
    let first = align_up(13 + 32 * n, 256);
    pad(&mut data, first);
    proof {
        assert(data@ =~= archive_header_bytes(n as int) + dir_bytes(ev, 0) + zeros(
            blob_offset(ev, 0) - (13 + 32 * n as int),
        ));
        assert(data@ + blob_region_bytes(ev, 0) =~= archive_bytes(ev));
        assert(data@.len() == blob_offset(ev, 0));
    }
    let mut k: usize = 0;
    while k < n
        invariant
            ev == entries_view(entries@),
            n == entries@.len(),
            k <= n,
            names_fit(ev),
            archive_end(ev) < 0x80000000,
            data@.len() == blob_offset(ev, k as int),
            data@ + blob_region_bytes(ev, k as int) == archive_bytes(ev),
        decreases n - k,
    {
        let ghost d0 = data@;
        proof {
            assert(ev[k as int] == entries@[k as int]@);
            lemma_blob_offset_aligned(ev, k as int);
            lemma_blob_step(ev, k as int);
            lemma_blob_offset_mono(ev, k as int + 1, n as int);
        }
        let bl = entries[k].blob.len();
        let mut i: usize = 0;
        proof {
            assert(data@ =~= d0 + ev[k as int].blob.take(0));
        }
        while i < bl
            invariant
                ev == entries_view(entries@),
                n == entries@.len(),
                k < n,
                bl == ev[k as int].blob.len(),
                i <= bl,
                data@ == d0 + ev[k as int].blob.take(i as int),
            decreases bl - i,
        {
            data.push(entries[k].blob[i]);
            proof {
                assert(data@ =~= d0 + ev[k as int].blob.take(i as int + 1));
            }
            i = i + 1;
        }
        proof {
            assert(ev[k as int].blob.take(bl as int) =~= ev[k as int].blob);
            assert(data@.len() == blob_offset(ev, k as int) + ev[k as int].blob.len());
        }
        let next = align_up(data.len(), 256);
        proof {
            assert(next as int == blob_offset(ev, k as int + 1));
        }
        pad(&mut data, next);
        proof {
            assert(data@ =~= d0 + ev[k as int].blob + zeros(
                blob_offset(ev, k as int + 1) - (blob_offset(ev, k as int)
                    + ev[k as int].blob.len()),
            ));
            assert(data@ + blob_region_bytes(ev, k as int + 1) =~= archive_bytes(ev));
        }
        k = k + 1;
    }
    proof {
        assert(blob_region_bytes(ev, n as int) == Seq::<u8>::empty());
        assert(data@ =~= archive_bytes(ev));
    }
    Ok(data)
}

/// How many bytes stand before the first zero.
pub open spec fn trim_len(s: Seq<u8>) -> int
    decreases s.len(),
{
    if s.len() == 0 {
        0
    } else if s[0] == 0 {
        0
    } else {
        1 + trim_len(s.skip(1))
    }
}

/// The name in a slot: the bytes before the first zero.
pub open spec fn trim_name(s: Seq<u8>) -> Seq<u8> {
    s.take(trim_len(s))
}

proof fn lemma_trim_len_char(s: Seq<u8>, i: int)
    requires
        0 <= i <= s.len(),
        forall|k: int| 0 <= k < i ==> s[k] != 0,
        i == s.len() || s[i] == 0,
    ensures
        trim_len(s) == i,
    decreases s.len(),
{
    if s.len() == 0 {
    } else if s[0] == 0 {
        assert(i == 0);
    } else {
        assert(i >= 1);
        assert forall|k: int| 0 <= k < i - 1 implies s.skip(1)[k] != 0 by {
            assert(s.skip(1)[k] == s[k + 1]);
        }
        if i < s.len() {
            assert(s.skip(1)[i - 1] == s[i]);
        }
        lemma_trim_len_char(s.skip(1), i - 1);
    }
}

/// Parse the directory entries from index k on: the name trimmed at the
/// first zero, then the blob slice addressed by offset and size.
pub open spec fn parse_dir(b: Seq<u8>, count: int, k: int) -> Result<Seq<EntryView>, Error>
    decreases count - k,
{
    if k >= count {
        Ok(Seq::empty())
    } else if 13 + 32 * k + 32 > b.len() {
        Err(Error::TruncatedArchive)
    } else {
        let base = 13 + 32 * k;
        let name = trim_name(b.subrange(base, base + 24));
        let off = le32_at(b, base + 24);
        let size = le32_at(b, base + 28);
        if off >= 0x80000000 || size >= 0x80000000 || off + size > b.len() {
            Err(Error::TruncatedArchive)
        } else {
            match parse_dir(b, count, k + 1) {
                Ok(rest) => Ok(
                    seq![EntryView { name, blob: b.subrange(off, off + size) }] + rest,
                ),
                Err(e) => Err(e),
            }
        }
    }
}

/// What decoding an archive yields: the entries in directory order, or
/// the first error met. The directory length field is read as an
/// unsigned value; a field that would be negative as a 32-bit integer
/// is malformed and rejected rather than aborted on.
pub open spec fn spec_decode_archive(b: Seq<u8>) -> Result<Seq<EntryView>, Error> {
    if b.len() < 8 {
        Err(Error::TruncatedArchive)
    } else if b.subrange(0, 8) != archive_magic() {
        Err(Error::BadMagic)
    } else if b.len() < 12 {
        Err(Error::TruncatedArchive)
    } else {
        let v = le32_at(b, 8) / 256;
        if v < 13 || (v - 13) % 32 != 0 {
            Err(Error::BadDirectory)
        } else {
            parse_dir(b, (v - 13) / 32, 0)
        }
    }
}

proof fn lemma_entries_view_push(es: Seq<ArchiveEntry>, e: ArchiveEntry)
    ensures
        entries_view(es.push(e)) == entries_view(es) + seq![e@],
{
    assert(entries_view(es.push(e)) =~= entries_view(es) + seq![e@]);
}

/// Deserialize an archive's directory and blob slices. The exact
/// outcome, error included, is `spec_decode_archive` of the bytes.
pub fn decode_archive(bytes: &Vec<u8>) -> (r: Result<Vec<ArchiveEntry>, Error>)
    ensures
        match r {
            Ok(es) => spec_decode_archive(bytes@) == Ok::<Seq<EntryView>, Error>(
                entries_view(es@),
            ),
            Err(e) => spec_decode_archive(bytes@) == Err::<Seq<EntryView>, Error>(e),
        },
{
    let n = bytes.len();
    if n < 8 {
        return Err(Error::TruncatedArchive);
    }
    let magic_ok = bytes[0] == 0x4D && bytes[1] == 0x6F && bytes[2] == 0x74 && bytes[3] == 0x6F
        && bytes[4] == 0x4C && bytes[5] == 0x6F && bytes[6] == 0x67 && bytes[7] == 0x6F;
    proof {
        let pre = bytes@.subrange(0, 8);
        assert(pre[0] == bytes@[0]);
        assert(pre[1] == bytes@[1]);
        assert(pre[2] == bytes@[2]);
        assert(pre[3] == bytes@[3]);
        assert(pre[4] == bytes@[4]);
        assert(pre[5] == bytes@[5]);
        assert(pre[6] == bytes@[6]);
        assert(pre[7] == bytes@[7]);
        if magic_ok {
            assert(pre =~= archive_magic());
        }
    }
    if !magic_ok {
        return Err(Error::BadMagic);
    }
    if n < 12 {
        return Err(Error::TruncatedArchive);
    }
    let raw = read_le32(bytes, 8);
    let v = raw / 256;
    if v < 13 || (v - 13) % 32 != 0 {
        return Err(Error::BadDirectory);
    }
    let count = ((v - 13) / 32) as usize;
    proof {
        vstd::arithmetic::div_mod::lemma_fundamental_div_mod(raw as int, 256);
        vstd::arithmetic::div_mod::lemma_mod_bound(raw as int, 256);
        assert(v < 0x1000000);
        vstd::arithmetic::div_mod::lemma_fundamental_div_mod(v as int - 13, 32);
        vstd::arithmetic::div_mod::lemma_mod_bound(v as int - 13, 32);
        assert(count < 0x1000000);
    }
    let ghost target = parse_dir(bytes@, count as int, 0);
    proof {
        assert(count as int == (le32_at(bytes@, 8) / 256 - 13) / 32);
    }
    let mut entries: Vec<ArchiveEntry> = Vec::new();
    let mut k: usize = 0;
    proof {
        match parse_dir(bytes@, count as int, 0) {
            Ok(rest) => {
                assert(entries_view(entries@) + rest =~= rest);
            },
            Err(e) => {},
        }
    }
    while k < count
        invariant
            bytes@.len() == n,
            k <= count,
            count < 0x1000000,
            entries@.len() == k,
            target == parse_dir(bytes@, count as int, 0),
            spec_decode_archive(bytes@) == target,
            (match parse_dir(bytes@, count as int, k as int) {
                Ok(rest) => target == Ok::<Seq<EntryView>, Error>(entries_view(entries@) + rest),
                Err(e) => target == Err::<Seq<EntryView>, Error>(e),
            }),
        decreases count - k,
    {
        let base = 13 + 32 * k;
        if base + 32 > n {
            return Err(Error::TruncatedArchive);
        }
        let ghost slot = bytes@.subrange(base as int, base as int + 24);
        let mut name: Vec<u8> = Vec::new();
        let mut i: usize = 0;
        proof {
            assert(name@ =~= slot.take(0));
        }
        while i < 24 && bytes[base + i] != 0
            invariant
                bytes@.len() == n,
                base + 32 <= n,
                slot == bytes@.subrange(base as int, base as int + 24),
                i <= 24,
                name@ == slot.take(i as int),
                forall|j: int| 0 <= j < i ==> slot[j] != 0,
            decreases 24 - i,
        {
            name.push(bytes[base + i]);
            proof {
                assert(slot[i as int] == bytes@[base as int + i]);
                assert(name@ =~= slot.take(i as int + 1));
            }
            i = i + 1;
        }
        proof {
            if i < 24 {
                assert(slot[i as int] == bytes@[base as int + i]);
            }
            lemma_trim_len_char(slot, i as int);
            assert(name@ =~= trim_name(slot));
        }
        let off = read_le32(bytes, base + 24);
        let size = read_le32(bytes, base + 28);
        if off >= 0x80000000 || size >= 0x80000000 {
            return Err(Error::TruncatedArchive);
        }
        if (off as u64) + (size as u64) > (n as u64) {
            return Err(Error::TruncatedArchive);
        }
        let off = off as usize;
        let size = size as usize;
        let mut blob: Vec<u8> = Vec::new();
        let mut i: usize = 0;
        proof {
            assert(blob@ =~= bytes@.subrange(off as int, off as int));
        }
        while i < size
            invariant
                bytes@.len() == n,
                off + size <= n,
                i <= size,
                blob@ == bytes@.subrange(off as int, off as int + i as int),
            decreases size - i,
        {
            blob.push(bytes[off + i]);
            proof {
                assert(blob@ =~= bytes@.subrange(off as int, off as int + i as int + 1));
            }
            i = i + 1;
        }
        let ghost e0 = entries@;
        entries.push(ArchiveEntry { name, blob });
        proof {
            lemma_entries_view_push(e0, entries@.last());
            assert(entries@ == e0.push(entries@.last()));
            match parse_dir(bytes@, count as int, k as int + 1) {
                Ok(rest) => {
                    assert(entries_view(entries@) + rest =~= entries_view(e0) + (seq![
                        entries@.last()@,
                    ] + rest));
                },
                Err(e) => {},
            }
        }
        k = k + 1;
    }
    proof {
        assert(parse_dir(bytes@, count as int, count as int) == Ok::<Seq<EntryView>, Error>(
            Seq::empty(),
        ));
        assert(entries_view(entries@) + Seq::<EntryView>::empty() =~= entries_view(entries@));
    }
    Ok(entries)
}

/// The bytes of directory entry k inside the directory table.
proof fn lemma_dir_bytes_index(es: Seq<EntryView>, j: int, k: int)
    requires
        names_fit(es),
        0 <= j <= k < es.len(),
    ensures
        dir_bytes(es, j).subrange(32 * (k - j), 32 * (k - j) + 32) == dir_entry_bytes(
            es[k],
            blob_offset(es, k),
        ),
    decreases k - j,
{
    lemma_region_lens(es, j);
    lemma_region_lens(es, j + 1);
    let ej = dir_entry_bytes(es[j], blob_offset(es, j));
    assert(es[j].name.len() <= 23);
    assert(ej.len() == 32);
    if j == k {
        assert(dir_bytes(es, j).subrange(0, 32) =~= ej) by {
            assert forall|i: int| 0 <= i < 32 implies dir_bytes(es, j).subrange(0, 32)[i]
                == ej[i] by {
                assert(dir_bytes(es, j)[i] == ej[i]);
            }
        }
    } else {
        lemma_dir_bytes_index(es, j + 1, k);
        let d = 32 * (k - j);
        assert(dir_bytes(es, j).subrange(d, d + 32) =~= dir_entry_bytes(
            es[k],
            blob_offset(es, k),
        )) by {
            assert forall|i: int| 0 <= i < 32 implies dir_bytes(es, j).subrange(d, d + 32)[i]
                == dir_entry_bytes(es[k], blob_offset(es, k))[i] by {
                assert(dir_bytes(es, j)[d + i] == dir_bytes(es, j + 1)[d - 32 + i]);
                assert(dir_bytes(es, j + 1)[d - 32 + i] == dir_bytes(es, j + 1).subrange(
                    32 * (k - j - 1),
                    32 * (k - j - 1) + 32,
                )[i]);
            }
        }
    }
}

/// The bytes of blob k inside the blob region.
proof fn lemma_region_slice(es: Seq<EntryView>, j: int, k: int)
    requires
        names_fit(es),
        0 <= j <= k < es.len(),
    ensures
        blob_region_bytes(es, j).subrange(
            blob_offset(es, k) - blob_offset(es, j),
            blob_offset(es, k) - blob_offset(es, j) + es[k].blob.len(),
        ) == es[k].blob,
    decreases k - j,
{
    lemma_region_lens(es, j);
    lemma_region_lens(es, j + 1);
    lemma_blob_step(es, j);
    lemma_blob_step(es, k);
    lemma_blob_offset_mono(es, j, k);
    lemma_blob_offset_mono(es, k + 1, es.len() as int);
    let rj = blob_region_bytes(es, j);
    if j == k {
        assert(rj.subrange(0, es[j].blob.len() as int) =~= es[j].blob) by {
            assert forall|i: int| 0 <= i < es[j].blob.len() implies rj.subrange(
                0,
                es[j].blob.len() as int,
            )[i] == es[j].blob[i] by {
                assert(rj[i] == es[j].blob[i]);
            }
        }
    } else {
        lemma_region_slice(es, j + 1, k);
        lemma_blob_offset_mono(es, j + 1, k);
        let d = blob_offset(es, k) - blob_offset(es, j);
        let d2 = blob_offset(es, k) - blob_offset(es, j + 1);
        let head = blob_offset(es, j + 1) - blob_offset(es, j);
        assert(rj.subrange(d, d + es[k].blob.len()) =~= es[k].blob) by {
            assert forall|i: int| 0 <= i < es[k].blob.len() implies rj.subrange(
                d,
                d + es[k].blob.len(),
            )[i] == es[k].blob[i] by {
                assert(rj[d + i] == blob_region_bytes(es, j + 1)[d2 + i]);
                assert(blob_region_bytes(es, j + 1)[d2 + i] == blob_region_bytes(
                    es,
                    j + 1,
                ).subrange(d2, d2 + es[k].blob.len())[i]);
            }
        }
    }
}

/// Parsing the directory of an encoded archive recovers the entries from
/// index k on.
#[verifier::rlimit(100)]
proof fn lemma_parse_dir_archive(es: Seq<EntryView>, k: int)
    requires
        entries_wf(es),
        32 * es.len() + 13 < 0x1000000,
        archive_end(es) < 0x80000000,
        0 <= k <= es.len(),
    ensures
        parse_dir(archive_bytes(es), es.len() as int, k) == Ok::<Seq<EntryView>, Error>(
            es.skip(k),
        ),
    decreases es.len() - k,
{
    let b = archive_bytes(es);
    let n = es.len() as int;
    assert(names_fit(es));
    lemma_archive_len(es);
    lemma_region_lens(es, 0);
    lemma_blob_offset_aligned(es, 0);
    lemma_blob_offset_mono(es, 0, n);
    if k == n {
        assert(es.skip(k) =~= Seq::<EntryView>::empty());
    } else {
        let base = 13 + 32 * k;
        let off = blob_offset(es, k);
        let size = es[k].blob.len() as int;
        lemma_blob_step(es, k);
        lemma_blob_offset_mono(es, k + 1, n);
        lemma_blob_offset_mono(es, 0, k);
        assert(base + 32 <= 13 + 32 * n);
        assert(b.len() == archive_end(es));
        // the 32 bytes of directory entry k
        lemma_dir_bytes_index(es, 0, k);
        let eb = dir_entry_bytes(es[k], off);
        assert(name_slot_bytes(es[k].name).len() == 24);
        assert(b.subrange(base, base + 32) =~= eb) by {
            assert forall|i: int| 0 <= i < 32 implies b.subrange(base, base + 32)[i] == eb[i] by {
                assert(b[base + i] == dir_bytes(es, 0)[32 * k + i]);
                assert(dir_bytes(es, 0)[32 * k + i] == dir_bytes(es, 0).subrange(
                    32 * k,
                    32 * k + 32,
                )[i]);
            }
        }
        // the name slot and its trimming
        let slot = b.subrange(base, base + 24);
        assert(slot =~= name_slot_bytes(es[k].name)) by {
            assert forall|i: int| 0 <= i < 24 implies slot[i] == name_slot_bytes(
                es[k].name,
            )[i] by {
                assert(slot[i] == b.subrange(base, base + 32)[i]);
                assert(eb[i] == name_slot_bytes(es[k].name)[i]);
            }
        }
        let nl = es[k].name.len() as int;
        assert(name_wf(es[k].name));
        assert forall|i: int| 0 <= i < nl implies slot[i] != 0 by {
            assert(slot[i] == es[k].name[i]);
        }
        assert(slot[nl] == zeros(24 - nl)[0]);
        lemma_trim_len_char(slot, nl);
        assert(trim_name(slot) =~= es[k].name);
        // offset and size fields
        assert forall|i: int| 0 <= i < 4 implies b[base + 24 + i] == le32_bytes(off)[i] by {
            assert(b[base + 24 + i] == b.subrange(base, base + 32)[24 + i]);
            assert(eb[24 + i] == le32_bytes(off)[i]);
        }
        lemma_le32_roundtrip(b, base + 24, off);
        assert forall|i: int| 0 <= i < 4 implies b[base + 28 + i] == le32_bytes(size)[i] by {
            assert(b[base + 28 + i] == b.subrange(base, base + 32)[28 + i]);
            assert(eb[28 + i] == le32_bytes(size)[i]);
        }
        lemma_le32_roundtrip(b, base + 28, size);
        assert(le32_at(b, base + 24) == off && le32_at(b, base + 28) == size);
        assert(0 <= off < 0x80000000 && 0 <= size < 0x80000000 && off + size <= b.len());
        // the blob slice
        lemma_region_slice(es, 0, k);
        assert(b.subrange(off, off + size) =~= es[k].blob) by {
            assert forall|i: int| 0 <= i < size implies b.subrange(off, off + size)[i]
                == es[k].blob[i] by {
                assert(b[off + i] == blob_region_bytes(es, 0)[off - blob_offset(es, 0) + i]);
                assert(blob_region_bytes(es, 0)[off - blob_offset(es, 0) + i]
                    == blob_region_bytes(es, 0).subrange(
                    off - blob_offset(es, 0),
                    off - blob_offset(es, 0) + size,
                )[i]);
            }
        }
        lemma_parse_dir_archive(es, k + 1);
        let entry = EntryView { name: trim_name(slot), blob: b.subrange(off, off + size) };
        assert(entry == es[k]);
        assert(seq![es[k]] + es.skip(k + 1) =~= es.skip(k));
        assert(parse_dir(b, n, k) == Ok::<Seq<EntryView>, Error>(es.skip(k)));
    }
}

/// Round trip: decoding an encoded archive yields the same names in the
/// same order with the same blob bytes, for entries whose names fit the
/// slot and hold no NUL, when the directory and the offsets fit their
/// fields.
pub proof fn lemma_archive_round_trip(es: Seq<EntryView>)
    requires
        entries_wf(es),
        32 * es.len() + 13 < 0x1000000,
        archive_end(es) < 0x80000000,
    ensures
        spec_decode_archive(archive_bytes(es)) == Ok::<Seq<EntryView>, Error>(es),
{
    let b = archive_bytes(es);
    let n = es.len() as int;
    assert(names_fit(es));
    lemma_archive_len(es);
    lemma_blob_offset_aligned(es, 0);
    lemma_blob_offset_mono(es, 0, n);
    lemma_align_up(13 + 32 * n, 256);
    assert(b.len() >= 13 + 32 * n);
    let hdr = archive_header_bytes(n);
    let v = 32 * n + 13;
    assert(hdr.len() == 13);
    assert(b.subrange(0, 8) =~= archive_magic()) by {
        assert forall|i: int| 0 <= i < 8 implies b.subrange(0, 8)[i] == archive_magic()[i] by {
            assert(b[i] == hdr[i]);
        }
    }
    assert forall|i: int| 0 <= i < 4 implies #[trigger] b[8 + i] == le32_bytes(256 * v)[i] by {
        assert(b[8 + i] == hdr[8 + i]);
    }
    lemma_le32_roundtrip(b, 8, 256 * v);
    assert(le32_at(b, 8) == 256 * v);
    vstd::arithmetic::div_mod::lemma_fundamental_div_mod_converse(256 * v, 256, v, 0);
    vstd::arithmetic::div_mod::lemma_fundamental_div_mod(256 * v, 256);
    assert(le32_at(b, 8) / 256 == v);
    vstd::arithmetic::div_mod::lemma_fundamental_div_mod_converse(32 * n, 32, n, 0);
    vstd::arithmetic::div_mod::lemma_fundamental_div_mod(32 * n, 32);
    assert((v - 13) % 32 == 0);
    assert((v - 13) / 32 == n);
    lemma_parse_dir_archive(es, 0);
    assert(es.skip(0) =~= es);
}

/// The entries that pack a list of named images: each grid encoded to
/// its blob bytes.
pub open spec fn pack_entries(names: Seq<Seq<u8>>, grids: Seq<GridView>) -> Seq<EntryView> {
    Seq::new(names.len(), |k: int| EntryView { name: names[k], blob: blob_bytes(grids[k]) })
}

/// Round trip for a whole archive of images: encode each grid to a blob,
/// pack the blobs, and the decoded archive yields the same names in the
/// same order, each blob decoding back to the pixel-identical grid.
pub proof fn lemma_pack_round_trip(names: Seq<Seq<u8>>, grids: Seq<GridView>)
    requires
        names.len() == grids.len(),
        forall|k: int| 0 <= k < names.len() ==> name_wf(#[trigger] names[k]),
        forall|k: int|
            0 <= k < grids.len() ==> (#[trigger] grids[k]).wf() && 0 <= grids[k].width <= 0xFFFF
                && 0 <= grids[k].height <= 0xFFFF,
        32 * names.len() + 13 < 0x1000000,
        archive_end(pack_entries(names, grids)) < 0x80000000,
    ensures
        spec_decode_archive(archive_bytes(pack_entries(names, grids))) == Ok::<
            Seq<EntryView>,
            Error,
        >(pack_entries(names, grids)),
        forall|k: int|
            0 <= k < grids.len() ==> spec_decode_blob((#[trigger] pack_entries(names, grids)[k]).blob)
                == Ok::<GridView, Error>(grids[k]),
{
    let es = pack_entries(names, grids);
    assert(entries_wf(es)) by {
        assert forall|k: int| 0 <= k < es.len() implies name_wf((#[trigger] es[k]).name) by {
            assert(es[k].name == names[k]);
        }
    }
    lemma_archive_round_trip(es);
    assert forall|k: int| 0 <= k < grids.len() implies spec_decode_blob(
        (#[trigger] pack_entries(names, grids)[k]).blob,
    ) == Ok::<GridView, Error>(grids[k]) by {
        crate::rle::lemma_image_round_trip(grids[k]);
    }
}

} // verus!
