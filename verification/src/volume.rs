//! The filesystems on a source: the source itself, or its MBR / GPT partitions.

use crate::bytes::{fields_are_little_endian, zeros, has_at, le16, le32, le64, stands_at, u16le, u32le, u64le};
use crate::model::{text_view, views, views_push, Volume, VolumeView};
use crate::source::{holds, read, Source};
use crate::text::{decimal, decimal_text};
use vstd::prelude::*;

verus! {

/// `NTFS    `
pub open spec fn ntfs_mark() -> Seq<u8> {
    seq![0x4E, 0x54, 0x46, 0x53, 0x20, 0x20, 0x20, 0x20]
}

/// `EXFAT   `
pub open spec fn exfat_mark() -> Seq<u8> {
    seq![0x45, 0x58, 0x46, 0x41, 0x54, 0x20, 0x20, 0x20]
}

/// `FAT32   `
pub open spec fn fat32_mark() -> Seq<u8> {
    seq![0x46, 0x41, 0x54, 0x33, 0x32, 0x20, 0x20, 0x20]
}

/// `XFSB`
pub open spec fn xfs_mark() -> Seq<u8> {
    seq![0x58, 0x46, 0x53, 0x42]
}

/// `_BHRfS_M`
pub open spec fn btrfs_mark() -> Seq<u8> {
    seq![0x5F, 0x42, 0x48, 0x52, 0x66, 0x53, 0x5F, 0x4D]
}

/// `EFI PART`
pub open spec fn gpt_mark() -> Seq<u8> {
    seq![0x45, 0x46, 0x49, 0x20, 0x50, 0x41, 0x52, 0x54]
}

/// The filesystem whose signature stands at `base`. The signatures further in are looked
/// at only where those before them are absent, and a failed read ends the search.
#[verifier::opaque]
pub open spec fn filesystem_at<S: Source + ?Sized>(src: &S, base: u64) -> Option<Seq<char>> {
    match src.at(base, 512) {
        Err(_) => None,
        Ok(b) => if stands_at(b, 3, ntfs_mark()) {
            Some("NTFS"@)
        } else if stands_at(b, 3, exfat_mark()) {
            Some("exFAT"@)
        } else if stands_at(b, 82, fat32_mark()) {
            Some("FAT32"@)
        } else {
            match src.at(base.wrapping_add(1024), 64) {
                Err(_) => None,
                Ok(sb) => if le16(sb, 56) == 0xEF53 {
                    Some("ext4"@)
                } else {
                    match src.at(base, 4) {
                        Err(_) => None,
                        Ok(x) => if x == xfs_mark() {
                            Some("XFS"@)
                        } else {
                            match src.at(base.wrapping_add(0x10040), 8) {
                                Err(_) => None,
                                Ok(t) => if t == btrfs_mark() {
                                    Some("btrfs"@)
                                } else {
                                    None
                                },
                            }
                        },
                    }
                },
            }
        },
    }
}

pub fn fs_at<S: Source + ?Sized>(src: &S, base: u64) -> (r: Option<&'static str>)
    ensures
        text_view(r) == filesystem_at(src, base),
{
    reveal(filesystem_at);
    let b = match read(src, base, 512) {
        Ok(b) => b,
        Err(_) => return None,
    };
    let ntfs: [u8; 8] = [0x4E, 0x54, 0x46, 0x53, 0x20, 0x20, 0x20, 0x20];
    let exfat: [u8; 8] = [0x45, 0x58, 0x46, 0x41, 0x54, 0x20, 0x20, 0x20];
    let fat32: [u8; 8] = [0x46, 0x41, 0x54, 0x33, 0x32, 0x20, 0x20, 0x20];
    let xfs: [u8; 4] = [0x58, 0x46, 0x53, 0x42];
    let btrfs: [u8; 8] = [0x5F, 0x42, 0x48, 0x52, 0x66, 0x53, 0x5F, 0x4D];
    assert(ntfs@ =~= ntfs_mark() && exfat@ =~= exfat_mark() && fat32@ =~= fat32_mark());
    assert(xfs@ =~= xfs_mark() && btrfs@ =~= btrfs_mark());
    if has_at(&b, 3, &ntfs) {
        return Some("NTFS");
    }
    if has_at(&b, 3, &exfat) {
        return Some("exFAT");
    }
    if has_at(&b, 82, &fat32) {
        return Some("FAT32");
    }
    let sb = match read(src, base.wrapping_add(1024), 64) {
        Ok(b) => b,
        Err(_) => return None,
    };
    if u16le(&sb, 56) == 0xEF53 {
        return Some("ext4");
    }
    let x = match read(src, base, 4) {
        Ok(b) => b,
        Err(_) => return None,
    };
    assert(x@.subrange(0, 4) =~= x@);
    if has_at(&x, 0, &xfs) {
        return Some("XFS");
    }
    let t = match read(src, base.wrapping_add(0x10040), 8) {
        Ok(b) => b,
        Err(_) => return None,
    };
    assert(t@.subrange(0, 8) =~= t@);
    if has_at(&t, 0, &btrfs) {
        return Some("btrfs");
    }
    None
}

/// Whether the GPT entry at `o` describes a partition: its type is not all zeros.
pub open spec fn gpt_entry_used(t: Seq<u8>, o: int) -> bool {
    t.subrange(o, o + 16) != zeros(16)
}

/// The byte range (start, length) of the GPT entry at `o`.
pub open spec fn gpt_entry_range(t: Seq<u8>, o: int) -> (u64, u64) {
    let first = le64(t, o + 32);
    let last = le64(t, o + 40);
    (first.wrapping_mul(512), last.wrapping_add(1).wrapping_sub(first).wrapping_mul(512))
}

/// The partitions among the first `k` entries, of `sz` bytes each, of a GPT table.
pub open spec fn gpt_entries(t: Seq<u8>, sz: int, k: int) -> Seq<(u64, u64)>
    decreases k,
{
    if k <= 0 {
        seq![]
    } else if gpt_entry_used(t, (k - 1) * sz) {
        gpt_entries(t, sz, k - 1).push(gpt_entry_range(t, (k - 1) * sz))
    } else {
        gpt_entries(t, sz, k - 1)
    }
}

/// How many entries of a GPT header are looked at.
pub open spec fn gpt_entry_count(g: Seq<u8>) -> int {
    if le32(g, 80) < 256 {
        le32(g, 80) as int
    } else {
        256
    }
}

/// The partitions of the GPT, if there is one. Entries too short to hold a range have none.
#[verifier::opaque]
pub open spec fn gpt_partitions<S: Source + ?Sized>(src: &S) -> Seq<(u64, u64)> {
    match src.at(512, 512) {
        Ok(g) => if stands_at(g, 0, gpt_mark()) {
            let sz = le32(g, 84) as int;
            match src.at(
                le64(g, 72).wrapping_mul(512),
                ((gpt_entry_count(g) * sz) as u64 as usize) as nat,
            ) {
                Ok(t) => if sz >= 48 {
                    gpt_entries(t, sz, t.len() as int / sz)
                } else {
                    seq![]
                },
                Err(_) => seq![],
            }
        } else {
            seq![]
        },
        Err(_) => seq![],
    }
}

/// Whether the MBR entry at `o` is a partition of its own: of a kind that is neither empty,
/// nor the GPT's cover, nor an extended partition, and not of length zero.
pub open spec fn mbr_entry_used(m: Seq<u8>, o: int) -> bool {
    &&& m[o + 4] != 0
    &&& m[o + 4] != 0xEE
    &&& m[o + 4] != 0x05
    &&& m[o + 4] != 0x0F
    &&& le32(m, o + 12) > 0
}

/// The partitions among the first `k` entries of an MBR.
pub open spec fn mbr_entries(m: Seq<u8>, k: int) -> Seq<(u64, u64)>
    decreases k,
{
    if k <= 0 {
        seq![]
    } else {
        let o = 446 + 16 * (k - 1);
        if mbr_entry_used(m, o) {
            mbr_entries(m, k - 1).push(((512 * le32(m, o + 8)) as u64, (512 * le32(m, o + 12)) as u64))
        } else {
            mbr_entries(m, k - 1)
        }
    }
}

/// The partitions of the MBR, if there is one.
#[verifier::opaque]
pub open spec fn mbr_partitions<S: Source + ?Sized>(src: &S) -> Seq<(u64, u64)> {
    match src.at(0, 512) {
        Ok(m) => if m[510] == 0x55 && m[511] == 0xAA {
            mbr_entries(m, 4)
        } else {
            seq![]
        },
        Err(_) => seq![],
    }
}

/// The byte ranges (start, length) of the partitions: the GPT's, or else the MBR's.
pub open spec fn partitions<S: Source + ?Sized>(src: &S) -> Seq<(u64, u64)> {
    let gpt = gpt_partitions(src);
    if gpt.len() > 0 {
        gpt
    } else {
        mbr_partitions(src)
    }
}

/// The filesystems found in the first `k` partitions. A partition's number counts those
/// without a filesystem too.
pub open spec fn partition_volumes<S: Source + ?Sized>(src: &S, parts: Seq<(u64, u64)>, k: int) -> Seq<VolumeView>
    decreases k,
{
    if k <= 0 {
        seq![]
    } else {
        match filesystem_at(src, parts[k - 1].0) {
            Some(fs) => partition_volumes(src, parts, k - 1).push(
                VolumeView {
                    label: "partition "@ + decimal_text(k as nat),
                    fs,
                    base: parts[k - 1].0,
                    size: parts[k - 1].1,
                },
            ),
            None => partition_volumes(src, parts, k - 1),
        }
    }
}

/// The filesystems on a source: itself, where it starts with one, or else its partitions.
pub open spec fn volumes_on<S: Source + ?Sized>(src: &S) -> Seq<VolumeView> {
    match filesystem_at(src, 0) {
        Some(fs) => seq![VolumeView { label: "whole device"@, fs, base: 0, size: src.size() }],
        None => partition_volumes(src, partitions(src), partitions(src).len() as int),
    }
}

fn read_gpt<S: Source + ?Sized>(src: &S) -> (r: Vec<(u64, u64)>)
    ensures
        r@ == gpt_partitions(src),
{
    reveal(gpt_partitions);
    let mut parts: Vec<(u64, u64)> = Vec::new();
    let g = match read(src, 512, 512) {
        Ok(g) => g,
        Err(_) => return parts,
    };
    let mark: [u8; 8] = [0x45, 0x46, 0x49, 0x20, 0x50, 0x41, 0x52, 0x54];
    assert(mark@ =~= gpt_mark());
    if !has_at(&g, 0, &mark) {
        return parts;
    }
    let count = u32le(&g, 80);
    let n: u64 = if count < 256 {
        count as u64
    } else {
        256
    };
    let sz = u32le(&g, 84) as u64;
    assert(0 <= n * sz <= 256 * 0xFFFF_FFFF) by (nonlinear_arith)
        requires
            n <= 256,
            sz <= 0xFFFF_FFFF,
    ;
    let t = match read(src, u64le(&g, 72).wrapping_mul(512), (n * sz) as usize) {
        Ok(t) => t,
        Err(_) => return parts,
    };
    if sz < 48 {
        return parts;
    }
    let sz = sz as usize;
    let entries = t.len() / sz;
    let mut k: usize = 0;
    while k < entries
        invariant
            k <= entries,
            sz >= 48,
            entries == t@.len() / sz as nat,
            t@.len() == t.len(),
            parts@ == gpt_entries(t@, sz as int, k as int),
        decreases entries - k,
    {
        assert(k * sz + sz <= t@.len()) by (nonlinear_arith)
            requires
                k < entries,
                entries == t@.len() / sz as nat,
                sz >= 48,
        ;
        assert(k * sz >= 0) by (nonlinear_arith);
        let o = k * sz;
        let zero: [u8; 16] = [0; 16];
        assert(zero@ =~= zeros(16));
        if !has_at(&t, o, &zero) {
            let first = u64le(&t, o + 32);
            let last = u64le(&t, o + 40);
            parts.push((first.wrapping_mul(512), last.wrapping_add(1).wrapping_sub(first).wrapping_mul(512)));
        }
        k += 1;
    }
    parts
}

fn read_mbr<S: Source + ?Sized>(src: &S) -> (r: Vec<(u64, u64)>)
    ensures
        r@ == mbr_partitions(src),
{
    reveal(mbr_partitions);
    let mut parts: Vec<(u64, u64)> = Vec::new();
    let m = match read(src, 0, 512) {
        Ok(m) => m,
        Err(_) => return parts,
    };
    if m[510] == 0x55 && m[511] == 0xAA {
        let mut k: usize = 0;
        while k < 4
            invariant
                k <= 4,
                m@.len() == 512,
                parts@ == mbr_entries(m@, k as int),
            decreases 4 - k,
        {
            let o = 446 + 16 * k;
            let kind = m[o + 4];
            let start = u32le(&m, o + 8) as u64;
            let len = u32le(&m, o + 12) as u64;
            if kind != 0 && kind != 0xEE && kind != 0x05 && kind != 0x0F && len > 0 {
                parts.push((start * 512, len * 512));
            }
            k += 1;
        }
    }
    parts
}

/// Filesystems on the source: the device itself, or its MBR / GPT partitions.
pub fn volumes<S: Source + ?Sized>(src: &S) -> (r: Vec<Volume>)
    ensures
        views(r@) == volumes_on(src),
{
    let mut out: Vec<Volume> = Vec::new();
    if let Some(fs) = fs_at(src, 0) {
        out.push(Volume { label: "whole device".to_owned(), fs, base: 0, size: src.len() });
        assert(views(out@) =~= volumes_on(src));
        return out;
    }
    let mut parts = read_gpt(src);
    if parts.len() == 0 {
        parts = read_mbr(src);
    }
    let mut k: usize = 0;
    assert(views(out@) =~= seq![]);
    while k < parts.len()
        invariant
            k <= parts@.len(),
            views(out@) == partition_volumes(src, parts@, k as int),
        decreases parts@.len() - k,
    {
        let (base, size) = parts[k];
        if let Some(fs) = fs_at(src, base) {
            let mut label = "partition ".to_owned();
            label.append(decimal(k as u64 + 1).as_str());
            let v = Volume { label, fs, base, size };
            proof {
                views_push(out@, v);
            }
            out.push(v);
        }
        k += 1;
    }
    out
}

proof fn partitions_have_filesystems<S: Source + ?Sized>(src: &S, parts: Seq<(u64, u64)>, k: int)
    ensures
        forall|i: int|
            0 <= i < partition_volumes(src, parts, k).len() ==> filesystem_at(
                src,
                (#[trigger] partition_volumes(src, parts, k)[i]).base,
            ) == Some(partition_volumes(src, parts, k)[i].fs),
    decreases k,
{
    if k > 0 {
        partitions_have_filesystems(src, parts, k - 1);
        let before = partition_volumes(src, parts, k - 1);
        let all = partition_volumes(src, parts, k);
        assert forall|i: int| 0 <= i < all.len() implies filesystem_at(src, (#[trigger] all[i]).base) == Some(all[i].fs) by {
            if i < before.len() {
                assert(all[i] == before[i]);
            }
        }
    }
}

/// Every volume that is found starts with the mark of its filesystem.
pub proof fn volumes_have_filesystems<S: Source + ?Sized>(src: &S)
    ensures
        forall|i: int|
            0 <= i < volumes_on(src).len() ==> filesystem_at(src, (#[trigger] volumes_on(src)[i]).base) == Some(
                volumes_on(src)[i].fs,
            ),
{
    partitions_have_filesystems(src, partitions(src), partitions(src).len() as int);
}

/// Whether the characters of `t` stand on `disk` at byte `o`.
pub open spec fn spelled(disk: Seq<u8>, o: int, t: Seq<char>) -> bool {
    forall|i: int| #![trigger t[i]] 0 <= i < t.len() ==> disk[o + i] as int == t[i] as int
}

proof fn marks_are_spelled(disk: Seq<u8>, from: int, n: int, o: int, mark: Seq<u8>, t: Seq<char>)
    requires
        0 <= from,
        from + n <= disk.len(),
        0 <= o,
        o + mark.len() <= n,
        mark.len() == t.len(),
        forall|i: int| #![trigger t[i]] 0 <= i < t.len() ==> mark[i] as int == t[i] as int,
    ensures
        stands_at(disk.subrange(from, from + n), o, mark) <==> spelled(disk, from + o, t),
{
    let b = disk.subrange(from, from + n);
    let part = b.subrange(o, o + mark.len());
    if spelled(disk, from + o, t) {
        assert forall|i: int| 0 <= i < mark.len() implies part[i] == mark[i] by {
            assert(t[i] as int == mark[i] as int);
            assert(part[i] == disk[from + o + i]);
        }
        assert(part =~= mark);
    }
    if part == mark {
        assert forall|i: int| #![trigger t[i]] 0 <= i < t.len() implies disk[from + o + i] as int == t[i] as int by {
            assert(part[i] == disk[from + o + i]);
            assert(part[i] == mark[i]);
        }
    }
}

/// The marks on a disk name the filesystem that starts at `base`: the first of those that
/// stand there, each at its own place.
#[verifier::rlimit(40)]
pub proof fn marks_name_the_filesystem<S: Source + ?Sized>(src: &S, disk: Seq<u8>, base: u64)
    requires
        holds(src, disk),
        base + 512 <= disk.len() <= u64::MAX,
    ensures
        spelled(disk, base + 3, "NTFS    "@) ==> filesystem_at(src, base) == Some("NTFS"@),
        spelled(disk, base + 3, "EXFAT   "@) ==> filesystem_at(src, base) == Some("exFAT"@),
        spelled(disk, base + 82, "FAT32   "@) && !spelled(disk, base + 3, "NTFS    "@) && !spelled(
            disk,
            base + 3,
            "EXFAT   "@,
        ) ==> filesystem_at(src, base) == Some("FAT32"@),
        base + 0x10048 <= disk.len() && !spelled(disk, base + 3, "NTFS    "@) && !spelled(disk, base + 3, "EXFAT   "@)
            && !spelled(disk, base + 82, "FAT32   "@) ==> filesystem_at(src, base) == if disk[base + 1080] == 0x53
            && disk[base + 1081] == 0xEF {
            Some("ext4"@)
        } else if spelled(disk, base as int, "XFSB"@) {
            Some("XFS"@)
        } else if spelled(disk, base + 65600, "_BHRfS_M"@) {
            Some("btrfs"@)
        } else {
            None
        },
{
    reveal(filesystem_at);
    reveal_strlit("NTFS    ");
    reveal_strlit("EXFAT   ");
    reveal_strlit("FAT32   ");
    reveal_strlit("XFSB");
    reveal_strlit("_BHRfS_M");
    marks_are_spelled(disk, base as int, 512, 3, ntfs_mark(), "NTFS    "@);
    marks_are_spelled(disk, base as int, 512, 3, exfat_mark(), "EXFAT   "@);
    marks_are_spelled(disk, base as int, 512, 82, fat32_mark(), "FAT32   "@);
    let b = disk.subrange(base as int, base + 512);
    assert(src.at(base, 512) == Ok::<Seq<u8>, Seq<char>>(b));
    if spelled(disk, base + 3, "EXFAT   "@) {
        assert("EXFAT   "@[0] as int != "NTFS    "@[0] as int);
        assert(disk[base + 3 + 0] as int == "EXFAT   "@[0] as int);
        if spelled(disk, base + 3, "NTFS    "@) {
            assert(disk[base + 3 + 0] as int == "NTFS    "@[0] as int);
        }
    }
    if base + 0x10048 <= disk.len() {
        let sb = disk.subrange(base + 1024, base + 1088);
        assert(src.at((base + 1024) as u64, 64) == Ok::<Seq<u8>, Seq<char>>(sb));
        fields_are_little_endian(sb, 56);
        assert(sb[56] == disk[base + 1080] && sb[57] == disk[base + 1081]);
        let x = disk.subrange(base as int, base + 4);
        assert(src.at(base, 4) == Ok::<Seq<u8>, Seq<char>>(x));
        marks_are_spelled(disk, base as int, 4, 0, xfs_mark(), "XFSB"@);
        assert(x.subrange(0, 4) =~= x);
        let t = disk.subrange(base + 65600, base + 65608);
        assert(src.at((base + 65600) as u64, 8) == Ok::<Seq<u8>, Seq<char>>(t));
        marks_are_spelled(disk, base + 65600, 8, 0, btrfs_mark(), "_BHRfS_M"@);
        assert(t.subrange(0, 8) =~= t);
    }
}

/// The number in the four bytes of `disk` at `o`, the lowest first.
pub open spec fn number_at(disk: Seq<u8>, o: int) -> int {
    disk[o] + 256 * (disk[o + 1] + 256 * (disk[o + 2] + 256 * disk[o + 3]))
}

/// Whether entry `k` of the partition table on `disk` is one of a partition: its kind is not
/// that of an empty entry, of a GPT's cover or of an extended partition, and it is not empty.
pub open spec fn is_partition(disk: Seq<u8>, k: int) -> bool {
    let kind = disk[450 + 16 * k];
    kind != 0 && kind != 5 && kind != 15 && kind != 238 && number_at(disk, 458 + 16 * k) != 0
}

/// How many partitions stand in front of entry `k`.
pub open spec fn partitions_before(disk: Seq<u8>, k: int) -> int {
    (if k > 0 && is_partition(disk, 0) {
        1int
    } else {
        0
    }) + (if k > 1 && is_partition(disk, 1) {
        1int
    } else {
        0
    }) + (if k > 2 && is_partition(disk, 2) {
        1int
    } else {
        0
    }) + (if k > 3 && is_partition(disk, 3) {
        1int
    } else {
        0
    })
}

proof fn mbr_entries_of_disk(disk: Seq<u8>, k: int)
    requires
        512 <= disk.len(),
        0 <= k <= 4,
    ensures
        mbr_entries(disk.subrange(0, 512), k).len() == partitions_before(disk, k),
        forall|j: int|
            0 <= j < k && is_partition(disk, j) ==> #[trigger] partitions_before(disk, j) < partitions_before(disk, k)
                && mbr_entries(disk.subrange(0, 512), k)[partitions_before(disk, j)] == (
                (512 * number_at(disk, 454 + 16 * j)) as u64,
                (512 * number_at(disk, 458 + 16 * j)) as u64,
            ),
    decreases k,
{
    if k > 0 {
        let m = disk.subrange(0, 512);
        mbr_entries_of_disk(disk, k - 1);
        let o = 446 + 16 * (k - 1);
        fields_are_little_endian(m, o + 8);
        fields_are_little_endian(m, o + 12);
        assert(m[o + 4] == disk[450 + 16 * (k - 1)]);
        assert(le32(m, o + 8) == number_at(disk, 454 + 16 * (k - 1)));
        assert(le32(m, o + 12) == number_at(disk, 458 + 16 * (k - 1)));
        let before = mbr_entries(m, k - 1);
        let all = mbr_entries(m, k);
        assert forall|j: int| 0 <= j < k && is_partition(disk, j) implies #[trigger] partitions_before(disk, j)
            < partitions_before(disk, k) && all[partitions_before(disk, j)] == (
            (512 * number_at(disk, 454 + 16 * j)) as u64,
            (512 * number_at(disk, 458 + 16 * j)) as u64,
        ) by {
            if j < k - 1 {
                assert(all[partitions_before(disk, j)] == before[partitions_before(disk, j)]);
            }
        }
    }
}

/// The partition table in the first sector is read in full: each of its four entries that is one
/// of a partition is listed with its place and length in bytes, in their order, and no other is.
pub proof fn partition_table_is_read<S: Source + ?Sized>(src: &S, disk: Seq<u8>, k: int)
    requires
        holds(src, disk),
        512 <= disk.len(),
        0 <= k < 4,
    ensures
        disk[510] == 0x55 && disk[511] == 0xAA ==> {
            &&& mbr_partitions(src).len() == partitions_before(disk, 4)
            &&& is_partition(disk, k) ==> partitions_before(disk, k) < mbr_partitions(src).len()
                && mbr_partitions(src)[partitions_before(disk, k)] == (
                (512 * number_at(disk, 454 + 16 * k)) as u64,
                (512 * number_at(disk, 458 + 16 * k)) as u64,
            )
        },
        !(disk[510] == 0x55 && disk[511] == 0xAA) ==> mbr_partitions(src).len() == 0,
{
    reveal(mbr_partitions);
    let m = disk.subrange(0, 512);
    assert(src.at(0, 512) == Ok::<Seq<u8>, Seq<char>>(m));
    assert(m[510] == disk[510] && m[511] == disk[511]);
    mbr_entries_of_disk(disk, 4);
    assert(partitions_before(disk, k) >= 0);
}

/// The number in the eight bytes of `disk` at `o`, the lowest first.
pub open spec fn long_number_at(disk: Seq<u8>, o: int) -> int {
    number_at(disk, o) + 0x1_0000_0000 * number_at(disk, o + 4)
}

/// Whether the entry of a GPT that stands on `disk` at `o` is one of a partition: one of the 16
/// bytes of its type is not zero.
pub open spec fn is_gpt_partition(disk: Seq<u8>, o: int) -> bool {
    exists|i: int| 0 <= i < 16 && #[trigger] disk[o + i] != 0
}

/// How many of the first `k` entries, of `sz` bytes each, of a GPT on `disk` at `o` are
/// partitions.
pub open spec fn gpt_partitions_before(disk: Seq<u8>, o: int, sz: int, k: int) -> nat
    decreases k,
{
    if k <= 0 {
        0
    } else {
        gpt_partitions_before(disk, o, sz, k - 1) + if is_gpt_partition(disk, o + (k - 1) * sz) {
            1nat
        } else {
            0nat
        }
    }
}

proof fn gpt_entries_of_disk(disk: Seq<u8>, o: int, len: int, sz: int, k: int)
    requires
        0 <= o,
        o + len <= disk.len(),
        sz >= 48,
        0 <= k,
        k * sz <= len,
    ensures
        gpt_entries(disk.subrange(o, o + len), sz, k).len() == gpt_partitions_before(disk, o, sz, k),
        forall|j: int| #![trigger gpt_partitions_before(disk, o, sz, j)]
            0 <= j < k && is_gpt_partition(disk, o + j * sz) ==> gpt_partitions_before(disk, o, sz, j)
                < gpt_partitions_before(disk, o, sz, k) && gpt_entries(disk.subrange(o, o + len), sz, k)[gpt_partitions_before(
                disk,
                o,
                sz,
                j,
            ) as int] == gpt_entry_range(disk.subrange(o, o + len), j * sz),
    decreases k,
{
    let t = disk.subrange(o, o + len);
    if k > 0 {
        let p = (k - 1) * sz;
        assert(0 <= p && p + sz == k * sz) by (nonlinear_arith)
            requires
                p == (k - 1) * sz,
                k > 0,
                sz >= 48,
        ;
        gpt_entries_of_disk(disk, o, len, sz, k - 1);
        let kind = t.subrange(p, p + 16);
        if is_gpt_partition(disk, o + p) {
            let i = choose|i: int| 0 <= i < 16 && #[trigger] disk[o + p + i] != 0;
            assert(kind[i] != zeros(16)[i]);
        } else {
            assert forall|i: int| 0 <= i < 16 implies kind[i] == zeros(16)[i] by {
                assert(disk[o + p + i] == 0);
            }
            assert(kind =~= zeros(16));
        }
        let before = gpt_entries(t, sz, k - 1);
        let all = gpt_entries(t, sz, k);
        assert forall|j: int| #![trigger gpt_partitions_before(disk, o, sz, j)]
            0 <= j < k && is_gpt_partition(disk, o + j * sz) implies gpt_partitions_before(disk, o, sz, j)
            < gpt_partitions_before(disk, o, sz, k) && all[gpt_partitions_before(disk, o, sz, j) as int] == gpt_entry_range(
            t,
            j * sz,
        ) by {
            if j < k - 1 {
                assert(all[gpt_partitions_before(disk, o, sz, j) as int] == before[gpt_partitions_before(disk, o, sz, j) as int]);
            }
        }
    }
}

/// A GPT is read in full: its header, in the second sector, says where its entries stand, how
/// many there are (256 at most) and how long each is; each of them that is one of a partition is
/// listed with its place and length in bytes, in their order, and no other is.
#[verifier::rlimit(40)]
pub proof fn gpt_is_read<S: Source + ?Sized>(src: &S, disk: Seq<u8>, k: int)
    requires
        holds(src, disk),
        1024 <= disk.len() <= u64::MAX,
        spelled(disk, 512, "EFI PART"@),
        number_at(disk, 596) >= 48,
        0 <= k < number_at(disk, 592),
        k < 256,
        512 * long_number_at(disk, 584) + (if number_at(disk, 592) < 256 {
            number_at(disk, 592)
        } else {
            256
        }) * number_at(disk, 596) <= disk.len() <= usize::MAX,
    ensures
        ({
            let at = 512 * long_number_at(disk, 584);
            let sz = number_at(disk, 596);
            let n = if number_at(disk, 592) < 256 {
                number_at(disk, 592)
            } else {
                256
            };
            let o = at + k * sz;
            let first = long_number_at(disk, o + 32);
            let last = long_number_at(disk, o + 40);
            &&& gpt_partitions(src).len() == gpt_partitions_before(disk, at, sz, n)
            &&& is_gpt_partition(disk, o) && first <= last && 512 * last < 0xFFFF_FFFF_FFFF_FE00
                ==> gpt_partitions_before(disk, at, sz, k) < gpt_partitions(src).len() && gpt_partitions(
                src,
            )[gpt_partitions_before(disk, at, sz, k) as int] == (
                (512 * first) as u64,
                (512 * (last - first + 1)) as u64,
            )
        }),
{
    gpt_table_of_disk(src, disk);
    let at = 512 * long_number_at(disk, 584);
    let sz = number_at(disk, 596);
    let n = entries_looked_at(disk);
    let len = n * sz;
    assert(0 <= k * sz && k * sz + sz <= len && 0 <= len) by (nonlinear_arith)
        requires
            0 <= k < n,
            sz >= 48,
            len == n * sz,
    ;
    gpt_entries_of_disk(disk, at, len, sz, n);
    gpt_range_of_disk(disk, at, len, k * sz);
    assert(gpt_partitions_before(disk, at, sz, k) >= 0);
}

/// How many entries of a GPT on `disk` are looked at.
pub open spec fn entries_looked_at(disk: Seq<u8>) -> int {
    if number_at(disk, 592) < 256 {
        number_at(disk, 592)
    } else {
        256
    }
}

proof fn gpt_table_of_disk<S: Source + ?Sized>(src: &S, disk: Seq<u8>)
    requires
        holds(src, disk),
        1024 <= disk.len() <= usize::MAX,
        disk.len() <= u64::MAX,
        spelled(disk, 512, "EFI PART"@),
        number_at(disk, 596) >= 48,
        512 * long_number_at(disk, 584) + entries_looked_at(disk) * number_at(disk, 596) <= disk.len(),
    ensures
        gpt_partitions(src) == gpt_entries(
            disk.subrange(
                512 * long_number_at(disk, 584),
                512 * long_number_at(disk, 584) + entries_looked_at(disk) * number_at(disk, 596),
            ),
            number_at(disk, 596),
            entries_looked_at(disk),
        ),
        0 <= 512 * long_number_at(disk, 584),
{
    reveal(gpt_partitions);
    reveal_strlit("EFI PART");
    let g = disk.subrange(512, 1024);
    assert(src.at(512, 512) == Ok::<Seq<u8>, Seq<char>>(g));
    marks_are_spelled(disk, 512, 512, 0, gpt_mark(), "EFI PART"@);
    fields_are_little_endian(g, 72);
    fields_are_little_endian(g, 80);
    fields_are_little_endian(g, 84);
    assert(le64(g, 72) == long_number_at(disk, 584));
    assert(le32(g, 80) == number_at(disk, 592));
    assert(le32(g, 84) == number_at(disk, 596));
    let at = 512 * long_number_at(disk, 584);
    let sz = number_at(disk, 596);
    let n = entries_looked_at(disk);
    assert(gpt_entry_count(g) == n);
    let len = n * sz;
    assert(0 <= len) by (nonlinear_arith)
        requires
            0 <= n,
            sz >= 48,
            len == n * sz,
    ;
    assert(le64(g, 72).wrapping_mul(512) == at);
    assert(src.at(at as u64, len as nat) == Ok::<Seq<u8>, Seq<char>>(disk.subrange(at, at + len)));
    assert(len / sz == n) by (nonlinear_arith)
        requires
            len == n * sz,
            sz >= 48,
    ;
}

proof fn gpt_range_of_disk(disk: Seq<u8>, at: int, len: int, p: int)
    requires
        0 <= at,
        at + len <= disk.len(),
        0 <= p,
        p + 48 <= len,
    ensures
        ({
            let first = long_number_at(disk, at + p + 32);
            let last = long_number_at(disk, at + p + 40);
            first <= last && 512 * last < 0xFFFF_FFFF_FFFF_FE00 ==> gpt_entry_range(disk.subrange(at, at + len), p) == (
                (512 * first) as u64,
                (512 * (last - first + 1)) as u64,
            )
        }),
{
    let t = disk.subrange(at, at + len);
    fields_are_little_endian(t, p + 32);
    fields_are_little_endian(t, p + 40);
    assert(le64(t, p + 32) == long_number_at(disk, at + p + 32));
    assert(le64(t, p + 40) == long_number_at(disk, at + p + 40));
}

/// How many of the first `k` partitions hold a filesystem.
pub open spec fn filesystems_before<S: Source + ?Sized>(src: &S, parts: Seq<(u64, u64)>, k: int) -> nat
    decreases k,
{
    if k <= 0 {
        0
    } else {
        filesystems_before(src, parts, k - 1) + if filesystem_at(src, parts[k - 1].0) is Some {
            1nat
        } else {
            0nat
        }
    }
}

proof fn partition_volumes_in_order<S: Source + ?Sized>(src: &S, parts: Seq<(u64, u64)>, k: int)
    requires
        0 <= k <= parts.len(),
    ensures
        partition_volumes(src, parts, k).len() == filesystems_before(src, parts, k),
        forall|j: int| #![trigger filesystems_before(src, parts, j)]
            0 <= j < k ==> (filesystem_at(src, parts[j].0) matches Some(fs) ==> {
                let i = filesystems_before(src, parts, j) as int;
                i < partition_volumes(src, parts, k).len() && partition_volumes(src, parts, k)[i] == VolumeView {
                    label: "partition "@ + decimal_text((j + 1) as nat),
                    fs,
                    base: parts[j].0,
                    size: parts[j].1,
                }
            }),
    decreases k,
{
    if k > 0 {
        partition_volumes_in_order(src, parts, k - 1);
        let before = partition_volumes(src, parts, k - 1);
        let all = partition_volumes(src, parts, k);
        assert forall|j: int| #![trigger filesystems_before(src, parts, j)] 0 <= j < k implies (filesystem_at(
            src,
            parts[j].0,
        ) matches Some(fs) ==> {
            let i = filesystems_before(src, parts, j) as int;
            i < all.len() && all[i] == VolumeView {
                label: "partition "@ + decimal_text((j + 1) as nat),
                fs,
                base: parts[j].0,
                size: parts[j].1,
            }
        }) by {
            if j < k - 1 && filesystem_at(src, parts[j].0) is Some {
                assert(all[filesystems_before(src, parts, j) as int] == before[filesystems_before(src, parts, j) as int]);
            }
        }
    }
}

/// A source that starts with a filesystem is one volume, all of it. Otherwise each partition
/// that holds a filesystem is a volume, in their order, with its own place and length and the
/// number that it has in the table, and nothing else is; the GPT's partitions count, or, where
/// it has none, those of the first sector.
pub proof fn volumes_are_the_partitions<S: Source + ?Sized>(src: &S, j: int)
    ensures
        filesystem_at(src, 0) matches Some(fs) ==> volumes_on(src) == seq![
            VolumeView { label: "whole device"@, fs, base: 0, size: src.size() },
        ],
        filesystem_at(src, 0) is None && gpt_partitions(src).len() > 0 ==> listed_in_order(src, gpt_partitions(src), j),
        filesystem_at(src, 0) is None && gpt_partitions(src).len() == 0 ==> listed_in_order(src, mbr_partitions(src), j),
{
    partition_volumes_in_order(src, partitions(src), partitions(src).len() as int);
    assert(filesystems_before(src, partitions(src), j) >= 0);
}

/// Whether the volumes are the partitions that hold a filesystem, and partition `j` is in its
/// place among them.
pub open spec fn listed_in_order<S: Source + ?Sized>(src: &S, parts: Seq<(u64, u64)>, j: int) -> bool {
    &&& volumes_on(src).len() == filesystems_before(src, parts, parts.len() as int)
    &&& 0 <= j < parts.len() ==> (filesystem_at(src, parts[j].0) matches Some(fs) ==> {
        let v = volumes_on(src)[filesystems_before(src, parts, j) as int];
        v.label == "partition "@ + decimal_text((j + 1) as nat) && v.fs == fs && v.base == parts[j].0 && v.size
            == parts[j].1
    })
}

/// An NTFS, exFAT or FAT32 partition of a disk without a GPT is found, whatever kind its entry
/// gives: there is a volume at its place, of its length and filesystem.
pub proof fn partition_is_found<S: Source + ?Sized>(src: &S, disk: Seq<u8>, k: int, fs: Seq<char>)
    requires
        holds(src, disk),
        disk.len() <= u64::MAX,
        0 <= k < 4,
        1024 <= disk.len(),
        filesystem_at(src, 0) is None,
        !spelled(disk, 512, "EFI PART"@),
        disk[510] == 0x55 && disk[511] == 0xAA,
        is_partition(disk, k),
        filesystem_at(src, (512 * number_at(disk, 454 + 16 * k)) as u64) == Some(fs),
    ensures
        exists|i: int|
            0 <= i < volumes_on(src).len() && (#[trigger] volumes_on(src)[i]).fs == fs && volumes_on(src)[i].base == 512
                * number_at(disk, 454 + 16 * k) && volumes_on(src)[i].size == 512 * number_at(disk, 458 + 16 * k),
{
    reveal(gpt_partitions);
    reveal_strlit("EFI PART");
    let g = disk.subrange(512, 1024);
    assert(src.at(512, 512) == Ok::<Seq<u8>, Seq<char>>(g));
    marks_are_spelled(disk, 512, 512, 0, gpt_mark(), "EFI PART"@);
    assert(gpt_partitions(src).len() == 0);
    partition_table_is_read(src, disk, k);
    let j = partitions_before(disk, k);
    let parts = mbr_partitions(src);
    partition_volumes_in_order(src, parts, parts.len() as int);
    let i = filesystems_before(src, parts, j) as int;
    assert(volumes_on(src)[i].base == parts[j].0);
}

/// The filesystem near the end of a disk: the mark of ext4 counts where its superblock can be
/// read, whether or not that of btrfs can.
pub proof fn ext4_is_named_near_the_end<S: Source + ?Sized>(src: &S, disk: Seq<u8>, base: u64)
    requires
        holds(src, disk),
        base + 1088 <= disk.len() <= u64::MAX,
        !spelled(disk, base + 3, "NTFS    "@),
        !spelled(disk, base + 3, "EXFAT   "@),
        !spelled(disk, base + 82, "FAT32   "@),
    ensures
        disk[base + 1080] == 0x53 && disk[base + 1081] == 0xEF ==> filesystem_at(src, base) == Some("ext4"@),
        !(disk[base + 1080] == 0x53 && disk[base + 1081] == 0xEF) && spelled(disk, base as int, "XFSB"@) ==> filesystem_at(
            src,
            base,
        ) == Some("XFS"@),
{
    reveal(filesystem_at);
    reveal_strlit("NTFS    ");
    reveal_strlit("EXFAT   ");
    reveal_strlit("FAT32   ");
    reveal_strlit("XFSB");
    marks_are_spelled(disk, base as int, 512, 3, ntfs_mark(), "NTFS    "@);
    marks_are_spelled(disk, base as int, 512, 3, exfat_mark(), "EXFAT   "@);
    marks_are_spelled(disk, base as int, 512, 82, fat32_mark(), "FAT32   "@);
    assert(src.at(base, 512) == Ok::<Seq<u8>, Seq<char>>(disk.subrange(base as int, base + 512)));
    let sb = disk.subrange(base + 1024, base + 1088);
    assert(src.at((base + 1024) as u64, 64) == Ok::<Seq<u8>, Seq<char>>(sb));
    fields_are_little_endian(sb, 56);
    assert(sb[56] == disk[base + 1080] && sb[57] == disk[base + 1081]);
    let x = disk.subrange(base as int, base + 4);
    assert(src.at(base, 4) == Ok::<Seq<u8>, Seq<char>>(x));
    marks_are_spelled(disk, base as int, 4, 0, xfs_mark(), "XFSB"@);
    assert(x.subrange(0, 4) =~= x);
}

} // verus!
