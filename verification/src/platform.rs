//! What the platforms report about devices.

use vstd::prelude::*;
#[allow(unused_imports)]
use vstd::arithmetic::power2::pow2;
#[allow(unused_imports)]
use vstd::utf8::encode_utf8;

use crate::bytes::get_u32;
#[allow(unused_imports)]
use crate::bytes::le32;

verus! {

/// The size of the reply that describes the geometry of a disk on Windows: an
/// eight byte cylinder count, then four four-byte fields of which only the
/// last, the sector size, is of any interest.
pub const DISK_GEOMETRY_SIZE: usize = 24;

/// A device reported something no device can have.
#[derive(Debug, Clone, Copy, PartialEq, Eq, Structural)]
pub enum GeometryError {
    /// An unusable sector or block size.
    SectorSize(u64),
    /// An unusable length, as a number of blocks and their size.
    Length { blocks: u64, size: u64 },
}

/// Whether a number is a power of two.
pub open spec fn is_power_of_two(n: nat) -> bool
    decreases n,
{
    if n <= 1 {
        n == 1
    } else {
        n % 2 == 0 && is_power_of_two(n / 2)
    }
}

fn power_of_two(n: u64) -> (b: bool)
    ensures
        b == is_power_of_two(n as nat),
{
    let mut m: u64 = n;
    while m > 1
        invariant
            is_power_of_two(n as nat) == is_power_of_two(m as nat),
        decreases m,
    {
        if m % 2 != 0 {
            return false;
        }
        m = m / 2;
    }
    m == 1
}

/// The alignment and length of a disk on macOS, from the size and number of its
/// blocks.
///
/// The buffered node of a disk needs no alignment, only the length: an
/// alignment of one keeps the bounce buffer out of the way of a path the buffer
/// cache already handles. The raw node takes whole blocks only.
pub fn macos_geometry(raw: bool, block_size: u32, block_count: u64) -> (r: Result<
    (u64, u64),
    GeometryError,
>)
    ensures
        r == (if !is_power_of_two(block_size as nat) {
            Err(GeometryError::SectorSize(block_size as u64))
        } else if block_size * block_count > u64::MAX {
            Err(GeometryError::Length { blocks: block_count, size: block_size as u64 })
        } else {
            Ok(
                (
                    if raw {
                        block_size as u64
                    } else {
                        1
                    },
                    (block_size * block_count) as u64,
                ),
            )
        }),
{
    let size: u64 = block_size as u64;
    if !power_of_two(size) {
        return Err(GeometryError::SectorSize(size));
    }
    match size.checked_mul(block_count) {
        None => Err(GeometryError::Length { blocks: block_count, size }),
        Some(len) => Ok(
            (
                if raw {
                    size
                } else {
                    1
                },
                len,
            ),
        ),
    }
}

/// The sector size and length of a disk on Windows, from the replies that
/// describe its geometry and its length.
pub fn windows_geometry(geometry: &[u8], length: u64) -> (r: Result<(u64, u64), GeometryError>)
    requires
        geometry@.len() == 24,
    ensures
        ({
            let sector = le32(geometry@.subrange(20, 24)) as u64;
            r == (if is_power_of_two(sector as nat) {
                Ok((sector, length))
            } else {
                Err(GeometryError::SectorSize(sector))
            })
        }),
{
    let sector: u64 = get_u32(geometry, 20) as u64;
    if !power_of_two(sector) {
        return Err(GeometryError::SectorSize(sector));
    }
    Ok((sector, length))
}

/// A path that names a device rather than a file on Windows: one that starts
/// with `\\.\` or `\\?\`.
pub open spec fn names_device(path: Seq<u8>) -> bool {
    &&& path.len() >= 4
    &&& path[0] == 0x5c
    &&& path[1] == 0x5c
    &&& (path[2] == 0x2e || path[2] == 0x3f)
    &&& path[3] == 0x5c
}

/// Whether the path names a device rather than a file on a filesystem.
///
/// Only used to decide how to share the handle; whether the alignment machinery
/// is needed is settled by asking the object itself. A path of the second kind
/// that names an ordinary file is caught later, when it turns out to have no
/// disk geometry.
pub fn looks_like_device(path: &str) -> (b: bool)
    ensures
        b == names_device(encode_utf8(path@)),
{
    let b = path.as_bytes();
    b.len() >= 4 && b[0] == 0x5c && b[1] == 0x5c && (b[2] == 0x2e || b[2] == 0x3f) && b[3] == 0x5c
}

/// A power of two is two times itself as often as need be, from one on.
pub proof fn law_a_power_of_two_is_one(n: nat, k: nat)
    ensures
        is_power_of_two(pow2(k)),
        is_power_of_two(n) ==> exists|j: nat| n == #[trigger] pow2(j),
    decreases n + k,
{
    vstd::arithmetic::power2::lemma2_to64();
    vstd::arithmetic::power2::lemma_pow2_pos(k);
    if k > 0 {
        vstd::arithmetic::power2::lemma_pow2_unfold(k);
        law_a_power_of_two_is_one(0, (k - 1) as nat);
        assert(pow2(k) / 2 == pow2((k - 1) as nat));
    }
    if is_power_of_two(n) {
        if n == 1 {
            assert(n == pow2(0));
        } else {
            law_a_power_of_two_is_one(n / 2, 0);
            let j = choose|j: nat| n / 2 == #[trigger] pow2(j);
            vstd::arithmetic::power2::lemma_pow2_unfold(j + 1);
            assert(n == pow2(j + 1));
        }
    }
}

/// A path names a device just if it starts with two backslashes, a dot or a question
/// mark, and another backslash, whatever follows.
pub proof fn law_a_device_is_told_by_how_its_path_starts(path: Seq<u8>, rest: Seq<u8>)
    ensures
        names_device(seq![0x5cu8, 0x5c, 0x2e, 0x5c] + rest),
        names_device(seq![0x5cu8, 0x5c, 0x3f, 0x5c] + rest),
        names_device(path) ==> path.take(4) == seq![0x5cu8, 0x5c, 0x2e, 0x5c] || path.take(4)
            == seq![0x5cu8, 0x5c, 0x3f, 0x5c],
{
    if names_device(path) {
        if path[2] == 0x2e {
            assert(path.take(4) =~= seq![0x5cu8, 0x5c, 0x2e, 0x5c]);
        } else {
            assert(path.take(4) =~= seq![0x5cu8, 0x5c, 0x3f, 0x5c]);
        }
    }
}

} // verus!
