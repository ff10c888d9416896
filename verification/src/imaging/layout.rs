//! What an image says about its own length.
//!
//! A disk image carries its own map, a partition table or a volume
//! descriptor, and the map says how long the image has to be. A file
//! shorter than that is a download or a decompression that stopped: written
//! to a disk it gives one that does not start, and nothing at write time
//! says so. Read before writing, so the dialog can.

use vstd::prelude::*;

use crate::hexedit::find::pow256;
use crate::imaging::write::SECTOR;

verus! {

/// Which of an image's own structures says how long it should be.
#[derive(Debug, Clone, Copy, PartialEq, Eq, Structural)]
pub enum Layout {
    /// A GUID partition table, whose backup header is the last sector.
    Gpt,
    /// An MBR partition table, whose partitions end somewhere.
    Mbr,
    /// An ISO 9660 volume, whose primary descriptor gives its size.
    Iso9660,
}

/// The length an image's own structures say it has.
#[derive(Debug, Clone, Copy, PartialEq, Eq, Structural)]
pub struct Declared {
    /// Bytes the image needs to hold everything its map describes.
    pub needs: u64,
    /// What said so.
    pub by: Layout,
}

/// The unsigned little-endian number in `n` bytes of `b` from `at`.
pub open spec fn le_value(b: Seq<u8>, at: int, n: nat) -> int
    decreases n,
{
    if n == 0 {
        0
    } else {
        b[at] + 256 * le_value(b, at + 1, (n - 1) as nat)
    }
}

/// Whether `b` holds the bytes `tag` from `at`.
pub open spec fn tagged(b: Seq<u8>, at: int, tag: Seq<u8>) -> bool {
    at + tag.len() <= b.len() && b.subrange(at, at + tag.len()) == tag
}

/// The signature of a GPT header: `EFI PART`.
pub open spec fn gpt_signature() -> Seq<u8> {
    seq![0x45u8, 0x46, 0x49, 0x20, 0x50, 0x41, 0x52, 0x54]
}

/// The standard identifier of an ISO 9660 descriptor: `CD001`.
pub open spec fn iso_identifier() -> Seq<u8> {
    seq![0x43u8, 0x44, 0x30, 0x30, 0x31]
}

/// `a + b`, stopping at the largest `u64`.
pub open spec fn sat_add(a: int, b: int) -> int {
    if a + b > u64::MAX {
        u64::MAX as int
    } else {
        a + b
    }
}

/// `a * b`, stopping at the largest `u64`.
pub open spec fn sat_mul(a: int, b: int) -> int {
    if a * b > u64::MAX {
        u64::MAX as int
    } else {
        a * b
    }
}

/// What a GPT says: the header in sector 1 names the sector its backup
/// lies in, which is the last sector of the disk it was made for.
pub open spec fn gpt_needs(head: Seq<u8>) -> Option<int> {
    if head.len() >= 552 && tagged(head, 512, gpt_signature()) && le_value(head, 544, 8) > 1 {
        Some(sat_mul(sat_add(le_value(head, 544, 8), 1), 512))
    } else {
        None
    }
}

/// Where an entry of an MBR table starts.
pub open spec fn entry_at(k: int) -> int {
    446 + 16 * k
}

/// Whether entry `k` looks like a partition entry: its boot flag is `0x00`
/// or `0x80`. Boot code where a table would be does not.
pub open spec fn entry_valid(head: Seq<u8>, k: int) -> bool {
    head[entry_at(k)] == 0x00 || head[entry_at(k)] == 0x80
}

/// Where entry `k`'s partition ends, in bytes, or 0 for an empty entry or
/// the protective entry a GPT disk carries.
pub open spec fn entry_end(head: Seq<u8>, k: int) -> int {
    let e = entry_at(k);
    let kind = head[e + 4];
    let start = le_value(head, e + 8, 4);
    let count = le_value(head, e + 12, 4);
    if kind == 0x00 || kind == 0xEE || count == 0 {
        0
    } else {
        (start + count) * 512
    }
}

/// The largest end among the first `k` entries.
pub open spec fn entries_end(head: Seq<u8>, k: int) -> int
    decreases k,
{
    if k <= 0 {
        0
    } else {
        let rest = entries_end(head, k - 1);
        let here = entry_end(head, k - 1);
        if here > rest {
            here
        } else {
            rest
        }
    }
}

/// What an MBR says: where its last partition ends, when the sector ends
/// in `55 AA` and all four entries look like entries.
pub open spec fn mbr_needs(head: Seq<u8>) -> Option<int> {
    if head.len() >= 512 && head[510] == 0x55 && head[511] == 0xAA && (forall|k: int|
        0 <= k < 4 ==> #[trigger] entry_valid(head, k)) && entries_end(head, 4) > 0 {
        Some(entries_end(head, 4))
    } else {
        None
    }
}

/// What an ISO 9660 volume says: its primary descriptor, the whole 2048
/// bytes of sector 16, gives the size in blocks and the block size.
pub open spec fn iso_needs(descriptor: Seq<u8>) -> Option<int> {
    if descriptor.len() == 2048 && descriptor[0] == 1 && tagged(descriptor, 1, iso_identifier())
        && le_value(descriptor, 80, 4) > 0 && le_value(descriptor, 128, 2) > 0 {
        Some(le_value(descriptor, 80, 4) * le_value(descriptor, 128, 2))
    } else {
        None
    }
}

/// What an image's map says about its length, from its first bytes and the
/// bytes of its sector 16 (2048 bytes in). A GPT is asked first, then an
/// MBR, then an ISO 9660 descriptor; nothing recognised is `None`, which is
/// not the same as a map that fits.
pub open spec fn declared_spec(head: Seq<u8>, descriptor: Seq<u8>) -> Option<Declared> {
    match gpt_needs(head) {
        Some(n) => Some(Declared { needs: n as u64, by: Layout::Gpt }),
        None => match mbr_needs(head) {
            Some(n) => Some(Declared { needs: n as u64, by: Layout::Mbr }),
            None => match iso_needs(descriptor) {
                Some(n) => Some(Declared { needs: n as u64, by: Layout::Iso9660 }),
                None => None,
            },
        },
    }
}

proof fn lemma_le_bound(b: Seq<u8>, at: int, n: nat)
    ensures
        0 <= le_value(b, at, n) < pow256(n),
    decreases n,
{
    if n > 0 {
        lemma_le_bound(b, at + 1, (n - 1) as nat);
        let rest = le_value(b, at + 1, (n - 1) as nat);
        let p = pow256((n - 1) as nat);
        let byte = b[at] as int;
        assert(0 <= byte < 256);
        assert(byte + 256 * rest < 256 * p) by (nonlinear_arith)
            requires
                0 <= byte < 256,
                0 <= rest < p,
        ;
    }
}

/// The unsigned little-endian number in `n` bytes of `b` from `at`.
fn read_le(b: &[u8], at: usize, n: usize) -> (r: u64)
    requires
        n <= 8,
        at + n <= b@.len(),
    ensures
        r == le_value(b@, at as int, n as nat),
{
    let len = b.len();
    let mut acc: u64 = 0;
    let mut k: usize = n;
    proof {
        reveal_with_fuel(pow256, 9);
    }
    while k > 0
        invariant
            k <= n <= 8,
            at + n <= b@.len() == len,
            acc == le_value(b@, at + k, (n - k) as nat),
            pow256(8) == 0x1_0000_0000_0000_0000,
        decreases k,
    {
        proof {
            lemma_le_bound(b@, at as int + k - 1, (n - k + 1) as nat);
            lemma_pow_grows((n - k + 1) as nat, 8);
        }
        let byte = b[at + k - 1];
        acc = byte as u64 + 256 * acc;
        k -= 1;
    }
    acc
}

proof fn lemma_pow_grows(m: nat, n: nat)
    requires
        m <= n,
    ensures
        pow256(m) <= pow256(n),
    decreases n,
{
    if m < n {
        lemma_pow_grows(m, (n - 1) as nat);
        assert(pow256(n) == 256 * pow256((n - 1) as nat));
        assert(pow256((n - 1) as nat) >= 0) by {
            lemma_pow_positive((n - 1) as nat);
        }
    }
}

proof fn lemma_pow_positive(n: nat)
    ensures
        pow256(n) >= 1,
    decreases n,
{
    if n > 0 {
        lemma_pow_positive((n - 1) as nat);
    }
}

/// Whether `b` holds `tag` at `at`.
fn has_tag(b: &[u8], at: usize, tag: &[u8]) -> (r: bool)
    ensures
        r == tagged(b@, at as int, tag@),
{
    if at > b.len() || tag.len() > b.len() - at {
        return false;
    }
    let mut k: usize = 0;
    while k < tag.len()
        invariant
            k <= tag@.len(),
            at + tag@.len() <= b@.len() == b.len(),
            forall|j: int| 0 <= j < k ==> b@[at + j] == tag@[j],
        decreases tag.len() - k,
    {
        if b[at + k] != tag[k] {
            proof {
                assert(b@.subrange(at as int, at + tag@.len())[k as int] != tag@[k as int]);
            }
            return false;
        }
        k += 1;
    }
    proof {
        assert(b@.subrange(at as int, at + tag@.len()) =~= tag@);
    }
    true
}

/// What a GPT says.
fn gpt_declared(head: &[u8]) -> (r: Option<u64>)
    ensures
        match gpt_needs(head@) {
            Some(n) => r == Some(n as u64) && n <= u64::MAX,
            None => r is None,
        },
{
    let signature: [u8; 8] = [0x45, 0x46, 0x49, 0x20, 0x50, 0x41, 0x52, 0x54];
    proof {
        assert(signature@ =~= gpt_signature());
    }
    if head.len() < 552 || !has_tag(head, 512, &signature) {
        return None;
    }
    let backup = read_le(head, 544, 8);
    if backup <= 1 {
        return None;
    }
    let up = backup.saturating_add(1);
    if up > u64::MAX / SECTOR {
        Some(u64::MAX)
    } else {
        Some(up * SECTOR)
    }
}

/// Where entry `k` of an MBR table ends, in bytes.
fn mbr_entry_end(head: &[u8], k: usize) -> (r: u64)
    requires
        k < 4,
        head@.len() >= 512,
    ensures
        r == entry_end(head@, k as int),
{
    let e = 446 + 16 * k;
    let kind = head[e + 4];
    let start = read_le(head, e + 8, 4);
    let count = read_le(head, e + 12, 4);
    if kind == 0x00 || kind == 0xEE || count == 0 {
        0
    } else {
        proof {
            lemma_le_bound(head@, e + 8, 4);
            lemma_le_bound(head@, e + 12, 4);
            reveal_with_fuel(pow256, 5);
        }
        (start + count) * 512
    }
}

/// What an MBR says.
fn mbr_declared(head: &[u8]) -> (r: Option<u64>)
    ensures
        match mbr_needs(head@) {
            Some(n) => r == Some(n as u64) && n <= u64::MAX,
            None => r is None,
        },
{
    if head.len() < 512 || head[510] != 0x55 || head[511] != 0xAA {
        return None;
    }
    let mut end: u64 = 0;
    let mut k: usize = 0;
    while k < 4
        invariant
            k <= 4,
            head@.len() >= 512,
            forall|j: int| 0 <= j < k ==> #[trigger] entry_valid(head@, j),
            end == entries_end(head@, k as int),
        decreases 4 - k,
    {
        if head[446 + 16 * k] != 0x00 && head[446 + 16 * k] != 0x80 {
            proof {
                assert(!entry_valid(head@, k as int));
            }
            return None;
        }
        let here = mbr_entry_end(head, k);
        if here > end {
            end = here;
        }
        k += 1;
    }
    if end == 0 {
        return None;
    }
    Some(end)
}

/// What an ISO 9660 descriptor says.
fn iso_declared(descriptor: &[u8]) -> (r: Option<u64>)
    ensures
        match iso_needs(descriptor@) {
            Some(n) => r == Some(n as u64) && n <= u64::MAX,
            None => r is None,
        },
{
    let identifier: [u8; 5] = [0x43, 0x44, 0x30, 0x30, 0x31];
    proof {
        assert(identifier@ =~= iso_identifier());
    }
    if descriptor.len() != 2048 || descriptor[0] != 1 || !has_tag(descriptor, 1, &identifier) {
        return None;
    }
    let blocks = read_le(descriptor, 80, 4);
    let block = read_le(descriptor, 128, 2);
    if blocks == 0 || block == 0 {
        return None;
    }
    proof {
        lemma_le_bound(descriptor@, 80, 4);
        lemma_le_bound(descriptor@, 128, 2);
        reveal_with_fuel(pow256, 5);
        assert(blocks * block < 0x1_0000_0000 * 0x1_0000) by (nonlinear_arith)
            requires
                blocks < 0x1_0000_0000,
                block < 0x1_0000,
        ;
    }
    Some(blocks * block)
}

/// What an image's map says about its length, given its first bytes (up to
/// 1024 are looked at) and whatever was read of its sector 16, 32768 bytes
/// in (a whole 2048 bytes or it does not count).
pub fn declared_from(head: &[u8], descriptor: &[u8]) -> (r: Option<Declared>)
    ensures
        r == declared_spec(head@, descriptor@),
{
    if let Some(n) = gpt_declared(head) {
        return Some(Declared { needs: n, by: Layout::Gpt });
    }
    if let Some(n) = mbr_declared(head) {
        return Some(Declared { needs: n, by: Layout::Mbr });
    }
    if let Some(n) = iso_declared(descriptor) {
        return Some(Declared { needs: n, by: Layout::Iso9660 });
    }
    None
}

} // verus!
