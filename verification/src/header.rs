//! The POSIX USTAR header (512 bytes) and the octal encoding of its
//! numeric fields.

use vstd::prelude::*;

verus! {

/// The ASCII code of the digit `d` (0 through 7).
pub open spec fn octal_digit_byte(d: nat) -> u8 {
    (48 + d) as u8
}

/// The octal digits of `v`, most significant first, without leading zeros
/// (the value 0 is the single digit "0").
pub open spec fn octal_digits(v: nat) -> Seq<u8>
    decreases v,
{
    if v < 8 {
        seq![octal_digit_byte(v)]
    } else {
        octal_digits(v / 8).push(octal_digit_byte(v % 8))
    }
}

/// The octal digits of `v`, left-padded with '0' to at least `width` bytes.
/// A value with more than `width` digits is not shortened.
pub open spec fn octal_padded(v: nat, width: nat) -> Seq<u8> {
    let d = octal_digits(v);
    if d.len() >= width {
        d
    } else {
        Seq::new((width - d.len()) as nat, |i: int| 48u8) + d
    }
}

/// A numeric field of `n` bytes as written into a zeroed field: the
/// octal digits in the first `n - 1` bytes and a NUL terminator.
pub open spec fn octal_field(v: nat, n: nat) -> Seq<u8> {
    octal_padded(v, (n - 1) as nat).take(n - 1).push(0u8)
}

/// The 100-byte name field holding `name`: its first 100 bytes at most,
/// followed by NUL bytes.
pub open spec fn name_field(name: Seq<u8>) -> Seq<u8> {
    let k = if name.len() < 100 { name.len() } else { 100 };
    name.take(k as int) + Seq::new((100 - k) as nat, |i: int| 0u8)
}

/// Whether `h` is the header of an entry named `name` (truncated to 100
/// bytes), of type `typeflag`, with the given mode, owner, group, size and
/// modification time in its numeric fields, the checksum of the header in
/// its checksum field, and every other field as `TarHeader::new` sets it.
pub open spec fn is_entry_header(
    h: TarHeader,
    name: Seq<u8>,
    typeflag: u8,
    mode: u64,
    uid: u64,
    gid: u64,
    size: u64,
    mtime: u64,
) -> bool {
    &&& h.name@ == name_field(name)
    &&& h.mode@ == octal_field(mode as nat, 8)
    &&& h.uid@ == octal_field(uid as nat, 8)
    &&& h.gid@ == octal_field(gid as nat, 8)
    &&& h.size@ == octal_field(size as nat, 12)
    &&& h.mtime@ == octal_field(mtime as nat, 12)
    &&& h.checksum@ == octal_field(block_checksum(header_bytes(h)) as nat, 8)
    &&& h.typeflag == typeflag
    &&& h.linkname@ == Seq::new(100, |i: int| 0u8)
    &&& h.magic@ == seq![117u8, 115u8, 116u8, 97u8, 114u8, 0u8]
    &&& h.version@ == seq![48u8, 48u8]
    &&& h.uname@ == Seq::new(32, |i: int| 0u8)
    &&& h.gname@ == Seq::new(32, |i: int| 0u8)
    &&& h.devmajor@ == Seq::new(8, |i: int| 0u8)
    &&& h.devminor@ == Seq::new(8, |i: int| 0u8)
    &&& h.prefix@ == Seq::new(155, |i: int| 0u8)
    &&& h.padding@ == Seq::new(12, |i: int| 0u8)
}

/// Represents the POSIX USTAR header (512 bytes).
pub struct TarHeader {
    pub name: [u8; 100],
    pub mode: [u8; 8],
    pub uid: [u8; 8],
    pub gid: [u8; 8],
    pub size: [u8; 12],
    pub mtime: [u8; 12],
    pub checksum: [u8; 8],
    pub typeflag: u8,
    pub linkname: [u8; 100],
    pub magic: [u8; 6],
    pub version: [u8; 2],
    pub uname: [u8; 32],
    pub gname: [u8; 32],
    pub devmajor: [u8; 8],
    pub devminor: [u8; 8],
    pub prefix: [u8; 155],
    pub padding: [u8; 12],
}

/// The bytes of the header laid out as on disk: the fields in declaration
/// order, 512 bytes in all.
pub open spec fn header_bytes(h: TarHeader) -> Seq<u8> {
    h.name@ + h.mode@ + h.uid@ + h.gid@ + h.size@ + h.mtime@ + h.checksum@ + seq![h.typeflag]
        + h.linkname@ + h.magic@ + h.version@ + h.uname@ + h.gname@ + h.devmajor@
        + h.devminor@ + h.prefix@ + h.padding@
}

/// Sum of the checksum contributions of the first `n` bytes of a header
/// block: each byte counts as its value, except the eight bytes of the
/// checksum field (offsets 148 to 155), which count as ASCII spaces.
pub open spec fn checksum_prefix(bytes: Seq<u8>, n: int) -> int
    decreases n,
{
    if n <= 0 {
        0
    } else {
        checksum_prefix(bytes, n - 1) + (if 148 <= n - 1 < 156 {
            32int
        } else {
            bytes[n - 1] as int
        })
    }
}

/// The USTAR checksum of a 512-byte header block.
pub open spec fn block_checksum(bytes: Seq<u8>) -> int {
    checksum_prefix(bytes, 512)
}

proof fn lemma_checksum_prefix_one_byte(a: Seq<u8>, b: Seq<u8>, i: int, n: int)
    requires
        a.len() == 512,
        b.len() == 512,
        0 <= i < 512,
        0 <= n <= 512,
        forall|j: int| 0 <= j < 512 && j != i ==> a[j] == b[j],
    ensures
        checksum_prefix(b, n) - checksum_prefix(a, n) == (if n > i && !(148 <= i < 156) {
            b[i] - a[i]
        } else {
            0
        }),
    decreases n,
{
    if n > 0 {
        lemma_checksum_prefix_one_byte(a, b, i, n - 1);
    }
}

/// The checksum is the plain sum of the header's bytes: changing one byte
/// outside the checksum field (offsets 148 to 155) changes the checksum by
/// exactly as much, and changing a byte of the checksum field leaves it
/// unchanged.
pub proof fn lemma_checksum_counts_each_byte(a: Seq<u8>, b: Seq<u8>, i: int)
    requires
        a.len() == 512,
        b.len() == 512,
        0 <= i < 512,
        forall|j: int| 0 <= j < 512 && j != i ==> a[j] == b[j],
    ensures
        block_checksum(b) - block_checksum(a) == (if 148 <= i < 156 {
            0
        } else {
            b[i] - a[i]
        }),
{
    lemma_checksum_prefix_one_byte(a, b, i, 512);
}

proof fn lemma_checksum_prefix_of_zeros(n: int)
    requires
        0 <= n <= 512,
    ensures
        checksum_prefix(Seq::new(512, |k: int| 0u8), n) == 32 * (if n <= 148 {
            0
        } else if n <= 156 {
            n - 148
        } else {
            8
        }),
    decreases n,
{
    if n > 0 {
        lemma_checksum_prefix_of_zeros(n - 1);
    }
}

/// A block of zeros has the checksum of eight spaces: only the checksum
/// field counts, as 0x20 per byte.
pub proof fn lemma_checksum_of_zero_block()
    ensures
        block_checksum(Seq::new(512, |k: int| 0u8)) == 256,
{
    lemma_checksum_prefix_of_zeros(512);
}

/// Where each field of a header lies in its 512 bytes.
pub proof fn lemma_header_layout(h: TarHeader)
    ensures
        header_bytes(h).len() == 512,
        header_bytes(h).subrange(0, 100) == h.name@,
        header_bytes(h).subrange(100, 108) == h.mode@,
        header_bytes(h).subrange(108, 116) == h.uid@,
        header_bytes(h).subrange(116, 124) == h.gid@,
        header_bytes(h).subrange(124, 136) == h.size@,
        header_bytes(h).subrange(136, 148) == h.mtime@,
        header_bytes(h).subrange(148, 156) == h.checksum@,
        header_bytes(h)[156] == h.typeflag,
        header_bytes(h).subrange(157, 257) == h.linkname@,
        header_bytes(h).subrange(257, 263) == h.magic@,
        header_bytes(h).subrange(263, 265) == h.version@,
        header_bytes(h).subrange(265, 297) == h.uname@,
        header_bytes(h).subrange(297, 329) == h.gname@,
        header_bytes(h).subrange(329, 337) == h.devmajor@,
        header_bytes(h).subrange(337, 345) == h.devminor@,
        header_bytes(h).subrange(345, 500) == h.prefix@,
        header_bytes(h).subrange(500, 512) == h.padding@,
{
    let b = header_bytes(h);
    assert(b.subrange(0, 100) =~= h.name@);
    assert(b.subrange(100, 108) =~= h.mode@);
    assert(b.subrange(108, 116) =~= h.uid@);
    assert(b.subrange(116, 124) =~= h.gid@);
    assert(b.subrange(124, 136) =~= h.size@);
    assert(b.subrange(136, 148) =~= h.mtime@);
    assert(b.subrange(148, 156) =~= h.checksum@);
    assert(b.subrange(157, 257) =~= h.linkname@);
    assert(b.subrange(257, 263) =~= h.magic@);
    assert(b.subrange(263, 265) =~= h.version@);
    assert(b.subrange(265, 297) =~= h.uname@);
    assert(b.subrange(297, 329) =~= h.gname@);
    assert(b.subrange(329, 337) =~= h.devmajor@);
    assert(b.subrange(337, 345) =~= h.devminor@);
    assert(b.subrange(345, 500) =~= h.prefix@);
    assert(b.subrange(500, 512) =~= h.padding@);
}

/// Two headers with the same 512 bytes are the same header: reading a
/// header back from the bytes written for it gives that header.
pub proof fn lemma_header_bytes_determine_header(a: TarHeader, b: TarHeader)
    requires
        header_bytes(a) == header_bytes(b),
    ensures
        a == b,
{
    lemma_header_layout(a);
    lemma_header_layout(b);
    assert(a.name@ == b.name@);
    assert(a.mode@ == b.mode@);
    assert(a.uid@ == b.uid@);
    assert(a.gid@ == b.gid@);
    assert(a.size@ == b.size@);
    assert(a.mtime@ == b.mtime@);
    assert(a.checksum@ == b.checksum@);
    assert(a.linkname@ == b.linkname@);
    assert(a.magic@ == b.magic@);
    assert(a.version@ == b.version@);
    assert(a.uname@ == b.uname@);
    assert(a.gname@ == b.gname@);
    assert(a.devmajor@ == b.devmajor@);
    assert(a.devminor@ == b.devminor@);
    assert(a.prefix@ == b.prefix@);
    assert(a.padding@ == b.padding@);
    assert(a.name == b.name);
    assert(a.mode == b.mode);
    assert(a.uid == b.uid);
    assert(a.gid == b.gid);
    assert(a.size == b.size);
    assert(a.mtime == b.mtime);
    assert(a.checksum == b.checksum);
    assert(a.linkname == b.linkname);
    assert(a.magic == b.magic);
    assert(a.version == b.version);
    assert(a.uname == b.uname);
    assert(a.gname == b.gname);
    assert(a.devmajor == b.devmajor);
    assert(a.devminor == b.devminor);
    assert(a.prefix == b.prefix);
    assert(a.padding == b.padding);
}

/// The number of zero bytes that follow `n` bytes of entry data so that
/// the data fills whole 512-byte blocks.
pub open spec fn spec_padding(n: nat) -> nat {
    if n % 512 == 0 {
        0
    } else {
        (512 - n % 512) as nat
    }
}

/// The number of zero bytes that follow `n` bytes of entry data: the data
/// and its padding fill whole 512-byte blocks, and the padding is shorter
/// than a block.
pub fn padding_after(n: u64) -> (p: u64)
    ensures
        p == spec_padding(n as nat),
        p < 512,
        (n + p) % 512 == 0,
{
    let remainder = n % 512;
    if remainder > 0 {
        512 - remainder
    } else {
        0
    }
}

pub(crate) proof fn lemma_checksum_prefix_bound(bytes: Seq<u8>, n: int)
    requires
        0 <= n,
    ensures
        0 <= checksum_prefix(bytes, n) <= 255 * n,
    decreases n,
{
    if n > 0 {
        lemma_checksum_prefix_bound(bytes, n - 1);
    }
}

/// What `set_octal` leaves in a field that held only NUL bytes.
proof fn lemma_octal_into_zeroed(before: Seq<u8>, after: Seq<u8>, v: nat)
    requires
        before.len() >= 1,
        forall|i: int| 0 <= i < before.len() ==> before[i] == 0u8,
        after.len() == before.len(),
        forall|i: int|
            0 <= i < before.len() - 1 ==> #[trigger] after[i] == octal_padded(
                v,
                (before.len() - 1) as nat,
            )[i],
        after[before.len() - 1] == before[before.len() - 1],
    ensures
        after == octal_field(v, before.len()),
{
    assert(after =~= octal_field(v, before.len()));
}

proof fn lemma_checksum_prefix_agree(a: Seq<u8>, b: Seq<u8>, n: int)
    requires
        0 <= n <= a.len(),
        a.len() == b.len(),
        forall|i: int| 0 <= i < n && !(148 <= i < 156) ==> a[i] == b[i],
    ensures
        checksum_prefix(a, n) == checksum_prefix(b, n),
    decreases n,
{
    if n > 0 {
        lemma_checksum_prefix_agree(a, b, n - 1);
    }
}

/// Two headers that differ at most in their checksum fields have the same
/// checksum.
pub proof fn lemma_checksum_ignores_checksum_field(a: TarHeader, b: TarHeader)
    requires
        a.name == b.name,
        a.mode == b.mode,
        a.uid == b.uid,
        a.gid == b.gid,
        a.size == b.size,
        a.mtime == b.mtime,
        a.typeflag == b.typeflag,
        a.linkname == b.linkname,
        a.magic == b.magic,
        a.version == b.version,
        a.uname == b.uname,
        a.gname == b.gname,
        a.devmajor == b.devmajor,
        a.devminor == b.devminor,
        a.prefix == b.prefix,
        a.padding == b.padding,
    ensures
        block_checksum(header_bytes(a)) == block_checksum(header_bytes(b)),
{
    let x = header_bytes(a);
    let y = header_bytes(b);
    assert(x.len() == 512);
    assert(y.len() == 512);
    assert forall|i: int| 0 <= i < 512 && !(148 <= i < 156) implies x[i] == y[i] by {
        assert(x.subrange(0, 148) =~= y.subrange(0, 148));
        assert(x.subrange(156, 512) =~= y.subrange(156, 512));
        if i < 148 {
            assert(x[i] == x.subrange(0, 148)[i]);
            assert(y[i] == y.subrange(0, 148)[i]);
        } else {
            assert(x[i] == x.subrange(156, 512)[i - 156]);
            assert(y[i] == y.subrange(156, 512)[i - 156]);
        }
    }
    lemma_checksum_prefix_agree(x, y, 512);
}

/// Appends the bytes of `src` to `out`.
pub(crate) fn push_bytes(out: &mut Vec<u8>, src: &[u8])
    ensures
        final(out)@ == old(out)@ + src@,
{
    let mut i: usize = 0;
    while i < src.len()
        invariant
            i <= src@.len(),
            out@ == old(out)@ + src@.subrange(0, i as int),
        decreases src@.len() - i,
    {
        out.push(src[i]);
        i = i + 1;
        assert(out@ =~= old(out)@ + src@.subrange(0, i as int));
    }
    assert(src@.subrange(0, src@.len() as int) =~= src@);
}

/// Copies `N` bytes of `block`, starting at `start`, into an array.
fn read_field<const N: usize>(block: &[u8], start: usize) -> (a: [u8; N])
    requires
        start + N <= block@.len(),
    ensures
        a@ == block@.subrange(start as int, start + N),
{
    let mut a = [0u8; N];
    let blen = block.len();
    let mut i: usize = 0;
    while i < N
        invariant
            i <= N,
            start + N <= block@.len(),
            blen == block@.len(),
            a@.len() == N,
            forall|k: int| 0 <= k < i ==> #[trigger] a@[k] == block@[start + k],
        decreases N - i,
    {
        a[i] = block[start + i];
        i = i + 1;
    }
    assert(a@ =~= block@.subrange(start as int, start + N));
    a
}

impl TarHeader {
    /// The 512 bytes of the header as laid out on disk.
    pub fn to_bytes(&self) -> (out: Vec<u8>)
        ensures
            out@ == header_bytes(*self),
            out@.len() == 512,
    {
        let mut out: Vec<u8> = Vec::new();
        push_bytes(&mut out, self.name.as_slice());
        push_bytes(&mut out, self.mode.as_slice());
        push_bytes(&mut out, self.uid.as_slice());
        push_bytes(&mut out, self.gid.as_slice());
        push_bytes(&mut out, self.size.as_slice());
        push_bytes(&mut out, self.mtime.as_slice());
        push_bytes(&mut out, self.checksum.as_slice());
        out.push(self.typeflag);
        push_bytes(&mut out, self.linkname.as_slice());
        push_bytes(&mut out, self.magic.as_slice());
        push_bytes(&mut out, self.version.as_slice());
        push_bytes(&mut out, self.uname.as_slice());
        push_bytes(&mut out, self.gname.as_slice());
        push_bytes(&mut out, self.devmajor.as_slice());
        push_bytes(&mut out, self.devminor.as_slice());
        push_bytes(&mut out, self.prefix.as_slice());
        push_bytes(&mut out, self.padding.as_slice());
        assert(out@ =~= header_bytes(*self));
        out
    }

    /// Reads a header from a 512-byte block laid out as on disk.
    pub fn from_bytes(block: &[u8]) -> (h: Self)
        requires
            block@.len() == 512,
        ensures
            header_bytes(h) == block@,
    {
        let h = TarHeader {
            name: read_field::<100>(block, 0),
            mode: read_field::<8>(block, 100),
            uid: read_field::<8>(block, 108),
            gid: read_field::<8>(block, 116),
            size: read_field::<12>(block, 124),
            mtime: read_field::<12>(block, 136),
            checksum: read_field::<8>(block, 148),
            typeflag: block[156],
            linkname: read_field::<100>(block, 157),
            magic: read_field::<6>(block, 257),
            version: read_field::<2>(block, 263),
            uname: read_field::<32>(block, 265),
            gname: read_field::<32>(block, 297),
            devmajor: read_field::<8>(block, 329),
            devminor: read_field::<8>(block, 337),
            prefix: read_field::<155>(block, 345),
            padding: read_field::<12>(block, 500),
        };
        assert(header_bytes(h) =~= block@);
        h
    }

    /// Calculates the checksum for the header: the sum of all 512 bytes of
    /// the header, with the 8 bytes of the checksum field counted as ASCII
    /// spaces (0x20).
    pub fn calculate_checksum(&self) -> (sum: u32)
        ensures
            sum == block_checksum(header_bytes(*self)),
    {
        let bytes = self.to_bytes();
        let mut sum: u32 = 0;
        let mut i: usize = 0;
        while i < 512
            invariant
                bytes@.len() == 512,
                i <= 512,
                sum == checksum_prefix(bytes@, i as int),
            decreases 512 - i,
        {
            proof {
                lemma_checksum_prefix_bound(bytes@, i as int);
            }
            if i >= 148 && i < 156 {
                sum = sum + 32;
            } else {
                sum = sum + bytes[i] as u32;
            }
            i = i + 1;
        }
        sum
    }

    /// Creates a new header with default POSIX USTAR values: every byte
    /// zero, except `magic`, which holds "ustar\0", and `version`, which
    /// holds "00".
    pub fn new() -> (h: Self)
        ensures
            h.name@ == Seq::new(100, |i: int| 0u8),
            h.mode@ == Seq::new(8, |i: int| 0u8),
            h.uid@ == Seq::new(8, |i: int| 0u8),
            h.gid@ == Seq::new(8, |i: int| 0u8),
            h.size@ == Seq::new(12, |i: int| 0u8),
            h.mtime@ == Seq::new(12, |i: int| 0u8),
            h.checksum@ == Seq::new(8, |i: int| 0u8),
            h.typeflag == 0,
            h.linkname@ == Seq::new(100, |i: int| 0u8),
            h.magic@ == seq![117u8, 115u8, 116u8, 97u8, 114u8, 0u8],
            h.version@ == seq![48u8, 48u8],
            h.uname@ == Seq::new(32, |i: int| 0u8),
            h.gname@ == Seq::new(32, |i: int| 0u8),
            h.devmajor@ == Seq::new(8, |i: int| 0u8),
            h.devminor@ == Seq::new(8, |i: int| 0u8),
            h.prefix@ == Seq::new(155, |i: int| 0u8),
            h.padding@ == Seq::new(12, |i: int| 0u8),
    {
        let h = TarHeader {
            name: [0u8; 100],
            mode: [0u8; 8],
            uid: [0u8; 8],
            gid: [0u8; 8],
            size: [0u8; 12],
            mtime: [0u8; 12],
            checksum: [0u8; 8],
            typeflag: 0,
            linkname: [0u8; 100],
            magic: [117u8, 115u8, 116u8, 97u8, 114u8, 0u8],
            version: [48u8, 48u8],
            uname: [0u8; 32],
            gname: [0u8; 32],
            devmajor: [0u8; 8],
            devminor: [0u8; 8],
            prefix: [0u8; 155],
            padding: [0u8; 12],
        };
        assert(h.name@ =~= Seq::new(100, |i: int| 0u8));
        h
    }

    /// The header of a regular file entry named `name` (truncated to 100
    /// bytes), with the given mode, owner, group, size and modification
    /// time, type flag '0' and its checksum filled in. All other fields
    /// keep the values of `TarHeader::new`.
    pub fn for_regular_file(name: &[u8], mode: u64, uid: u64, gid: u64, size: u64, mtime: u64) -> (h: Self)
        ensures
            is_entry_header(h, name@, 48u8, mode, uid, gid, size, mtime),
    {
        Self::for_entry(name, 48u8, mode, uid, gid, size, mtime)
    }

    /// The header of a directory entry named `name` (truncated to 100
    /// bytes), with the given mode, owner, group and modification time,
    /// size 0, type flag '5' and its checksum filled in. All other fields
    /// keep the values of `TarHeader::new`.
    pub fn for_directory(name: &[u8], mode: u64, uid: u64, gid: u64, mtime: u64) -> (h: Self)
        ensures
            is_entry_header(h, name@, 53u8, mode, uid, gid, 0, mtime),
    {
        Self::for_entry(name, 53u8, mode, uid, gid, 0, mtime)
    }

    /// The header of an entry of type `typeflag`.
    fn for_entry(name: &[u8], typeflag: u8, mode: u64, uid: u64, gid: u64, size: u64, mtime: u64) -> (h: Self)
        ensures
            is_entry_header(h, name@, typeflag, mode, uid, gid, size, mtime),
    {
        let mut h = TarHeader::new();
        let ghost fresh = h;
        let name_len: usize = if name.len() < 100 { name.len() } else { 100 };
        let mut i: usize = 0;
        while i < name_len
            invariant
                name_len <= name@.len(),
                name_len <= 100,
                i <= name_len,
                h.name@.len() == 100,
                forall|k: int| 0 <= k < i ==> #[trigger] h.name@[k] == name@[k],
                forall|k: int| i <= k < 100 ==> #[trigger] h.name@[k] == 0u8,
                h.mode == fresh.mode,
                h.uid == fresh.uid,
                h.gid == fresh.gid,
                h.size == fresh.size,
                h.mtime == fresh.mtime,
                h.checksum == fresh.checksum,
                h.typeflag == fresh.typeflag,
                h.linkname == fresh.linkname,
                h.magic == fresh.magic,
                h.version == fresh.version,
                h.uname == fresh.uname,
                h.gname == fresh.gname,
                h.devmajor == fresh.devmajor,
                h.devminor == fresh.devminor,
                h.prefix == fresh.prefix,
                h.padding == fresh.padding,
            decreases name_len - i,
        {
            h.name[i] = name[i];
            i = i + 1;
        }
        assert(h.name@ =~= name_field(name@));
        let ghost prev = h.mode@;
        TarHeader::set_octal(&mut h.mode, mode);
        proof {
            lemma_octal_into_zeroed(prev, h.mode@, mode as nat);
        }
        let ghost prev = h.uid@;
        TarHeader::set_octal(&mut h.uid, uid);
        proof {
            lemma_octal_into_zeroed(prev, h.uid@, uid as nat);
        }
        let ghost prev = h.gid@;
        TarHeader::set_octal(&mut h.gid, gid);
        proof {
            lemma_octal_into_zeroed(prev, h.gid@, gid as nat);
        }
        let ghost prev = h.size@;
        TarHeader::set_octal(&mut h.size, size);
        proof {
            lemma_octal_into_zeroed(prev, h.size@, size as nat);
        }
        let ghost prev = h.mtime@;
        TarHeader::set_octal(&mut h.mtime, mtime);
        proof {
            lemma_octal_into_zeroed(prev, h.mtime@, mtime as nat);
        }
        h.typeflag = typeflag;
        let cksum = h.calculate_checksum();
        let ghost before = h;
        TarHeader::set_octal(&mut h.checksum, cksum as u64);
        proof {
            lemma_octal_into_zeroed(before.checksum@, h.checksum@, cksum as nat);
        }
        proof {
            lemma_checksum_ignores_checksum_field(before, h);
        }
        h
    }

    /// Encodes `val` in octal into the first `dst.len() - 1` bytes of `dst`,
    /// zero-padded on the left; the last byte of `dst` is left as it was.
    /// Where `val` has more octal digits than fit, its most significant
    /// digits are written.
    pub fn set_octal(dst: &mut [u8], val: u64)
        requires
            old(dst)@.len() >= 1,
        ensures
            final(dst)@.len() == old(dst)@.len(),
            forall|i: int|
                0 <= i < old(dst)@.len() - 1 ==> #[trigger] final(dst)@[i] == octal_padded(
                    val as nat,
                    (old(dst)@.len() - 1) as nat,
                )[i],
            final(dst)@[old(dst)@.len() - 1] == old(dst)@[old(dst)@.len() - 1],
    {
        let len = dst.len();
        let width = len - 1;
        let mut digits: Vec<u8> = Vec::new();
        let mut x = val;
        while x >= 8
            invariant
                octal_digits(val as nat) == octal_digits(x as nat) + digits@,
            decreases x,
        {
            let d = (x % 8) as u8;
            proof {
                assert(octal_digits(x as nat) == octal_digits((x / 8) as nat).push(
                    octal_digit_byte((x % 8) as nat),
                ));
            }
            digits.insert(0, 48 + d);
            x = x / 8;
            proof {
                assert(octal_digits(val as nat) =~= octal_digits(x as nat) + digits@);
            }
        }
        digits.insert(0, 48 + (x as u8));
        assert(digits@ =~= octal_digits(val as nat));
        let n = digits.len();
        let pad: usize = if n < width { width - n } else { 0 };
        let mut i: usize = 0;
        while i < width
            invariant
                len == dst@.len(),
                width == len - 1,
                n == digits@.len(),
                digits@ == octal_digits(val as nat),
                pad == (if n < width { width - n } else { 0 }),
                i <= width,
                dst@.len() == old(dst)@.len(),
                forall|k: int| 0 <= k < i ==> #[trigger] dst@[k] == octal_padded(val as nat, width as nat)[k],
                dst@[len - 1] == old(dst)@[len - 1],
            decreases width - i,
        {
            if i < pad {
                dst[i] = 48u8;
            } else {
                dst[i] = digits[i - pad];
            }
            i = i + 1;
        }
    }
}

} // verus!
