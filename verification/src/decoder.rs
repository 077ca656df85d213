//! The decisions of TAR extraction: what a 512-byte header block asks for.
//!
//! The stream itself is read by the caller; for each header block, the
//! decoder says whether the archive ends there, or names the entry, its
//! kind, target path under the destination, size and mode. It refuses
//! headers whose checksum does not match, malformed numbers, and targets
//! that leave the destination once "." and ".." are resolved.

use crate::header::{
    block_checksum, header_bytes, is_entry_header, lemma_checksum_prefix_bound,
    lemma_header_layout, name_field, TarHeader,
};
use crate::octal::{
    field_text_end, lemma_octal_field_reads_back, pow8, read_trimmed, spec_parse_octal,
    str_from_utf8, OctalError,
};
use crate::paths::{join, join_path, path_within, within};
use vstd::prelude::*;
use vstd::slice::{slice_subrange, slice_to_vec};

verus! {

/// A minimalist TAR decoder; the reader holds the TAR stream.
pub struct Decoder<R> {
    reader: R,
}

/// Why a header block is refused.
#[derive(Debug, Clone, Copy, PartialEq, Eq, Structural)]
pub enum UnpackError {
    /// The checksum, size or mode field does not hold an octal number.
    Octal(OctalError),
    /// The checksum field does not hold the checksum of the header.
    ChecksumMismatch,
    /// The entry's target path does not lie under the destination.
    PathTraversal,
}

/// What kind of entry a header describes.
#[derive(Debug, Clone, Copy, PartialEq, Eq, Structural)]
pub enum EntryKind {
    /// A regular file (type flag '0' or NUL): its data is written out.
    File,
    /// A directory (type flag '5'): the directory is created.
    Directory,
    /// Any other type: only its parent directories are created.
    Other,
}

/// An entry to extract.
#[derive(Debug, PartialEq, Eq)]
pub struct EntryPlan {
    /// The entry's name: the name field up to its first NUL byte.
    pub name: Vec<u8>,
    /// The name joined under the destination directory.
    pub target: Vec<u8>,
    /// The number of data bytes that follow the header.
    pub size: u64,
    /// The permission bits to give the file.
    pub mode: u32,
    /// The kind of entry, from its type flag.
    pub kind: EntryKind,
}

/// What a header block asks for.
#[derive(Debug, PartialEq, Eq)]
pub enum HeaderStep {
    /// An all-zero block: the archive ends.
    End,
    /// An entry to extract.
    Entry(EntryPlan),
}

/// Whether every byte of `block` is zero.
pub open spec fn is_zero_block(block: Seq<u8>) -> bool {
    forall|i: int| 0 <= i < block.len() ==> block[i] == 0u8
}

/// The number of bytes before the first NUL (or all of them).
pub open spec fn nul_prefix_len(bytes: Seq<u8>) -> nat
    decreases bytes.len(),
{
    if bytes.len() == 0 || bytes[0] == 0u8 {
        0
    } else {
        1 + nul_prefix_len(bytes.drop_first())
    }
}

/// The entry name held in a header block: its name field up to the first
/// NUL byte.
pub open spec fn block_entry_name(block: Seq<u8>) -> Seq<u8> {
    let field = block.subrange(0, 100);
    field.take(nul_prefix_len(field) as int)
}

/// The kind of entry a type flag marks.
pub open spec fn entry_kind(flag: u8) -> EntryKind {
    if flag == 48u8 || flag == 0u8 {
        EntryKind::File
    } else if flag == 53u8 {
        EntryKind::Directory
    } else {
        EntryKind::Other
    }
}

/// What the 512-byte header `block` asks for, with `dst` the destination
/// directory: `Ok(None)` for an all-zero block; else the checksum field is
/// read as octal and must equal the block's checksum; then the size and
/// mode fields are read as octal (size first); then the target path must
/// lie under `dst` once "." and ".." are resolved; and then the result is
/// `Ok(Some((name, size, mode, kind)))`.
pub open spec fn spec_read_header(block: Seq<u8>, dst: Seq<u8>) -> Result<
    Option<(Seq<u8>, u64, u32, EntryKind)>,
    UnpackError,
> {
    if is_zero_block(block) {
        Ok(None)
    } else {
        match spec_parse_octal(block.subrange(148, 156)) {
            Err(e) => Err(UnpackError::Octal(e)),
            Ok(sum) => if sum != block_checksum(block) {
                Err(UnpackError::ChecksumMismatch)
            } else {
                match spec_parse_octal(block.subrange(124, 136)) {
                    Err(e) => Err(UnpackError::Octal(e)),
                    Ok(size) => match spec_parse_octal(block.subrange(100, 108)) {
                        Err(e) => Err(UnpackError::Octal(e)),
                        Ok(mode) => {
                            let name = block_entry_name(block);
                            if !path_within(join_path(dst, name), dst) {
                                Err(UnpackError::PathTraversal)
                            } else {
                                Ok(Some((name, size, mode as u32, entry_kind(block[156]))))
                            }
                        },
                    },
                }
            },
        }
    }
}

proof fn lemma_nul_prefix_len(bytes: Seq<u8>, k: int)
    requires
        0 <= k <= bytes.len(),
        forall|j: int| 0 <= j < k ==> #[trigger] bytes[j] != 0u8,
        k == bytes.len() || bytes[k] == 0u8,
    ensures
        nul_prefix_len(bytes) == k,
    decreases k,
{
    if k > 0 {
        let rest = bytes.drop_first();
        assert forall|j: int| 0 <= j < k - 1 implies #[trigger] rest[j] != 0u8 by {
            assert(rest[j] == bytes[j + 1]);
        }
        lemma_nul_prefix_len(rest, k - 1);
    }
}

/// The name read back from a header whose name field was filled from
/// `name`: at most its first 100 bytes, up to the first NUL among them.
pub open spec fn archived_name(name: Seq<u8>) -> Seq<u8> {
    let t = name.take(if name.len() < 100 { name.len() as int } else { 100 });
    t.take(nul_prefix_len(t) as int)
}

proof fn lemma_nul_prefix_len_bound(bytes: Seq<u8>)
    ensures
        nul_prefix_len(bytes) <= bytes.len(),
    decreases bytes.len(),
{
    if bytes.len() > 0 && bytes[0] != 0u8 {
        lemma_nul_prefix_len_bound(bytes.drop_first());
    }
}

proof fn lemma_nul_prefix_len_zero_padded(t: Seq<u8>, m: nat)
    ensures
        nul_prefix_len(t + Seq::new(m, |i: int| 0u8)) == nul_prefix_len(t),
    decreases t.len(),
{
    let z = Seq::new(m, |i: int| 0u8);
    if t.len() == 0 {
        assert(t + z =~= z);
    } else {
        assert((t + z)[0] == t[0]);
        if t[0] != 0u8 {
            assert((t + z).drop_first() =~= t.drop_first() + z);
            lemma_nul_prefix_len_zero_padded(t.drop_first(), m);
        }
    }
}

/// A header as `TarHeader::for_regular_file` or `TarHeader::for_directory`
/// builds it, read back by
/// the decoder, gives the entry's name (at most 100 bytes, up to a NUL),
/// size, mode and kind, where the size has at most 11 octal digits and the
/// mode at most 7; the entry is accepted exactly where its name joined
/// under `dst` stays under `dst`.
pub proof fn lemma_entry_header_reads_back(
    h: TarHeader,
    name: Seq<u8>,
    typeflag: u8,
    mode: u64,
    uid: u64,
    gid: u64,
    size: u64,
    mtime: u64,
    dst: Seq<u8>,
)
    requires
        is_entry_header(h, name, typeflag, mode, uid, gid, size, mtime),
        mode < pow8(7),
        size < pow8(11),
    ensures
        spec_read_header(header_bytes(h), dst) == (if path_within(
            join_path(dst, archived_name(name)),
            dst,
        ) {
            Ok::<Option<(Seq<u8>, u64, u32, EntryKind)>, UnpackError>(
                Some((archived_name(name), size, mode as u32, entry_kind(typeflag))),
            )
        } else {
            Err(UnpackError::PathTraversal)
        }),
{
    let block = header_bytes(h);
    lemma_header_layout(h);
    let sum = block_checksum(block);
    lemma_checksum_prefix_bound(block, 512);
    assert(pow8(7) == 2097152) by {
        reveal_with_fuel(pow8, 8);
    }
    lemma_octal_field_reads_back(sum as nat, 8);
    assert(block.subrange(148, 156)[0] == block[148]);
    assert(block[148] != 0u8) by {
        assert(h.checksum@[0] >= 48) by {
            crate::octal::lemma_octal_field_digits(sum as nat, 8);
        }
    }
    assert(!is_zero_block(block));
    lemma_octal_field_reads_back(size as nat, 12);
    lemma_octal_field_reads_back(mode as nat, 8);
    let k: int = if name.len() < 100 { name.len() as int } else { 100 };
    let t = name.take(k);
    lemma_nul_prefix_len_zero_padded(t, (100 - k) as nat);
    assert(name_field(name) =~= t + Seq::new((100 - k) as nat, |i: int| 0u8));
    lemma_nul_prefix_len_bound(t);
    assert(block_entry_name(block) =~= archived_name(name));
}

/// The numeric fields of a header built by `TarHeader::for_regular_file`
/// or `TarHeader::for_directory` read back as the arguments given for
/// them: mode, owner, group, size and modification time, each where its
/// octal digits fit the field.
pub proof fn lemma_entry_header_numbers_read_back(
    h: TarHeader,
    name: Seq<u8>,
    typeflag: u8,
    mode: u64,
    uid: u64,
    gid: u64,
    size: u64,
    mtime: u64,
)
    requires
        is_entry_header(h, name, typeflag, mode, uid, gid, size, mtime),
        mode < pow8(7),
        uid < pow8(7),
        gid < pow8(7),
        size < pow8(11),
        mtime < pow8(11),
    ensures
        spec_parse_octal(h.mode@) == Ok::<u64, OctalError>(mode),
        spec_parse_octal(h.uid@) == Ok::<u64, OctalError>(uid),
        spec_parse_octal(h.gid@) == Ok::<u64, OctalError>(gid),
        spec_parse_octal(h.size@) == Ok::<u64, OctalError>(size),
        spec_parse_octal(h.mtime@) == Ok::<u64, OctalError>(mtime),
        h.typeflag == typeflag,
{
    lemma_octal_field_reads_back(mode as nat, 8);
    lemma_octal_field_reads_back(uid as nat, 8);
    lemma_octal_field_reads_back(gid as nat, 8);
    lemma_octal_field_reads_back(size as nat, 12);
    lemma_octal_field_reads_back(mtime as nat, 12);
}

/// The kind of an accepted entry follows its type flag (offset 156): a
/// regular file exactly for '0' and NUL, a directory exactly for '5', and
/// any other flag gives neither.
pub proof fn lemma_entry_kind_follows_type_flag(block: Seq<u8>, dst: Seq<u8>)
    requires
        block.len() == 512,
    ensures
        spec_read_header(block, dst) matches Ok(Some((_, _, _, kind))) ==> {
            &&& (kind == EntryKind::File <==> (block[156] == 48u8 || block[156] == 0u8))
            &&& (kind == EntryKind::Directory <==> block[156] == 53u8)
            &&& (kind == EntryKind::Other <==> !(block[156] == 48u8 || block[156] == 0u8
                || block[156] == 53u8))
        },
{
}

impl<R> Decoder<R> {
    /// The reader that holds the TAR stream.
    pub closed spec fn reader_view(&self) -> R {
        self.reader
    }

    /// Creates a new `Decoder` over `reader`.
    pub fn new(reader: R) -> (d: Self)
        ensures
            d.reader_view() == reader,
    {
        Self { reader }
    }

    /// The reader, for the caller that reads the stream.
    pub fn reader_mut(&mut self) -> (r: &mut R)
        ensures
            *r == old(self).reader_view(),
            final(self).reader_view() == *final(r),
    {
        &mut self.reader
    }

    /// Parses the octal number of a TAR header field: the bytes up to the
    /// first NUL or space, trimmed of white space, read in base 8.
    pub fn parse_octal(&self, bytes: &[u8]) -> (r: Result<u64, OctalError>)
        ensures
            r == spec_parse_octal(bytes@),
    {
        let k = field_text_end(bytes);
        if k == 0 {
            return Ok(0);
        }
        let text = slice_subrange(bytes, 0, k);
        assert(text@ =~= bytes@.take(k as int));
        match str_from_utf8(text) {
            None => Err(OctalError::InvalidSequence),
            Some(s) => read_trimmed(s),
        }
    }

    /// What the 512-byte header `block` asks for, with `dst` the bytes of
    /// the destination directory.
    pub fn read_header(&self, block: &[u8], dst: &[u8]) -> (r: Result<HeaderStep, UnpackError>)
        requires
            block@.len() == 512,
        ensures
            match spec_read_header(block@, dst@) {
                Err(e) => r == Err::<HeaderStep, UnpackError>(e),
                Ok(None) => r == Ok::<HeaderStep, UnpackError>(HeaderStep::End),
                Ok(Some((name, size, mode, kind))) => r matches Ok(HeaderStep::Entry(p)) && p.name@
                    == name && p.target@ == join_path(dst@, name) && p.size == size && p.mode
                    == mode && p.kind == kind,
            },
    {
        let mut i: usize = 0;
        while i < 512 && block[i] == 0u8
            invariant
                block@.len() == 512,
                i <= 512,
                forall|k: int| 0 <= k < i ==> block@[k] == 0u8,
            decreases 512 - i,
        {
            i = i + 1;
        }
        if i == 512 {
            return Ok(HeaderStep::End);
        }
        assert(!is_zero_block(block@));
        let h = TarHeader::from_bytes(block);
        proof {
            lemma_header_layout(h);
        }
        let sum = match self.parse_octal(h.checksum.as_slice()) {
            Ok(v) => v,
            Err(e) => return Err(UnpackError::Octal(e)),
        };
        if sum != h.calculate_checksum() as u64 {
            return Err(UnpackError::ChecksumMismatch);
        }
        let size = match self.parse_octal(h.size.as_slice()) {
            Ok(v) => v,
            Err(e) => return Err(UnpackError::Octal(e)),
        };
        let mode = match self.parse_octal(h.mode.as_slice()) {
            Ok(v) => v,
            Err(e) => return Err(UnpackError::Octal(e)),
        };
        let mut n: usize = 0;
        while n < 100 && h.name[n] != 0u8
            invariant
                n <= 100,
                h.name@.len() == 100,
                forall|j: int| 0 <= j < n ==> #[trigger] h.name@[j] != 0u8,
            decreases 100 - n,
        {
            n = n + 1;
        }
        proof {
            lemma_nul_prefix_len(h.name@, n as int);
        }
        let name = slice_to_vec(slice_subrange(h.name.as_slice(), 0, n));
        assert(name@ == block_entry_name(block@));
        let target = join(dst, name.as_slice());
        if !within(target.as_slice(), dst) {
            return Err(UnpackError::PathTraversal);
        }
        Ok(
            HeaderStep::Entry(
                EntryPlan {
                    name,
                    target,
                    size,
                    mode: #[verifier::truncate] (mode as u32),
                    kind: if h.typeflag == 48u8 || h.typeflag == 0u8 {
                        EntryKind::File
                    } else if h.typeflag == 53u8 {
                        EntryKind::Directory
                    } else {
                        EntryKind::Other
                    },
                },
            ),
        )
    }
}

} // verus!
