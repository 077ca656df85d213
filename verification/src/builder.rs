//! The decisions of TAR archive creation: the name an entry gets, the
//! entry names of a directory's contents, and the termination blocks.
//!
//! The caller writes the bytes; the builder keeps whether the archive has
//! been finished, so that the termination blocks are written once.

use crate::header::{header_bytes, lemma_header_layout, spec_padding, TarHeader};
use vstd::prelude::*;
use vstd::slice::slice_subrange;
use vstd::string::StringExecFns;

verus! {

/// A minimalist TAR builder; the writer receives the TAR stream.
pub struct Builder<W> {
    writer: W,
    finished: bool,
}

/// What finishing the archive asks the caller to do.
#[derive(Debug, PartialEq, Eq)]
pub enum FinishStep {
    /// The termination blocks were already written: nothing to do.
    AlreadyFinished,
    /// Write these bytes (two 512-byte blocks of zeros), flush the writer,
    /// then call `Builder::mark_finished`.
    WriteTrailer(Vec<u8>),
}

/// The two zero blocks that end an archive.
pub open spec fn trailer() -> Seq<u8> {
    Seq::new(1024, |i: int| 0u8)
}

/// What `finish` asks for, given whether the archive is finished.
pub open spec fn spec_finish(finished: bool) -> Option<Seq<u8>> {
    if finished {
        None
    } else {
        Some(trailer())
    }
}

impl<W> Builder<W> {
    /// The writer that receives the TAR stream.
    pub closed spec fn writer_view(&self) -> W {
        self.writer
    }

    /// Whether the termination blocks have been written.
    pub closed spec fn finished_view(&self) -> bool {
        self.finished
    }

    /// Creates a new `Builder` over `writer`, not yet finished.
    pub fn new(writer: W) -> (b: Self)
        ensures
            b.writer_view() == writer,
            !b.finished_view(),
    {
        Self { writer, finished: false }
    }

    /// The writer, for the caller that writes the stream.
    pub fn writer_mut(&mut self) -> (w: &mut W)
        ensures
            *w == old(self).writer_view(),
            final(self).writer_view() == *final(w),
            final(self).finished_view() == old(self).finished_view(),
    {
        &mut self.writer
    }

    /// Whether the termination blocks have been written.
    pub fn is_finished(&self) -> (r: bool)
        ensures
            r == self.finished_view(),
    {
        self.finished
    }

    /// Finalizes the archive: where it is not finished yet, asks for the
    /// two 512-byte zero blocks that end a TAR archive to be written.
    pub fn finish(&self) -> (step: FinishStep)
        ensures
            match spec_finish(self.finished_view()) {
                None => step == FinishStep::AlreadyFinished,
                Some(t) => step matches FinishStep::WriteTrailer(bytes) && bytes@ == t,
            },
    {
        if self.finished {
            return FinishStep::AlreadyFinished;
        }
        let mut bytes: Vec<u8> = Vec::new();
        let mut i: usize = 0;
        while i < 1024
            invariant
                i <= 1024,
                bytes@ == Seq::new(i as nat, |k: int| 0u8),
            decreases 1024 - i,
        {
            bytes.push(0u8);
            i = i + 1;
            assert(bytes@ =~= Seq::new(i as nat, |k: int| 0u8));
        }
        FinishStep::WriteTrailer(bytes)
    }

    /// Records that the termination blocks were written and flushed.
    pub fn mark_finished(&mut self)
        ensures
            final(self).finished_view(),
            final(self).writer_view() == old(self).writer_view(),
    {
        self.finished = true;
    }
}

/// Once the termination blocks have been written and recorded, finishing
/// again asks for nothing: an archive gets its trailer once.
pub proof fn lemma_trailer_written_once<W>(before: Builder<W>, after: Builder<W>)
    requires
        !before.finished_view(),
        after.finished_view(),
    ensures
        spec_finish(before.finished_view()) == Some(trailer()),
        spec_finish(after.finished_view()) == None::<Seq<u8>>,
{
}

/// The bytes of one entry in the stream: its 512-byte header, its data,
/// and the zero padding that completes the last data block.
pub open spec fn entry_bytes(header: TarHeader, data: Seq<u8>) -> Seq<u8> {
    header_bytes(header) + data + Seq::new(spec_padding(data.len()), |i: int| 0u8)
}

/// The bytes of the given entries, one after another.
pub open spec fn entries_bytes(entries: Seq<(TarHeader, Seq<u8>)>) -> Seq<u8>
    decreases entries.len(),
{
    if entries.len() == 0 {
        seq![]
    } else {
        entries_bytes(entries.drop_last()) + entry_bytes(entries.last().0, entries.last().1)
    }
}

/// A whole archive: the entries, then the termination blocks.
pub open spec fn archive_bytes(entries: Seq<(TarHeader, Seq<u8>)>) -> Seq<u8> {
    entries_bytes(entries) + trailer()
}

proof fn lemma_entries_fill_blocks(entries: Seq<(TarHeader, Seq<u8>)>)
    ensures
        entries_bytes(entries).len() % 512 == 0,
    decreases entries.len(),
{
    if entries.len() > 0 {
        lemma_entries_fill_blocks(entries.drop_last());
        let (h, data) = entries.last();
        lemma_header_layout(h);
        let n = data.len();
        let a = entries_bytes(entries.drop_last()).len();
        let p = spec_padding(n);
        assert((n + p) % 512 == 0);
        assert(entry_bytes(h, data).len() == 512 + n + p);
        assert((a + 512 + n + p) % 512 == 0);
    }
}

/// An archive written as entries (header, data, padding each) followed by
/// the termination blocks fills whole 512-byte blocks and ends with the
/// two zero blocks.
pub proof fn lemma_archive_fills_blocks(entries: Seq<(TarHeader, Seq<u8>)>)
    ensures
        archive_bytes(entries).len() % 512 == 0,
        archive_bytes(entries).len() >= 1024,
        archive_bytes(entries).skip(archive_bytes(entries).len() - 1024) == trailer(),
{
    lemma_entries_fill_blocks(entries);
    let e = entries_bytes(entries);
    assert(archive_bytes(entries).skip(e.len() as int) =~= trailer());
}

/// The entry name of a file added by its own path: the path without one
/// leading '/'.
pub open spec fn spec_name_from_path(path: Seq<u8>) -> Seq<u8> {
    if path.len() > 0 && path[0] == 47u8 {
        path.drop_first()
    } else {
        path
    }
}

/// The number of leading '/' bytes of `name`.
pub open spec fn leading_slashes(name: Seq<u8>) -> nat
    decreases name.len(),
{
    if name.len() > 0 && name[0] == 47u8 {
        1 + leading_slashes(name.drop_first())
    } else {
        0
    }
}

/// An entry name given for the archive, without all its leading '/'.
pub open spec fn spec_name_in_archive(name: Seq<u8>) -> Seq<u8> {
    name.skip(leading_slashes(name) as int)
}

/// A path names its entry unchanged unless it starts with '/'; a path
/// that does names it without that one '/'.
pub proof fn lemma_name_from_path_drops_one_root_slash(path: Seq<u8>)
    ensures
        (path.len() == 0 || path[0] != 47u8) ==> spec_name_from_path(path) == path,
        (path.len() > 0 && path[0] == 47u8) ==> seq![47u8] + spec_name_from_path(path) == path,
{
    if path.len() > 0 && path[0] == 47u8 {
        assert(seq![47u8] + path.drop_first() =~= path);
    }
}

proof fn lemma_leading_slashes_bound(name: Seq<u8>)
    ensures
        leading_slashes(name) <= name.len(),
        forall|j: int| 0 <= j < leading_slashes(name) ==> #[trigger] name[j] == 47u8,
        leading_slashes(name) == name.len() || name[leading_slashes(name) as int] != 47u8,
    decreases name.len(),
{
    if name.len() > 0 && name[0] == 47u8 {
        let rest = name.drop_first();
        lemma_leading_slashes_bound(rest);
        assert forall|j: int| 0 <= j < leading_slashes(name) implies #[trigger] name[j] == 47u8 by {
            if j > 0 {
                assert(name[j] == rest[j - 1]);
            }
        }
        if leading_slashes(name) < name.len() {
            assert(name[leading_slashes(name) as int] == rest[leading_slashes(rest) as int]);
        }
    }
}

/// The archive name of an entry is the given name with exactly its
/// leading '/' bytes removed: the name is some '/' bytes followed by the
/// result, and the result does not start with '/'. A name that does not
/// start with '/' is kept unchanged.
pub proof fn lemma_name_in_archive_drops_leading_slashes(name: Seq<u8>)
    ensures
        spec_name_in_archive(name).len() <= name.len(),
        name == Seq::new((name.len() - spec_name_in_archive(name).len()) as nat, |i: int| 47u8)
            + spec_name_in_archive(name),
        spec_name_in_archive(name).len() == 0 || spec_name_in_archive(name)[0] != 47u8,
        (name.len() == 0 || name[0] != 47u8) ==> spec_name_in_archive(name) == name,
{
    lemma_leading_slashes_bound(name);
    let k = leading_slashes(name) as int;
    let r = spec_name_in_archive(name);
    assert(name =~= Seq::new((name.len() - r.len()) as nat, |i: int| 47u8) + r);
    if name.len() == 0 || name[0] != 47u8 {
        assert(r =~= name);
    }
}

/// The entry name of a file added by its own path: the path without one
/// leading '/'.
pub fn name_from_path(path: &[u8]) -> (r: &[u8])
    ensures
        r@ == spec_name_from_path(path@),
{
    if path.len() > 0 && path[0] == 47u8 {
        let r = slice_subrange(path, 1, path.len());
        assert(r@ =~= path@.drop_first());
        r
    } else {
        path
    }
}

proof fn lemma_leading_slashes(name: Seq<u8>, k: int)
    requires
        0 <= k <= name.len(),
        forall|j: int| 0 <= j < k ==> #[trigger] name[j] == 47u8,
        k == name.len() || name[k] != 47u8,
    ensures
        leading_slashes(name) == k,
    decreases k,
{
    if k > 0 {
        let rest = name.drop_first();
        assert forall|j: int| 0 <= j < k - 1 implies #[trigger] rest[j] == 47u8 by {
            assert(rest[j] == name[j + 1]);
        }
        lemma_leading_slashes(rest, k - 1);
    }
}

/// An entry name given for the archive, without all its leading '/'.
pub fn name_in_archive(name: &[u8]) -> (r: &[u8])
    ensures
        r@ == spec_name_in_archive(name@),
{
    let n = name.len();
    let mut k: usize = 0;
    while k < n && name[k] == 47u8
        invariant
            n == name@.len(),
            k <= n,
            forall|j: int| 0 <= j < k ==> #[trigger] name@[j] == 47u8,
        decreases n - k,
    {
        k = k + 1;
    }
    proof {
        lemma_leading_slashes(name@, k as int);
    }
    let r = slice_subrange(name, k, n);
    assert(r@ =~= name@.skip(k as int));
    r
}

/// The entry name, inside the archive, of the directory member
/// `file_name` under the entry prefix `prefix`: the two joined by '/'.
pub fn member_name(prefix: &str, file_name: &str) -> (r: String)
    ensures
        r@ == prefix@ + seq!['/'] + file_name@,
{
    let mut r = String::from_str(prefix);
    let sep = "/";
    proof {
        reveal_strlit("/");
    }
    r.append(sep);
    r.append(file_name);
    r
}

} // verus!
