//! An image that is one file: a directory with that file in it.

use crate::backend::Backend;
use crate::bytes::bytes_equal;
use crate::error::{Error, ErrorKind};
use crate::image::{Refusal, ROOT_ID};
use crate::utils::{align_up, spec_align_up};
use vstd::prelude::*;

verus! {

/// The number of the image file.
pub const IMAGE_FILE_ID: u64 = 2;

/// Attributes and entries never grow old, in seconds.
pub const ATTR_TIMEOUT_SECS: u64 = 4294967296;

/// The mode of the root directory: a directory that all can read and enter.
pub const ROOT_MODE: u32 = 0o040755;

/// The mode of the image file: a file that all can read.
pub const IMAGE_MODE: u32 = 0o100644;

/// The attributes of a file. All its times are the same, and it belongs to the superuser.
#[derive(Debug, Clone, Copy, Eq, PartialEq, Structural)]
pub struct FileAttr {
    pub ino: u64,
    pub size: u64,
    pub blocks: u64,
    pub time: u64,
    pub mode: u32,
    pub nlink: u32,
    pub blksize: u32,
}

/// What is read for a request.
#[derive(Debug, Clone, Copy, Eq, PartialEq, Structural)]
pub enum ReadPlan {
    /// Nothing: the request is refused.
    Refuse(Refusal),
    /// Nothing: the request is empty or starts behind the end.
    Nothing,
    /// This many bytes.
    Read(u32),
}

/// The name of a directory entry.
#[derive(Debug, Clone, Copy, Eq, PartialEq, Structural)]
pub enum EntryName {
    /// `.`
    Dot,
    /// `..`
    DotDot,
    /// The name of the image.
    Image,
}

/// A directory entry.
#[derive(Debug, Clone, Copy, Eq, PartialEq, Structural)]
pub struct RawDirEntry {
    pub ino: u64,
    pub offset: u64,
    pub name: EntryName,
}

/// The entries of the root directory.
pub open spec fn root_entries() -> Seq<RawDirEntry> {
    seq![
        RawDirEntry { ino: ROOT_ID, offset: 1, name: EntryName::Dot },
        RawDirEntry { ino: ROOT_ID, offset: 2, name: EntryName::DotDot },
        RawDirEntry { ino: IMAGE_FILE_ID, offset: 3, name: EntryName::Image },
    ]
}

/// A mounted image.
#[derive(Debug)]
pub struct RawImage<B: Backend> {
    name: String,
    size: u64,
    create_tm: u64,
    b: B,
}

impl<B: Backend> RawImage<B> {
    /// The name of the image file.
    pub closed spec fn name(self) -> Seq<char> {
        self.name@
    }

    /// When it was mounted, in seconds.
    pub closed spec fn create_tm(self) -> u64 {
        self.create_tm
    }

    /// The number of bytes in the image.
    pub closed spec fn image_size(self) -> u64 {
        self.size
    }

    /// Where the image's data comes from.
    pub closed spec fn source(self) -> B {
        self.b
    }

    /// The attributes of the root directory.
    pub open spec fn spec_root_attr(self) -> FileAttr {
        FileAttr {
            ino: ROOT_ID,
            size: 4096,
            blocks: 8,
            time: self.create_tm(),
            mode: ROOT_MODE,
            nlink: 2,
            blksize: 4096,
        }
    }

    /// The attributes of the image file.
    pub open spec fn spec_image_attr(self) -> FileAttr {
        FileAttr {
            ino: IMAGE_FILE_ID,
            size: self.image_size(),
            blocks: (spec_align_up(self.image_size() as int, 4096) / 512) as u64,
            time: self.create_tm(),
            mode: IMAGE_MODE,
            nlink: 1,
            blksize: 4096,
        }
    }

    /// An image of the given name.
    pub fn new(name: &str, b: B, create_tm: u64) -> (r: RawImage<B>)
        ensures
            r.name() == name@,
            r.create_tm() == create_tm,
            r.image_size() == b.spec_size(),
            r.source() == b,
    {
        let size: u64 = b.size();
        RawImage { name: name.to_owned(), size, create_tm, b }
    }

    /// The name of the image file.
    pub fn file_name(&self) -> (r: &str)
        ensures
            r@ == self.name(),
    {
        self.name.as_str()
    }

    /// The attributes of the root directory.
    pub fn root_attr(&self) -> (r: FileAttr)
        ensures
            r == self.spec_root_attr(),
    {
        FileAttr {
            ino: ROOT_ID,
            size: 4096,
            blocks: 8,
            time: self.create_tm,
            mode: ROOT_MODE,
            nlink: 2,
            blksize: 4096,
        }
    }

    /// The attributes of the image file.
    pub fn image_attr(&self) -> (r: FileAttr)
        requires
            self.image_size() + 4095 <= u64::MAX,
        ensures
            r == self.spec_image_attr(),
    {
        FileAttr {
            ino: IMAGE_FILE_ID,
            size: self.size,
            blocks: align_up(self.size, 4096) / 512,
            time: self.create_tm,
            mode: IMAGE_MODE,
            nlink: 1,
            blksize: 4096,
        }
    }

    /// The attributes of a file.
    pub fn get_inode_entry(&self, ino: u64) -> (r: Option<FileAttr>)
        requires
            self.image_size() + 4095 <= u64::MAX,
        ensures
            r == if ino == ROOT_ID {
                Some(self.spec_root_attr())
            } else if ino == IMAGE_FILE_ID {
                Some(self.spec_image_attr())
            } else {
                None
            },
    {
        if ino == ROOT_ID {
            Some(self.root_attr())
        } else if ino == IMAGE_FILE_ID {
            Some(self.image_attr())
        } else {
            None
        }
    }

    /// The number of the file of a name in a directory.
    pub fn lookup(&self, parent: u64, name: &[u8]) -> (r: Result<u64, Refusal>)
        ensures
            r == if parent != ROOT_ID {
                Err::<u64, Refusal>(Refusal::NotFound)
            } else if name@ == seq![46u8] || name@ == seq![46u8, 46u8] {
                Ok(ROOT_ID)
            } else if name@ == vstd::utf8::encode_utf8(self.name()) {
                Ok(IMAGE_FILE_ID)
            } else {
                Err(Refusal::NotFound)
            },
    {
        if parent != ROOT_ID {
            return Err(Refusal::NotFound);
        }
        let dot: [u8; 1] = [46];
        let dot_dot: [u8; 2] = [46, 46];
        assert(dot@ =~= seq![46u8]);
        assert(dot_dot@ =~= seq![46u8, 46u8]);
        if bytes_equal(name, &dot) || bytes_equal(name, &dot_dot) {
            return Ok(ROOT_ID);
        }
        if bytes_equal(name, self.name.as_str().as_bytes()) {
            return Ok(IMAGE_FILE_ID);
        }
        Err(Refusal::NotFound)
    }

    /// What is read for a request of `size` bytes from `offset` on: only the image file can be
    /// read, and nothing behind its end.
    pub fn plan_read(&self, ino: u64, size: u32, offset: u64) -> (r: ReadPlan)
        ensures
            r == if ino != IMAGE_FILE_ID {
                ReadPlan::Refuse(Refusal::Invalid)
            } else if size == 0 || offset >= self.image_size() {
                ReadPlan::Nothing
            } else if offset + size > self.image_size() {
                ReadPlan::Read((self.image_size() - offset) as u32)
            } else {
                ReadPlan::Read(size)
            },
    {
        if ino != IMAGE_FILE_ID {
            return ReadPlan::Refuse(Refusal::Invalid);
        }
        if size == 0 || offset >= self.size {
            return ReadPlan::Nothing;
        }
        let left: u64 = self.size - offset;
        if (size as u64) > left {
            ReadPlan::Read(left as u32)
        } else {
            ReadPlan::Read(size)
        }
    }

    /// The entries of a directory from `offset` on.
    pub fn plan_readdir(&self, ino: u64, size: u32, offset: u64) -> (r: Result<
        Vec<RawDirEntry>,
        Refusal,
    >)
        ensures
            match r {
                Ok(entries) => {
                    &&& ino == ROOT_ID
                    &&& entries@ == if size == 0 || offset >= 3 {
                        Seq::<RawDirEntry>::empty()
                    } else {
                        root_entries().skip(offset as int)
                    }
                },
                Err(e) => ino != ROOT_ID && e == Refusal::Invalid,
            },
    {
        if ino != ROOT_ID {
            return Err(Refusal::Invalid);
        }
        let mut entries: Vec<RawDirEntry> = Vec::new();
        if size == 0 || offset >= 3 {
            return Ok(entries);
        }
        if offset < 1 {
            entries.push(RawDirEntry { ino: ROOT_ID, offset: 1, name: EntryName::Dot });
        }
        if offset < 2 {
            entries.push(RawDirEntry { ino: ROOT_ID, offset: 2, name: EntryName::DotDot });
        }
        entries.push(RawDirEntry { ino: IMAGE_FILE_ID, offset: 3, name: EntryName::Image });
        assert(entries@ =~= root_entries().skip(offset as int));
        Ok(entries)
    }
}

impl<B: Backend> Backend for RawImage<B> {
    closed spec fn spec_size(&self) -> u64 {
        self.size
    }

    closed spec fn can_read(&self, off: usize, before: Seq<u8>, after: Seq<u8>, n: usize) -> bool {
        self.b.can_read(off, before, after, n)
    }

    closed spec fn can_fail(&self, off: usize, before: Seq<u8>, after: Seq<u8>, e: Error) -> bool {
        self.b.can_fail(off, before, after, e)
    }

    fn size(&self) -> (r: u64)
        ensures
            r == self.image_size(),
    {
        self.size
    }

    fn fetch(&self, off: usize, data: &mut [u8]) -> (r: Result<usize, Error>)
        ensures
            match r {
                Ok(n) => self.source().can_read(off, old(data)@, final(data)@, n),
                Err(e) => self.source().can_fail(off, old(data)@, final(data)@, e),
            },
    {
        self.b.fetch(off, data)
    }
}

/// A directory is read in pieces without losing an entry: reading on from the offset of an
/// entry gives what follows it.
pub proof fn law_directory_reading_resumes(i: int)
    requires
        0 <= i < 3,
    ensures
        root_entries()[i].offset == i + 1,
        root_entries().skip(root_entries()[i].offset as int) == root_entries().skip(i).skip(1),
{
    assert(root_entries().skip(i).skip(1) =~= root_entries().skip(i + 1));
}

/// No read goes beyond the end of the image.
pub proof fn law_reads_stay_within_the_image(image_size: u64, size: u32, offset: u64, n: u32)
    requires
        offset < image_size,
        n == if offset + size > image_size {
            (image_size - offset) as u32
        } else {
            size
        },
    ensures
        offset + n <= image_size,
        n <= size,
        n < size ==> offset + n == image_size,
{
}

/// An image whose data is deduplicated. Reads are cut at its end.
#[derive(Debug)]
pub struct RawDedupImage<B: Backend> {
    inner: B,
}

/// The part of a read that lies within `len` bytes.
pub open spec fn within(len: usize, off: usize, size: nat) -> nat {
    if off + size > len {
        (len - off) as nat
    } else {
        size
    }
}

impl<B: Backend> RawDedupImage<B> {
    /// Where the image's data comes from.
    pub closed spec fn source(self) -> B {
        self.inner
    }

    /// An image with the given data.
    pub fn new(inner: B) -> (r: RawDedupImage<B>)
        ensures
            r.source() == inner,
    {
        RawDedupImage { inner }
    }

    /// The part of a read that lies within the image.
    pub fn validate_range(&self, off: usize, size: usize) -> (r: Result<(usize, usize), Error>)
        ensures
            ({
                let len = self.source().spec_size() as usize;
                match r {
                    Ok((start, n)) => {
                        &&& off <= len
                        &&& start == off
                        &&& n == within(len, off, size as nat)
                    },
                    Err(e) => {
                        &&& off > len
                        &&& e.kind == ErrorKind::InvalidInput
                        &&& e.message@ == "Invalid offset"@
                    },
                }
            }),
    {
        let len: usize = #[verifier::truncate] (self.inner.size() as usize);
        if off > len {
            return Err(Error::new(ErrorKind::InvalidInput, "Invalid offset"));
        }
        if size > len - off {
            Ok((off, len - off))
        } else {
            Ok((off, size))
        }
    }
}

impl<B: Backend> Backend for RawDedupImage<B> {
    closed spec fn spec_size(&self) -> u64 {
        self.inner.spec_size()
    }

    open spec fn can_read(&self, off: usize, before: Seq<u8>, after: Seq<u8>, n: usize) -> bool {
        let len = self.source().spec_size() as usize;
        let want = within(len, off, before.len()) as int;
        &&& off <= len
        &&& after.skip(want) == before.skip(want)
        &&& if want == 0 {
            n == 0
        } else {
            self.source().can_read(off, before.take(want), after.take(want), n)
        }
    }

    open spec fn can_fail(&self, off: usize, before: Seq<u8>, after: Seq<u8>, e: Error) -> bool {
        let len = self.source().spec_size() as usize;
        let want = within(len, off, before.len()) as int;
        if off > len {
            &&& e.kind == ErrorKind::InvalidInput
            &&& e.message@ == "Invalid offset"@
            &&& after == before
        } else {
            &&& want > 0
            &&& after.skip(want) == before.skip(want)
            &&& self.source().can_fail(off, before.take(want), after.take(want), e)
        }
    }

    fn size(&self) -> (r: u64)
        ensures
            r == self.source().spec_size(),
    {
        self.inner.size()
    }

    fn fetch(&self, off: usize, data: &mut [u8]) -> (r: Result<usize, Error>)
        ensures
            off > self.source().spec_size() as usize ==> {
                &&& r is Err
                &&& r->Err_0.kind == ErrorKind::InvalidInput
                &&& r->Err_0.message@ == "Invalid offset"@
                &&& final(data)@ == old(data)@
            },
            off <= self.source().spec_size() as usize && within(
                self.source().spec_size() as usize,
                off,
                old(data)@.len(),
            ) == 0 ==> r == Ok::<usize, Error>(0),
    {
        let ghost before = data@;
        let (start, n) = match self.validate_range(off, data.len()) {
            Ok(range) => range,
            Err(e) => {
                return Err(e);
            },
        };
        if n == 0 {
            return Ok(0);
        }
        let (part, _rest) = data.split_at_mut(n);
        assert(part@ =~= before.take(n as int));
        let r: Result<usize, Error> = self.inner.fetch(start, part);
        let ghost after = part@;
        assert(data@.take(n as int) =~= after);
        assert(data@.skip(n as int) =~= before.skip(n as int));
        r
    }
}

/// A read of the image file gets each byte that it asks for and the image has, and no other; only
/// that file can be read.
pub proof fn law_planned_read_gets_what_there_is<B: Backend>(
    image: &RawImage<B>,
    ino: u64,
    size: u32,
    offset: u64,
    plan: ReadPlan,
    p: int,
)
    requires
        call_ensures(RawImage::<B>::plan_read, (image, ino, size, offset), plan),
        offset <= p,
    ensures
        plan is Refuse <==> ino != 2,
        plan matches ReadPlan::Read(n) ==> n > 0 && (p < offset + n <==> p < offset + size && p
            < image.image_size()),
        plan is Nothing ==> !(p < offset + size && p < image.image_size()),
{
}

/// The root directory is read in pieces without losing or repeating an entry: reading on from the
/// offset of an entry gives what followed it, and reading on from the last gives nothing.
pub proof fn law_directory_pieces_make_the_whole<B: Backend>(
    image: &RawImage<B>,
    size: u32,
    offset: u64,
    all: Vec<RawDirEntry>,
    k: int,
    rest: Vec<RawDirEntry>,
)
    requires
        size > 0,
        call_ensures(RawImage::<B>::plan_readdir, (image, ROOT_ID, size, offset), Ok(all)),
        0 <= k < all@.len(),
        call_ensures(
            RawImage::<B>::plan_readdir,
            (image, ROOT_ID, size, all@[k].offset),
            Ok(rest),
        ),
    ensures
        rest@ == all@.skip(k + 1),
        offset == 0 ==> all@.len() == 3,
{
    let s = root_entries();
    assert(offset < 3);
    assert(all@ =~= s.skip(offset as int));
    assert(all@[k] == s[offset + k]);
    if offset + k + 1 < 3 {
        assert(rest@ =~= all@.skip(k + 1));
    } else {
        assert(rest@ =~= all@.skip(k + 1));
    }
}

/// What the root directory lists is found by its name and has attributes under its number: the
/// directory itself, its parent, which is the same, and the image file, with the size of the image
/// and as many blocks as hold it.
pub proof fn law_listed_files_are_found<B: Backend>(
    image: &RawImage<B>,
    name: &[u8],
    found: Result<u64, Refusal>,
    all: Vec<RawDirEntry>,
    k: int,
    attr: Option<FileAttr>,
)
    requires
        image.image_size() + 4095 <= u64::MAX,
        call_ensures(RawImage::<B>::plan_readdir, (image, ROOT_ID, 4096u32, 0u64), Ok(all)),
        0 <= k < all@.len(),
        match all@[k].name {
            EntryName::Dot => name@ == seq![46u8],
            EntryName::DotDot => name@ == seq![46u8, 46u8],
            EntryName::Image => name@ == vstd::utf8::encode_utf8(image.name()) && name@
                != seq![46u8] && name@ != seq![46u8, 46u8],
        },
        call_ensures(RawImage::<B>::lookup, (image, ROOT_ID, name), found),
        call_ensures(RawImage::<B>::get_inode_entry, (image, all@[k].ino), attr),
    ensures
        found == Ok::<u64, Refusal>(all@[k].ino),
        attr is Some,
        attr->Some_0.ino == all@[k].ino,
        all@[k].name is Image ==> {
            &&& attr->Some_0.size == image.image_size()
            &&& attr->Some_0.size <= attr->Some_0.blocks * 512 < attr->Some_0.size + 4096
            &&& attr->Some_0.ino != ROOT_ID
        },
        !(all@[k].name is Image) ==> attr->Some_0.ino == ROOT_ID,
{
    let s = root_entries();
    assert(s.skip(0) =~= s);
    let size = image.image_size() as int;
    let up = spec_align_up(size, 4096);
    crate::utils::law_aligned_is_next_multiple(size, 4096);
    assert(up % 512 == 0 && up / 512 * 512 == up && up <= u64::MAX) by {
        assert(up == (size + 4095) / 4096 * 4096);
    }
}

/// A name that is none of these, or any name in another directory, is not found.
pub proof fn law_other_names_are_not_found<B: Backend>(
    image: &RawImage<B>,
    parent: u64,
    name: &[u8],
    found: Result<u64, Refusal>,
)
    requires
        parent != ROOT_ID || (name@ != seq![46u8] && name@ != seq![46u8, 46u8] && name@
            != vstd::utf8::encode_utf8(image.name())),
        call_ensures(RawImage::<B>::lookup, (image, parent, name), found),
    ensures
        found == Err::<u64, Refusal>(Refusal::NotFound),
{
}

/// A deduplicated image gives the bytes of its source, as far as the source reaches: where the
/// source gives an image of its own size, so does it.
pub proof fn law_deduplicated_image_is_its_source<B: Backend>(
    d: &RawDedupImage<B>,
    image: Seq<u8>,
    off: usize,
    before: Seq<u8>,
    after: Seq<u8>,
    n: usize,
)
    requires
        crate::backend::gives_image(d.source(), image),
        image.len() == d.source().spec_size() as usize,
        off + before.len() <= image.len(),
        before.len() == after.len(),
        d.can_read(off, before, after, n),
    ensures
        after == image.subrange(off as int, off + before.len()),
{
    let want = before.len() as int;
    assert(before.take(want) =~= before);
    assert(after.take(want) =~= after);
    if want == 0 {
        assert(after =~= image.subrange(off as int, off as int));
    }
}

/// The range of a read that is let through is the part of it that lies within the image.
pub proof fn law_valid_range_lies_within<B: Backend>(
    d: &RawDedupImage<B>,
    off: usize,
    size: usize,
    r: Result<(usize, usize), Error>,
    p: int,
)
    requires
        call_ensures(RawDedupImage::<B>::validate_range, (d, off, size), r),
    ensures
        r is Err <==> off > d.source().spec_size() as usize,
        r matches Ok((start, n)) ==> (start <= p < start + n <==> off <= p < off + size && p
            < d.source().spec_size() as usize),
{
}

/// An image is shown under the name that it was mounted by, with the size that its source has.
pub proof fn law_image_is_as_it_was_mounted<B: Backend>(
    name: &str,
    b: B,
    time: u64,
    image: RawImage<B>,
    at: &RawImage<B>,
    shown: &str,
    root: FileAttr,
    file: FileAttr,
)
    requires
        b.spec_size() + 4095 <= u64::MAX,
        call_ensures(RawImage::<B>::new, (name, b, time), image),
        *at == image,
        call_ensures(RawImage::<B>::file_name, (at,), shown),
        call_ensures(RawImage::<B>::root_attr, (at,), root),
        call_ensures(RawImage::<B>::image_attr, (at,), file),
    ensures
        shown@ == name@,
        file.size == b.spec_size(),
        file.ino != root.ino,
        file.time == time,
        root.time == time,
        file.mode == 0o100644,
        root.mode == 0o040755,
        image.source() == b,
{
    assert(call_requires(RawImage::<B>::image_attr, (at,)));
}

} // verus!
