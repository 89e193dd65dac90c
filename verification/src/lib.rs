//! Read-only decoder for the binary icon-theme cache that GTK-based desktops
//! keep beside an icon theme.
//!
//! The cache is a single byte buffer holding fixed- and variable-length
//! records tied together by 32-bit big-endian byte offsets.  This crate
//! decodes that buffer without copying it: parsing validates the three
//! top-level structures (header, hash table, directory list), and every
//! lookup walks offsets inside the same buffer, bounds-checking each step.
//!
//! To get started, parse a buffer with [`IconCache::new_from_bytes`] and look
//! an icon up with [`IconCache::icon`].

use vstd::prelude::*;

pub mod raw;

verus! {

/// The string hash the cache format buckets icon names with.
///
/// An empty name hashes to `0`; otherwise each byte `p` updates the running
/// hash `h` to `h * 31 + p`, truncated to 32 bits.  Bucket placement in the
/// file was computed with exactly this function, wraparound included.
pub open spec fn icon_hash(s: Seq<u8>) -> nat
    decreases s.len(),
{
    if s.len() == 0 {
        0
    } else {
        ((icon_hash(s.drop_last()) * 31 + s.last()) % 0x1_0000_0000) as nat
    }
}

/// Law: the hash of a non-empty byte string is the hash of its prefix times
/// 31 plus its last byte, modulo 2^32, and the empty string hashes to zero.
pub proof fn lemma_icon_hash_step(s: Seq<u8>)
    requires
        s.len() > 0,
    ensures
        icon_hash(s) == (icon_hash(s.drop_last()) * 31 + s.last()) % 0x1_0000_0000,
        icon_hash(Seq::<u8>::empty()) == 0,
{
}

/// Hash an icon name the way the cache's producer did.
pub fn icon_str_hash(key: &[u8]) -> (h: u32)
    ensures
        h == icon_hash(key@),
{
    let mut h: u32 = 0;
    let mut i: usize = 0;
    proof {
        assert(key@.take(0) =~= Seq::<u8>::empty());
    }
    while i < key.len()
        invariant
            i <= key@.len(),
            h == icon_hash(key@.take(i as int)),
        decreases key@.len() - i,
    {
        let p = key[i];
        proof {
            assert(key@.take(i + 1).drop_last() =~= key@.take(i as int));
            assert(key@.take(i + 1).last() == key@[i as int]);
        }
        h = (((h as u64) * 31 + (p as u64)) % 0x1_0000_0000) as u32;
        i = i + 1;
    }
    proof {
        assert(key@.take(key@.len() as int) =~= key@);
    }
    h
}

/// Law: a name's bucket index always lies in `[0, n_buckets)` when the
/// table has any buckets at all.  A lookup reads exactly the slot at this
/// index and no other: its contract is phrased over that one slot.
pub proof fn lemma_bucket_in_range(name: Seq<u8>, n_buckets: u32)
    requires
        n_buckets > 0,
    ensures
        0 <= icon_hash(name) % (n_buckets as nat) < n_buckets,
{
}

/// Why a buffer was rejected at parse time.  Only the three top-level
/// structures — header, hash table, directory list — are required to
/// validate; a malformed record deeper in the graph is absorbed as an
/// absent value instead.
#[derive(Clone, Copy, PartialEq, Eq, Structural, Debug)]
pub enum DecodeError {
    /// The buffer ends before a required fixed-size record does.
    Truncated,
    /// A table's declared element count would overrun the buffer.
    CountOverrun,
    /// The header's major version is not the one this crate understands.
    UnsupportedVersion,
    /// The hash table declares no buckets, leaving every lookup undefined.
    ZeroBuckets,
}

/// A buffer parses when the header is present with the supported major
/// version and both the hash table and the directory list it points at fit
/// with all their declared elements, the hash table with at least one
/// bucket.
pub open spec fn spec_parse_ok(s: Seq<u8>) -> bool {
    &&& s.len() >= 12
    &&& raw::u16_be_at(s, 0) == 1
    &&& raw::spec_table_fits(s, raw::u32_be_at(s, 4), 4)
    &&& raw::u32_be_at(s, raw::u32_be_at(s, 4) as int) > 0
    &&& raw::spec_table_fits(s, raw::u32_be_at(s, 8), 4)
}

/// The error reported for a buffer that does not parse: the first failed
/// check, in the order the checks run.
pub open spec fn spec_parse_err(s: Seq<u8>) -> DecodeError
    recommends
        !spec_parse_ok(s),
{
    if s.len() < 12 {
        DecodeError::Truncated
    } else if raw::u16_be_at(s, 0) != 1 {
        DecodeError::UnsupportedVersion
    } else if raw::u32_be_at(s, 4) + 4 > s.len() {
        DecodeError::Truncated
    } else if !raw::spec_table_fits(s, raw::u32_be_at(s, 4), 4) {
        DecodeError::CountOverrun
    } else if raw::u32_be_at(s, raw::u32_be_at(s, 4) as int) == 0 {
        DecodeError::ZeroBuckets
    } else if raw::u32_be_at(s, 8) + 4 > s.len() {
        DecodeError::Truncated
    } else {
        DecodeError::CountOverrun
    }
}

/// Law: truncating a buffer below the header's minimum size always makes
/// parsing fail, with the truncation reported as such.
pub proof fn lemma_truncated_header_rejected(s: Seq<u8>)
    requires
        s.len() < 12,
    ensures
        !spec_parse_ok(s),
        spec_parse_err(s) == DecodeError::Truncated,
{
}

/// The validated hash table of a parsed cache: where it starts and how
/// many buckets it declares.
#[derive(Clone, Copy, PartialEq, Eq, Structural, Debug)]
pub struct HashTable {
    pub offset: u32,
    pub n_buckets: u32,
}

/// List of directories in the icon theme, with paths relative to the root
/// of the theme.
#[derive(Clone, Copy, Debug)]
pub struct DirectoryList<'a> {
    /// The raw bytes representing the cache.
    pub bytes: &'a [u8],
    /// Where the directory table starts in the buffer.
    pub offset: u32,
    /// How many entries the table declares.
    pub n_directories: u32,
}

/// The string offset stored in directory slot `idx`.
pub open spec fn spec_dir_entry(s: Seq<u8>, off: u32, idx: int) -> u32 {
    raw::u32_be_at(s, off + 4 + 4 * idx)
}

/// The path bytes of directory `idx`: absent when `idx` is out of range,
/// its string does not resolve, or the string is not valid text.
pub open spec fn spec_dir(s: Seq<u8>, off: u32, n: u32, idx: u32) -> Option<Seq<u8>> {
    if idx < n {
        raw::spec_path_at(s, spec_dir_entry(s, off, idx as int))
    } else {
        None
    }
}

/// The paths of the first `count` directory slots that resolve, in slot
/// order.
pub open spec fn spec_dirs_up_to(s: Seq<u8>, off: u32, n: u32, count: int) -> Seq<Seq<u8>>
    decreases count,
{
    if count <= 0 {
        Seq::empty()
    } else {
        let prev = spec_dirs_up_to(s, off, n, count - 1);
        match spec_dir(s, off, n, (count - 1) as u32) {
            Some(p) => prev.push(p),
            None => prev,
        }
    }
}

impl<'a> DirectoryList<'a> {
    /// A directory list is well-formed when its table fits in the buffer
    /// and the stored count is the table's own count field.
    pub open spec fn wf(self) -> bool {
        &&& raw::spec_table_fits(self.bytes@, self.offset, 4)
        &&& self.n_directories == raw::u32_be_at(self.bytes@, self.offset as int)
    }

    /// Returns the number of directories in this list.
    pub fn len(&self) -> (r: u32)
        ensures
            r == self.n_directories,
    {
        self.n_directories
    }

    /// Returns `true` if the list is empty.
    pub fn is_empty(&self) -> (r: bool)
        ensures
            r == (self.n_directories == 0),
    {
        self.n_directories == 0
    }

    /// Access a directory by its index in the list.
    ///
    /// Returns `None` if the index is not below the length of the list or
    /// the entry's path string does not resolve as valid text.
    pub fn dir(&self, idx: u32) -> (r: Option<Vec<u8>>)
        requires
            self.wf(),
        ensures
            (match (r, spec_dir(self.bytes@, self.offset, self.n_directories, idx)) {
                (Some(v), Some(p)) => v@ == p,
                (None, None) => true,
                _ => false,
            }),
    {
        if idx >= self.n_directories {
            return None;
        }
        let len = self.bytes.len();
        proof {
            assert((idx + 1) * 4 <= self.n_directories * 4) by (nonlinear_arith)
                requires
                    idx < self.n_directories,
            ;
        }
        let entry = raw::read_u32_be(self.bytes, self.offset as usize + 4 + (idx as usize) * 4);
        raw::Offset::new(entry).path_at(self.bytes)
    }

    /// Returns every directory path in the list that resolves, in slot
    /// order.
    pub fn iter(&self) -> (r: Vec<Vec<u8>>)
        requires
            self.wf(),
        ensures
            r.deep_view() == spec_dirs_up_to(
                self.bytes@,
                self.offset,
                self.n_directories,
                self.n_directories as int,
            ),
    {
        let mut out: Vec<Vec<u8>> = Vec::new();
        let mut idx: u32 = 0;
        proof {
            assert(out.deep_view() =~= spec_dirs_up_to(
                self.bytes@,
                self.offset,
                self.n_directories,
                0,
            ));
        }
        while idx < self.n_directories
            invariant
                self.wf(),
                idx <= self.n_directories,
                out.deep_view() == spec_dirs_up_to(
                    self.bytes@,
                    self.offset,
                    self.n_directories,
                    idx as int,
                ),
            decreases self.n_directories - idx,
        {
            let ghost prev = out.deep_view();
            match self.dir(idx) {
                Some(p) => {
                    out.push(p);
                    proof {
                        assert(out.deep_view() =~~= prev.push(out@.last()@));
                    }
                },
                None => {},
            }
            idx = idx + 1;
        }
        out
    }
}

/// What an image record's optional data offset resolves to: the offsets of
/// the opaque pixel payload and its type and length tags, and the metadata
/// block when one is present.
#[derive(Clone, Copy, Debug)]
pub struct ImageData {
    pub image_pixel_data: raw::Offset,
    pub image_meta_data: Option<raw::MetaData>,
    pub image_pixel_data_type: raw::Offset,
    pub image_pixel_data_length: raw::Offset,
}

/// One image of an icon: the directory it lives in, its flag bits, and its
/// optional embedded image data.
#[derive(Clone, Debug)]
pub struct Image {
    pub directory: Vec<u8>,
    pub icon_flags: raw::Flags,
    pub image_data: Option<ImageData>,
}

impl View for Image {
    type V = (Seq<u8>, raw::Flags, Option<ImageData>);

    open spec fn view(&self) -> (Seq<u8>, raw::Flags, Option<ImageData>) {
        (self.directory@, self.icon_flags, self.image_data)
    }
}

/// The raw image record in slot `idx` of the image list at `list_off`.
pub open spec fn spec_image_rec(s: Seq<u8>, list_off: u32, idx: int) -> raw::Image {
    raw::spec_image_rec_at(s, list_off + 4 + 8 * idx)
}

/// The path of directory `dindex` in the parsed buffer's own directory
/// list: absent when the index is not below the declared count or the path
/// string does not resolve as valid text.
pub open spec fn spec_dir_of_index(s: Seq<u8>, dindex: u16) -> Option<Seq<u8>>
    recommends
        spec_parse_ok(s),
{
    let doff = raw::u32_be_at(s, 8);
    spec_dir(s, doff, raw::u32_be_at(s, doff as int), dindex as u32)
}

/// The image-data view reached from an image record's data offset.  Either
/// null sentinel means no data (the producer writes `0` here, but both
/// reserved values are treated as absent); a record that does not fit is
/// omitted, and so is a metadata block behind a null or unresolvable
/// offset.
pub open spec fn spec_image_data_view(s: Seq<u8>, off: u32) -> Option<ImageData> {
    if raw::spec_is_null(off) {
        None
    } else {
        match raw::spec_image_data_at(s, off) {
            None => None,
            Some(rec) => Some(
                ImageData {
                    image_pixel_data: rec.image_pixel_data,
                    image_meta_data: (if raw::spec_is_null(rec.image_meta_data.offset) {
                        None
                    } else {
                        raw::spec_meta_data_at(s, rec.image_meta_data.offset)
                    }),
                    image_pixel_data_type: rec.image_pixel_data_type,
                    image_pixel_data_length: rec.image_pixel_data_length,
                },
            ),
        }
    }
}

/// The composed view of image `idx` of the list at `list_off`: directory
/// path, flags and optional image data; absent when the directory index is
/// out of range or its path does not resolve as valid text.
pub open spec fn spec_image_view(s: Seq<u8>, list_off: u32, idx: int) -> Option<
    (Seq<u8>, raw::Flags, Option<ImageData>),
> {
    let rec = spec_image_rec(s, list_off, idx);
    match spec_dir_of_index(s, rec.directory_index) {
        Some(path) => Some((path, rec.icon_flags, spec_image_data_view(s, rec.image_data.offset))),
        None => None,
    }
}

/// The views of the first `count` images that compose, in slot order.
pub open spec fn spec_images_up_to(s: Seq<u8>, list_off: u32, count: int) -> Seq<
    (Seq<u8>, raw::Flags, Option<ImageData>),
>
    decreases count,
{
    if count <= 0 {
        Seq::empty()
    } else {
        let prev = spec_images_up_to(s, list_off, count - 1);
        match spec_image_view(s, list_off, count - 1) {
            Some(v) => prev.push(v),
            None => prev,
        }
    }
}

/// The list of images an icon offers, one per directory it appears in.
#[derive(Clone, Copy, Debug)]
pub struct ImageList<'a> {
    /// The raw bytes representing the cache.
    pub bytes: &'a [u8],
    /// Where the image table starts in the buffer.
    pub offset: u32,
    /// How many images the table declares.
    pub n_images: u32,
}

impl<'a> ImageList<'a> {
    /// An image list is well-formed when its buffer parses, its table fits
    /// in the buffer, and the stored count is the table's own count field.
    pub open spec fn wf(self) -> bool {
        &&& spec_parse_ok(self.bytes@)
        &&& raw::spec_table_fits(self.bytes@, self.offset, 8)
        &&& self.n_images == raw::u32_be_at(self.bytes@, self.offset as int)
    }

    fn from_icon(icon: &raw::Icon, bytes: &'a [u8]) -> (r: Option<ImageList<'a>>)
        requires
            spec_parse_ok(bytes@),
        ensures
            r is Some <==> raw::spec_table_fits(bytes@, icon.image_list.offset, 8),
            r matches Some(l) ==> l.wf() && l.offset == icon.image_list.offset && l.bytes@
                == bytes@,
    {
        if !raw::table_fits(bytes, icon.image_list.offset, 8) {
            return None;
        }
        let n_images = raw::read_u32_be(bytes, icon.image_list.offset as usize);
        Some(ImageList { bytes, offset: icon.image_list.offset, n_images })
    }

    /// Returns the number of images in this list.
    pub fn len(&self) -> (r: u32)
        ensures
            r == self.n_images,
    {
        self.n_images
    }

    /// Returns `true` if the list is empty.
    pub fn is_empty(&self) -> (r: bool)
        ensures
            r == (self.n_images == 0),
    {
        self.n_images == 0
    }

    /// Access an image by its index in the list.
    ///
    /// Returns `None` if the index is not below the length of the list, or
    /// if the image's directory does not resolve as valid text.
    pub fn image(&self, idx: u32) -> (r: Option<Image>)
        requires
            self.wf(),
        ensures
            idx < self.n_images ==> (match (
                r,
                spec_image_view(self.bytes@, self.offset, idx as int),
            ) {
                (Some(img), Some(v)) => img@ == v,
                (None, None) => true,
                _ => false,
            }),
            idx >= self.n_images ==> r is None,
    {
        if idx >= self.n_images {
            return None;
        }
        let len = self.bytes.len();
        proof {
            assert((idx + 1) * 8 <= self.n_images * 8) by (nonlinear_arith)
                requires
                    idx < self.n_images,
            ;
        }
        let rec = raw::read_image_rec(self.bytes, self.offset as usize + 4 + (idx as usize) * 8);
        // The raw records carry no back-pointer, so the directory list is
        // re-derived from the header in front of the buffer.
        let header = match raw::Header::read_from(self.bytes) {
            None => {
                return None;
            },
            Some(h) => h,
        };
        let doff = header.directory_list.offset;
        if !raw::table_fits(self.bytes, doff, 4) {
            return None;
        }
        let n_directories = raw::read_u32_be(self.bytes, doff as usize);
        if rec.directory_index as u32 >= n_directories {
            return None;
        }
        proof {
            assert((rec.directory_index + 1) * 4 <= n_directories * 4) by (nonlinear_arith)
                requires
                    rec.directory_index < n_directories,
            ;
        }
        let entry = raw::read_u32_be(
            self.bytes,
            doff as usize + 4 + (rec.directory_index as usize) * 4,
        );
        let directory = match raw::Offset::new(entry).path_at(self.bytes) {
            None => {
                return None;
            },
            Some(d) => d,
        };
        let image_data = if !rec.image_data.is_null() {
            match rec.image_data.image_data_at(self.bytes) {
                None => None,
                Some(idrec) => Some(
                    ImageData {
                        image_pixel_data: idrec.image_pixel_data,
                        image_meta_data: (if idrec.image_meta_data.is_null() {
                            None
                        } else {
                            idrec.image_meta_data.meta_data_at(self.bytes)
                        }),
                        image_pixel_data_type: idrec.image_pixel_data_type,
                        image_pixel_data_length: idrec.image_pixel_data_length,
                    },
                ),
            }
        } else {
            None
        };
        Some(Image { directory, icon_flags: rec.icon_flags, image_data })
    }

    /// Returns every image of the list whose view composes, in slot order.
    pub fn iter(&self) -> (r: Vec<Image>)
        requires
            self.wf(),
        ensures
            r@.map_values(|img: Image| img@) == spec_images_up_to(
                self.bytes@,
                self.offset,
                self.n_images as int,
            ),
    {
        let mut out: Vec<Image> = Vec::new();
        let mut idx: u32 = 0;
        proof {
            assert(out@.map_values(|img: Image| img@) =~= spec_images_up_to(
                self.bytes@,
                self.offset,
                0,
            ));
        }
        while idx < self.n_images
            invariant
                self.wf(),
                idx <= self.n_images,
                out@.map_values(|img: Image| img@) == spec_images_up_to(
                    self.bytes@,
                    self.offset,
                    idx as int,
                ),
            decreases self.n_images - idx,
        {
            let ghost prev = out@.map_values(|img: Image| img@);
            match self.image(idx) {
                Some(img) => {
                    out.push(img);
                    proof {
                        assert(out@.map_values(|img: Image| img@) =~= prev.push(out@.last()@));
                    }
                },
                None => {},
            }
            idx = idx + 1;
        }
        out
    }
}

/// Thin wrapper around an in-memory icon cache.
///
/// This is the crate's main entrypoint.  Parse a buffer once with
/// [`new_from_bytes`](IconCache::new_from_bytes), then look icons up with
/// [`icon`](IconCache::icon).
#[derive(Clone, Copy, Debug)]
pub struct IconCache<'a> {
    /// The raw bytes representing the cache.
    pub bytes: &'a [u8],
    /// Cache header: versions and the two top-level table offsets.
    pub header: raw::Header,
    /// The validated hash table mapping icon names to icon records.
    pub hash: HashTable,
    /// List of directories within the theme, relative to the theme's root.
    pub directory_list: DirectoryList<'a>,
}

impl<'a> IconCache<'a> {
    /// A cache view is well-formed when its buffer parses and every cached
    /// field equals what the buffer holds.
    pub open spec fn wf(self) -> bool {
        let s = self.bytes@;
        &&& spec_parse_ok(s)
        &&& self.header == raw::spec_header(s)
        &&& self.hash.offset == self.header.hash.offset
        &&& self.hash.n_buckets == raw::u32_be_at(s, self.hash.offset as int)
        &&& self.directory_list.bytes@ == s
        &&& self.directory_list.offset == self.header.directory_list.offset
        &&& self.directory_list.wf()
    }

    /// Parse a buffer: resolve the header, then the hash table and the
    /// directory list it points at.  Fails, with the first failed check,
    /// when any of the three does not validate or the major version is
    /// unsupported; a shorter buffer than the 12-byte header is always
    /// rejected.
    pub fn new_from_bytes(bytes: &'a [u8]) -> (r: Result<IconCache<'a>, DecodeError>)
        ensures
            r is Ok <==> spec_parse_ok(bytes@),
            r matches Ok(c) ==> c.wf() && c.bytes@ == bytes@,
            r matches Err(e) ==> e == spec_parse_err(bytes@),
    {
        let header = match raw::Header::read_from(bytes) {
            None => {
                return Err(DecodeError::Truncated);
            },
            Some(h) => h,
        };
        if header.major_version != 1 {
            return Err(DecodeError::UnsupportedVersion);
        }
        let hash_off = header.hash.offset;
        if (hash_off as u64) + 4 > bytes.len() as u64 {
            return Err(DecodeError::Truncated);
        }
        if !raw::table_fits(bytes, hash_off, 4) {
            return Err(DecodeError::CountOverrun);
        }
        let n_buckets = raw::read_u32_be(bytes, hash_off as usize);
        if n_buckets == 0 {
            return Err(DecodeError::ZeroBuckets);
        }
        let dir_off = header.directory_list.offset;
        if (dir_off as u64) + 4 > bytes.len() as u64 {
            return Err(DecodeError::Truncated);
        }
        if !raw::table_fits(bytes, dir_off, 4) {
            return Err(DecodeError::CountOverrun);
        }
        let n_directories = raw::read_u32_be(bytes, dir_off as usize);
        Ok(
            IconCache {
                bytes,
                header,
                hash: HashTable { offset: hash_off, n_buckets },
                directory_list: DirectoryList { bytes, offset: dir_off, n_directories },
            },
        )
    }
}

/// An icon, identified by its name, and the list of images the icon theme
/// provides for it.  A malformed image list is absorbed here as an absent
/// one: the icon itself is still found and named.
#[derive(Clone, Debug)]
pub struct Icon<'a> {
    pub name: Vec<u8>,
    pub image_list: Option<ImageList<'a>>,
}

impl<'a> View for Icon<'a> {
    type V = (Seq<u8>, Option<u32>);

    open spec fn view(&self) -> (Seq<u8>, Option<u32>) {
        (
            self.name@,
            match self.image_list {
                Some(il) => Some(il.offset),
                None => None,
            },
        )
    }
}

/// Byte-for-byte equality of two slices.
fn bytes_eq(a: &[u8], b: &[u8]) -> (r: bool)
    ensures
        r == (a@ == b@),
{
    if a.len() != b.len() {
        return false;
    }
    let mut i: usize = 0;
    while i < a.len()
        invariant
            a@.len() == b@.len(),
            i <= a@.len(),
            forall|k: int| 0 <= k < i ==> a@[k] == b@[k],
        decreases a@.len() - i,
    {
        if a[i] != b[i] {
            return false;
        }
        i = i + 1;
    }
    proof {
        assert(a@ =~= b@);
    }
    true
}

/// The decodable entries of one bucket chain, in chain order: each entry's
/// resolved name beside its image-list offset, the offset absent when its
/// table does not fit.  An entry whose name does not resolve is skipped;
/// the chain ends at a null link, a link that does not resolve, or
/// exhausted fuel.
pub open spec fn spec_chain_views(s: Seq<u8>, off: u32, fuel: nat) -> Seq<(Seq<u8>, Option<u32>)>
    decreases fuel,
{
    if fuel == 0 {
        Seq::empty()
    } else {
        match raw::spec_icon_at(s, off) {
            None => Seq::empty(),
            Some(rec) => {
                let rest = spec_chain_views(s, rec.chain.offset, (fuel - 1) as nat);
                match raw::spec_cstr_at(s, rec.name.offset) {
                    Some(nm) => {
                        if raw::spec_table_fits(s, rec.image_list.offset, 8) {
                            seq![(nm, Some(rec.image_list.offset))] + rest
                        } else {
                            seq![(nm, Option::<u32>::None)] + rest
                        }
                    },
                    None => rest,
                }
            },
        }
    }
}

/// The decodable entries of the first `b` buckets, bucket by bucket, each
/// bucket's chain in chain order.
pub open spec fn spec_all_views(s: Seq<u8>, hash_off: u32, b: int, fuel: nat) -> Seq<
    (Seq<u8>, Option<u32>),
>
    decreases b,
{
    if b <= 0 {
        Seq::empty()
    } else {
        spec_all_views(s, hash_off, b - 1, fuel) + spec_chain_views(
            s,
            raw::u32_be_at(s, hash_off + 4 + 4 * (b - 1)),
            fuel,
        )
    }
}

/// Collect every icon of one bucket chain whose name resolves, a
/// malformed image list absorbed as an absent one.  The hop budget is the
/// buffer length: an acyclic chain can never be longer, since each hop
/// needs a distinct record position, so only a cyclic chain is cut short
/// by it.
fn chain_icons<'a>(bytes: &'a [u8], head: u32) -> (r: Vec<Icon<'a>>)
    requires
        spec_parse_ok(bytes@),
    ensures
        r@.map_values(|ic: Icon<'a>| ic@) == spec_chain_views(bytes@, head, bytes@.len()),
        forall|i: int|
            0 <= i < r@.len() ==> ((#[trigger] r@[i]).image_list matches Some(il) ==> il.wf()
                && il.bytes@ == bytes@),
{
    let mut out: Vec<Icon<'a>> = Vec::new();
    let mut cur: u32 = head;
    let mut fuel: usize = bytes.len();
    proof {
        assert(out@.map_values(|ic: Icon<'a>| ic@) =~= Seq::<(Seq<u8>, Option<u32>)>::empty());
    }
    while fuel > 0
        invariant
            spec_parse_ok(bytes@),
            fuel <= bytes@.len(),
            spec_chain_views(bytes@, head, bytes@.len()) == out@.map_values(|ic: Icon<'a>| ic@)
                + spec_chain_views(bytes@, cur, fuel as nat),
            forall|i: int|
                0 <= i < out@.len() ==> ((#[trigger] out@[i]).image_list matches Some(il)
                    ==> il.wf() && il.bytes@ == bytes@),
        decreases fuel,
    {
        let rec = match raw::Offset::new(cur).icon_at(bytes) {
            None => {
                proof {
                    assert(spec_chain_views(bytes@, cur, fuel as nat) =~= Seq::<
                        (Seq<u8>, Option<u32>),
                    >::empty());
                    assert(spec_chain_views(bytes@, head, bytes@.len()) =~= out@.map_values(
                        |ic: Icon<'a>| ic@,
                    ));
                }
                return out;
            },
            Some(rec) => rec,
        };
        let ghost prev = out@.map_values(|ic: Icon<'a>| ic@);
        match rec.name.str_at(bytes) {
            Some(nm) => {
                out.push(Icon { name: nm, image_list: ImageList::from_icon(&rec, bytes) });
                proof {
                    assert(out@.map_values(|ic: Icon<'a>| ic@) =~= prev.push(out@.last()@));
                }
            },
            None => {},
        }
        cur = rec.chain.offset;
        fuel = fuel - 1;
    }
    proof {
        assert(spec_chain_views(bytes@, cur, 0nat) =~= Seq::<(Seq<u8>, Option<u32>)>::empty());
        assert(spec_chain_views(bytes@, head, bytes@.len()) =~= out@.map_values(
            |ic: Icon<'a>| ic@,
        ));
    }
    out
}

impl<'a> IconCache<'a> {
    /// The offset stored in bucket slot `b` of the hash table.
    pub open spec fn spec_slot(self, b: int) -> u32 {
        raw::u32_be_at(self.bytes@, self.hash.offset + 4 + 4 * b)
    }

    /// The bucket a name belongs to: its hash modulo the bucket count.
    pub open spec fn spec_bucket(self, name: Seq<u8>) -> int {
        (icon_hash(name) % (self.hash.n_buckets as nat)) as int
    }

    /// The chain record a lookup of `name` stops at: the walk starts at
    /// the one bucket the name hashes to and takes the first record whose
    /// resolved name matches, hop budget the buffer length.
    pub open spec fn spec_lookup(self, name: Seq<u8>) -> Option<raw::Icon> {
        raw::spec_chain_lookup(
            self.bytes@,
            self.spec_slot(self.spec_bucket(name)),
            name,
            self.bytes@.len(),
        )
    }

    /// Look up an icon by name in the cache.
    ///
    /// Returns `None` exactly when no reachable icon of the bucket the
    /// name hashes to bears that name.  A matching icon whose image list
    /// does not validate is still returned, with the list absent.
    pub fn icon(&self, icon_name: &[u8]) -> (r: Option<Icon<'a>>)
        requires
            self.wf(),
        ensures
            r is Some <==> self.spec_lookup(icon_name@) is Some,
            r matches Some(ic) ==> {
                &&& ic.name@ == icon_name@
                &&& self.spec_lookup(icon_name@) matches Some(rec) && (match ic.image_list {
                    Some(il) => raw::spec_table_fits(self.bytes@, rec.image_list.offset, 8)
                        && il.wf() && il.bytes@ == self.bytes@ && il.offset
                        == rec.image_list.offset,
                    None => !raw::spec_table_fits(self.bytes@, rec.image_list.offset, 8),
                })
            },
    {
        let hash = icon_str_hash(icon_name);
        let bucket = hash % self.hash.n_buckets;
        proof {
            assert((bucket + 1) * 4 <= self.hash.n_buckets * 4) by (nonlinear_arith)
                requires
                    bucket < self.hash.n_buckets,
            ;
        }
        let len = self.bytes.len();
        let slot = raw::read_u32_be(self.bytes, self.hash.offset as usize + 4 + (bucket as usize) * 4);
        let ghost q = icon_name@;
        let mut cur: u32 = slot;
        let mut fuel: usize = len;
        while fuel > 0
            invariant
                self.wf(),
                fuel <= self.bytes@.len(),
                q == icon_name@,
                slot == self.spec_slot(self.spec_bucket(q)),
                raw::spec_chain_lookup(self.bytes@, slot, q, self.bytes@.len())
                    == raw::spec_chain_lookup(self.bytes@, cur, q, fuel as nat),
            decreases fuel,
        {
            let rec = match raw::Offset::new(cur).icon_at(self.bytes) {
                None => {
                    return None;
                },
                Some(rec) => rec,
            };
            match rec.name.str_at(self.bytes) {
                Some(nm) => {
                    if bytes_eq(nm.as_slice(), icon_name) {
                        return Some(
                            Icon { name: nm, image_list: ImageList::from_icon(&rec, self.bytes) },
                        );
                    }
                },
                None => {},
            }
            cur = rec.chain.offset;
            fuel = fuel - 1;
        }
        None
    }

    /// The head icon record of bucket `bucket`'s chain, for diagnostics
    /// and tests: `None` when the slot holds a null sentinel or its record
    /// does not resolve.
    pub fn icon_chain(&self, bucket: u32) -> (r: Option<raw::Icon>)
        requires
            self.wf(),
            bucket < self.hash.n_buckets,
        ensures
            r == raw::spec_icon_at(self.bytes@, self.spec_slot(bucket as int)),
    {
        proof {
            assert((bucket + 1) * 4 <= self.hash.n_buckets * 4) by (nonlinear_arith)
                requires
                    bucket < self.hash.n_buckets,
            ;
        }
        let len = self.bytes.len();
        let slot = raw::read_u32_be(self.bytes, self.hash.offset as usize + 4 + (bucket as usize) * 4);
        raw::Offset::new(slot).icon_at(self.bytes)
    }

    /// Returns every icon in the cache whose name resolves, walking the
    /// buckets in order and each bucket's chain in chain order, a
    /// malformed image list absorbed as an absent one.  The walk
    /// re-derives everything from the immutable buffer, so it can be
    /// repeated at will.
    pub fn iter(&self) -> (r: Vec<Icon<'a>>)
        requires
            self.wf(),
        ensures
            r@.map_values(|ic: Icon<'a>| ic@) == spec_all_views(
                self.bytes@,
                self.hash.offset,
                self.hash.n_buckets as int,
                self.bytes@.len(),
            ),
            forall|i: int|
                0 <= i < r@.len() ==> ((#[trigger] r@[i]).image_list matches Some(il) ==> il.wf()
                    && il.bytes@ == self.bytes@),
    {
        let mut out: Vec<Icon<'a>> = Vec::new();
        let mut b: u32 = 0;
        proof {
            assert(out@.map_values(|ic: Icon<'a>| ic@) =~= Seq::<(Seq<u8>, Option<u32>)>::empty());
        }
        while b < self.hash.n_buckets
            invariant
                self.wf(),
                b <= self.hash.n_buckets,
                out@.map_values(|ic: Icon<'a>| ic@) == spec_all_views(
                    self.bytes@,
                    self.hash.offset,
                    b as int,
                    self.bytes@.len(),
                ),
                forall|i: int|
                    0 <= i < out@.len() ==> ((#[trigger] out@[i]).image_list matches Some(il)
                        ==> il.wf() && il.bytes@ == self.bytes@),
            decreases self.hash.n_buckets - b,
        {
            proof {
                assert((b + 1) * 4 <= self.hash.n_buckets * 4) by (nonlinear_arith)
                    requires
                        b < self.hash.n_buckets,
                ;
            }
            let len = self.bytes.len();
            let slot = raw::read_u32_be(self.bytes, self.hash.offset as usize + 4 + (b as usize) * 4);
            let ghost prev = out@.map_values(|ic: Icon<'a>| ic@);
            let mut chunk = chain_icons(self.bytes, slot);
            let ghost chunk_views = chunk@.map_values(|ic: Icon<'a>| ic@);
            out.append(&mut chunk);
            proof {
                assert(out@.map_values(|ic: Icon<'a>| ic@) =~= prev + chunk_views);
            }
            b = b + 1;
        }
        out
    }
}

/// Law: for a well-formed cache, looking a name up stops at a chain record
/// exactly when the chain of the one bucket the name hashes to holds a
/// record bearing that name, and the record stopped at bears it.
pub proof fn lemma_lookup_finds_name<'a>(c: IconCache<'a>, name: Seq<u8>)
    requires
        c.wf(),
    ensures
        c.spec_lookup(name) is Some <==> raw::chain_has_name(
            c.bytes@,
            c.spec_slot(c.spec_bucket(name)),
            name,
            c.bytes@.len(),
        ),
        c.spec_lookup(name) matches Some(rec) ==> raw::spec_cstr_at(c.bytes@, rec.name.offset)
            == Some(name),
{
    raw::lemma_chain_lookup_finds_name(
        c.bytes@,
        c.spec_slot(c.spec_bucket(name)),
        name,
        c.bytes@.len(),
    );
}

/// Law: a lookup inspects no bucket but the one the name hashes to.
/// Altering any other bucket's slot leaves the record the lookup stops at
/// unchanged.  One proviso is real and stated, not assumed away: records
/// and name strings live in the same buffer as the hash table, so a walk
/// whose own reads alias the altered slot's four bytes is excluded by
/// `requires` — for such overlapping layouts the claim does not hold.
pub proof fn lemma_lookup_ignores_other_buckets<'a>(
    c1: IconCache<'a>,
    c2: IconCache<'a>,
    name: Seq<u8>,
    j: int,
)
    requires
        c1.wf(),
        c1.hash == c2.hash,
        0 <= j < c1.hash.n_buckets,
        j != c1.spec_bucket(name),
        raw::agree_outside(
            c1.bytes@,
            c2.bytes@,
            c1.hash.offset + 4 + 4 * j,
            c1.hash.offset + 8 + 4 * j,
        ),
        raw::spec_lookup_avoids(
            c1.bytes@,
            c1.spec_slot(c1.spec_bucket(name)),
            name,
            c1.bytes@.len(),
            c1.hash.offset + 4 + 4 * j,
            c1.hash.offset + 8 + 4 * j,
        ),
    ensures
        c2.spec_lookup(name) == c1.spec_lookup(name),
{
    let s1 = c1.bytes@;
    let s2 = c2.bytes@;
    let lo = c1.hash.offset + 4 + 4 * j;
    let hi = c1.hash.offset + 8 + 4 * j;
    let b = c1.spec_bucket(name);
    assert(0 <= b < c1.hash.n_buckets) by {
        lemma_bucket_in_range(name, c1.hash.n_buckets);
    }
    assert((b + 1) * 4 <= c1.hash.n_buckets * 4 && (j + 1) * 4 <= c1.hash.n_buckets * 4)
        by (nonlinear_arith)
        requires
            0 <= b < c1.hash.n_buckets,
            0 <= j < c1.hash.n_buckets,
    ;
    assert(4 * b + 4 <= 4 * j || 4 * j + 4 <= 4 * b) by (nonlinear_arith)
        requires
            b != j,
    ;
    assert(c2.spec_slot(b) == c1.spec_slot(b)) by {
        raw::lemma_u32_be_agrees(s1, s2, lo, hi, c1.hash.offset + 4 + 4 * b);
    }
    raw::lemma_chain_lookup_frame(s1, s2, c1.spec_slot(b), name, s1.len(), lo, hi);
}

} // verus!
