//! The record shapes the cache file defines, one decoder each.
//!
//! Every multi-byte integer in the buffer is big-endian.  Records refer to
//! one another by 32-bit byte offsets; two values are reserved as "absent"
//! sentinels, `0` and `0xFFFF_FFFF`.  A decoder here never reads a byte
//! before checking that it lies inside the buffer, and never panics: a
//! record that does not fit simply fails to resolve.

use vstd::prelude::*;
use vstd::slice::slice_subrange;
use vstd::slice::slice_to_vec;

verus! {

/// Both reserved sentinel values mean "no record here".  The format uses
/// `0xFFFF_FFFF` for chain links and `0` for optional data pointers, but a
/// reader must treat either value as absent wherever a link may be null.
pub open spec fn spec_is_null(off: u32) -> bool {
    off == 0 || off == 0xFFFF_FFFFu32
}

/// A 32-bit byte position inside the cache buffer, standing in for a
/// pointer.  Resolving it against a buffer is an explicit, fallible step.
#[derive(Clone, Copy, PartialEq, Eq, Structural, Debug)]
pub struct Offset {
    pub offset: u32,
}

impl Offset {
    pub fn new(offset: u32) -> (r: Offset)
        ensures
            r.offset == offset,
    {
        Offset { offset }
    }

    pub open spec fn spec_is_null(self) -> bool {
        spec_is_null(self.offset)
    }

    /// True when the offset is one of the two "absent" sentinels.
    pub fn is_null(&self) -> (r: bool)
        ensures
            r == self.spec_is_null(),
    {
        self.offset == 0 || self.offset == 0xFFFF_FFFF
    }
}

/// The 16-bit big-endian integer stored at byte position `i`.
pub open spec fn u16_be_at(s: Seq<u8>, i: int) -> u16
    recommends
        0 <= i,
        i + 2 <= s.len(),
{
    (s[i] * 0x100 + s[i + 1]) as u16
}

/// The 32-bit big-endian integer stored at byte position `i`.
pub open spec fn u32_be_at(s: Seq<u8>, i: int) -> u32
    recommends
        0 <= i,
        i + 4 <= s.len(),
{
    (s[i] * 0x100_0000 + s[i + 1] * 0x1_0000 + s[i + 2] * 0x100 + s[i + 3]) as u32
}

pub fn read_u16_be(bytes: &[u8], off: usize) -> (r: u16)
    requires
        off + 2 <= bytes@.len(),
    ensures
        r == u16_be_at(bytes@, off as int),
{
    let b0 = bytes[off] as u16;
    let b1 = bytes[off + 1] as u16;
    b0 * 0x100 + b1
}

pub fn read_u32_be(bytes: &[u8], off: usize) -> (r: u32)
    requires
        off + 4 <= bytes@.len(),
    ensures
        r == u32_be_at(bytes@, off as int),
{
    let b0 = bytes[off] as u32;
    let b1 = bytes[off + 1] as u32;
    let b2 = bytes[off + 2] as u32;
    let b3 = bytes[off + 3] as u32;
    b0 * 0x100_0000 + b1 * 0x1_0000 + b2 * 0x100 + b3
}

/// The bytes of the nul-terminated string starting at position `i`, without
/// the terminator; absent when `i` is out of range or no nul byte follows it.
pub open spec fn spec_cstr_from(s: Seq<u8>, i: int) -> Option<Seq<u8>>
    decreases s.len() - i,
{
    if i < 0 || i >= s.len() {
        None
    } else if s[i] == 0 {
        Some(Seq::empty())
    } else {
        match spec_cstr_from(s, i + 1) {
            Some(rest) => Some(seq![s[i]] + rest),
            None => None,
        }
    }
}

pub open spec fn spec_cstr_at(s: Seq<u8>, off: u32) -> Option<Seq<u8>> {
    spec_cstr_from(s, off as int)
}

proof fn lemma_cstr_found(s: Seq<u8>, i: int, p: int)
    requires
        0 <= i <= p < s.len(),
        s[p] == 0,
        forall|k: int| i <= k < p ==> s[k] != 0,
    ensures
        spec_cstr_from(s, i) == Some(s.subrange(i, p)),
    decreases p - i,
{
    if i == p {
        assert(s.subrange(i, p) =~= Seq::<u8>::empty());
    } else {
        lemma_cstr_found(s, i + 1, p);
        assert(seq![s[i]] + s.subrange(i + 1, p) =~= s.subrange(i, p));
    }
}

proof fn lemma_cstr_missing(s: Seq<u8>, i: int)
    requires
        0 <= i,
        forall|k: int| i <= k < s.len() ==> s[k] != 0,
    ensures
        spec_cstr_from(s, i) is None,
    decreases s.len() - i,
{
    if i < s.len() {
        lemma_cstr_missing(s, i + 1);
    }
}

impl Offset {
    /// Resolve this offset as a nul-terminated string, copying its bytes
    /// out.  Fails when the offset is past the end of the buffer or no
    /// terminator exists before the buffer end.
    pub fn str_at(&self, bytes: &[u8]) -> (r: Option<Vec<u8>>)
        ensures
            (match (r, spec_cstr_at(bytes@, self.offset)) {
                (Some(v), Some(n)) => v@ == n,
                (None, None) => true,
                _ => false,
            }),
    {
        let start = self.offset as usize;
        if start >= bytes.len() {
            return None;
        }
        let mut j = start;
        while j < bytes.len()
            invariant
                start == self.offset as usize,
                start <= j <= bytes@.len(),
                forall|k: int| start <= k < j ==> bytes@[k] != 0,
            decreases bytes@.len() - j,
        {
            if bytes[j] == 0 {
                proof {
                    lemma_cstr_found(bytes@, start as int, j as int);
                }
                return Some(slice_to_vec(slice_subrange(bytes, start, j)));
            }
            j = j + 1;
        }
        proof {
            if start <= bytes@.len() {
                lemma_cstr_missing(bytes@, start as int);
            }
        }
        None
    }

    /// Resolve this offset as a filesystem path, stored in the buffer as a
    /// nul-terminated string of valid UTF-8.  Invalid text is a decode
    /// failure, never a panic: the bytes are returned only when they pass
    /// the well-formedness check.
    pub fn path_at(&self, bytes: &[u8]) -> (r: Option<Vec<u8>>)
        ensures
            (match (r, spec_path_at(bytes@, self.offset)) {
                (Some(v), Some(n)) => v@ == n,
                (None, None) => true,
                _ => false,
            }),
    {
        match self.str_at(bytes) {
            Some(p) => {
                if is_utf8(p.as_slice()) {
                    Some(p)
                } else {
                    None
                }
            },
            None => None,
        }
    }
}

/// A continuation byte of a multi-byte UTF-8 sequence.
pub open spec fn spec_utf8_cont(b: u8) -> bool {
    0x80 <= b <= 0xBF
}

/// The byte string is well-formed UTF-8, by the byte-range table that
/// defines the encoding: one-byte sequences below `0x80`, leading bytes
/// `0xC2..=0xF4` with the continuation ranges that exclude overlong forms,
/// surrogates and values past `U+10FFFF`.
pub open spec fn spec_utf8(s: Seq<u8>) -> bool
    decreases s.len(),
{
    if s.len() == 0 {
        true
    } else {
        let b0 = s[0];
        if b0 < 0x80 {
            spec_utf8(s.skip(1))
        } else if 0xC2 <= b0 <= 0xDF {
            s.len() >= 2 && spec_utf8_cont(s[1]) && spec_utf8(s.skip(2))
        } else if b0 == 0xE0 {
            s.len() >= 3 && 0xA0 <= s[1] <= 0xBF && spec_utf8_cont(s[2]) && spec_utf8(s.skip(3))
        } else if 0xE1 <= b0 <= 0xEC || b0 == 0xEE || b0 == 0xEF {
            s.len() >= 3 && spec_utf8_cont(s[1]) && spec_utf8_cont(s[2]) && spec_utf8(s.skip(3))
        } else if b0 == 0xED {
            s.len() >= 3 && 0x80 <= s[1] <= 0x9F && spec_utf8_cont(s[2]) && spec_utf8(s.skip(3))
        } else if b0 == 0xF0 {
            s.len() >= 4 && 0x90 <= s[1] <= 0xBF && spec_utf8_cont(s[2]) && spec_utf8_cont(s[3])
                && spec_utf8(s.skip(4))
        } else if 0xF1 <= b0 <= 0xF3 {
            s.len() >= 4 && spec_utf8_cont(s[1]) && spec_utf8_cont(s[2]) && spec_utf8_cont(s[3])
                && spec_utf8(s.skip(4))
        } else if b0 == 0xF4 {
            s.len() >= 4 && 0x80 <= s[1] <= 0x8F && spec_utf8_cont(s[2]) && spec_utf8_cont(s[3])
                && spec_utf8(s.skip(4))
        } else {
            false
        }
    }
}

/// Check that a byte slice is well-formed UTF-8.
pub fn is_utf8(v: &[u8]) -> (r: bool)
    ensures
        r == spec_utf8(v@),
{
    let n = v.len();
    let mut i: usize = 0;
    proof {
        assert(v@.skip(0) =~= v@);
    }
    while i < n
        invariant
            i <= n,
            n == v@.len(),
            spec_utf8(v@) == spec_utf8(v@.skip(i as int)),
        decreases n - i,
    {
        let b0 = v[i];
        let width: usize;
        if b0 < 0x80 {
            width = 1;
        } else if 0xC2 <= b0 && b0 <= 0xDF {
            if n - i < 2 || !(0x80 <= v[i + 1] && v[i + 1] <= 0xBF) {
                return false;
            }
            width = 2;
        } else if b0 == 0xE0 {
            if n - i < 3 || !(0xA0 <= v[i + 1] && v[i + 1] <= 0xBF) || !(0x80 <= v[i + 2] && v[i
                + 2] <= 0xBF) {
                return false;
            }
            width = 3;
        } else if (0xE1 <= b0 && b0 <= 0xEC) || b0 == 0xEE || b0 == 0xEF {
            if n - i < 3 || !(0x80 <= v[i + 1] && v[i + 1] <= 0xBF) || !(0x80 <= v[i + 2] && v[i
                + 2] <= 0xBF) {
                return false;
            }
            width = 3;
        } else if b0 == 0xED {
            if n - i < 3 || !(0x80 <= v[i + 1] && v[i + 1] <= 0x9F) || !(0x80 <= v[i + 2] && v[i
                + 2] <= 0xBF) {
                return false;
            }
            width = 3;
        } else if b0 == 0xF0 {
            if n - i < 4 || !(0x90 <= v[i + 1] && v[i + 1] <= 0xBF) || !(0x80 <= v[i + 2] && v[i
                + 2] <= 0xBF) || !(0x80 <= v[i + 3] && v[i + 3] <= 0xBF) {
                return false;
            }
            width = 4;
        } else if 0xF1 <= b0 && b0 <= 0xF3 {
            if n - i < 4 || !(0x80 <= v[i + 1] && v[i + 1] <= 0xBF) || !(0x80 <= v[i + 2] && v[i
                + 2] <= 0xBF) || !(0x80 <= v[i + 3] && v[i + 3] <= 0xBF) {
                return false;
            }
            width = 4;
        } else if b0 == 0xF4 {
            if n - i < 4 || !(0x80 <= v[i + 1] && v[i + 1] <= 0x8F) || !(0x80 <= v[i + 2] && v[i
                + 2] <= 0xBF) || !(0x80 <= v[i + 3] && v[i + 3] <= 0xBF) {
                return false;
            }
            width = 4;
        } else {
            return false;
        }
        proof {
            assert(v@.skip(i as int).skip(width as int) =~= v@.skip(i as int + width as int));
        }
        i = i + width;
    }
    proof {
        assert(v@.skip(n as int) =~= Seq::<u8>::empty());
    }
    true
}

/// The nul-terminated string at `off` read as path text: absent when the
/// string does not resolve or its bytes are not valid UTF-8.
pub open spec fn spec_path_at(s: Seq<u8>, off: u32) -> Option<Seq<u8>> {
    match spec_cstr_at(s, off) {
        Some(p) => {
            if spec_utf8(p) {
                Some(p)
            } else {
                None
            }
        },
        None => None,
    }
}

/// The fixed 12-byte record at the start of every cache file.
#[derive(Clone, Copy, PartialEq, Eq, Structural, Debug)]
pub struct Header {
    pub major_version: u16,
    pub minor_version: u16,
    pub hash: Offset,
    pub directory_list: Offset,
}

/// The header a buffer begins with, read field by field.
pub open spec fn spec_header(s: Seq<u8>) -> Header
    recommends
        s.len() >= 12,
{
    Header {
        major_version: u16_be_at(s, 0),
        minor_version: u16_be_at(s, 2),
        hash: Offset { offset: u32_be_at(s, 4) },
        directory_list: Offset { offset: u32_be_at(s, 8) },
    }
}

impl Header {
    /// Decode the header from the front of the buffer; fails when fewer
    /// than its 12 bytes are present.
    pub fn read_from(bytes: &[u8]) -> (r: Option<Header>)
        ensures
            r is Some <==> bytes@.len() >= 12,
            r is Some ==> r == Some(spec_header(bytes@)),
    {
        if bytes.len() < 12 {
            return None;
        }
        Some(
            Header {
                major_version: read_u16_be(bytes, 0),
                minor_version: read_u16_be(bytes, 2),
                hash: Offset { offset: read_u32_be(bytes, 4) },
                directory_list: Offset { offset: read_u32_be(bytes, 8) },
            },
        )
    }
}

/// A variable-length table: a 32-bit element count followed by exactly that
/// many elements of `elem_size` bytes.  It fits when the count field and
/// every declared element lie inside the buffer; the arithmetic is exact,
/// so an overrunning count is rejected, never truncated.
pub open spec fn spec_table_fits(s: Seq<u8>, off: u32, elem_size: nat) -> bool {
    &&& off + 4 <= s.len()
    &&& off + 4 + u32_be_at(s, off as int) * elem_size <= s.len()
}

/// Check that the table at `off` with `elem_size`-byte elements fits.
pub fn table_fits(bytes: &[u8], off: u32, elem_size: u32) -> (r: bool)
    requires
        1 <= elem_size <= 8,
    ensures
        r == spec_table_fits(bytes@, off, elem_size as nat),
{
    let len = bytes.len() as u64;
    if (off as u64) + 4 > len {
        return false;
    }
    let n = read_u32_be(bytes, off as usize) as u64;
    let e = elem_size as u64;
    proof {
        assert(n * e <= 0xFFFF_FFFFu64 * 8) by (nonlinear_arith)
            requires
                n <= 0xFFFF_FFFF,
                0 <= e <= 8,
        ;
    }
    (off as u64) + 4 + n * e <= len
}

/// The fixed 12-byte icon record: the chain link to the next icon in the
/// same bucket, the offset of the icon's name and the offset of its image
/// list.
#[derive(Clone, Copy, PartialEq, Eq, Structural, Debug)]
pub struct Icon {
    pub chain: Offset,
    pub name: Offset,
    pub image_list: Offset,
}

/// The icon record a bucket slot or chain link resolves to: absent when the
/// link is a null sentinel or its 12 bytes overrun the buffer.
pub open spec fn spec_icon_at(s: Seq<u8>, off: u32) -> Option<Icon> {
    if !spec_is_null(off) && off + 12 <= s.len() {
        Some(
            Icon {
                chain: Offset { offset: u32_be_at(s, off as int) },
                name: Offset { offset: u32_be_at(s, off as int + 4) },
                image_list: Offset { offset: u32_be_at(s, off as int + 8) },
            },
        )
    } else {
        None
    }
}

impl Offset {
    /// Resolve this offset as an icon record.
    pub fn icon_at(&self, bytes: &[u8]) -> (r: Option<Icon>)
        ensures
            r == spec_icon_at(bytes@, self.offset),
    {
        if self.is_null() {
            return None;
        }
        if (self.offset as u64) + 12 > bytes.len() as u64 {
            return None;
        }
        let o = self.offset as usize;
        Some(
            Icon {
                chain: Offset { offset: read_u32_be(bytes, o) },
                name: Offset { offset: read_u32_be(bytes, o + 4) },
                image_list: Offset { offset: read_u32_be(bytes, o + 8) },
            },
        )
    }
}

/// The chain of icon records reachable from `off`, each record listed
/// before its link is followed.  `fuel` bounds the number of hops, so a
/// cyclic chain ends the walk instead of hanging it; a null link, a link
/// that does not resolve, and exhausted fuel all end the chain.
pub open spec fn spec_chain(s: Seq<u8>, off: u32, fuel: nat) -> Seq<Icon>
    decreases fuel,
{
    if fuel == 0 {
        Seq::empty()
    } else {
        match spec_icon_at(s, off) {
            None => Seq::empty(),
            Some(rec) => seq![rec] + spec_chain(s, rec.chain.offset, (fuel - 1) as nat),
        }
    }
}

/// The first record in the chain whose name resolves to exactly `q`.  A
/// record whose name fails to resolve is skipped, not fatal: the walk goes
/// on to the next link.
pub open spec fn spec_chain_lookup(s: Seq<u8>, off: u32, q: Seq<u8>, fuel: nat) -> Option<Icon>
    decreases fuel,
{
    if fuel == 0 {
        None
    } else {
        match spec_icon_at(s, off) {
            None => None,
            Some(rec) => {
                if spec_cstr_at(s, rec.name.offset) == Some(q) {
                    Some(rec)
                } else {
                    spec_chain_lookup(s, rec.chain.offset, q, (fuel - 1) as nat)
                }
            },
        }
    }
}

/// Some record in the chain from `off` has a name resolving to exactly `q`.
pub open spec fn chain_has_name(s: Seq<u8>, off: u32, q: Seq<u8>, fuel: nat) -> bool {
    exists|i: int|
        0 <= i < spec_chain(s, off, fuel).len() && spec_cstr_at(
            s,
            spec_chain(s, off, fuel)[i].name.offset,
        ) == Some(q)
}

/// Law: walking a chain for a name finds a record exactly when some
/// reachable record in that chain bears the name, and the record found does
/// bear it.
pub proof fn lemma_chain_lookup_finds_name(s: Seq<u8>, off: u32, q: Seq<u8>, fuel: nat)
    ensures
        spec_chain_lookup(s, off, q, fuel) is Some <==> chain_has_name(s, off, q, fuel),
        spec_chain_lookup(s, off, q, fuel) matches Some(rec) ==> spec_cstr_at(s, rec.name.offset)
            == Some(q),
    decreases fuel,
{
    if fuel == 0 {
        assert(spec_chain(s, off, fuel).len() == 0);
    } else {
        match spec_icon_at(s, off) {
            None => {
                assert(spec_chain(s, off, fuel).len() == 0);
            },
            Some(rec) => {
                let c = spec_chain(s, off, fuel);
                let tail = spec_chain(s, rec.chain.offset, (fuel - 1) as nat);
                assert(c == seq![rec] + tail);
                if spec_cstr_at(s, rec.name.offset) == Some(q) {
                    assert(c[0] == rec);
                    assert(chain_has_name(s, off, q, fuel));
                } else {
                    lemma_chain_lookup_finds_name(s, rec.chain.offset, q, (fuel - 1) as nat);
                    if chain_has_name(s, rec.chain.offset, q, (fuel - 1) as nat) {
                        let i = choose|i: int|
                            0 <= i < tail.len() && spec_cstr_at(s, tail[i].name.offset) == Some(q);
                        assert(c[i + 1] == tail[i]);
                        assert(chain_has_name(s, off, q, fuel));
                    }
                    if chain_has_name(s, off, q, fuel) {
                        let i = choose|i: int|
                            0 <= i < c.len() && spec_cstr_at(s, c[i].name.offset) == Some(q);
                        assert(i != 0);
                        assert(tail[i - 1] == c[i]);
                        assert(chain_has_name(s, rec.chain.offset, q, (fuel - 1) as nat));
                    }
                }
            },
        }
    }
}

/// The bytes of `s1` and `s2` agree everywhere outside the range
/// `[lo, hi)`.
pub open spec fn agree_outside(s1: Seq<u8>, s2: Seq<u8>, lo: int, hi: int) -> bool {
    &&& s1.len() == s2.len()
    &&& forall|k: int| 0 <= k < s1.len() && !(lo <= k < hi) ==> (#[trigger] s1[k]) == s2[k]
}

/// Two buffers agreeing outside `[lo, hi)` store the same 32-bit integer
/// at any position whose four bytes lie outside that range.
pub proof fn lemma_u32_be_agrees(s1: Seq<u8>, s2: Seq<u8>, lo: int, hi: int, i: int)
    requires
        agree_outside(s1, s2, lo, hi),
        0 <= i,
        i + 4 <= s1.len(),
        hi <= i || i + 4 <= lo,
    ensures
        u32_be_at(s2, i) == u32_be_at(s1, i),
{
}

/// The nul scan that resolves a string at `i` reads no byte of `[lo, hi)`:
/// the scanned range — up to and including the terminator, or to the
/// buffer end when none exists — is disjoint from it.
pub open spec fn cstr_scan_avoids(s: Seq<u8>, i: int, lo: int, hi: int) -> bool {
    match spec_cstr_from(s, i) {
        Some(p) => hi <= i || i + p.len() + 1 <= lo,
        None => i >= s.len() || hi <= i || lo >= s.len(),
    }
}

proof fn lemma_cstr_agrees(s1: Seq<u8>, s2: Seq<u8>, lo: int, hi: int, i: int)
    requires
        agree_outside(s1, s2, lo, hi),
        0 <= i,
        cstr_scan_avoids(s1, i, lo, hi),
    ensures
        spec_cstr_from(s2, i) == spec_cstr_from(s1, i),
    decreases s1.len() - i,
{
    if i < s1.len() {
        assert(s2[i] == s1[i]);
        if s1[i] != 0 {
            assert(cstr_scan_avoids(s1, i + 1, lo, hi));
            lemma_cstr_agrees(s1, s2, lo, hi, i + 1);
        }
    }
}

/// The walk that looks `q` up from `off` reads no byte of `[lo, hi)`:
/// every record it visits, and every name scan it makes up to the one
/// that matches, stays outside the range.  Records and names share the
/// buffer with everything else, so this is a real proviso, not a given.
pub open spec fn spec_lookup_avoids(
    s: Seq<u8>,
    off: u32,
    q: Seq<u8>,
    fuel: nat,
    lo: int,
    hi: int,
) -> bool
    decreases fuel,
{
    if fuel == 0 {
        true
    } else {
        match spec_icon_at(s, off) {
            None => true,
            Some(rec) => {
                &&& (hi <= off || off + 12 <= lo)
                &&& cstr_scan_avoids(s, rec.name.offset as int, lo, hi)
                &&& (spec_cstr_at(s, rec.name.offset) == Some(q) || spec_lookup_avoids(
                    s,
                    rec.chain.offset,
                    q,
                    (fuel - 1) as nat,
                    lo,
                    hi,
                ))
            },
        }
    }
}

/// Law: the lookup walk depends only on the bytes it reads.  Altering any
/// byte range the walk avoids — another bucket's slot, say — leaves the
/// record it stops at unchanged.
pub proof fn lemma_chain_lookup_frame(
    s1: Seq<u8>,
    s2: Seq<u8>,
    off: u32,
    q: Seq<u8>,
    fuel: nat,
    lo: int,
    hi: int,
)
    requires
        agree_outside(s1, s2, lo, hi),
        spec_lookup_avoids(s1, off, q, fuel, lo, hi),
    ensures
        spec_chain_lookup(s2, off, q, fuel) == spec_chain_lookup(s1, off, q, fuel),
    decreases fuel,
{
    if fuel > 0 {
        match spec_icon_at(s1, off) {
            None => {
                assert(spec_icon_at(s2, off) is None);
            },
            Some(rec) => {
                lemma_u32_be_agrees(s1, s2, lo, hi, off as int);
                lemma_u32_be_agrees(s1, s2, lo, hi, off as int + 4);
                lemma_u32_be_agrees(s1, s2, lo, hi, off as int + 8);
                assert(spec_icon_at(s2, off) == Some(rec));
                lemma_cstr_agrees(s1, s2, lo, hi, rec.name.offset as int);
                if spec_cstr_at(s1, rec.name.offset) != Some(q) {
                    lemma_chain_lookup_frame(
                        s1,
                        s2,
                        rec.chain.offset,
                        q,
                        (fuel - 1) as nat,
                        lo,
                        hi,
                    );
                }
            },
        }
    }
}

/// Law: a slot holding either null sentinel yields the empty chain — `0`
/// and `0xFFFF_FFFF` are treated identically as "no icon here".
pub proof fn lemma_null_offset_empty_chain(s: Seq<u8>, fuel: nat)
    ensures
        spec_chain(s, 0u32, fuel) == Seq::<Icon>::empty(),
        spec_chain(s, 0xFFFF_FFFFu32, fuel) == Seq::<Icon>::empty(),
{
}

/// Law: a record whose chain link is a null sentinel is the last of its
/// chain — a null link always terminates traversal.
pub proof fn lemma_null_chain_terminates(s: Seq<u8>, off: u32, rec: Icon, fuel: nat)
    requires
        fuel >= 1,
        spec_icon_at(s, off) == Some(rec),
        spec_is_null(rec.chain.offset),
    ensures
        spec_chain(s, off, fuel) =~= seq![rec],
{
    assert(spec_chain(s, rec.chain.offset, (fuel - 1) as nat) =~= Seq::<Icon>::empty());
}

/// The flag bits an image record carries, telling which files exist for
/// the image's directory: an `.xpm`, an `.svg`, a `.png`, or a stand-alone
/// `.icon` file.
#[derive(Clone, Copy, PartialEq, Eq, Structural, Debug)]
pub struct Flags {
    pub value: u16,
}

impl Flags {
    pub const HAS_SUFFIX_XPM: u16 = 1;

    pub const HAS_SUFFIX_SVG: u16 = 2;

    pub const HAS_SUFFIX_PNG: u16 = 4;

    pub const HAS_ICON_FILE: u16 = 8;

    pub fn new(value: u16) -> (r: Flags)
        ensures
            r.value == value,
    {
        Flags { value }
    }

    pub fn bits(&self) -> (r: u16)
        ensures
            r == self.value,
    {
        self.value
    }

    pub fn has_suffix_xpm(&self) -> (r: bool)
        ensures
            r == (self.value & 1 != 0),
    {
        (self.value & 1) != 0
    }

    pub fn has_suffix_svg(&self) -> (r: bool)
        ensures
            r == (self.value & 2 != 0),
    {
        (self.value & 2) != 0
    }

    pub fn has_suffix_png(&self) -> (r: bool)
        ensures
            r == (self.value & 4 != 0),
    {
        (self.value & 4) != 0
    }
}

/// The fixed 8-byte image record inside an image list: a zero-based index
/// into the directory list, the flag bits, and an offset to optional image
/// data.  The producer writes `0` into this field for "no data" (where a
/// chain link uses `0xFFFF_FFFF`), and a reader treats either sentinel as
/// absent.
#[derive(Clone, Copy, PartialEq, Eq, Structural, Debug)]
pub struct Image {
    pub directory_index: u16,
    pub icon_flags: Flags,
    pub image_data: Offset,
}

/// The image record stored at byte position `i`.
pub open spec fn spec_image_rec_at(s: Seq<u8>, i: int) -> Image
    recommends
        0 <= i,
        i + 8 <= s.len(),
{
    Image {
        directory_index: u16_be_at(s, i),
        icon_flags: Flags { value: u16_be_at(s, i + 2) },
        image_data: Offset { offset: u32_be_at(s, i + 4) },
    }
}

/// Read the image record at byte position `off`.
pub fn read_image_rec(bytes: &[u8], off: usize) -> (r: Image)
    requires
        off + 8 <= bytes@.len(),
    ensures
        r == spec_image_rec_at(bytes@, off as int),
{
    let len = bytes.len();
    Image {
        directory_index: read_u16_be(bytes, off),
        icon_flags: Flags { value: read_u16_be(bytes, off + 2) },
        image_data: Offset { offset: read_u32_be(bytes, off + 4) },
    }
}

/// The fixed 16-byte image-data record: offsets to the raw pixel payload,
/// to a metadata block, and to the payload's type and length tags.  The
/// pixel payload itself is opaque to this crate.
#[derive(Clone, Copy, PartialEq, Eq, Structural, Debug)]
pub struct ImageData {
    pub image_pixel_data: Offset,
    pub image_meta_data: Offset,
    pub image_pixel_data_type: Offset,
    pub image_pixel_data_length: Offset,
}

/// The image-data record at `off`: absent when its 16 bytes overrun the
/// buffer.  The `0` sentinel for "no image data" is the caller's to check.
pub open spec fn spec_image_data_at(s: Seq<u8>, off: u32) -> Option<ImageData> {
    if off + 16 <= s.len() {
        Some(
            ImageData {
                image_pixel_data: Offset { offset: u32_be_at(s, off as int) },
                image_meta_data: Offset { offset: u32_be_at(s, off as int + 4) },
                image_pixel_data_type: Offset { offset: u32_be_at(s, off as int + 8) },
                image_pixel_data_length: Offset { offset: u32_be_at(s, off as int + 12) },
            },
        )
    } else {
        None
    }
}

/// The fixed 12-byte metadata record: offsets to an embedded rectangle, an
/// attach-point list and a display-name list, each possibly null.
#[derive(Clone, Copy, PartialEq, Eq, Structural, Debug)]
pub struct MetaData {
    pub embedded_rect: Offset,
    pub attach_point_list: Offset,
    pub display_name_list: Offset,
}

/// The metadata record at `off`: absent when its 12 bytes overrun the
/// buffer.
pub open spec fn spec_meta_data_at(s: Seq<u8>, off: u32) -> Option<MetaData> {
    if off + 12 <= s.len() {
        Some(
            MetaData {
                embedded_rect: Offset { offset: u32_be_at(s, off as int) },
                attach_point_list: Offset { offset: u32_be_at(s, off as int + 4) },
                display_name_list: Offset { offset: u32_be_at(s, off as int + 8) },
            },
        )
    } else {
        None
    }
}

impl Offset {
    /// Resolve this offset as an image-data record.
    pub fn image_data_at(&self, bytes: &[u8]) -> (r: Option<ImageData>)
        ensures
            r == spec_image_data_at(bytes@, self.offset),
    {
        if (self.offset as u64) + 16 > bytes.len() as u64 {
            return None;
        }
        let o = self.offset as usize;
        Some(
            ImageData {
                image_pixel_data: Offset { offset: read_u32_be(bytes, o) },
                image_meta_data: Offset { offset: read_u32_be(bytes, o + 4) },
                image_pixel_data_type: Offset { offset: read_u32_be(bytes, o + 8) },
                image_pixel_data_length: Offset { offset: read_u32_be(bytes, o + 12) },
            },
        )
    }

    /// Resolve this offset as a metadata record.
    pub fn meta_data_at(&self, bytes: &[u8]) -> (r: Option<MetaData>)
        ensures
            r == spec_meta_data_at(bytes@, self.offset),
    {
        if (self.offset as u64) + 12 > bytes.len() as u64 {
            return None;
        }
        let o = self.offset as usize;
        Some(
            MetaData {
                embedded_rect: Offset { offset: read_u32_be(bytes, o) },
                attach_point_list: Offset { offset: read_u32_be(bytes, o + 4) },
                display_name_list: Offset { offset: read_u32_be(bytes, o + 8) },
            },
        )
    }
}

/// The fixed 8-byte embedded-rectangle record of a metadata block.
#[derive(Clone, Copy, PartialEq, Eq, Structural, Debug)]
pub struct EmbeddedRect {
    pub x0: u16,
    pub y0: u16,
    pub x1: u16,
    pub y1: u16,
}

/// The embedded rectangle at `off`: absent when its 8 bytes overrun the
/// buffer.
pub open spec fn spec_embedded_rect_at(s: Seq<u8>, off: u32) -> Option<EmbeddedRect> {
    if off + 8 <= s.len() {
        Some(
            EmbeddedRect {
                x0: u16_be_at(s, off as int),
                y0: u16_be_at(s, off as int + 2),
                x1: u16_be_at(s, off as int + 4),
                y1: u16_be_at(s, off as int + 6),
            },
        )
    } else {
        None
    }
}

impl Offset {
    /// Resolve this offset as an embedded-rectangle record.
    pub fn embedded_rect_at(&self, bytes: &[u8]) -> (r: Option<EmbeddedRect>)
        ensures
            r == spec_embedded_rect_at(bytes@, self.offset),
    {
        if (self.offset as u64) + 8 > bytes.len() as u64 {
            return None;
        }
        let o = self.offset as usize;
        Some(
            EmbeddedRect {
                x0: read_u16_be(bytes, o),
                y0: read_u16_be(bytes, o + 2),
                x1: read_u16_be(bytes, o + 4),
                y1: read_u16_be(bytes, o + 6),
            },
        )
    }
}

/// One 4-byte attach point of a metadata block.
#[derive(Clone, Copy, PartialEq, Eq, Structural, Debug)]
pub struct AttachPoint {
    pub x: u16,
    pub y: u16,
}

/// A validated view of an attach-point table: its position and its declared
/// element count, which is known to fit inside the buffer.
#[derive(Clone, Copy, PartialEq, Eq, Structural, Debug)]
pub struct AttachPointList {
    pub offset: u32,
    pub n_attach_points: u32,
}

impl AttachPointList {
    pub open spec fn wf(self, s: Seq<u8>) -> bool {
        &&& spec_table_fits(s, self.offset, 4)
        &&& self.n_attach_points == u32_be_at(s, self.offset as int)
    }

    /// Resolve `off` as an attach-point list, validating its count field.
    pub fn read_at(bytes: &[u8], off: Offset) -> (r: Option<AttachPointList>)
        ensures
            r is Some <==> spec_table_fits(bytes@, off.offset, 4),
            r matches Some(l) ==> l.wf(bytes@) && l.offset == off.offset,
    {
        if !table_fits(bytes, off.offset, 4) {
            return None;
        }
        let n = read_u32_be(bytes, off.offset as usize);
        Some(AttachPointList { offset: off.offset, n_attach_points: n })
    }

    /// The attach point at `idx`, for `idx` below the declared count.
    pub fn attach_point(&self, bytes: &[u8], idx: u32) -> (r: Option<AttachPoint>)
        requires
            self.wf(bytes@),
        ensures
            r is Some <==> idx < self.n_attach_points,
            r matches Some(p) ==> p.x == u16_be_at(bytes@, self.offset + 4 + idx * 4) && p.y
                == u16_be_at(bytes@, self.offset + 6 + idx * 4),
    {
        if idx >= self.n_attach_points {
            return None;
        }
        let len = bytes.len();
        proof {
            assert((idx + 1) * 4 <= self.n_attach_points * 4) by (nonlinear_arith)
                requires
                    idx < self.n_attach_points,
            ;
        }
        let o = self.offset as usize + 4 + (idx as usize) * 4;
        Some(AttachPoint { x: read_u16_be(bytes, o), y: read_u16_be(bytes, o + 2) })
    }
}

/// One 8-byte display-name record: offsets to a language tag and to the
/// icon's display name in that language, both nul-terminated strings.
#[derive(Clone, Copy, PartialEq, Eq, Structural, Debug)]
pub struct DisplayName {
    pub display_lang: Offset,
    pub display_name: Offset,
}

/// A validated view of a display-name table: its position and its declared
/// element count, which is known to fit inside the buffer.
#[derive(Clone, Copy, PartialEq, Eq, Structural, Debug)]
pub struct DisplayNameList {
    pub offset: u32,
    pub n_display_names: u32,
}

impl DisplayNameList {
    pub open spec fn wf(self, s: Seq<u8>) -> bool {
        &&& spec_table_fits(s, self.offset, 8)
        &&& self.n_display_names == u32_be_at(s, self.offset as int)
    }

    /// Resolve `off` as a display-name list, validating its count field.
    pub fn read_at(bytes: &[u8], off: Offset) -> (r: Option<DisplayNameList>)
        ensures
            r is Some <==> spec_table_fits(bytes@, off.offset, 8),
            r matches Some(l) ==> l.wf(bytes@) && l.offset == off.offset,
    {
        if !table_fits(bytes, off.offset, 8) {
            return None;
        }
        let n = read_u32_be(bytes, off.offset as usize);
        Some(DisplayNameList { offset: off.offset, n_display_names: n })
    }

    /// The display-name record at `idx`, for `idx` below the declared count.
    pub fn display_name(&self, bytes: &[u8], idx: u32) -> (r: Option<DisplayName>)
        requires
            self.wf(bytes@),
        ensures
            r is Some <==> idx < self.n_display_names,
            r matches Some(d) ==> d.display_lang.offset == u32_be_at(
                bytes@,
                self.offset + 4 + idx * 8,
            ) && d.display_name.offset == u32_be_at(bytes@, self.offset + 8 + idx * 8),
    {
        if idx >= self.n_display_names {
            return None;
        }
        let len = bytes.len();
        proof {
            assert((idx + 1) * 8 <= self.n_display_names * 8) by (nonlinear_arith)
                requires
                    idx < self.n_display_names,
            ;
        }
        let o = self.offset as usize + 4 + (idx as usize) * 8;
        Some(
            DisplayName {
                display_lang: Offset { offset: read_u32_be(bytes, o) },
                display_name: Offset { offset: read_u32_be(bytes, o + 4) },
            },
        )
    }
}

} // verus!
