use vstd::prelude::*;

use crate::bytes::{get_u32, le32, put_u32};

verus! {

/// Order of the bytes of multi-byte fields in a storage meta file.
#[derive(Debug, Clone, Copy, PartialEq, Eq, Structural)]
pub enum ByteOrder {
    Little,
    Big,
}

/// Why a storage meta file could not be opened.
#[derive(Debug, Clone, Copy, PartialEq, Eq, Structural)]
pub enum LoadError {
    /// The file is too short or lacks the magic bytes `ACNM`.
    NotAMetaFile,
    /// The format version is not 1.
    UnsupportedVersion(u8),
    /// The file was written on a machine of the other byte order.
    ByteOrderMismatch(ByteOrder),
    /// The configured page size lies outside the supported range.
    PageSizeBounds(u16),
    /// The byte-order field holds neither 0 nor 1.
    Corrupted,
}

/// Why a storage meta file could not be created.
#[derive(Debug, Clone, Copy, PartialEq, Eq, Structural)]
pub enum InitError {
    /// The requested page size is not a power of two from 512 to 32768.
    PageSizeBounds(u16),
}

pub const META_FORMAT_VERSION: u8 = 1;

pub const META_LEN: usize = 12;

pub const MIN_PAGE_SIZE: u16 = 512;

pub const MAX_PAGE_SIZE: u16 = 32768;

pub const MAX_PAGE_SIZE_EXPONENT: u8 = 15;

/// `2` to the power `e`.
pub open spec fn two_pow(e: nat) -> nat
    decreases e,
{
    if e == 0 {
        1
    } else {
        2 * two_pow((e - 1) as nat)
    }
}

/// The page size that exponent `e` gives: `2^e`, clamped to 32768.
pub open spec fn page_size_of(e: u8) -> nat {
    if e >= MAX_PAGE_SIZE_EXPONENT {
        MAX_PAGE_SIZE as nat
    } else {
        two_pow(e as nat)
    }
}

/// A page size is valid when it is a power of two from 512 to 32768.
pub open spec fn valid_page_size(s: nat) -> bool {
    exists|e: nat| 9 <= e <= 15 && two_pow(e) == s
}

/// The bytes `b` in the given order: as they are for little-endian, reversed
/// for big-endian.
pub open spec fn ordered(b: Seq<u8>, order: ByteOrder) -> Seq<u8> {
    match order {
        ByteOrder::Little => b,
        ByteOrder::Big => b.reverse(),
    }
}

pub open spec fn order_byte(order: ByteOrder) -> u8 {
    match order {
        ByteOrder::Little => 0,
        ByteOrder::Big => 1,
    }
}

/// The twelve bytes of a storage meta file: magic, version, byte order, page
/// size exponent, a reserved byte, and the segment number limit.
pub open spec fn meta_bytes(m: StorageMeta, order: ByteOrder) -> Seq<u8> {
    m.magic@ + seq![m.format_version, m.byte_order, m.page_size_exponent, m.reserved] + ordered(
        le32(m.segment_num_limit),
        order,
    )
}

pub open spec fn order_of_byte(b: u8) -> ByteOrder {
    if b == 0 {
        ByteOrder::Little
    } else {
        ByteOrder::Big
    }
}

/// The error that opening a meta file with bytes `b` on a machine of byte
/// order `native` gives, checks taken in order: length and magic, version,
/// byte-order field, byte order, page size. `None` when it opens.
pub open spec fn load_error(b: Seq<u8>, native: ByteOrder) -> Option<LoadError> {
    if b.len() < META_LEN || b.subrange(0, 4) != seq![0x41u8, 0x43u8, 0x4eu8, 0x4du8] {
        Some(LoadError::NotAMetaFile)
    } else if b[4] != META_FORMAT_VERSION {
        Some(LoadError::UnsupportedVersion(b[4]))
    } else if b[5] > 1 {
        Some(LoadError::Corrupted)
    } else if b[5] != order_byte(native) {
        Some(LoadError::ByteOrderMismatch(order_of_byte(b[5])))
    } else if !valid_page_size(page_size_of(b[6])) {
        Some(LoadError::PageSizeBounds(page_size_of(b[6]) as u16))
    } else {
        None
    }
}

/// Relies on `u16::from_ne_bytes`: the bytes 1, 0 read as a `u16` in the
/// machine's byte order give 1 on a little-endian machine and 256 on a
/// big-endian one.
#[verifier::external_body]
fn probe_native_order() -> (r: u16)
    ensures
        r == 1 || r == 256,
{
    u16::from_ne_bytes([1, 0])
}

/// The byte order of this machine.
pub fn native_byte_order() -> (r: ByteOrder) {
    if probe_native_order() == 1 {
        ByteOrder::Little
    } else {
        ByteOrder::Big
    }
}

fn byte_order_from(b: u8) -> (r: Option<ByteOrder>)
    ensures
        r matches Some(o) ==> order_byte(o) == b,
        r is None <==> b > 1,
{
    if b == 0 {
        Some(ByteOrder::Little)
    } else if b == 1 {
        Some(ByteOrder::Big)
    } else {
        None
    }
}

fn order_byte_of(o: ByteOrder) -> (r: u8)
    ensures
        r == order_byte(o),
{
    match o {
        ByteOrder::Little => 0,
        ByteOrder::Big => 1,
    }
}

/// The fixed header of a storage meta file.
#[derive(Debug, Clone, Copy, PartialEq, Eq)]
pub struct StorageMeta {
    pub magic: [u8; 4],
    pub format_version: u8,
    pub byte_order: u8,
    pub page_size_exponent: u8,
    pub reserved: u8,
    pub segment_num_limit: u32,
}

impl StorageMeta {
    /// `2^page_size_exponent`, clamped to 32768.
    pub fn page_size(&self) -> (r: u16)
        ensures
            r as nat == page_size_of(self.page_size_exponent),
    {
        let e = if self.page_size_exponent >= MAX_PAGE_SIZE_EXPONENT {
            MAX_PAGE_SIZE_EXPONENT
        } else {
            self.page_size_exponent
        };
        let mut r: u16 = 1;
        let mut i: u8 = 0;
        while i < e
            invariant
                i <= e <= 15,
                r as nat == two_pow(i as nat),
            decreases e - i,
        {
            proof {
                lemma_two_pow_bound(i as nat);
            }
            r = r * 2;
            i = i + 1;
        }
        proof {
            reveal_with_fuel(two_pow, 16);
        }
        r
    }

    /// Reads a meta file's header for a machine of byte order `native`.
    pub fn load_for(bytes: &[u8], native: ByteOrder) -> (r: Result<StorageMeta, LoadError>)
        ensures
            (r == Err::<StorageMeta, LoadError>(LoadError::NotAMetaFile)) <==> (bytes@.len() < META_LEN || bytes@.subrange(0, 4)
                != seq![0x41u8, 0x43u8, 0x4eu8, 0x4du8]),
            r matches Ok(m) ==> bytes@.len() >= META_LEN && meta_bytes(m, native) == bytes@.subrange(0, META_LEN as int)
                && m.format_version == META_FORMAT_VERSION && m.byte_order == order_byte(native) && valid_page_size(
                page_size_of(m.page_size_exponent),
            ),
            r is Ok <==> load_error(bytes@, native) is None,
            r matches Err(e) ==> load_error(bytes@, native) == Some(e),
            r matches Err(LoadError::UnsupportedVersion(v)) ==> v == bytes@[4] && v != META_FORMAT_VERSION,
            r matches Err(LoadError::ByteOrderMismatch(o)) ==> order_byte(o) == bytes@[5] && o != native,
            r matches Err(LoadError::Corrupted) ==> bytes@[5] > 1,
            r matches Err(LoadError::PageSizeBounds(s)) ==> s as nat == page_size_of(bytes@[6]) && !valid_page_size(
                s as nat,
            ),
    {
        let ghost magic = seq![0x41u8, 0x43u8, 0x4eu8, 0x4du8];
        if bytes.len() < META_LEN {
            return Err(LoadError::NotAMetaFile);
        }
        if bytes[0] != 0x41u8 || bytes[1] != 0x43u8 || bytes[2] != 0x4eu8 || bytes[3] != 0x4du8 {
            proof {
                if bytes@.subrange(0, 4) == magic {
                    assert(bytes@[0] == bytes@.subrange(0, 4)[0]);
                    assert(bytes@[1] == bytes@.subrange(0, 4)[1]);
                    assert(bytes@[2] == bytes@.subrange(0, 4)[2]);
                    assert(bytes@[3] == bytes@.subrange(0, 4)[3]);
                }
            }
            return Err(LoadError::NotAMetaFile);
        }
        assert(bytes@.subrange(0, 4) =~= magic);
        if bytes[4] != META_FORMAT_VERSION {
            return Err(LoadError::UnsupportedVersion(bytes[4]));
        }
        let order = match byte_order_from(bytes[5]) {
            Some(o) => o,
            None => {
                return Err(LoadError::Corrupted);
            },
        };
        if order != native {
            return Err(LoadError::ByteOrderMismatch(order));
        }
        let mut limit_bytes: Vec<u8> = Vec::new();
        if order == ByteOrder::Little {
            limit_bytes.push(bytes[8]);
            limit_bytes.push(bytes[9]);
            limit_bytes.push(bytes[10]);
            limit_bytes.push(bytes[11]);
        } else {
            limit_bytes.push(bytes[11]);
            limit_bytes.push(bytes[10]);
            limit_bytes.push(bytes[9]);
            limit_bytes.push(bytes[8]);
        }
        let limit = get_u32(limit_bytes.as_slice(), 0);
        let meta = StorageMeta {
            magic: [bytes[0], bytes[1], bytes[2], bytes[3]],
            format_version: bytes[4],
            byte_order: bytes[5],
            page_size_exponent: bytes[6],
            reserved: bytes[7],
            segment_num_limit: limit,
        };
        let ps = meta.page_size();
        if ps < MIN_PAGE_SIZE {
            proof {
                lemma_small_not_valid(ps as nat);
            }
            return Err(LoadError::PageSizeBounds(ps));
        }
        proof {
            lemma_exponent_valid(meta.page_size_exponent);
            assert(limit_bytes@.subrange(0, 4) =~= limit_bytes@);
            assert(ordered(le32(limit), native) =~= bytes@.subrange(8, 12));
            assert(meta.magic@ =~= magic);
            assert(meta_bytes(meta, native) =~= bytes@.subrange(0, META_LEN as int));
        }
        Ok(meta)
    }

    /// Reads a meta file's header on this machine.
    pub fn load(bytes: &[u8]) -> (r: Result<StorageMeta, LoadError>)
        ensures
            (r == Err::<StorageMeta, LoadError>(LoadError::NotAMetaFile)) <==> (bytes@.len() < META_LEN || bytes@.subrange(0, 4)
                != seq![0x41u8, 0x43u8, 0x4eu8, 0x4du8]),
            r matches Ok(m) ==> bytes@.len() >= META_LEN && m.format_version == META_FORMAT_VERSION
                && valid_page_size(page_size_of(m.page_size_exponent)),
            exists|o: ByteOrder|
                (r is Ok <==> #[trigger] load_error(bytes@, o) is None) && (r matches Err(e) ==> load_error(bytes@, o)
                    == Some(e)) && (r matches Ok(m) ==> meta_bytes(m, o) == bytes@.subrange(0, META_LEN as int)
                    && m.byte_order == order_byte(o)),
    {
        let o = native_byte_order();
        let r = StorageMeta::load_for(bytes, o);
        assert((r is Ok <==> load_error(bytes@, o) is None) && (r matches Err(e) ==> load_error(bytes@, o) == Some(e))
            && (r matches Ok(m) ==> meta_bytes(m, o) == bytes@.subrange(0, META_LEN as int) && m.byte_order
            == order_byte(o)));
        r
    }

    /// The header's twelve bytes, multi-byte fields in byte order `order`.
    pub fn to_bytes_for(&self, order: ByteOrder) -> (r: Vec<u8>)
        ensures
            r@ == meta_bytes(*self, order),
    {
        let mut le: Vec<u8> = Vec::new();
        put_u32(&mut le, self.segment_num_limit);
        let mut out: Vec<u8> = Vec::new();
        out.push(self.magic[0]);
        out.push(self.magic[1]);
        out.push(self.magic[2]);
        out.push(self.magic[3]);
        out.push(self.format_version);
        out.push(self.byte_order);
        out.push(self.page_size_exponent);
        out.push(self.reserved);
        if order == ByteOrder::Little {
            out.push(le[0]);
            out.push(le[1]);
            out.push(le[2]);
            out.push(le[3]);
        } else {
            out.push(le[3]);
            out.push(le[2]);
            out.push(le[1]);
            out.push(le[0]);
        }
        assert(out@ =~= meta_bytes(*self, order));
        out
    }

    /// The header's twelve bytes in this machine's byte order, as written
    /// back to the meta file.
    pub fn to_bytes(&self) -> (r: Vec<u8>)
        ensures
            r@.len() == META_LEN,
            r@ == meta_bytes(*self, ByteOrder::Little) || r@ == meta_bytes(*self, ByteOrder::Big),
    {
        self.to_bytes_for(native_byte_order())
    }

    /// A new header for pages of `page_size` bytes on a machine of byte order
    /// `native`, with a segment number limit of 0.
    pub fn init_for(page_size: u16, native: ByteOrder) -> (r: Result<StorageMeta, InitError>)
        ensures
            r is Ok <==> valid_page_size(page_size as nat),
            r matches Ok(m) ==> m.magic@ == seq![0x41u8, 0x43u8, 0x4eu8, 0x4du8] && m.format_version
                == META_FORMAT_VERSION && m.byte_order == order_byte(native) && page_size_of(m.page_size_exponent)
                == page_size as nat && m.segment_num_limit == 0 && m.reserved == 0,
            r matches Err(InitError::PageSizeBounds(s)) ==> s == page_size,
    {
        let mut e: u8 = 9;
        while e <= MAX_PAGE_SIZE_EXPONENT
            invariant
                9 <= e <= 16,
                forall|k: nat| 9 <= k < e ==> two_pow(k) != page_size as nat,
            decreases 16 - e,
        {
            let m = StorageMeta {
                magic: [0x41u8, 0x43u8, 0x4eu8, 0x4du8],
                format_version: META_FORMAT_VERSION,
                byte_order: order_byte_of(native),
                page_size_exponent: e,
                reserved: 0,
                segment_num_limit: 0,
            };
            proof {
                lemma_page_size_of_small(e);
            }
            if m.page_size() == page_size {
                assert(m.magic@ =~= seq![0x41u8, 0x43u8, 0x4eu8, 0x4du8]);
                return Ok(m);
            }
            e = e + 1;
        }
        proof {
            if valid_page_size(page_size as nat) {
                let k = choose|k: nat| 9 <= k <= 15 && two_pow(k) == page_size as nat;
                assert(two_pow(k) != page_size as nat);
            }
        }
        Err(InitError::PageSizeBounds(page_size))
    }

    /// A new header for pages of `page_size` bytes on this machine.
    pub fn init(page_size: u16) -> (r: Result<StorageMeta, InitError>)
        ensures
            r is Ok <==> valid_page_size(page_size as nat),
            r matches Ok(m) ==> page_size_of(m.page_size_exponent) == page_size as nat && m.magic@ == seq![
                0x41u8,
                0x43u8,
                0x4eu8,
                0x4du8,
            ] && m.format_version == META_FORMAT_VERSION && m.byte_order <= 1 && m.reserved == 0
                && m.segment_num_limit == 0,
            r matches Err(InitError::PageSizeBounds(s)) ==> s == page_size,
    {
        StorageMeta::init_for(page_size, native_byte_order())
    }
}

proof fn lemma_page_size_of_small(e: u8)
    requires
        e <= 15,
    ensures
        page_size_of(e) == two_pow(e as nat),
{
    reveal_with_fuel(two_pow, 16);
}

proof fn lemma_two_pow_bound(i: nat)
    requires
        i < 15,
    ensures
        two_pow(i) <= 0x4000,
    decreases i,
{
    reveal_with_fuel(two_pow, 16);
    if i > 0 {
        lemma_two_pow_bound((i - 1) as nat);
    }
}

proof fn lemma_two_pow_mono(a: nat, b: nat)
    requires
        a <= b,
    ensures
        two_pow(a) <= two_pow(b),
    decreases b,
{
    if a < b {
        lemma_two_pow_mono(a, (b - 1) as nat);
    }
}

proof fn lemma_small_not_valid(s: nat)
    requires
        s < 512,
    ensures
        !valid_page_size(s),
{
    if valid_page_size(s) {
        let e = choose|e: nat| 9 <= e <= 15 && two_pow(e) == s;
        lemma_two_pow_mono(9, e);
        reveal_with_fuel(two_pow, 10);
    }
}

proof fn lemma_exponent_valid(e: u8)
    requires
        page_size_of(e) >= 512,
    ensures
        valid_page_size(page_size_of(e)),
{
    if e >= 15 {
        reveal_with_fuel(two_pow, 16);
        assert(two_pow(15) == 32768);
    } else {
        if e < 9 {
            lemma_two_pow_mono(e as nat, 8);
            reveal_with_fuel(two_pow, 9);
        }
        assert(9 <= e as nat <= 15 && two_pow(e as nat) == page_size_of(e));
    }
}

} // verus!
