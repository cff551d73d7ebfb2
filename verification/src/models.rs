use crate::encrytion::{apply_key, key_bytes, key_gen, lemma_xor_stream_involution, xor_stream};
use crate::endian::{
    le_u16, le_u32, le_u64, lemma_le_u16_bytes, lemma_le_u32_bytes, lemma_le_u64_bytes, lemma_le_u16_roundtrip, lemma_le_u32_roundtrip,
    lemma_le_u64_roundtrip, read_u16_le, read_u32_le, read_u64_le, u16_le_bytes, u32_le_bytes,
    u64_le_bytes, write_u16_le, write_u32_le, write_u64_le,
};
use std::string::FromUtf8Error;
use vstd::prelude::*;
use vstd::slice::{slice_subrange, slice_to_vec};
use vstd::string::StrSliceExecFns;
use vstd::utf8::{
    decode_utf8, decode_utf8_encode_utf8, encode_utf8, encode_utf8_decode_utf8, encode_utf8_valid_utf8,
    valid_utf8,
};

verus! {

/// How an entry's payload is stored in the archive.
#[derive(Clone, Copy, PartialEq, Eq, Debug, Structural)]
pub enum Storage {
    /// The payload is stored as is (after the key stream).
    Stored,
    /// The payload is a zstd frame (after the key stream).
    Zstd,
}

/// The storage kind that a flags word selects: bit 0 set means zstd.
pub open spec fn storage_of_flags(flags: u16) -> Storage {
    if flags & 1 != 0 { Storage::Zstd } else { Storage::Stored }
}

/// The flags word that a storage kind is written as.
pub open spec fn flags_of_storage(storage: Storage) -> u16 {
    match storage {
        Storage::Stored => 0,
        Storage::Zstd => 1,
    }
}

/// Reading the flags that a storage kind is written as gives that kind back.
pub proof fn lemma_storage_flags_roundtrip(storage: Storage)
    ensures
        storage_of_flags(flags_of_storage(storage)) == storage,
{
    assert(0u16 & 1 == 0) by (bit_vector);
    assert(1u16 & 1 == 1) by (bit_vector);
}

impl Storage {
    /// The storage kind a flags word selects.
    pub fn from_flags(flags: u16) -> (s: Storage)
        ensures
            s == storage_of_flags(flags),
    {
        if flags & 1 != 0 {
            Storage::Zstd
        } else {
            Storage::Stored
        }
    }

    /// The flags word a storage kind is written as.
    pub fn to_flags(self) -> (flags: u16)
        ensures
            flags == flags_of_storage(self),
    {
        match self {
            Storage::Stored => 0,
            Storage::Zstd => 1,
        }
    }
}

/// How the packer stores a file: compressed unless compression is off or the file is
/// `ver0102.dat`, which is always stored as is.
pub fn storage_for(no_compress: bool, file_name: &str) -> (s: Storage)
    ensures
        s == (if !no_compress && file_name@ != "ver0102.dat"@ {
            Storage::Zstd
        } else {
            Storage::Stored
        }),
{
    if !no_compress && !same_text(file_name, "ver0102.dat") {
        Storage::Zstd
    } else {
        Storage::Stored
    }
}

/// Whether a file name can be packed: the names an index holds are pure ASCII.
pub fn packable_name(name: &[u8]) -> (ok: bool)
    ensures
        ok == forall|i: int| 0 <= i < name@.len() ==> name@[i] < 0x80,
{
    let mut i: usize = 0;
    while i < name.len()
        invariant
            i <= name@.len(),
            forall|j: int| 0 <= j < i ==> name@[j] < 0x80,
        decreases name@.len() - i,
    {
        if name[i] >= 0x80 {
            return false;
        }
        i += 1;
    }
    true
}

/// Whether two texts are the same characters.
fn same_text(a: &str, b: &str) -> (r: bool)
    ensures
        r == (a@ == b@),
{
    let n = a.unicode_len();
    if n != b.unicode_len() {
        return false;
    }
    let mut i: usize = 0;
    while i < n
        invariant
            n == a@.len(),
            n == b@.len(),
            i <= n,
            forall|j: int| 0 <= j < i ==> a@[j] == b@[j],
        decreases n - i,
    {
        if a.get_char(i) != b.get_char(i) {
            return false;
        }
        i += 1;
    }
    assert(a@ =~= b@);
    true
}

/// Length of the fixed part of an index entry; the name's bytes follow it.
pub const ENTRY_LENGTH: usize = 32;

/// Length of the index entry of `ver0102.dat` (the fixed part and an eleven-byte name).
pub const VER0102_ENTRY_LENGTH: usize = 32 + 11;

/// Why archive bytes could not be read.
#[derive(Clone, Copy, PartialEq, Eq, Debug, Structural)]
pub enum ArchiveError {
    /// The archive does not start with `PKGL`.
    BadMagic,
    /// The bytes end before what they announce.
    Truncated,
    /// An entry's name is not valid UTF-8.
    InvalidName,
}

/// Declares std's `FromUtf8Error`, the error of `String::from_utf8`, as a type that
/// verified code carries without looking inside.
#[verifier::external_type_specification]
#[verifier::external_body]
pub struct ExFromUtf8Error(FromUtf8Error);

/// Calls std's `String::from_utf8`, documented to succeed exactly on valid UTF-8, with the
/// text those bytes encode.
#[verifier::external_body]
fn string_from_utf8(bytes: Vec<u8>) -> (r: Result<String, FromUtf8Error>)
    ensures
        r is Ok <==> valid_utf8(bytes@),
        r matches Ok(s) ==> s@ == decode_utf8(bytes@),
{
    String::from_utf8(bytes)
}

/// What an index entry says, its name taken as text.
pub struct EntryView {
    pub flags: u16,
    pub key: u32,
    pub raw_size: u64,
    pub stored_size: u64,
    pub offset: u64,
    pub name_len: u16,
    pub name: Seq<char>,
}

/// One file of the archive, as its index entry describes it.
#[derive(Debug)]
pub struct Entry {
    pub flags: u16,
    pub key: u32,
    pub raw_size: u64,
    pub stored_size: u64,
    pub offset: u64,
    pub name_len: u16,
    pub name: String,
}

impl View for Entry {
    type V = EntryView;

    open spec fn view(&self) -> EntryView {
        EntryView {
            flags: self.flags,
            key: self.key,
            raw_size: self.raw_size,
            stored_size: self.stored_size,
            offset: self.offset,
            name_len: self.name_len,
            name: self.name@,
        }
    }
}

/// An entry whose length field is the byte length of its name, as every entry that
/// `Entry::new` makes of a name shorter than 65536 bytes is.
pub open spec fn entry_wf(e: EntryView) -> bool {
    e.name_len == encode_utf8(e.name).len()
}

/// The bytes an entry is written as: the fixed fields in little-endian order, then
/// the name's UTF-8 bytes.
pub open spec fn entry_bytes(e: EntryView) -> Seq<u8> {
    u16_le_bytes(e.flags) + u32_le_bytes(e.key) + u64_le_bytes(e.raw_size) + u64_le_bytes(
        e.stored_size,
    ) + u64_le_bytes(e.offset) + u16_le_bytes(e.name_len) + encode_utf8(e.name)
}

/// The entry at the start of `b` and the number of bytes it takes, or why there is none.
#[verifier::opaque]
pub open spec fn parse_entry(b: Seq<u8>) -> Result<(EntryView, nat), ArchiveError> {
    if b.len() < 32 {
        Err(ArchiveError::Truncated)
    } else {
        let name_len = le_u16(b.subrange(30, 32));
        if b.len() < 32 + name_len {
            Err(ArchiveError::Truncated)
        } else {
            let name = b.subrange(32, 32 + name_len);
            if !valid_utf8(name) {
                Err(ArchiveError::InvalidName)
            } else {
                Ok(
                    (
                        EntryView {
                            flags: le_u16(b.subrange(0, 2)),
                            key: le_u32(b.subrange(2, 6)),
                            raw_size: le_u64(b.subrange(6, 14)),
                            stored_size: le_u64(b.subrange(14, 22)),
                            offset: le_u64(b.subrange(22, 30)),
                            name_len,
                            name: decode_utf8(name),
                        },
                        (32 + name_len) as nat,
                    ),
                )
            }
        }
    }
}

/// An entry that can be read takes at least its fixed part and at most the bytes given.
pub proof fn lemma_parse_entry_len(b: Seq<u8>)
    ensures
        parse_entry(b) matches Ok((e, n)) ==> 32 <= n <= b.len(),
{
    reveal(parse_entry);
}

impl Entry {
    /// An entry for `name`, its length field set to the name's byte length cut to 16 bits.
    pub fn new(
        storage: Storage,
        key: u32,
        raw_size: u64,
        stored_size: u64,
        offset: u64,
        name: String,
    ) -> (e: Entry)
        ensures
            e@ == (EntryView {
                flags: flags_of_storage(storage),
                key,
                raw_size,
                stored_size,
                offset,
                name_len: (encode_utf8(name@).len() as usize) as u16,
                name: name@,
            }),
    {
        let name_len = name.as_str().len() as u16;
        Entry {
            flags: storage.to_flags(),
            key,
            raw_size,
            stored_size,
            offset,
            name_len,
            name,
        }
    }

    /// Reads the entry at the start of `data`; on success also returns how many bytes
    /// it took.
    pub fn read(data: &[u8]) -> (r: Result<(Entry, usize), ArchiveError>)
        ensures
            match r {
                Ok((e, n)) => parse_entry(data@) == Ok::<(EntryView, nat), ArchiveError>((e@, n as nat)),
                Err(err) => parse_entry(data@) == Err::<(EntryView, nat), ArchiveError>(err),
            },
            r matches Ok((e, n)) ==> entry_fields_at(data@, e@, n as nat),
    {
        proof {
            lemma_parse_entry_fields(data@);
        }
        reveal(parse_entry);
        let b = data;
        if b.len() < 32 {
            return Err(ArchiveError::Truncated);
        }
        let flags = read_u16_le(slice_subrange(b, 0, 2));
        let key = read_u32_le(slice_subrange(b, 2, 6));
        let raw_size = read_u64_le(slice_subrange(b, 6, 14));
        let stored_size = read_u64_le(slice_subrange(b, 14, 22));
        let offset = read_u64_le(slice_subrange(b, 22, 30));
        let name_len = read_u16_le(slice_subrange(b, 30, 32));
        let end = 32 + name_len as usize;
        if b.len() < end {
            return Err(ArchiveError::Truncated);
        }
        let name_bytes = slice_to_vec(slice_subrange(b, 32, end));
        let name = match string_from_utf8(name_bytes) {
            Ok(name) => name,
            Err(_) => {
                return Err(ArchiveError::InvalidName);
            },
        };
        let e = Entry { flags, key, raw_size, stored_size, offset, name_len, name };
        Ok((e, end))
    }

    /// Appends the entry's bytes to `out`.
    pub fn write(self, out: &mut Vec<u8>)
        ensures
            final(out)@ == old(out)@ + entry_bytes(self@),
            final(out)@.len() == old(out)@.len() + 32 + encode_utf8(self.name@).len(),
            entry_fields_at(final(out)@.skip(old(out)@.len() as int), self@, (32 + encode_utf8(self.name@).len()) as nat),
    {
        proof {
            lemma_entry_layout(self@);
        }
        let ghost start = out@;
        push_all(out, &write_u16_le(self.flags));
        push_all(out, &write_u32_le(self.key));
        push_all(out, &write_u64_le(self.raw_size));
        push_all(out, &write_u64_le(self.stored_size));
        push_all(out, &write_u64_le(self.offset));
        push_all(out, &write_u16_le(self.name_len));
        push_all(out, self.name.as_str().as_bytes());
        assert(out@ =~= start + entry_bytes(self@));
        assert(out@.skip(start.len() as int) =~= entry_bytes(self@));
    }

    /// The storage kind that the entry's flags select.
    pub fn storage(&self) -> (s: Storage)
        ensures
            s == storage_of_flags(self.flags),
    {
        Storage::from_flags(self.flags)
    }
}

/// Appends `bytes` to `out`.
fn push_all(out: &mut Vec<u8>, bytes: &[u8])
    ensures
        final(out)@ == old(out)@ + bytes@,
{
    let mut i: usize = 0;
    while i < bytes.len()
        invariant
            i <= bytes@.len(),
            out@ == old(out)@ + bytes@.take(i as int),
        decreases bytes@.len() - i,
    {
        out.push(bytes[i]);
        i += 1;
        assert(out@ =~= old(out)@ + bytes@.take(i as int));
    }
    assert(bytes@.take(i as int) =~= bytes@);
}

/// Reading an entry from its own bytes, whatever follows them, gives the entry back
/// and takes exactly those bytes, when its length field is its name's byte length.
pub proof fn lemma_entry_roundtrip(e: EntryView, rest: Seq<u8>)
    requires
        entry_wf(e),
    ensures
        parse_entry(entry_bytes(e) + rest) == Ok::<(EntryView, nat), ArchiveError>((e, entry_bytes(e).len())),
        entry_bytes(e).len() == 32 + e.name_len,
{
    reveal(parse_entry);
    let b = entry_bytes(e) + rest;
    lemma_le_u16_roundtrip(e.flags);
    lemma_le_u32_roundtrip(e.key);
    lemma_le_u64_roundtrip(e.raw_size);
    lemma_le_u64_roundtrip(e.stored_size);
    lemma_le_u64_roundtrip(e.offset);
    lemma_le_u16_roundtrip(e.name_len);
    encode_utf8_valid_utf8(e.name);
    encode_utf8_decode_utf8(e.name);
    assert(b.subrange(0, 2) =~= u16_le_bytes(e.flags));
    assert(b.subrange(2, 6) =~= u32_le_bytes(e.key));
    assert(b.subrange(6, 14) =~= u64_le_bytes(e.raw_size));
    assert(b.subrange(14, 22) =~= u64_le_bytes(e.stored_size));
    assert(b.subrange(22, 30) =~= u64_le_bytes(e.offset));
    assert(b.subrange(30, 32) =~= u16_le_bytes(e.name_len));
    assert(b.subrange(32, 32 + e.name_len) =~= encode_utf8(e.name));
}


/// The four bytes an archive starts with.
pub const MAIGC: [u8; 4] = [0x50u8, 0x4Bu8, 0x47u8, 0x4Cu8];

/// `PKGL`, the bytes an archive starts with.
pub open spec fn magic_bytes() -> Seq<u8> {
    seq![0x50u8, 0x4Bu8, 0x47u8, 0x4Cu8]
}

/// Calls `crc32fast::hash`. Its result is named, not stated: the CRC-32 of the bytes.
pub uninterp spec fn crc32_of(data: Seq<u8>) -> u32;

/// Calls `crc32fast::hash`, the CRC-32 (IEEE) checksum of `data`, a function of the bytes
/// alone; this contract names that checksum `crc32_of` and says nothing more of it.
#[verifier::external_body]
fn crc32(data: &[u8]) -> (r: u32)
    ensures
        r == crc32_of(data@),
{
    crc32fast::hash(data)
}

/// The entries that an index's bytes list one after the other, or why they do not.
pub open spec fn parse_entries(b: Seq<u8>) -> Result<Seq<EntryView>, ArchiveError>
    decreases b.len(),
{
    if b.len() == 0 {
        Ok(Seq::empty())
    } else {
        match parse_entry(b) {
            Err(err) => Err(err),
            Ok((e, n)) => {
                proof {
                    lemma_parse_entry_len(b);
                }
                match parse_entries(b.skip(n as int)) {
                    Ok(rest) => Ok(seq![e] + rest),
                    Err(err) => Err(err),
                }
            },
        }
    }
}

/// The bytes of a list of entries, one after the other.
pub open spec fn entries_bytes(es: Seq<EntryView>) -> Seq<u8>
    decreases es.len(),
{
    if es.len() == 0 {
        Seq::empty()
    } else {
        entry_bytes(es[0]) + entries_bytes(es.drop_first())
    }
}

/// What an archive header says.
pub struct HeaderView {
    pub magic: Seq<u8>,
    pub index_length: u32,
    pub entries: Seq<EntryView>,
}

/// The header at the start of `b`, its index decrypted with the key stream of `seed`:
/// the magic, the little-endian length of the index, then that many index bytes.
pub open spec fn parse_header(b: Seq<u8>, seed: u32) -> Result<HeaderView, ArchiveError> {
    if b.len() < 4 {
        Err(ArchiveError::Truncated)
    } else if b.take(4) != magic_bytes() {
        Err(ArchiveError::BadMagic)
    } else if b.len() < 8 {
        Err(ArchiveError::Truncated)
    } else {
        let index_length = le_u32(b.subrange(4, 8));
        if b.len() < 8 + index_length {
            Err(ArchiveError::Truncated)
        } else {
            match parse_entries(xor_stream(key_bytes(seed), 0, b.subrange(8, 8 + index_length))) {
                Ok(entries) => Ok(HeaderView { magic: magic_bytes(), index_length, entries }),
                Err(err) => Err(err),
            }
        }
    }
}

/// The views of a list of entries.
pub open spec fn entry_views(es: Seq<Entry>) -> Seq<EntryView> {
    es.map_values(|e: Entry| e@)
}

/// An archive's header: its magic, the length of its index and the entries the index lists.
#[derive(Debug)]
pub struct Header {
    pub magic: [u8; 4],
    pub index_length: u32,
    pub entries: Vec<Entry>,
}

impl View for Header {
    type V = HeaderView;

    open spec fn view(&self) -> HeaderView {
        HeaderView {
            magic: self.magic@,
            index_length: self.index_length,
            entries: entry_views(self.entries@),
        }
    }
}

/// A read header seen through its view.
pub open spec fn header_result(r: Result<Header, ArchiveError>) -> Result<HeaderView, ArchiveError> {
    match r {
        Ok(h) => Ok(h@),
        Err(err) => Err(err),
    }
}

/// `prefix` put before the entries of a successful parse.
pub open spec fn prefixed(prefix: Seq<EntryView>, r: Result<Seq<EntryView>, ArchiveError>) -> Result<
    Seq<EntryView>,
    ArchiveError,
> {
    match r {
        Ok(rest) => Ok(prefix + rest),
        Err(err) => Err(err),
    }
}

/// Reads every entry of a decrypted index, one after the other, until its end.
fn parse_index(index: &Vec<u8>) -> (r: Result<Vec<Entry>, ArchiveError>)
    ensures
        match r {
            Ok(es) => parse_entries(index@) == Ok::<Seq<EntryView>, ArchiveError>(entry_views(es@)),
            Err(err) => parse_entries(index@) == Err::<Seq<EntryView>, ArchiveError>(err),
        },
{
    let ghost dec = index@;
    let len = index.len();
    let mut entries: Vec<Entry> = Vec::new();
    let mut pos: usize = 0;
    assert(dec.skip(0) =~= dec);
    assert(entry_views(entries@) =~= Seq::<EntryView>::empty());
    while pos < len
        invariant
            len == dec.len(),
            index@ == dec,
            pos <= len,
            parse_entries(dec) == prefixed(entry_views(entries@), parse_entries(dec.skip(pos as int))),
        decreases len - pos,
    {
        let rest = slice_subrange(index.as_slice(), pos, len);
        assert(rest@ =~= dec.skip(pos as int));
        match Entry::read(rest) {
            Ok((e, n)) => {
                proof {
                    lemma_parse_entries_step(dec, pos as nat, entry_views(entries@), e@, n as nat);
                    assert(entry_views(entries@.push(e)) =~= entry_views(entries@) + seq![e@]);
                }
                entries.push(e);
                pos = pos + n;
            },
            Err(err) => {
                proof {
                    lemma_parse_entries_fail(dec, pos as nat, entry_views(entries@), err);
                }
                return Err(err);
            },
        }
    }
    assert(dec.skip(pos as int) =~= Seq::<u8>::empty());
    assert(entry_views(entries@) + Seq::<EntryView>::empty() =~= entry_views(entries@));
    Ok(entries)
}

impl Header {
    /// Reads the header at the start of `data`, decrypting its index with the key stream of
    /// `seed`, the archive's key.
    pub fn read_keyed(data: &[u8], seed: u32) -> (r: Result<Header, ArchiveError>)
        ensures
            header_result(r) == parse_header(data@, seed),
    {
        if data.len() < 4 {
            return Err(ArchiveError::Truncated);
        }
        let magic = [data[0], data[1], data[2], data[3]];
        if !(magic[0] == MAIGC[0] && magic[1] == MAIGC[1] && magic[2] == MAIGC[2] && magic[3]
            == MAIGC[3]) {
            proof {
                if data@.take(4) == magic_bytes() {
                    assert(data@.take(4)[0] == data@[0]);
                    assert(data@.take(4)[1] == data@[1]);
                    assert(data@.take(4)[2] == data@[2]);
                    assert(data@.take(4)[3] == data@[3]);
                }
            }
            return Err(ArchiveError::BadMagic);
        }
        assert(data@.take(4) =~= magic_bytes());
        if data.len() < 8 {
            return Err(ArchiveError::Truncated);
        }
        let index_length = read_u32_le(slice_subrange(data, 4, 8));
        if data.len() - 8 < index_length as usize {
            return Err(ArchiveError::Truncated);
        }
        let end = 8 + index_length as usize;
        let mut index_data = slice_to_vec(slice_subrange(data, 8, end));
        let key = key_gen(seed);
        apply_key(index_data.as_mut_slice(), &key);
        let entries = match parse_index(&index_data) {
            Ok(entries) => entries,
            Err(err) => {
                return Err(err);
            },
        };
        Ok(Header { magic, index_length, entries })
    }

    /// Reads the header at the start of `data` of the archive called `name` (its file name
    /// up to the first dot), whose index is encrypted with the key stream of the CRC-32 of
    /// that name.
    pub fn read(data: &[u8], name: &str) -> (r: Result<Header, ArchiveError>)
        ensures
            header_result(r) == parse_header(data@, crc32_of(encode_utf8(name@))),
    {
        let seed = crc32(name.as_bytes());
        Header::read_keyed(data, seed)
    }
}

/// Writing an entry that was read gives back exactly the bytes it was read from: no two
/// byte strings read as the same entry, and what is read is well formed.
pub proof fn lemma_entry_bytes_of_parse(b: Seq<u8>)
    requires
        parse_entry(b) is Ok,
    ensures
        ({
            let (e, n) = parse_entry(b)->Ok_0;
            &&& entry_wf(e)
            &&& entry_bytes(e) == b.take(n as int)
        }),
{
    reveal(parse_entry);
    let (e, n) = parse_entry(b)->Ok_0;
    let name = b.subrange(32, 32 + e.name_len);
    lemma_le_u16_bytes(b.subrange(0, 2));
    lemma_le_u32_bytes(b.subrange(2, 6));
    lemma_le_u64_bytes(b.subrange(6, 14));
    lemma_le_u64_bytes(b.subrange(14, 22));
    lemma_le_u64_bytes(b.subrange(22, 30));
    lemma_le_u16_bytes(b.subrange(30, 32));
    decode_utf8_encode_utf8(name);
    assert(b.subrange(0, 2).take(2) =~= b.subrange(0, 2));
    assert(b.subrange(2, 6).take(4) =~= b.subrange(2, 6));
    assert(b.subrange(6, 14).take(8) =~= b.subrange(6, 14));
    assert(b.subrange(14, 22).take(8) =~= b.subrange(14, 22));
    assert(b.subrange(22, 30).take(8) =~= b.subrange(22, 30));
    assert(b.subrange(30, 32).take(2) =~= b.subrange(30, 32));
    assert(entry_bytes(e) =~= b.take(n as int));
}

/// Where each field of an entry stands in `b`, an entry of `n` bytes: flags in bytes 0..2,
/// key in 2..6, raw size in 6..14, stored size in 14..22, offset in 22..30, name length
/// in 30..32 (each little-endian, whatever the flags say) and the name's UTF-8 bytes in
/// 32..n.
pub open spec fn entry_fields_at(b: Seq<u8>, e: EntryView, n: nat) -> bool {
    &&& 32 <= n <= b.len()
    &&& b.subrange(0, 2) == u16_le_bytes(e.flags)
    &&& b.subrange(2, 6) == u32_le_bytes(e.key)
    &&& b.subrange(6, 14) == u64_le_bytes(e.raw_size)
    &&& b.subrange(14, 22) == u64_le_bytes(e.stored_size)
    &&& b.subrange(22, 30) == u64_le_bytes(e.offset)
    &&& b.subrange(30, 32) == u16_le_bytes(e.name_len)
    &&& b.subrange(32, n as int) == encode_utf8(e.name)
}

/// An entry's bytes hold each field at its place, the key among them stored as is,
/// whatever the flags.
pub proof fn lemma_entry_layout(e: EntryView)
    ensures
        entry_bytes(e).len() == 32 + encode_utf8(e.name).len(),
        entry_fields_at(entry_bytes(e), e, (32 + encode_utf8(e.name).len()) as nat),
        le_u32(entry_bytes(e).subrange(2, 6)) == e.key,
        le_u16(entry_bytes(e).subrange(0, 2)) == e.flags,
{
    let b = entry_bytes(e);
    lemma_le_u32_roundtrip(e.key);
    lemma_le_u16_roundtrip(e.flags);
    assert(b.subrange(0, 2) =~= u16_le_bytes(e.flags));
    assert(b.subrange(2, 6) =~= u32_le_bytes(e.key));
    assert(b.subrange(6, 14) =~= u64_le_bytes(e.raw_size));
    assert(b.subrange(14, 22) =~= u64_le_bytes(e.stored_size));
    assert(b.subrange(22, 30) =~= u64_le_bytes(e.offset));
    assert(b.subrange(30, 32) =~= u16_le_bytes(e.name_len));
    assert(b.subrange(32, (32 + encode_utf8(e.name).len()) as int) =~= encode_utf8(e.name));
}

/// An entry read from `b` takes each field from its place in `b`: the key is the
/// little-endian value of bytes 2..6 whatever the flags, and so on, and the name is the
/// text whose UTF-8 bytes follow the fixed part.
pub proof fn lemma_parse_entry_fields(b: Seq<u8>)
    ensures
        parse_entry(b) matches Ok((e, n)) ==> {
            &&& e.flags == le_u16(b.subrange(0, 2))
            &&& e.key == le_u32(b.subrange(2, 6))
            &&& e.raw_size == le_u64(b.subrange(6, 14))
            &&& e.stored_size == le_u64(b.subrange(14, 22))
            &&& e.offset == le_u64(b.subrange(22, 30))
            &&& e.name_len == le_u16(b.subrange(30, 32))
            &&& n == 32 + e.name_len
            &&& entry_fields_at(b, e, n)
        },
{
    if parse_entry(b) is Ok {
        lemma_entry_bytes_of_parse(b);
        reveal(parse_entry);
        let (e, n) = parse_entry(b)->Ok_0;
        lemma_entry_layout(e);
        assert(b.take(n as int).subrange(0, 2) =~= b.subrange(0, 2));
        assert(b.take(n as int).subrange(2, 6) =~= b.subrange(2, 6));
        assert(b.take(n as int).subrange(6, 14) =~= b.subrange(6, 14));
        assert(b.take(n as int).subrange(14, 22) =~= b.subrange(14, 22));
        assert(b.take(n as int).subrange(22, 30) =~= b.subrange(22, 30));
        assert(b.take(n as int).subrange(30, 32) =~= b.subrange(30, 32));
        assert(b.take(n as int).subrange(32, n as int) =~= b.subrange(32, n as int));
    }
}

/// One entry more read from the index at `pos`: what the whole index lists is the
/// entries read so far, this one, and what the index lists after it.
proof fn lemma_parse_entries_step(dec: Seq<u8>, pos: nat, prefix: Seq<EntryView>, e: EntryView, n: nat)
    requires
        pos < dec.len(),
        parse_entry(dec.skip(pos as int)) == Ok::<(EntryView, nat), ArchiveError>((e, n)),
    ensures
        prefixed(prefix, parse_entries(dec.skip(pos as int))) == prefixed(
            prefix + seq![e],
            parse_entries(dec.skip((pos + n) as int)),
        ),
        pos + n <= dec.len(),
        n >= 32,
{
    let tail = dec.skip(pos as int);
    lemma_parse_entry_len(tail);
    assert(tail.skip(n as int) =~= dec.skip((pos + n) as int));
    match parse_entries(dec.skip((pos + n) as int)) {
        Ok(more) => {
            assert(prefix + (seq![e] + more) =~= (prefix + seq![e]) + more);
        },
        Err(_) => {},
    }
}

/// An entry that cannot be read at `pos` makes the whole index unreadable, for the same
/// reason.
proof fn lemma_parse_entries_fail(dec: Seq<u8>, pos: nat, prefix: Seq<EntryView>, err: ArchiveError)
    requires
        pos < dec.len(),
        parse_entry(dec.skip(pos as int)) == Err::<(EntryView, nat), ArchiveError>(err),
    ensures
        prefixed(prefix, parse_entries(dec.skip(pos as int))) == Err::<Seq<EntryView>, ArchiveError>(err),
{
}

/// The entries listed by the bytes of a list of well-formed entries are that list.
pub proof fn lemma_entries_roundtrip(es: Seq<EntryView>)
    requires
        forall|i: int| 0 <= i < es.len() ==> entry_wf(#[trigger] es[i]),
    ensures
        parse_entries(entries_bytes(es)) == Ok::<Seq<EntryView>, ArchiveError>(es),
    decreases es.len(),
{
    if es.len() > 0 {
        let tail = es.drop_first();
        let rest = entries_bytes(tail);
        assert forall|i: int| 0 <= i < tail.len() implies entry_wf(#[trigger] tail[i]) by {
            assert(tail[i] == es[i + 1]);
        }
        lemma_entry_roundtrip(es[0], rest);
        lemma_entries_roundtrip(tail);
        let b = entries_bytes(es);
        lemma_parse_entry_len(b);
        assert(b == entry_bytes(es[0]) + rest);
        assert(b.len() > 0);
        assert(b.skip(entry_bytes(es[0]).len() as int) =~= rest);
        assert(parse_entry(b) == Ok::<(EntryView, nat), ArchiveError>((es[0], entry_bytes(es[0]).len())));
        assert(parse_entries(rest) == Ok::<Seq<EntryView>, ArchiveError>(tail));
        assert(seq![es[0]] + tail =~= es);
        assert(parse_entries(b) == Ok::<Seq<EntryView>, ArchiveError>(seq![es[0]] + tail));
    } else {
        assert(entries_bytes(es) =~= Seq::<u8>::empty());
        assert(es =~= Seq::<EntryView>::empty());
    }
}

/// Reading back a header written as the magic, the index length and the entries' bytes
/// encrypted with the key stream of `seed` gives back those entries, whatever follows
/// the index.
pub proof fn lemma_header_roundtrip(es: Seq<EntryView>, seed: u32, rest: Seq<u8>)
    requires
        forall|i: int| 0 <= i < es.len() ==> entry_wf(#[trigger] es[i]),
        entries_bytes(es).len() <= u32::MAX,
    ensures
        parse_header(
            magic_bytes() + u32_le_bytes(entries_bytes(es).len() as u32) + xor_stream(
                key_bytes(seed),
                0,
                entries_bytes(es),
            ) + rest,
            seed,
        ) == Ok::<HeaderView, ArchiveError>(
            HeaderView {
                magic: magic_bytes(),
                index_length: entries_bytes(es).len() as u32,
                entries: es,
            },
        ),
{
    let plain = entries_bytes(es);
    let len = plain.len() as u32;
    let enc = xor_stream(key_bytes(seed), 0, plain);
    let b = magic_bytes() + u32_le_bytes(len) + enc + rest;
    lemma_le_u32_roundtrip(len);
    lemma_xor_stream_involution(key_bytes(seed), 0, plain);
    lemma_entries_roundtrip(es);
    assert(b.take(4) =~= magic_bytes());
    assert(b.subrange(4, 8) =~= u32_le_bytes(len));
    assert(b.subrange(8, 8 + len) =~= enc);
}


/// The payload of `ver0102.dat`, the entry every archive ends with:
/// "This Game is Curtain Fire Shooting Game by Shrine Maiden.\nZUN\n\n".
pub const VER0102_DATA: [u8; 63] = [
    0x54u8, 0x68u8, 0x69u8, 0x73u8, 0x20u8, 0x47u8, 0x61u8, 0x6Du8,
    0x65u8, 0x20u8, 0x69u8, 0x73u8, 0x20u8, 0x43u8, 0x75u8, 0x72u8,
    0x74u8, 0x61u8, 0x69u8, 0x6Eu8, 0x20u8, 0x46u8, 0x69u8, 0x72u8,
    0x65u8, 0x20u8, 0x53u8, 0x68u8, 0x6Fu8, 0x6Fu8, 0x74u8, 0x69u8,
    0x6Eu8, 0x67u8, 0x20u8, 0x47u8, 0x61u8, 0x6Du8, 0x65u8, 0x20u8,
    0x62u8, 0x79u8, 0x20u8, 0x53u8, 0x68u8, 0x72u8, 0x69u8, 0x6Eu8,
    0x65u8, 0x20u8, 0x4Du8, 0x61u8, 0x69u8, 0x64u8, 0x65u8, 0x6Eu8,
    0x2Eu8, 0x0Au8, 0x5Au8, 0x55u8, 0x4Eu8, 0x0Au8, 0x0Au8,
];

/// The bytes the index of files whose names are `name_lens` bytes long takes.
pub open spec fn names_size(name_lens: Seq<u64>) -> int
    decreases name_lens.len(),
{
    if name_lens.len() == 0 {
        0
    } else {
        names_size(name_lens.drop_last()) + name_lens.last() + ENTRY_LENGTH
    }
}

/// The byte length of the index of files whose names are `name_lens` bytes long, with
/// the entry of `ver0102.dat` after them when `with_ver0102` holds; `None` when that
/// does not fit in 64 bits.
pub fn index_size(name_lens: &[u64], with_ver0102: bool) -> (r: Option<u64>)
    ensures
        ({
            let total = names_size(name_lens@) + if with_ver0102 {
                VER0102_ENTRY_LENGTH as int
            } else {
                0
            };
            match r {
                Some(v) => v == total,
                None => total > u64::MAX,
            }
        }),
{
    let mut total: u64 = 0;
    let mut i: usize = 0;
    while i < name_lens.len()
        invariant
            i <= name_lens@.len(),
            total == names_size(name_lens@.take(i as int)),
        decreases name_lens@.len() - i,
    {
        proof {
            assert(name_lens@.take(i + 1).drop_last() =~= name_lens@.take(i as int));
            lemma_names_size_grows(name_lens@, (i + 1) as nat);
        }
        let len = name_lens[i];
        if total > u64::MAX - 32 || len > u64::MAX - 32 - total {
            proof {
                assert(name_lens@.take(i + 1).last() == len);
                lemma_names_size_grows(name_lens@, name_lens@.len());
                assert(name_lens@.take(name_lens@.len() as int) =~= name_lens@);
                assert(names_size(name_lens@.take(i + 1)) <= names_size(name_lens@));
            }
            return None;
        }
        total = total + len + 32;
        i += 1;
    }
    assert(name_lens@.take(i as int) =~= name_lens@);
    if with_ver0102 {
        if total > u64::MAX - 43 {
            return None;
        }
        total = total + 43;
    }
    Some(total)
}

/// The size of a longer list of names is no smaller: it bounds every prefix.
proof fn lemma_names_size_grows(name_lens: Seq<u64>, n: nat)
    requires
        n <= name_lens.len(),
    ensures
        forall|m: nat| m <= n ==> names_size(name_lens.take(m as int)) <= names_size(name_lens.take(n as int)),
    decreases n,
{
    if n > 0 {
        lemma_names_size_grows(name_lens, (n - 1) as nat);
        assert(name_lens.take(n as int).drop_last() =~= name_lens.take(n - 1));
    }
}

/// The index size of the names of well-formed entries is the byte length of those
/// entries: the length that the archive's header announces is the length of the index
/// written after it.
pub proof fn lemma_index_size_matches(es: Seq<EntryView>, name_lens: Seq<u64>)
    requires
        forall|i: int| 0 <= i < es.len() ==> entry_wf(#[trigger] es[i]),
        name_lens.len() == es.len(),
        forall|i: int| 0 <= i < es.len() ==> #[trigger] name_lens[i] == encode_utf8(es[i].name).len(),
    ensures
        names_size(name_lens) == entries_bytes(es).len(),
    decreases es.len(),
{
    if es.len() > 0 {
        let front = es.drop_last();
        assert forall|i: int| 0 <= i < front.len() implies entry_wf(#[trigger] front[i]) by {
            assert(front[i] == es[i]);
        }
        assert forall|i: int| 0 <= i < front.len() implies #[trigger] name_lens.drop_last()[i] == encode_utf8(front[i].name).len() by {
            assert(front[i] == es[i]);
        }
        lemma_index_size_matches(front, name_lens.drop_last());
        lemma_entries_bytes_append(front, es.last());
        assert(front.push(es.last()) =~= es);
        lemma_entry_len(es.last());
    }
}

/// The byte length of one entry.
proof fn lemma_entry_len(e: EntryView)
    ensures
        entry_bytes(e).len() == 32 + encode_utf8(e.name).len(),
{
}

/// The bytes of a list with one more entry at its end end with that entry's bytes.
proof fn lemma_entries_bytes_append(es: Seq<EntryView>, e: EntryView)
    ensures
        entries_bytes(es.push(e)) == entries_bytes(es) + entry_bytes(e),
    decreases es.len(),
{
    if es.len() == 0 {
        assert(es.push(e).drop_first() =~= Seq::<EntryView>::empty());
        assert(entries_bytes(es.push(e).drop_first()) =~= Seq::<u8>::empty());
        assert(entries_bytes(es) =~= Seq::<u8>::empty());
        assert(es.push(e)[0] == e);
        assert(entries_bytes(es.push(e)) =~= entries_bytes(es) + entry_bytes(e));
    } else {
        lemma_entries_bytes_append(es.drop_first(), e);
        assert(es.push(e).drop_first() =~= es.drop_first().push(e));
        assert(entries_bytes(es.push(e)) =~= entries_bytes(es) + entry_bytes(e));
    }
}

/// The key stream that an archive's index is encrypted with: that of the CRC-32 of the
/// archive's name.
pub fn index_key(name: &str) -> (key: [u8; 16])
    ensures
        key@ == key_bytes(crc32_of(encode_utf8(name@))),
{
    key_gen(crc32(name.as_bytes()))
}

/// The entry of `ver0102.dat` at `offset`, keyed with `seed`, and its payload encrypted
/// with that key's stream.
pub fn ver0102_entry(seed: u32, offset: u64) -> (r: (Entry, Vec<u8>))
    ensures
        r.0@ == (EntryView {
            flags: flags_of_storage(Storage::Stored),
            key: seed,
            raw_size: 63,
            stored_size: 63,
            offset,
            name_len: 11,
            name: r.0@.name,
        }),
        r.0@.name == "ver0102.dat"@,
        r.1@ == xor_stream(key_bytes(seed), 0, VER0102_DATA@),
{
    let mut data = slice_to_vec(VER0102_DATA.as_slice());
    apply_key(data.as_mut_slice(), &key_gen(seed));
    let name = "ver0102.dat";
    proof {
        reveal_strlit("ver0102.dat");
        vstd::utf8::is_ascii_chars_encode_utf8(name@);
    }
    let e = Entry::new(Storage::Stored, seed, 63, 63, offset, name.to_owned());
    (e, data)
}

} // verus!
