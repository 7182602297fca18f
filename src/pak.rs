//! The PAK container: a `u32` entry count, a directory table of fixed
//! 108-byte records, then the members' bytes, back to back.

use vstd::prelude::*;

use crate::bytes::{le32, lemma_le32_len, lemma_u32_at_le32, push_u32, read_u32, u32_at};

verus! {

/// Length of one directory record.
pub const RECORD_LEN: usize = 108;

/// Length of the name field at the start of a record.
pub const NAME_FIELD: usize = 100;

/// The byte that fills a name field after the name's terminator.
pub const PADDING: u8 = 0xCC;

/// A member as the archive holds it: its name and its bytes.
pub type MemberModel = (Seq<u8>, Seq<u8>);

// ---------------------------------------------------------------------------
// Encoding, as a function of the member list.

/// The sum of the member lengths.
pub open spec fn total_len(ms: Seq<MemberModel>) -> nat
    decreases ms.len(),
{
    if ms.len() == 0 {
        0
    } else {
        total_len(ms.drop_last()) + ms.last().1.len()
    }
}

/// Where member `i` starts in the data section: the lengths of those before it.
pub open spec fn member_offset(ms: Seq<MemberModel>, i: int) -> int {
    total_len(ms.take(i)) as int
}

/// One directory record: the name, its terminator, `PADDING` up to the end of
/// the name field, then the offset and size.
pub open spec fn record_bytes(name: Seq<u8>, offset: u32, size: u32) -> Seq<u8> {
    name + seq![0u8] + Seq::new((99 - name.len()) as nat, |j: int| PADDING) + le32(offset) + le32(
        size,
    )
}

/// The directory table for a member list, in its order.
pub open spec fn table_bytes(ms: Seq<MemberModel>) -> Seq<u8>
    decreases ms.len(),
{
    if ms.len() == 0 {
        Seq::empty()
    } else {
        table_bytes(ms.drop_last()) + record_bytes(
            ms.last().0,
            total_len(ms.drop_last()) as u32,
            ms.last().1.len() as u32,
        )
    }
}

/// The data section: the members' bytes, back to back.
pub open spec fn data_bytes(ms: Seq<MemberModel>) -> Seq<u8>
    decreases ms.len(),
{
    if ms.len() == 0 {
        Seq::empty()
    } else {
        data_bytes(ms.drop_last()) + ms.last().1
    }
}

/// The archive that holds `ms` in this order.
pub open spec fn encode_spec(ms: Seq<MemberModel>) -> Seq<u8> {
    le32(ms.len() as u32) + table_bytes(ms) + data_bytes(ms)
}

/// A name that fits a record: at most 99 bytes, none of them nul.
pub open spec fn name_fits(name: Seq<u8>) -> bool {
    &&& name.len() < NAME_FIELD
    &&& forall|j: int| 0 <= j < name.len() ==> name[j] != 0
}

/// Every name is shorter than the name field.
pub open spec fn names_short(ms: Seq<MemberModel>) -> bool {
    forall|i: int| 0 <= i < ms.len() ==> (#[trigger] ms[i]).0.len() < NAME_FIELD
}

/// A member list that an archive can hold: every count and offset fits a `u32`.
pub open spec fn members_valid(ms: Seq<MemberModel>) -> bool {
    &&& ms.len() <= u32::MAX
    &&& total_len(ms) <= u32::MAX
    &&& forall|i: int| 0 <= i < ms.len() ==> name_fits(#[trigger] ms[i].0)
}

/// A valid archive: the encoding of a valid member list. Its data section is
/// exactly the members' bytes, in table order, and every name field is padded
/// with `PADDING`.
pub open spec fn valid_archive(a: Seq<u8>) -> bool {
    exists|ms: Seq<MemberModel>| members_valid(ms) && a == encode_spec(ms)
}

// ---------------------------------------------------------------------------
// Decoding, as functions of the archive's bytes.

/// The declared number of entries.
pub open spec fn entry_count(a: Seq<u8>) -> nat {
    u32_at(a, 0) as nat
}

/// Where the directory record of entry `i` starts.
pub open spec fn record_start(i: int) -> int {
    4 + RECORD_LEN * i
}

/// Where the data section starts: right after the table.
pub open spec fn data_start(a: Seq<u8>) -> int {
    record_start(entry_count(a) as int)
}

/// `k` is the position of the first nul in the name field at `rs`.
pub open spec fn is_name_len(a: Seq<u8>, rs: int, k: int) -> bool {
    &&& 0 <= k < NAME_FIELD
    &&& a[rs + k] == 0
    &&& forall|j: int| 0 <= j < k ==> #[trigger] a[rs + j] != 0
}

/// The name field of entry `i` holds a terminator.
pub open spec fn record_has_name(a: Seq<u8>, i: int) -> bool {
    exists|k: int| is_name_len(a, record_start(i), k)
}

/// The length of the name of entry `i`.
pub open spec fn name_len(a: Seq<u8>, i: int) -> int {
    choose|k: int| is_name_len(a, record_start(i), k)
}

/// The name of entry `i`: its name field up to the first nul.
pub open spec fn entry_name(a: Seq<u8>, i: int) -> Seq<u8> {
    a.subrange(record_start(i), record_start(i) + name_len(a, i))
}

/// The stored offset of entry `i`, relative to the data section.
pub open spec fn entry_offset(a: Seq<u8>, i: int) -> u32 {
    u32_at(a, record_start(i) + NAME_FIELD)
}

/// The stored size of entry `i`.
pub open spec fn entry_size(a: Seq<u8>, i: int) -> u32 {
    u32_at(a, record_start(i) + NAME_FIELD + 4)
}

/// Where the bytes of entry `i` start in the archive.
pub open spec fn entry_start(a: Seq<u8>, i: int) -> int {
    data_start(a) + entry_offset(a, i)
}

/// The count, the whole table, and a terminator in every name field are there.
pub open spec fn directory_readable(a: Seq<u8>) -> bool {
    &&& 4 <= a.len()
    &&& data_start(a) <= a.len()
    &&& forall|i: int| 0 <= i < entry_count(a) ==> #[trigger] record_has_name(a, i)
}

/// Every entry's bytes lie inside the archive.
pub open spec fn payloads_in_bounds(a: Seq<u8>) -> bool {
    forall|i: int|
        0 <= i < entry_count(a) ==> #[trigger] entry_start(a, i) + entry_size(a, i) <= a.len()
}

/// The bytes of entry `i`.
pub open spec fn entry_payload(a: Seq<u8>, i: int) -> Seq<u8> {
    a.subrange(entry_start(a, i), entry_start(a, i) + entry_size(a, i))
}

/// The members of an archive, in table order.
pub open spec fn decode_spec(a: Seq<u8>) -> Seq<MemberModel> {
    Seq::new(entry_count(a), |i: int| (entry_name(a, i), entry_payload(a, i)))
}

// ---------------------------------------------------------------------------
// How the two relate.

pub proof fn lemma_take_drop_last(ms: Seq<MemberModel>, i: int)
    requires
        0 <= i < ms.len(),
    ensures
        ms.drop_last().take(i) == ms.take(i),
        ms.take(i + 1).drop_last() == ms.take(i),
        ms.take(i + 1).last() == ms[i],
{
    assert(ms.drop_last().take(i) =~= ms.take(i));
    assert(ms.take(i + 1).drop_last() =~= ms.take(i));
}

pub proof fn lemma_data_len(ms: Seq<MemberModel>)
    ensures
        data_bytes(ms).len() == total_len(ms),
    decreases ms.len(),
{
    if ms.len() > 0 {
        lemma_data_len(ms.drop_last());
    }
}

pub proof fn lemma_lengths(ms: Seq<MemberModel>)
    requires
        names_short(ms),
    ensures
        table_bytes(ms).len() == RECORD_LEN * ms.len(),
        data_bytes(ms).len() == total_len(ms),
    decreases ms.len(),
{
    lemma_data_len(ms);
    if ms.len() > 0 {
        let prev = ms.drop_last();
        assert(names_short(prev)) by {
            assert forall|i: int| 0 <= i < prev.len() implies (#[trigger] prev[i]).0.len()
                < NAME_FIELD by {
                assert(prev[i] == ms[i]);
            }
        }
        lemma_lengths(prev);
        assert(ms[ms.len() - 1] == ms.last());
        lemma_record_len(ms.last().0, total_len(prev) as u32, ms.last().1.len() as u32);
    }
}

/// The sizes before member `i`, and member `i`, add up to no more than the total.
pub proof fn lemma_offset_bound(ms: Seq<MemberModel>, i: int)
    requires
        0 <= i < ms.len(),
    ensures
        member_offset(ms, i) + ms[i].1.len() <= total_len(ms),
    decreases ms.len(),
{
    if i == ms.len() - 1 {
        assert(ms.take(i) =~= ms.drop_last());
    } else {
        lemma_offset_bound(ms.drop_last(), i);
        lemma_take_drop_last(ms, i);
    }
}

/// Record `i` of the table.
pub proof fn lemma_table_record(ms: Seq<MemberModel>, i: int)
    requires
        0 <= i < ms.len(),
        names_short(ms),
    ensures
        table_bytes(ms).subrange(RECORD_LEN * i, RECORD_LEN * i + RECORD_LEN) == record_bytes(
            ms[i].0,
            member_offset(ms, i) as u32,
            ms[i].1.len() as u32,
        ),
    decreases ms.len(),
{
    let prev = ms.drop_last();
    assert(names_short(prev)) by {
        assert forall|j: int| 0 <= j < prev.len() implies (#[trigger] prev[j]).0.len()
            < NAME_FIELD by {
            assert(prev[j] == ms[j]);
        }
    }
    lemma_lengths(prev);
    if i == ms.len() - 1 {
        assert(ms.take(i) =~= prev);
        let rec = record_bytes(ms[i].0, member_offset(ms, i) as u32, ms[i].1.len() as u32);
        assert(table_bytes(ms) == table_bytes(prev) + rec);
        lemma_record_len(ms[i].0, member_offset(ms, i) as u32, ms[i].1.len() as u32);
        assert(table_bytes(ms).subrange(RECORD_LEN * i, RECORD_LEN * i + RECORD_LEN) =~= rec);
    } else {
        lemma_table_record(prev, i);
        lemma_take_drop_last(ms, i);
        assert(RECORD_LEN * i + RECORD_LEN <= RECORD_LEN * prev.len()) by (nonlinear_arith)
            requires
                i < prev.len(),
        ;
        assert(table_bytes(ms).subrange(RECORD_LEN * i, RECORD_LEN * i + RECORD_LEN)
            =~= table_bytes(prev).subrange(RECORD_LEN * i, RECORD_LEN * i + RECORD_LEN));
    }
}

/// Member `i` of the data section.
pub proof fn lemma_data_member(ms: Seq<MemberModel>, i: int)
    requires
        0 <= i < ms.len(),
    ensures
        data_bytes(ms).subrange(
            member_offset(ms, i),
            member_offset(ms, i) + ms[i].1.len(),
        ) == ms[i].1,
    decreases ms.len(),
{
    let prev = ms.drop_last();
    lemma_data_len(prev);
    if i == ms.len() - 1 {
        assert(ms.take(i) =~= prev);
        assert(data_bytes(ms).subrange(
            member_offset(ms, i),
            member_offset(ms, i) + ms[i].1.len(),
        ) =~= ms[i].1);
    } else {
        lemma_data_member(prev, i);
        lemma_take_drop_last(ms, i);
        lemma_offset_bound(prev, i);
        assert(data_bytes(ms).subrange(
            member_offset(ms, i),
            member_offset(ms, i) + ms[i].1.len(),
        ) =~= data_bytes(prev).subrange(
            member_offset(ms, i),
            member_offset(ms, i) + ms[i].1.len(),
        ));
    }
}

pub proof fn lemma_record_len(name: Seq<u8>, offset: u32, size: u32)
    requires
        name.len() < NAME_FIELD,
    ensures
        record_bytes(name, offset, size).len() == RECORD_LEN,
{
    lemma_le32_len(offset);
    lemma_le32_len(size);
}


/// The fields of record `i` of a valid encoding, read back.
proof fn lemma_encoded_entry(ms: Seq<MemberModel>, i: int)
    requires
        members_valid(ms),
        0 <= i < ms.len(),
        entry_count(encode_spec(ms)) == ms.len(),
    ensures
        record_has_name(encode_spec(ms), i),
        entry_name(encode_spec(ms), i) == ms[i].0,
        entry_offset(encode_spec(ms), i) == member_offset(ms, i),
        entry_size(encode_spec(ms), i) == ms[i].1.len(),
        entry_start(encode_spec(ms), i) + entry_size(encode_spec(ms), i) <= encode_spec(
            ms,
        ).len(),
        entry_payload(encode_spec(ms), i) == ms[i].1,
{
    let a = encode_spec(ms);
    let n = ms.len() as int;
    let t = table_bytes(ms);
    let d = data_bytes(ms);
    let name = ms[i].0;
    assert(name_fits(name));
    assert(names_short(ms));
    lemma_lengths(ms);
    lemma_le32_len(n as u32);
    lemma_offset_bound(ms, i);
    let off = member_offset(ms, i);
    let size = ms[i].1.len();
    let rec = record_bytes(name, off as u32, size as u32);
    lemma_table_record(ms, i);
    lemma_record_len(name, off as u32, size as u32);
    let rs = record_start(i);
    assert(RECORD_LEN * i + RECORD_LEN <= RECORD_LEN * n) by (nonlinear_arith)
        requires
            i < n,
    ;
    assert(a.subrange(rs, rs + RECORD_LEN as int) =~= t.subrange(
        RECORD_LEN * i,
        RECORD_LEN * i + RECORD_LEN,
    ));
    assert forall|j: int| 0 <= j < RECORD_LEN implies #[trigger] a[rs + j] == rec[j] by {
        assert(a.subrange(rs, rs + RECORD_LEN as int)[j] == a[rs + j]);
    }
    // The name and its terminator.
    let len = name.len() as int;
    assert forall|j: int| 0 <= j < len implies #[trigger] a[rs + j] == name[j] by {
        assert(rec[j] == name[j]);
    }
    assert(rec[len] == 0u8);
    assert(is_name_len(a, rs, len));
    let k = name_len(a, i);
    assert(is_name_len(a, rs, k));
    if k < len {
        assert(a[rs + k] == name[k]);
    }
    if len < k {
        assert(a[rs + len] != 0);
    }
    assert(k == len);
    assert(entry_name(a, i) =~= name);
    // The offset and the size.
    let head = name + seq![0u8] + Seq::new((99 - len) as nat, |j: int| PADDING);
    assert(head.len() == NAME_FIELD);
    lemma_le32_len(off as u32);
    assert(rec == head + le32(off as u32) + le32(size as u32));
    assert(rec.subrange(100, 104) =~= le32(off as u32));
    assert(rec.subrange(104, 108) =~= le32(size as u32));
    assert(a.subrange(rs + NAME_FIELD, rs + NAME_FIELD + 4) =~= rec.subrange(100, 104));
    lemma_u32_at_le32(a, rs + NAME_FIELD, off as u32);
    assert(a.subrange(rs + NAME_FIELD + 4, rs + NAME_FIELD + 8) =~= rec.subrange(104, 108));
    lemma_u32_at_le32(a, rs + NAME_FIELD + 4, size as u32);
    // The payload.
    lemma_data_member(ms, i);
    assert(entry_payload(a, i) =~= d.subrange(off, off + size));
}

/// Decoding the encoding of a valid member list gives the list back: its
/// table is readable, every member lies inside it, and names, order and bytes
/// are those that were encoded.
pub proof fn lemma_decode_encode(ms: Seq<MemberModel>)
    requires
        members_valid(ms),
    ensures
        directory_readable(encode_spec(ms)),
        payloads_in_bounds(encode_spec(ms)),
        decode_spec(encode_spec(ms)) == ms,
{
    let a = encode_spec(ms);
    let n = ms.len();
    assert(names_short(ms));
    lemma_lengths(ms);
    lemma_le32_len(n as u32);
    assert(a.subrange(0, 4) =~= le32(n as u32));
    lemma_u32_at_le32(a, 0, n as u32);
    assert(entry_count(a) == n);
    assert forall|i: int| 0 <= i < entry_count(a) implies #[trigger] record_has_name(a, i) by {
        lemma_encoded_entry(ms, i);
    }
    assert forall|i: int| 0 <= i < entry_count(a) implies #[trigger] entry_start(a, i)
        + entry_size(a, i) <= a.len() by {
        lemma_encoded_entry(ms, i);
    }
    assert forall|i: int| 0 <= i < n implies #[trigger] decode_spec(a)[i] == ms[i] by {
        lemma_encoded_entry(ms, i);
    }
    assert(decode_spec(a) =~= ms);
}

/// Repacking what was unpacked gives the archive back byte for byte: for a
/// valid archive, encoding its decoded members in their decoded order
/// reproduces it.
pub proof fn lemma_repack_identity(a: Seq<u8>)
    requires
        valid_archive(a),
    ensures
        directory_readable(a),
        payloads_in_bounds(a),
        encode_spec(decode_spec(a)) == a,
{
    let ms = choose|ms: Seq<MemberModel>| members_valid(ms) && a == encode_spec(ms);
    lemma_decode_encode(ms);
}


/// The first nul in a name field is unique.
proof fn lemma_name_len_unique(a: Seq<u8>, i: int, k: int)
    requires
        is_name_len(a, record_start(i), k),
    ensures
        record_has_name(a, i),
        name_len(a, i) == k,
{
    let rs = record_start(i);
    let c = name_len(a, i);
    assert(is_name_len(a, rs, c));
    if c < k {
        assert(a[rs + c] != 0);
    }
    if k < c {
        assert(a[rs + k] != 0);
    }
}

// ---------------------------------------------------------------------------
// Executable codec.

/// A directory entry as read from an archive.
#[derive(Debug, Clone)]
pub struct FileEntry {
    /// The member's path, forward-slash separated, without its terminator.
    pub file_name: Vec<u8>,
    /// Where its bytes start, counted from the start of the data section.
    pub offset: u32,
    /// How many bytes it holds.
    pub size: u32,
    /// Where its bytes start, counted from the start of the archive.
    pub start: u64,
}

/// The directory of an archive.
#[derive(Debug, Clone)]
pub struct Directory {
    pub entry_count: u32,
    pub entries: Vec<FileEntry>,
    /// The first byte after the table.
    pub data_start: usize,
}

/// Why an archive could not be read.
#[derive(Debug, Clone, Copy, PartialEq, Eq, Structural)]
pub enum PakError {
    /// The count, the table, or a name terminator is missing.
    MalformedHeader,
    /// An entry's bytes reach past the end of the archive.
    TruncatedPayload,
}

/// How an entry of size zero is read.
#[derive(Debug, Clone, Copy, PartialEq, Eq, Structural)]
pub enum ZeroSizeRule {
    /// As an empty member.
    Empty,
    /// As everything from its start to the end of the archive, as one
    /// revision of the format did.
    ToEnd,
}

/// A member to be packed: its path and its bytes.
#[derive(Debug, Clone)]
pub struct Member {
    pub name: Vec<u8>,
    pub data: Vec<u8>,
}

/// What an entry of `d` says, read from `a`.
pub open spec fn entry_decoded(a: Seq<u8>, d: Directory, i: int) -> bool {
    &&& d.entries@[i].file_name@ == entry_name(a, i)
    &&& d.entries@[i].offset == entry_offset(a, i)
    &&& d.entries@[i].size == entry_size(a, i)
    &&& d.entries@[i].start == entry_start(a, i)
}

/// `d` is the directory of `a`.
pub open spec fn decoded_as(a: Seq<u8>, d: Directory) -> bool {
    &&& d.entry_count == entry_count(a)
    &&& d.data_start == data_start(a)
    &&& d.entries@.len() == entry_count(a)
    &&& forall|i: int| 0 <= i < entry_count(a) ==> #[trigger] entry_decoded(a, d, i)
}

/// The members of `ms`, as the archive sees them.
pub open spec fn members_model(ms: Seq<Member>) -> Seq<MemberModel> {
    ms.map_values(|m: Member| (m.name@, m.data@))
}

/// Reads the directory of an archive: the entry count, one record of
/// `RECORD_LEN` bytes per entry, each entry's name up to its first nul, and
/// its offset and size. The table is read whole before any entry is checked
/// against the archive's length.
pub fn parse_boxes(archive: &[u8]) -> (r: Result<Directory, PakError>)
    ensures
        r is Ok <==> directory_readable(archive@) && payloads_in_bounds(archive@),
        r == Err::<Directory, PakError>(PakError::MalformedHeader) <==> !directory_readable(
            archive@,
        ),
        r matches Ok(d) ==> decoded_as(archive@, d),
{
    let ghost a = archive@;
    let len = archive.len();
    if len < 4 {
        return Err(PakError::MalformedHeader);
    }
    let count = read_u32(archive, 0);
    let table_end: u64 = 4 + 108 * (count as u64);
    if table_end > archive.len() as u64 {
        return Err(PakError::MalformedHeader);
    }
    let ds = table_end as usize;
    let mut entries: Vec<FileEntry> = Vec::new();
    let mut i: usize = 0;
    while i < count as usize
        invariant
            a == archive@,
            len == a.len(),
            count == entry_count(a),
            ds == data_start(a),
            ds <= a.len(),
            i <= count,
            entries@.len() == i,
            forall|j: int| 0 <= j < i ==> #[trigger] record_has_name(a, j),
            forall|j: int|
                0 <= j < i ==> #[trigger] entry_decoded(
                    a,
                    Directory { entry_count: count, entries, data_start: ds },
                    j,
                ),
        decreases count - i,
    {
        assert(RECORD_LEN * i + RECORD_LEN <= RECORD_LEN * count) by (nonlinear_arith)
            requires
                i < count,
        ;
        let rs: usize = 4 + 108 * i;
        let mut k: usize = 0;
        while k < NAME_FIELD && archive[rs + k] != 0
            invariant
                a == archive@,
                len == a.len(),
                rs + RECORD_LEN <= a.len(),
                rs == record_start(i as int),
                k <= NAME_FIELD,
                forall|j: int| 0 <= j < k ==> #[trigger] a[rs + j] != 0,
            decreases NAME_FIELD - k,
        {
            k = k + 1;
        }
        if k == NAME_FIELD {
            assert(!record_has_name(a, i as int)) by {
                if record_has_name(a, i as int) {
                    let w = choose|w: int| is_name_len(a, rs as int, w);
                    assert(a[rs + w] != 0);
                }
            }
            return Err(PakError::MalformedHeader);
        }
        proof {
            lemma_name_len_unique(a, i as int, k as int);
        }
        let mut file_name: Vec<u8> = Vec::new();
        let mut j: usize = 0;
        while j < k
            invariant
                a == archive@,
                len == a.len(),
                rs + RECORD_LEN <= a.len(),
                k < NAME_FIELD,
                j <= k,
                file_name@ == a.subrange(rs as int, rs + j),
            decreases k - j,
        {
            file_name.push(archive[rs + j]);
            j = j + 1;
            assert(file_name@ =~= a.subrange(rs as int, rs + j));
        }
        let offset = read_u32(archive, rs + NAME_FIELD);
        let size = read_u32(archive, rs + NAME_FIELD + 4);
        let start = ds as u64 + offset as u64;
        let ghost before = entries;
        entries.push(FileEntry { file_name, offset, size, start });
        i = i + 1;
        assert forall|j: int| 0 <= j < i implies #[trigger] entry_decoded(
            a,
            Directory { entry_count: count, entries, data_start: ds },
            j,
        ) by {
            if j < i - 1 {
                assert(entries@[j] == before@[j]);
                assert(entry_decoded(a, Directory { entry_count: count, entries: before, data_start: ds }, j));
            }
        }
    }
    let dir = Directory { entry_count: count, entries, data_start: ds };
    assert(directory_readable(a));
    assert(decoded_as(a, dir));
    let mut i: usize = 0;
    while i < count as usize
        invariant
            a == archive@,
            directory_readable(a),
            decoded_as(a, dir),
            count == dir.entry_count,
            i <= count,
            forall|j: int|
                0 <= j < i ==> #[trigger] entry_start(a, j) + entry_size(a, j) <= a.len(),
        decreases count - i,
    {
        assert(entry_decoded(a, dir, i as int));
        let e = &dir.entries[i];
        if e.start + e.size as u64 > archive.len() as u64 {
            return Err(PakError::TruncatedPayload);
        }
        i = i + 1;
    }
    Ok(dir)
}

/// The bytes of one entry. Under `ZeroSizeRule::ToEnd` an entry of size zero
/// reads everything from its start to the end of the archive.
pub fn extract_member(archive: &[u8], entry: &FileEntry, rule: ZeroSizeRule) -> (r: Vec<u8>)
    requires
        entry.start + entry.size <= archive@.len(),
    ensures
        rule == ZeroSizeRule::ToEnd && entry.size == 0 ==> r@ == archive@.subrange(
            entry.start as int,
            archive@.len() as int,
        ),
        rule == ZeroSizeRule::Empty || entry.size > 0 ==> r@ == archive@.subrange(
            entry.start as int,
            entry.start + entry.size,
        ),
{
    let len = archive.len();
    let start = entry.start as usize;
    let end = if entry.size == 0 && rule == ZeroSizeRule::ToEnd {
        len
    } else {
        (entry.start + entry.size as u64) as usize
    };
    let mut out: Vec<u8> = Vec::new();
    let mut j: usize = start;
    while j < end
        invariant
            start <= j <= end,
            end <= archive@.len(),
            out@ == archive@.subrange(start as int, j as int),
        decreases end - j,
    {
        out.push(archive[j]);
        j = j + 1;
        assert(out@ =~= archive@.subrange(start as int, j as int));
    }
    out
}

/// Appends one directory record.
fn push_record(out: &mut Vec<u8>, name: &Vec<u8>, offset: u32, size: u32)
    requires
        name@.len() < NAME_FIELD,
    ensures
        final(out)@ == old(out)@ + record_bytes(name@, offset, size),
{
    let ghost start = out@;
    let mut j: usize = 0;
    while j < name.len()
        invariant
            out@ == start + name@.subrange(0, j as int),
            j <= name@.len(),
        decreases name@.len() - j,
    {
        out.push(name[j]);
        j = j + 1;
        assert(out@ =~= start + name@.subrange(0, j as int));
    }
    assert(name@.subrange(0, name@.len() as int) =~= name@);
    out.push(0u8);
    let ghost head = out@;
    let pad: usize = 99 - name.len();
    let mut p: usize = 0;
    while p < pad
        invariant
            p <= pad,
            out@ == head + Seq::new(p as nat, |q: int| PADDING),
        decreases pad - p,
    {
        out.push(PADDING);
        p = p + 1;
        assert(out@ =~= head + Seq::new(p as nat, |q: int| PADDING));
    }
    push_u32(out, offset);
    push_u32(out, size);
    assert(out@ =~= start + record_bytes(name@, offset, size));
}

/// Builds an archive from its members, in the order given: the count, one
/// record per member whose offset is the sum of the sizes before it, then
/// the members' bytes back to back.
pub fn encode_archive(members: &Vec<Member>) -> (r: Vec<u8>)
    requires
        members_valid(members_model(members@)),
    ensures
        r@ == encode_spec(members_model(members@)),
{
    let ghost ms = members_model(members@);
    let n = members.len();
    let mut out: Vec<u8> = Vec::new();
    push_u32(&mut out, n as u32);
    assert(ms.take(0) =~= Seq::<MemberModel>::empty());
    let mut offset: u32 = 0;
    let mut i: usize = 0;
    while i < n
        invariant
            n == members@.len(),
            ms == members_model(members@),
            members_valid(ms),
            i <= n,
            offset == total_len(ms.take(i as int)),
            out@ == le32(n as u32) + table_bytes(ms.take(i as int)),
        decreases n - i,
    {
        let m = &members[i];
        assert(ms[i as int] == (m.name@, m.data@));
        assert(name_fits(ms[i as int].0));
        proof {
            lemma_take_drop_last(ms, i as int);
            lemma_offset_bound(ms, i as int);
        }
        push_record(&mut out, &m.name, offset, m.data.len() as u32);
        offset = offset + m.data.len() as u32;
        i = i + 1;
        assert(out@ =~= le32(n as u32) + table_bytes(ms.take(i as int)));
    }
    assert(ms.take(n as int) =~= ms);
    let mut i: usize = 0;
    while i < n
        invariant
            n == members@.len(),
            ms == members_model(members@),
            i <= n,
            out@ == le32(n as u32) + table_bytes(ms) + data_bytes(ms.take(i as int)),
        decreases n - i,
    {
        let m = &members[i];
        assert(ms[i as int] == (m.name@, m.data@));
        proof {
            lemma_take_drop_last(ms, i as int);
        }
        let ghost before = out@;
        let mut j: usize = 0;
        while j < m.data.len()
            invariant
                j <= m.data@.len(),
                out@ == before + m.data@.subrange(0, j as int),
            decreases m.data@.len() - j,
        {
            out.push(m.data[j]);
            j = j + 1;
            assert(out@ =~= before + m.data@.subrange(0, j as int));
        }
        assert(m.data@.subrange(0, m.data@.len() as int) =~= m.data@);
        i = i + 1;
        assert(out@ =~= le32(n as u32) + table_bytes(ms) + data_bytes(ms.take(i as int)));
    }
    assert(ms.take(n as int) =~= ms);
    out
}


/// Why a member list cannot be packed.
#[derive(Debug, Clone, Copy, PartialEq, Eq, Structural)]
pub enum PackError {
    /// More members than a `u32` counts.
    TooManyMembers,
    /// The name of this member, the first such, is 100 bytes or longer or holds a nul.
    BadName(usize),
    /// The members' bytes add up to more than a `u32` offset reaches.
    TooLarge,
}

/// `i` is the first member whose name does not fit a record.
pub open spec fn first_bad_name(ms: Seq<MemberModel>, i: int) -> bool {
    &&& 0 <= i < ms.len()
    &&& !name_fits(ms[i].0)
    &&& forall|j: int| 0 <= j < i ==> name_fits(#[trigger] ms[j].0)
}

/// Whether `name` fits a record.
fn check_name(name: &Vec<u8>) -> (r: bool)
    ensures
        r == name_fits(name@),
{
    if name.len() >= NAME_FIELD {
        return false;
    }
    let mut j: usize = 0;
    while j < name.len()
        invariant
            j <= name@.len(),
            forall|q: int| 0 <= q < j ==> name@[q] != 0,
        decreases name@.len() - j,
    {
        if name[j] == 0 {
            return false;
        }
        j = j + 1;
    }
    true
}

/// Builds an archive from its members, in the order given, after checking
/// that they fit one: at most `u32::MAX` members, every name under 100 bytes
/// and free of nul, and all bytes together addressable by a `u32` offset.
pub fn pack(members: &Vec<Member>) -> (r: Result<Vec<u8>, PackError>)
    ensures
        r is Ok <==> members_valid(members_model(members@)),
        r matches Ok(b) ==> b@ == encode_spec(members_model(members@)),
        r == Err::<Vec<u8>, PackError>(PackError::TooManyMembers) <==> members@.len() > u32::MAX,
        r matches Err(PackError::BadName(i)) ==> members@.len() <= u32::MAX && first_bad_name(
            members_model(members@),
            i as int,
        ),
        r == Err::<Vec<u8>, PackError>(PackError::TooLarge) <==> members@.len() <= u32::MAX
            && (forall|i: int|
            0 <= i < members@.len() ==> name_fits(#[trigger] members_model(members@)[i].0))
            && total_len(members_model(members@)) > u32::MAX,
{
    let ghost ms = members_model(members@);
    let n = members.len();
    if n > u32::MAX as usize {
        return Err(PackError::TooManyMembers);
    }
    let mut i: usize = 0;
    while i < n
        invariant
            n == members@.len(),
            n <= u32::MAX,
            ms == members_model(members@),
            i <= n,
            forall|j: int| 0 <= j < i ==> name_fits(#[trigger] ms[j].0),
        decreases n - i,
    {
        assert(ms[i as int].0 == members@[i as int].name@);
        if !check_name(&members[i].name) {
            return Err(PackError::BadName(i));
        }
        i = i + 1;
    }
    let mut total: u64 = 0;
    let mut i: usize = 0;
    assert(ms.take(0) =~= Seq::<MemberModel>::empty());
    while i < n
        invariant
            n == members@.len(),
            n <= u32::MAX,
            ms == members_model(members@),
            forall|j: int| 0 <= j < n ==> name_fits(#[trigger] ms[j].0),
            i <= n,
            total == total_len(ms.take(i as int)),
            total <= u32::MAX,
        decreases n - i,
    {
        assert(ms[i as int].1 == members@[i as int].data@);
        proof {
            lemma_take_drop_last(ms, i as int);
        }
        let size = members[i].data.len() as u64;
        if size > u32::MAX as u64 - total {
            proof {
                lemma_offset_bound(ms, i as int);
            }
            return Err(PackError::TooLarge);
        }
        total = total + size;
        i = i + 1;
    }
    assert(ms.take(n as int) =~= ms);
    Ok(encode_archive(members))
}

} // verus!
