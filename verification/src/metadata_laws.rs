//! What the meta data of a file is.

use crate::element_laws::{number_at, numbers_are_little_endian, signed};
use crate::file_info::InfoView;
use crate::laws::exact_reads;
use crate::metadata::{block_entries, entry_header_at, first_with_key, utf8_lossy, EntryView};
use crate::opening_laws::signed_numbers;
use crate::source::{large_entries, large_metadata_of, metadata_of, small_metadata_of};
use crate::stream::Stream;
use crate::types::MetaDataType;
use crate::zlib::inflated;
use vstd::prelude::*;
use vstd::utf8::{decode_utf8, valid_utf8};

verus! {

/// Start of entry `k` of a block of entries.  An entry is a byte with the
/// length of its key, the key, a byte with its type and four with the size of
/// its value; then comes the value, or in the header of the large meta data
/// (`large`) four bytes with the compressed size of the value.
pub open spec fn entry_start(b: Seq<u8>, large: bool, k: nat) -> int
    decreases k,
{
    if k == 0 {
        0
    } else {
        let at = entry_start(b, large, (k - 1) as nat);
        at + 1 + b[at] + 1 + 4 + if large {
            4
        } else {
            number_at(b, at + b[at] + 2, 4) as int
        }
    }
}

/// Sum of the compressed sizes of the values of the first `k` entries that the
/// header of the large meta data lists.
pub open spec fn zipped_before(b: Seq<u8>, k: nat) -> nat
    decreases k,
{
    if k == 0 {
        0
    } else {
        let at = entry_start(b, true, (k - 1) as nat);
        zipped_before(b, (k - 1) as nat) + number_at(b, at + b[at] + 6, 4)
    }
}

/// Key and type of an entry are those at `at`; the key is stored with a
/// terminating NUL.
pub open spec fn has_head(e: EntryView, b: Seq<u8>, at: int) -> bool {
    &&& b[at] > 0
    &&& e.key == utf8_lossy(b.subrange(at + 1, at + b[at]))
    &&& b[at + 1 + b[at]] == match e.data_type {
        MetaDataType::String => 0u8,
        MetaDataType::Int8 => 1u8,
        MetaDataType::Int16 => 2u8,
        MetaDataType::Int32 => 3u8,
        MetaDataType::Float => 4u8,
        MetaDataType::Double => 5u8,
    }
}

/// The entries of a block from entry `k` on.
proof fn lemma_small_entries(b: Seq<u8>, k: nat)
    requires
        0 <= entry_start(b, false, k) <= b.len(),
        block_entries(b, entry_start(b, false, k)).1 is None,
    ensures
        ({
            let es = block_entries(b, entry_start(b, false, k)).0;
            &&& entry_start(b, false, (k + es.len()) as nat) == b.len()
            &&& forall|j: int|
                0 <= j < es.len() ==> ({
                    let at = entry_start(b, false, (k + j) as nat);
                    let value = at + b[at] + 6;
                    let size = number_at(b, at + b[at] + 2, 4);
                    &&& 0 <= at < b.len()
                    &&& has_head(#[trigger] es[j], b, at)
                    &&& value + size <= b.len()
                    &&& es[j].data == b.subrange(value, value + size)
                })
        }),
    decreases b.len() - entry_start(b, false, k),
{
    let at = entry_start(b, false, k);
    if at < b.len() {
        let h = entry_header_at(b, at)->Ok_0;
        numbers_are_little_endian(b, at + b[at] + 2);
        let next = entry_start(b, false, k + 1);
        assert(next == h.next + h.datasize);
        lemma_small_entries(b, k + 1);
        let es = block_entries(b, at).0;
        let rest = block_entries(b, next).0;
        assert(es.len() == rest.len() + 1);
        assert forall|j: int| 0 <= j < es.len() implies ({
            let at = entry_start(b, false, (k + j) as nat);
            let value = at + b[at] + 6;
            let size = number_at(b, at + b[at] + 2, 4);
            &&& 0 <= at < b.len()
            &&& has_head(#[trigger] es[j], b, at)
            &&& value + size <= b.len()
            &&& es[j].data == b.subrange(value, value + size)
        }) by {
            if j > 0 {
                assert(es[j] == rest[j - 1]);
                assert((k + 1 + (j - 1)) as nat == (k + j) as nat);
            }
        }
        assert((k + 1 + rest.len()) as nat == (k + es.len()) as nat);
    }
}

/// The large entries from entry `k` on.
proof fn lemma_large_entries(f: Stream, b: Seq<u8>, start: int, k: nat)
    requires
        0 <= entry_start(b, true, k) <= b.len(),
        0 <= start,
        large_entries(f, b, entry_start(b, true, k), start + zipped_before(b, k)) is Ok,
    ensures
        ({
            let es = large_entries(
                f,
                b,
                entry_start(b, true, k),
                start + zipped_before(b, k),
            )->Ok_0;
            &&& entry_start(b, true, (k + es.len()) as nat) == b.len()
            &&& forall|j: int|
                0 <= j < es.len() ==> ({
                    let at = entry_start(b, true, (k + j) as nat);
                    let pos = start + zipped_before(b, (k + j) as nat);
                    let stored = f(pos as u64, number_at(b, at + b[at] + 6, 4) as usize);
                    &&& 0 <= at < b.len()
                    &&& has_head(#[trigger] es[j], b, at)
                    &&& pos <= u64::MAX
                    &&& stored is Some
                    &&& inflated(stored->0) == Ok::<Seq<u8>, Seq<char>>(es[j].data)
                    &&& es[j].data.len() == number_at(b, at + b[at] + 2, 4)
                })
        }),
    decreases b.len() - entry_start(b, true, k),
{
    let at = entry_start(b, true, k);
    let datapos = start + zipped_before(b, k);
    if at < b.len() {
        let h = entry_header_at(b, at)->Ok_0;
        numbers_are_little_endian(b, at + b[at] + 2);
        numbers_are_little_endian(b, at + b[at] + 6);
        let next = entry_start(b, true, k + 1);
        assert(next == h.next + 4);
        lemma_large_entries(f, b, start, k + 1);
        let es = large_entries(f, b, at, datapos)->Ok_0;
        let rest = large_entries(f, b, next, start + zipped_before(b, k + 1))->Ok_0;
        assert(es.len() == rest.len() + 1);
        assert forall|j: int| 0 <= j < es.len() implies ({
            let at = entry_start(b, true, (k + j) as nat);
            let pos = start + zipped_before(b, (k + j) as nat);
            let stored = f(pos as u64, number_at(b, at + b[at] + 6, 4) as usize);
            &&& 0 <= at < b.len()
            &&& has_head(#[trigger] es[j], b, at)
            &&& pos <= u64::MAX
            &&& stored is Some
            &&& inflated(stored->0) == Ok::<Seq<u8>, Seq<char>>(es[j].data)
            &&& es[j].data.len() == number_at(b, at + b[at] + 2, 4)
        }) by {
            if j > 0 {
                assert(es[j] == rest[j - 1]);
                assert((k + 1 + (j - 1)) as nat == (k + j) as nat);
            }
        }
        assert((k + 1 + rest.len()) as nat == (k + es.len()) as nat);
    }
}

/// The meta data of a file is the entries of the primary block, `n` of them,
/// in their order, then those that the header of the large meta data lists.
/// Both blocks are made up of entries from their first byte to their last.
/// The value of an entry of the primary block is stored in the block.  The
/// values of large entries are zip blocks of their own, the first of them
/// behind the header and every other one behind the one before it.
pub proof fn metadata_is_in_order(f: Stream, info: InfoView) -> (n: nat)
    requires
        exact_reads(f),
        metadata_of(f, info) is Ok,
    ensures
        ({
            let md = metadata_of(f, info)->Ok_0;
            let size = info.header.metadatamemsize;
            let stored = f(info.metadata_pos, info.header.metadatazipsize as usize);
            let b = inflated(stored->0);
            &&& n <= md.len()
            &&& size == 0 ==> n == 0
            &&& size > 0 ==> {
                &&& stored is Some
                &&& b is Ok
                &&& b->Ok_0.len() == size
                &&& entry_start(b->Ok_0, false, n) == size
                &&& forall|k: int|
                    0 <= k < n ==> ({
                        let at = entry_start(b->Ok_0, false, k as nat);
                        let value = at + b->Ok_0[at] + 6;
                        let len = number_at(b->Ok_0, at + b->Ok_0[at] + 2, 4);
                        &&& 0 <= at < size
                        &&& has_head(#[trigger] md[k], b->Ok_0, at)
                        &&& value + len <= size
                        &&& md[k].data == b->Ok_0.subrange(value, value + len)
                    })
            }
        }),
        ({
            let md = metadata_of(f, info)->Ok_0;
            let size = info.ext_header.lmdheadermemsize;
            let zipsize = info.ext_header.lmdheaderzipsize;
            let stored = f(info.lmdheader_pos, zipsize as usize);
            let b = inflated(stored->0);
            let start = info.lmdheader_pos + zipsize;
            &&& size == 0 ==> n == md.len()
            &&& size > 0 ==> {
                &&& stored is Some
                &&& b is Ok
                &&& b->Ok_0.len() == size
                &&& entry_start(b->Ok_0, true, (md.len() - n) as nat) == size
                &&& forall|k: int|
                    n <= k < md.len() ==> ({
                        let at = entry_start(b->Ok_0, true, (k - n) as nat);
                        let pos = start + zipped_before(b->Ok_0, (k - n) as nat);
                        let value = f(
                            pos as u64,
                            number_at(b->Ok_0, at + b->Ok_0[at] + 6, 4) as usize,
                        );
                        &&& 0 <= at < size
                        &&& has_head(#[trigger] md[k], b->Ok_0, at)
                        &&& pos <= u64::MAX
                        &&& value is Some
                        &&& inflated(value->0) == Ok::<Seq<u8>, Seq<char>>(md[k].data)
                        &&& md[k].data.len() == number_at(b->Ok_0, at + b->Ok_0[at] + 2, 4)
                    })
            }
        }),
{
    reveal(metadata_of);
    let md = metadata_of(f, info)->Ok_0;
    let small = small_metadata_of(f, info)->Ok_0;
    let large = large_metadata_of(f, info)->Ok_0;
    if info.header.metadatamemsize > 0 {
        let b = inflated(
            f(info.metadata_pos, info.header.metadatazipsize as usize)->0,
        )->Ok_0;
        lemma_small_entries(b, 0);
        assert forall|k: int| 0 <= k < small.len() implies ({
            let at = entry_start(b, false, k as nat);
            let value = at + b[at] + 6;
            let len = number_at(b, at + b[at] + 2, 4);
            &&& 0 <= at < b.len()
            &&& has_head(#[trigger] md[k], b, at)
            &&& value + len <= b.len()
            &&& md[k].data == b.subrange(value, value + len)
        }) by {
            assert(md[k] == small[k]);
            assert((0 + k) as nat == k as nat);
        }
    }
    if info.ext_header.lmdheadermemsize > 0 {
        let b = inflated(
            f(info.lmdheader_pos, info.ext_header.lmdheaderzipsize as usize)->0,
        )->Ok_0;
        let start = info.lmdheader_pos + info.ext_header.lmdheaderzipsize;
        lemma_large_entries(f, b, start, 0);
        assert forall|k: int| small.len() <= k < md.len() implies ({
            let at = entry_start(b, true, (k - small.len()) as nat);
            let pos = start + zipped_before(b, (k - small.len()) as nat);
            let value = f(pos as u64, number_at(b, at + b[at] + 6, 4) as usize);
            &&& 0 <= at < b.len()
            &&& has_head(#[trigger] md[k], b, at)
            &&& pos <= u64::MAX
            &&& value is Some
            &&& inflated(value->0) == Ok::<Seq<u8>, Seq<char>>(md[k].data)
            &&& md[k].data.len() == number_at(b, at + b[at] + 2, 4)
        }) by {
            assert(md[k] == large[k - small.len()]);
            assert((0 + (k - small.len())) as nat == (k - small.len()) as nat);
        }
    }
    small.len()
}

/// An entry that holds numbers gives them for its own type and no other, in the
/// order in which they are stored with the least significant byte first; a
/// number that is not complete does not count.
pub proof fn values_are_in_order(e: EntryView, i: int)
    ensures
        e.spec_as_i8() is Some <==> e.data_type is Int8,
        e.data_type is Int8 ==> e.spec_as_i8()->0.len() == e.data.len(),
        e.data_type is Int8 && 0 <= i < e.data.len() ==> e.spec_as_i8()->0[i] == signed(
            number_at(e.data, i, 1),
            8,
        ),
        e.spec_as_i16() is Some <==> e.data_type is Int16,
        e.data_type is Int16 ==> e.spec_as_i16()->0.len() == e.data.len() / 2,
        e.data_type is Int16 && 0 <= i && 2 * i + 2 <= e.data.len() ==> e.spec_as_i16()->0[i]
            == signed(number_at(e.data, 2 * i, 2), 16),
        e.spec_as_i32() is Some <==> e.data_type is Int32,
        e.data_type is Int32 ==> e.spec_as_i32()->0.len() == e.data.len() / 4,
        e.data_type is Int32 && 0 <= i && 4 * i + 4 <= e.data.len() ==> e.spec_as_i32()->0[i]
            == signed(number_at(e.data, 4 * i, 4), 32),
        e.spec_as_f32_bits() is Some <==> e.data_type is Float,
        e.data_type is Float ==> e.spec_as_f32_bits()->0.len() == e.data.len() / 4,
        e.data_type is Float && 0 <= i && 4 * i + 4 <= e.data.len() ==> e.spec_as_f32_bits()->0[i]
            == number_at(e.data, 4 * i, 4),
        e.spec_as_f64_bits() is Some <==> e.data_type is Double,
        e.data_type is Double ==> e.spec_as_f64_bits()->0.len() == e.data.len() / 8,
        e.data_type is Double && 0 <= i && 8 * i + 8 <= e.data.len()
            ==> e.spec_as_f64_bits()->0[i] == number_at(e.data, 8 * i, 8),
        e.spec_len() == e.data.len() / match e.data_type {
            MetaDataType::String => 1nat,
            MetaDataType::Int8 => 1nat,
            MetaDataType::Int16 => 2nat,
            MetaDataType::Int32 => 4nat,
            MetaDataType::Float => 4nat,
            MetaDataType::Double => 8nat,
        },
{
    reveal_with_fuel(number_at, 2);
    numbers_are_little_endian(e.data, 2 * i);
    numbers_are_little_endian(e.data, 4 * i);
    numbers_are_little_endian(e.data, 8 * i);
    signed_numbers(e.data[i] as int);
    signed_numbers(crate::format::spec_u16_at(e.data, 2 * i) as int);
    signed_numbers(crate::format::spec_u32_at(e.data, 4 * i) as int);
}

/// An entry that holds a string gives it without its terminating NUL, if the
/// bytes are valid UTF-8.
pub proof fn strings_end_before_the_nul(e: EntryView, text: Seq<u8>)
    ensures
        !(e.data_type is String) ==> e.spec_as_str() is None,
        e.data_type is String && e.data == text.push(0) && valid_utf8(text) ==> e.spec_as_str()
            == Some(decode_utf8(text)),
        e.data_type is String && e.data == text && (text.len() == 0 || text.last() != 0)
            && valid_utf8(text) ==> e.spec_as_str() == Some(decode_utf8(text)),
        e.data_type is String && e.data == text.push(0) && !valid_utf8(text) ==> e.spec_as_str()
            is None,
{
    assert(text.push(0).drop_last() =~= text);
}

/// Looking a key up finds the first entry that has it, and none only if there
/// is none.
pub proof fn first_entry_is_found(entries: Seq<EntryView>, key: Seq<char>, i: int)
    requires
        0 <= i < entries.len(),
        entries[i].key == key,
        forall|j: int| 0 <= j < i ==> (#[trigger] entries[j]).key != key,
    ensures
        first_with_key(entries, key) == Some(entries[i]),
    decreases entries.len(),
{
    if i > 0 {
        assert(entries[0].key != key);
        let rest = entries.skip(1);
        assert forall|j: int| 0 <= j < i - 1 implies (#[trigger] rest[j]).key != key by {
            assert(rest[j] == entries[j + 1]);
        }
        first_entry_is_found(rest, key, i - 1);
    }
}

/// A key that no entry has is not found.
pub proof fn missing_key_is_not_found(entries: Seq<EntryView>, key: Seq<char>)
    requires
        forall|j: int| 0 <= j < entries.len() ==> (#[trigger] entries[j]).key != key,
    ensures
        first_with_key(entries, key) is None,
    decreases entries.len(),
{
    if entries.len() > 0 {
        assert(entries[0].key != key);
        let rest = entries.skip(1);
        assert forall|j: int| 0 <= j < rest.len() implies (#[trigger] rest[j]).key != key by {
            assert(rest[j] == entries[j + 1]);
        }
        missing_key_is_not_found(rest, key);
    }
}

/// A meta data entry to be written: its key and its value as bytes, and the
/// number of its type.
pub struct Written {
    pub key: Seq<u8>,
    pub code: u8,
    pub data: Seq<u8>,
}

/// Four bytes that hold a number, the least significant first.
pub open spec fn word(n: int) -> Seq<u8> {
    seq![
        (n % 0x100) as u8,
        (n / 0x100 % 0x100) as u8,
        (n / 0x1_0000 % 0x100) as u8,
        (n / 0x100_0000 % 0x100) as u8,
    ]
}

impl Written {
    /// The key is not too long for its length to be stored, and the type is
    /// known.
    pub open spec fn can_be_written(self) -> bool {
        &&& self.key.len() < 0xff
        &&& self.code <= 5
        &&& self.data.len() < 0x1_0000_0000
    }

    /// Length of the key with its NUL, key, NUL, type and size of the value.
    pub open spec fn head(self) -> Seq<u8> {
        seq![(self.key.len() + 1) as u8] + self.key + seq![0u8, self.code] + word(
            self.data.len() as int,
        )
    }

    /// What is read back.
    pub open spec fn entry(self) -> EntryView {
        EntryView {
            key: utf8_lossy(self.key),
            data_type: if self.code == 0 {
                MetaDataType::String
            } else if self.code == 1 {
                MetaDataType::Int8
            } else if self.code == 2 {
                MetaDataType::Int16
            } else if self.code == 3 {
                MetaDataType::Int32
            } else if self.code == 4 {
                MetaDataType::Float
            } else {
                MetaDataType::Double
            },
            data: self.data,
        }
    }
}

/// A block that holds the entries one after the other, each with its value.
pub open spec fn written_block(entries: Seq<Written>) -> Seq<u8>
    decreases entries.len(),
{
    if entries.len() == 0 {
        Seq::empty()
    } else {
        written_block(entries.drop_last()) + entries.last().head() + entries.last().data
    }
}

/// The entries that are read back.
pub open spec fn read_back(entries: Seq<Written>) -> Seq<EntryView> {
    entries.map_values(|w: Written| w.entry())
}

/// The head of an entry in the middle of a block.
proof fn lemma_written_head(b: Seq<u8>, at: int, w: Written)
    requires
        w.can_be_written(),
        0 <= at,
        at + w.head().len() <= b.len(),
        b.subrange(at, at + w.head().len()) == w.head(),
    ensures
        entry_header_at(b, at) is Ok,
        entry_header_at(b, at)->Ok_0.key == w.entry().key,
        entry_header_at(b, at)->Ok_0.data_type == w.entry().data_type,
        entry_header_at(b, at)->Ok_0.datasize == w.data.len(),
        entry_header_at(b, at)->Ok_0.next == at + w.head().len(),
{
    let h = w.head();
    let n = w.key.len() as int;
    let size = w.data.len() as int;
    assert(h.len() == n + 7);
    assert forall|k: int| 0 <= k < h.len() implies #[trigger] b[at + k] == h[k] by {
        assert(b.subrange(at, at + h.len())[k] == b[at + k]);
    }
    assert(b[at + 0] == h[0] == (n + 1) as u8);
    assert(b[at + (n + 2)] == h[n + 2] == w.code);
    assert(h[n + 3] == word(size)[0] && h[n + 4] == word(size)[1] && h[n + 5] == word(size)[2]
        && h[n + 6] == word(size)[3]);
    assert(b[at + (n + 3)] == h[n + 3] && b[at + (n + 4)] == h[n + 4] && b[at + (n + 5)] == h[n
        + 5] && b[at + (n + 6)] == h[n + 6]);
    lemma_word(b, at + n + 3, size);
    assert(b.subrange(at + 1, at + 1 + n) =~= w.key) by {
        assert forall|k: int| 0 <= k < n implies b.subrange(at + 1, at + 1 + n)[k] == w.key[k] by {
            assert(b[at + (1 + k)] == h[1 + k]);
        }
    }
}

/// A number read from the four bytes that hold it.
proof fn lemma_word(b: Seq<u8>, at: int, n: int)
    requires
        0 <= n < 0x1_0000_0000,
        b[at] == word(n)[0],
        b[at + 1] == word(n)[1],
        b[at + 2] == word(n)[2],
        b[at + 3] == word(n)[3],
    ensures
        crate::format::spec_u32_at(b, at) == n,
{
    assert(n % 0x1_0000 == n % 0x100 + 0x100 * (n / 0x100 % 0x100));
    assert(n / 0x1_0000 == n / 0x1_0000 % 0x100 + 0x100 * (n / 0x100_0000));
    assert(n / 0x100_0000 % 0x100 == n / 0x100_0000);
    assert(n == n % 0x1_0000 + 0x1_0000 * (n / 0x1_0000));
}

/// A block of entries ends with the later of them.
proof fn lemma_block_ends(b: Seq<u8>, at: int, entries: Seq<Written>)
    requires
        forall|k: int| 0 <= k < entries.len() ==> (#[trigger] entries[k]).can_be_written(),
        0 <= at <= b.len(),
        b.skip(at) == written_block(entries),
    ensures
        block_entries(b, at) == (read_back(entries), None::<crate::error::ErrorView>),
    decreases entries.len(),
{
    if entries.len() == 0 {
        assert(b.skip(at).len() == 0);
        assert(read_back(entries) =~= Seq::empty());
    } else {
        lemma_block_starts(entries);
        let w = entries[0];
        let rest = entries.skip(1);
        let n = w.head().len() as int;
        let end = n + w.data.len();
        let tail = written_block(entries);
        assert(tail == w.head() + w.data + written_block(rest));
        assert(b.subrange(at, at + n) =~= w.head()) by {
            assert(b.skip(at).subrange(0, n) =~= w.head());
            assert(b.skip(at).subrange(0, n) =~= b.subrange(at, at + n));
        }
        lemma_written_head(b, at, w);
        assert(b.subrange(at + n, at + end) =~= w.data) by {
            assert(b.skip(at).subrange(n, end) =~= w.data);
            assert(b.skip(at).subrange(n, end) =~= b.subrange(at + n, at + end));
        }
        assert(b.skip(at + end) =~= written_block(rest)) by {
            assert(b.skip(at).skip(end) =~= written_block(rest));
            assert(b.skip(at).skip(end) =~= b.skip(at + end));
        }
        assert forall|k: int| 0 <= k < rest.len() implies (#[trigger] rest[k]).can_be_written() by {
            assert(rest[k] == entries[k + 1]);
        }
        lemma_block_ends(b, at + end, rest);
        assert(seq![w.entry()] + read_back(rest) =~= read_back(entries));
    }
}

/// A block of entries starts with the first of them.
proof fn lemma_block_starts(entries: Seq<Written>)
    requires
        entries.len() > 0,
    ensures
        written_block(entries) == entries[0].head() + entries[0].data + written_block(
            entries.skip(1),
        ),
    decreases entries.len(),
{
    if entries.len() == 1 {
        assert(entries.drop_last() =~= Seq::empty());
        assert(entries.skip(1) =~= Seq::empty());
        assert(written_block(entries) =~= entries[0].head() + entries[0].data + written_block(
            entries.skip(1),
        ));
    } else {
        lemma_block_starts(entries.drop_last());
        assert(entries.drop_last().skip(1) =~= entries.skip(1).drop_last());
        assert(entries.skip(1).last() == entries.last());
        assert(entries.drop_last()[0] == entries[0]);
        assert(written_block(entries) =~= entries[0].head() + entries[0].data + written_block(
            entries.skip(1),
        ));
    }
}

/// Entries that are written one after the other are read back, all of them and
/// in their order.
pub proof fn written_entries_are_read_back(entries: Seq<Written>)
    requires
        forall|k: int| 0 <= k < entries.len() ==> (#[trigger] entries[k]).can_be_written(),
    ensures
        block_entries(written_block(entries), 0) == (
            read_back(entries),
            None::<crate::error::ErrorView>,
        ),
{
    let b = written_block(entries);
    assert(b.skip(0) =~= b);
    lemma_block_ends(b, 0, entries);
}

/// A file whose primary block inflates to written entries, and which has no
/// large ones, has exactly these entries.
pub proof fn written_metadata_is_read_back(f: Stream, info: InfoView, entries: Seq<Written>)
    requires
        forall|k: int| 0 <= k < entries.len() ==> (#[trigger] entries[k]).can_be_written(),
        info.ext_header.lmdheadermemsize == 0,
        info.header.metadatamemsize == written_block(entries).len(),
        ({
            let stored = f(info.metadata_pos, info.header.metadatazipsize as usize);
            stored is Some && inflated(stored->0) == Ok::<Seq<u8>, Seq<char>>(
                written_block(entries),
            )
        }),
    ensures
        metadata_of(f, info) == Ok::<Seq<EntryView>, crate::error::ErrorView>(
            read_back(entries),
        ),
{
    reveal(metadata_of);
    written_entries_are_read_back(entries);
    if entries.len() > 0 {
        lemma_block_starts(entries);
        assert(written_block(entries).len() > 0);
    }
    assert(read_back(entries) + Seq::<EntryView>::empty() =~= read_back(entries));
    if entries.len() == 0 {
        assert(read_back(entries) =~= Seq::empty());
    }
}

/// A header that lists large entries one after the other, each with the size of
/// the zip block that holds its value.
pub open spec fn written_header(entries: Seq<Written>, zips: Seq<Seq<u8>>) -> Seq<u8>
    decreases entries.len(),
{
    if entries.len() == 0 {
        Seq::empty()
    } else {
        entries[0].head() + word(zips[0].len() as int) + written_header(
            entries.skip(1),
            zips.skip(1),
        )
    }
}

/// The stream has the zip blocks at `pos`, one behind the other, and they
/// inflate to the values of the entries.
pub open spec fn holds_zips(
    f: Stream,
    pos: int,
    entries: Seq<Written>,
    zips: Seq<Seq<u8>>,
) -> bool
    decreases entries.len(),
{
    entries.len() > 0 ==> {
        &&& pos <= u64::MAX
        &&& zips[0].len() < 0x1_0000_0000
        &&& f(pos as u64, zips[0].len() as usize) == Some(zips[0])
        &&& inflated(zips[0]) == Ok::<Seq<u8>, Seq<char>>(entries[0].data)
        &&& holds_zips(f, pos + zips[0].len(), entries.skip(1), zips.skip(1))
    }
}

/// A header ends with the later entries.
proof fn lemma_header_ends(
    f: Stream,
    b: Seq<u8>,
    at: int,
    pos: int,
    entries: Seq<Written>,
    zips: Seq<Seq<u8>>,
)
    requires
        forall|k: int| 0 <= k < entries.len() ==> (#[trigger] entries[k]).can_be_written(),
        zips.len() == entries.len(),
        0 <= pos,
        holds_zips(f, pos, entries, zips),
        0 <= at <= b.len(),
        b.skip(at) == written_header(entries, zips),
    ensures
        large_entries(f, b, at, pos) == Ok::<Seq<EntryView>, crate::error::ErrorView>(
            read_back(entries),
        ),
    decreases entries.len(),
{
    if entries.len() == 0 {
        assert(b.skip(at).len() == 0);
        assert(read_back(entries) =~= Seq::empty());
    } else {
        let w = entries[0];
        let rest = entries.skip(1);
        let later = zips.skip(1);
        let size = zips[0].len() as int;
        let n = w.head().len() as int;
        let end = n + 4;
        let tail = w.head() + word(size) + written_header(rest, later);
        assert(b.skip(at) == tail);
        assert(b.skip(at).len() == b.len() - at);
        assert(tail.len() == n + 4 + written_header(rest, later).len());
        assert(b.subrange(at, at + n) =~= w.head()) by {
            assert(b.skip(at).subrange(0, n) =~= w.head());
            assert(b.skip(at).subrange(0, n) =~= b.subrange(at, at + n));
        }
        lemma_written_head(b, at, w);
        assert forall|k: int| 0 <= k < 4 implies #[trigger] b[at + n + k] == word(size)[k] by {
            assert(tail[n + k] == word(size)[k]);
            assert(b.skip(at)[n + k] == b[at + (n + k)]);
        }
        assert(b[at + n + 0] == word(size)[0]);
        lemma_word(b, at + n, size);
        assert(b.skip(at + end) =~= written_header(rest, later)) by {
            assert(b.skip(at).skip(end) =~= written_header(rest, later));
            assert(b.skip(at).skip(end) =~= b.skip(at + end));
        }
        assert forall|k: int| 0 <= k < rest.len() implies (#[trigger] rest[k]).can_be_written() by {
            assert(rest[k] == entries[k + 1]);
        }
        lemma_header_ends(f, b, at + end, pos + size, rest, later);
        assert(seq![w.entry()] + read_back(rest) =~= read_back(entries));
    }
}

/// A file whose header of large meta data inflates to a list of written
/// entries, and which has their values behind the header as zip blocks, one
/// behind the other, has exactly these large entries.
pub proof fn written_large_metadata_is_read_back(
    f: Stream,
    info: InfoView,
    entries: Seq<Written>,
    zips: Seq<Seq<u8>>,
)
    requires
        forall|k: int| 0 <= k < entries.len() ==> (#[trigger] entries[k]).can_be_written(),
        zips.len() == entries.len(),
        info.header.metadatamemsize == 0,
        info.ext_header.lmdheadermemsize == written_header(entries, zips).len(),
        ({
            let stored = f(info.lmdheader_pos, info.ext_header.lmdheaderzipsize as usize);
            stored is Some && inflated(stored->0) == Ok::<Seq<u8>, Seq<char>>(
                written_header(entries, zips),
            )
        }),
        holds_zips(
            f,
            info.lmdheader_pos + info.ext_header.lmdheaderzipsize,
            entries,
            zips,
        ),
    ensures
        metadata_of(f, info) == Ok::<Seq<EntryView>, crate::error::ErrorView>(
            read_back(entries),
        ),
{
    reveal(metadata_of);
    let b = written_header(entries, zips);
    assert(b.skip(0) =~= b);
    let start = info.lmdheader_pos + info.ext_header.lmdheaderzipsize;
    lemma_header_ends(f, b, 0, start, entries, zips);
    if entries.len() > 0 {
        assert(b.len() >= entries[0].head().len());
    } else {
        assert(read_back(entries) =~= Seq::empty());
    }
    assert(Seq::<EntryView>::empty() + read_back(entries) =~= read_back(entries));
}

} // verus!
