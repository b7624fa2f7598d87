//! Meta data access.

use crate::error::{corrupt, view_result, Error, ErrorView};
use crate::format::{
    checked_u32_at, spec_checked_u32_at, spec_u16_at, spec_u32_at, spec_u64_at, u16_at, u32_at,
    u64_at,
};
use crate::types::{signed32, signed8, wrap_i32, wrap_i8, MetaDataType};
use vstd::prelude::*;
use vstd::utf8::{decode_utf8, valid_utf8};

verus! {

/// A single meta data entry.
#[derive(Debug)]
pub struct MetaDataEntry {
    key: String,
    data_type: MetaDataType,
    data: Vec<u8>,
}

/// A [`MetaDataEntry`] with its key as characters and its value as bytes.
pub struct EntryView {
    pub key: Seq<char>,
    pub data_type: MetaDataType,
    pub data: Seq<u8>,
}

impl View for MetaDataEntry {
    type V = EntryView;

    closed spec fn view(&self) -> EntryView {
        EntryView { key: self.key@, data_type: self.data_type, data: self.data@ }
    }
}

impl Clone for MetaDataEntry {
    fn clone(&self) -> (e: Self)
        ensures
            e@ == self@,
    {
        MetaDataEntry {
            key: self.key.clone(),
            data_type: self.data_type,
            data: vstd::slice::slice_to_vec(self.data.as_slice()),
        }
    }
}

/// `str::from_utf8`: the bytes as a string, if they are valid UTF-8.  Taken on
/// trust: valid bytes are accepted and no others, and the string is the one
/// that they encode.
#[verifier::external_body]
fn str_from_utf8(bytes: &[u8]) -> (r: Option<&str>)
    ensures
        (r is Some) == valid_utf8(bytes@),
        r is Some ==> r->0@ == decode_utf8(bytes@),
{
    std::str::from_utf8(bytes).ok()
}

/// What the bytes read as when every invalid sequence is replaced.
pub uninterp spec fn utf8_lossy(bytes: Seq<u8>) -> Seq<char>;

/// `String::from_utf8_lossy`: the bytes as a string, with replacement
/// characters for what is not valid UTF-8.  Taken on trust: the string depends
/// on the bytes alone, and valid bytes give the string that they encode.
#[verifier::external_body]
fn string_from_utf8_lossy(bytes: &[u8]) -> (r: String)
    ensures
        r@ == utf8_lossy(bytes@),
        valid_utf8(bytes@) ==> r@ == decode_utf8(bytes@),
{
    String::from_utf8_lossy(bytes).into_owned()
}

impl EntryView {
    /// The value bytes of a string without a terminating NUL.
    pub open spec fn text(self) -> Seq<u8> {
        if self.data.len() > 0 && self.data.last() == 0 {
            self.data.drop_last()
        } else {
            self.data
        }
    }

    /// Value as a string, if it is one.
    pub open spec fn spec_as_str(self) -> Option<Seq<char>> {
        if self.data_type is String && valid_utf8(self.text()) {
            Some(decode_utf8(self.text()))
        } else {
            None
        }
    }

    /// Value as an array of i8, if it is one.
    pub open spec fn spec_as_i8(self) -> Option<Seq<i8>> {
        if self.data_type is Int8 {
            Some(Seq::new(self.data.len(), |i: int| wrap_i8(self.data[i] as int)))
        } else {
            None
        }
    }

    /// Value as an array of i16, if it is one.
    pub open spec fn spec_as_i16(self) -> Option<Seq<i16>> {
        if self.data_type is Int16 {
            Some(
                Seq::new(
                    self.data.len() / 2,
                    |i: int| wrap_i16(spec_u16_at(self.data, 2 * i) as int),
                ),
            )
        } else {
            None
        }
    }

    /// Number of values.
    pub open spec fn spec_len(self) -> nat {
        self.data.len() / self.data_type.spec_size()
    }

    /// Value as the bit patterns of an array of f32, if it is one.
    pub open spec fn spec_as_f32_bits(self) -> Option<Seq<u32>> {
        if self.data_type is Float {
            Some(Seq::new(self.data.len() / 4, |i: int| spec_u32_at(self.data, 4 * i)))
        } else {
            None
        }
    }

    /// Value as the bit patterns of an array of f64, if it is one.
    pub open spec fn spec_as_f64_bits(self) -> Option<Seq<u64>> {
        if self.data_type is Double {
            Some(Seq::new(self.data.len() / 8, |i: int| spec_u64_at(self.data, 8 * i)))
        } else {
            None
        }
    }

    /// Value as an array of i32, if it is one.
    pub open spec fn spec_as_i32(self) -> Option<Seq<i32>> {
        if self.data_type is Int32 {
            Some(
                Seq::new(
                    self.data.len() / 4,
                    |i: int| wrap_i32(spec_u32_at(self.data, 4 * i) as int),
                ),
            )
        } else {
            None
        }
    }
}

/// The numbers of values that the accessors return are the one that
/// [`MetaDataEntry::len`] returns, and each accessor is for one type.
pub proof fn accessors_return_len_values(e: EntryView)
    ensures
        e.data_type is Int8 <==> e.spec_as_i8() is Some,
        e.data_type is Int16 <==> e.spec_as_i16() is Some,
        e.data_type is Int32 <==> e.spec_as_i32() is Some,
        e.data_type is Float <==> e.spec_as_f32_bits() is Some,
        e.data_type is Double <==> e.spec_as_f64_bits() is Some,
        e.spec_as_i8() is Some ==> e.spec_as_i8()->0.len() == e.spec_len(),
        e.spec_as_i16() is Some ==> e.spec_as_i16()->0.len() == e.spec_len(),
        e.spec_as_i32() is Some ==> e.spec_as_i32()->0.len() == e.spec_len(),
        e.spec_as_f32_bits() is Some ==> e.spec_as_f32_bits()->0.len() == e.spec_len(),
        e.spec_as_f64_bits() is Some ==> e.spec_as_f64_bits()->0.len() == e.spec_len(),
        e.data_type is String ==> e.spec_len() == e.data.len(),
{
}

/// The `i16` with the bit pattern of `v` modulo 2^16.
pub open spec fn wrap_i16(v: int) -> i16 {
    if v % 0x1_0000 < 0x8000 {
        (v % 0x1_0000) as i16
    } else {
        (v % 0x1_0000 - 0x1_0000) as i16
    }
}

fn signed16(v: u16) -> (r: i16)
    ensures
        r == wrap_i16(v as int),
{
    if v < 0x8000 {
        v as i16
    } else {
        (v as i32 - 0x1_0000) as i16
    }
}

impl MetaDataEntry {
    /// The entry's key.
    pub fn key(&self) -> (k: &str)
        ensures
            k@ == self@.key,
    {
        self.key.as_str()
    }

    /// The entry's value type.
    pub fn data_type(&self) -> (t: MetaDataType)
        ensures
            t == self@.data_type,
    {
        self.data_type
    }

    /// Raw little-endian value bytes.
    pub fn raw_data(&self) -> (b: &[u8])
        ensures
            b@ == self@.data,
    {
        self.data.as_slice()
    }

    /// Number of values in the entry (string entries report their byte
    /// length including the terminating NUL).
    pub fn len(&self) -> (n: usize)
        ensures
            n == self@.spec_len(),
    {
        let esize: usize = match self.data_type {
            MetaDataType::String | MetaDataType::Int8 => 1,
            MetaDataType::Int16 => 2,
            MetaDataType::Int32 | MetaDataType::Float => 4,
            MetaDataType::Double => 8,
        };
        self.data.len() / esize
    }

    /// True if the entry holds no data.
    pub fn is_empty(&self) -> (b: bool)
        ensures
            b == (self@.data.len() == 0),
    {
        self.data.len() == 0
    }

    /// Value as a string (if the entry is of string type).
    pub fn as_str(&self) -> (r: Option<&str>)
        ensures
            match r {
                Some(s) => self@.spec_as_str() == Some(s@),
                None => self@.spec_as_str() is None,
            },
    {
        if self.data_type != MetaDataType::String {
            return None;
        }
        let n: usize = self.data.len();
        // strip terminating NUL
        let end: usize = if n > 0 && self.data[n - 1] == 0 {
            n - 1
        } else {
            n
        };
        let text = vstd::slice::slice_subrange(self.data.as_slice(), 0, end);
        assert(text@ =~= self@.text());
        str_from_utf8(text)
    }

    /// Value as an array of i8.
    pub fn as_i8(&self) -> (r: Option<Vec<i8>>)
        ensures
            match r {
                Some(v) => self@.spec_as_i8() == Some(v@),
                None => self@.spec_as_i8() is None,
            },
    {
        if self.data_type != MetaDataType::Int8 {
            return None;
        }
        let mut v: Vec<i8> = Vec::new();
        let mut i: usize = 0;
        while i < self.data.len()
            invariant
                i <= self.data@.len(),
                self.data_type is Int8,
                v@ =~= self@.spec_as_i8()->0.take(i as int),
            decreases self.data@.len() - i,
        {
            v.push(signed8(self.data[i]));
            i = i + 1;
        }
        assert(v@ =~= self@.spec_as_i8()->0);
        Some(v)
    }

    /// Value as an array of i16.
    pub fn as_i16(&self) -> (r: Option<Vec<i16>>)
        ensures
            match r {
                Some(v) => self@.spec_as_i16() == Some(v@),
                None => self@.spec_as_i16() is None,
            },
    {
        if self.data_type != MetaDataType::Int16 {
            return None;
        }
        let n: usize = self.data.len() / 2;
        let mut v: Vec<i16> = Vec::new();
        let mut i: usize = 0;
        while i < n
            invariant
                i <= n,
                n == self.data@.len() / 2,
                self.data@.len() <= usize::MAX,
                self.data_type is Int16,
                v@ =~= self@.spec_as_i16()->0.take(i as int),
            decreases n - i,
        {
            v.push(signed16(u16_at(self.data.as_slice(), 2 * i)));
            i = i + 1;
        }
        assert(v@ =~= self@.spec_as_i16()->0);
        Some(v)
    }

    /// Value as an array of i32.
    pub fn as_i32(&self) -> (r: Option<Vec<i32>>)
        ensures
            match r {
                Some(v) => self@.spec_as_i32() == Some(v@),
                None => self@.spec_as_i32() is None,
            },
    {
        if self.data_type != MetaDataType::Int32 {
            return None;
        }
        let n: usize = self.data.len() / 4;
        let mut v: Vec<i32> = Vec::new();
        let mut i: usize = 0;
        while i < n
            invariant
                i <= n,
                n == self.data@.len() / 4,
                self.data@.len() <= usize::MAX,
                self.data_type is Int32,
                v@ =~= self@.spec_as_i32()->0.take(i as int),
            decreases n - i,
        {
            v.push(signed32(u32_at(self.data.as_slice(), 4 * i)));
            i = i + 1;
        }
        assert(v@ =~= self@.spec_as_i32()->0);
        Some(v)
    }

    /// Value as the bit patterns of an array of f32.
    pub fn as_f32_bits(&self) -> (r: Option<Vec<u32>>)
        ensures
            match r {
                Some(v) => self@.spec_as_f32_bits() == Some(v@),
                None => self@.spec_as_f32_bits() is None,
            },
    {
        if self.data_type != MetaDataType::Float {
            return None;
        }
        let n: usize = self.data.len() / 4;
        let mut v: Vec<u32> = Vec::new();
        let mut i: usize = 0;
        while i < n
            invariant
                i <= n,
                n == self.data@.len() / 4,
                self.data@.len() <= usize::MAX,
                self.data_type is Float,
                v@ =~= self@.spec_as_f32_bits()->0.take(i as int),
            decreases n - i,
        {
            v.push(u32_at(self.data.as_slice(), 4 * i));
            i = i + 1;
        }
        assert(v@ =~= self@.spec_as_f32_bits()->0);
        Some(v)
    }

    /// Value as the bit patterns of an array of f64.
    pub fn as_f64_bits(&self) -> (r: Option<Vec<u64>>)
        ensures
            match r {
                Some(v) => self@.spec_as_f64_bits() == Some(v@),
                None => self@.spec_as_f64_bits() is None,
            },
    {
        if self.data_type != MetaDataType::Double {
            return None;
        }
        let n: usize = self.data.len() / 8;
        let mut v: Vec<u64> = Vec::new();
        let mut i: usize = 0;
        while i < n
            invariant
                i <= n,
                n == self.data@.len() / 8,
                self.data@.len() <= usize::MAX,
                self.data_type is Double,
                v@ =~= self@.spec_as_f64_bits()->0.take(i as int),
            decreases n - i,
        {
            v.push(u64_at(self.data.as_slice(), 8 * i));
            i = i + 1;
        }
        assert(v@ =~= self@.spec_as_f64_bits()->0);
        Some(v)
    }
}

/// Meta data stored in a Ptex file.
///
/// Meta data entries are key/value pairs; values are arrays of a single
/// [`MetaDataType`].
#[derive(Debug)]
pub struct MetaData {
    entries: Vec<MetaDataEntry>,
}

impl View for MetaData {
    type V = Seq<EntryView>;

    closed spec fn view(&self) -> Seq<EntryView> {
        Seq::new(self.entries@.len(), |i: int| self.entries@[i]@)
    }
}

/// The first entry with the given key, if there is one.
pub open spec fn first_with_key(entries: Seq<EntryView>, key: Seq<char>) -> Option<EntryView>
    decreases entries.len(),
{
    if entries.len() == 0 {
        None
    } else if entries[0].key == key {
        Some(entries[0])
    } else {
        first_with_key(entries.skip(1), key)
    }
}

impl Default for MetaData {
    fn default() -> (md: Self)
        ensures
            md@ == Seq::<EntryView>::empty(),
    {
        let md = MetaData { entries: Vec::new() };
        assert(md@ =~= Seq::empty());
        md
    }
}

impl Clone for MetaData {
    fn clone(&self) -> (md: Self)
        ensures
            md@ == self@,
    {
        let mut entries: Vec<MetaDataEntry> = Vec::new();
        let mut i: usize = 0;
        while i < self.entries.len()
            invariant
                i <= self.entries@.len(),
                entries@.len() == i,
                forall|k: int| 0 <= k < i ==> (#[trigger] entries@[k])@ == self.entries@[k]@,
            decreases self.entries@.len() - i,
        {
            entries.push(self.entries[i].clone());
            i = i + 1;
        }
        let md = MetaData { entries };
        assert(md@ =~= self@);
        md
    }
}

impl MetaData {
    /// Number of meta data entries.
    pub fn len(&self) -> (n: usize)
        ensures
            n == self@.len(),
    {
        self.entries.len()
    }

    /// True if there are no entries.
    pub fn is_empty(&self) -> (b: bool)
        ensures
            b == (self@.len() == 0),
    {
        self.entries.len() == 0
    }

    /// Access an entry by index.
    pub fn entry(&self, index: usize) -> (r: Option<&MetaDataEntry>)
        ensures
            match r {
                Some(e) => index < self@.len() && e@ == self@[index as int],
                None => index >= self@.len(),
            },
    {
        if index < self.entries.len() {
            Some(&self.entries[index])
        } else {
            None
        }
    }

    /// All entries, in file order.
    pub fn iter(&self) -> (r: &[MetaDataEntry])
        ensures
            r@.len() == self@.len(),
            forall|i: int| 0 <= i < r@.len() ==> (#[trigger] r@[i])@ == self@[i],
    {
        self.entries.as_slice()
    }

    /// All keys in the file, in file order.
    pub fn keys(&self) -> (r: Vec<&str>)
        ensures
            r@.len() == self@.len(),
            forall|i: int| 0 <= i < r@.len() ==> (#[trigger] r@[i])@ == self@[i].key,
    {
        let mut r: Vec<&str> = Vec::new();
        let mut i: usize = 0;
        while i < self.entries.len()
            invariant
                i <= self.entries@.len(),
                r@.len() == i,
                forall|k: int| 0 <= k < i ==> (#[trigger] r@[k])@ == self@[k].key,
            decreases self.entries@.len() - i,
        {
            r.push(self.entries[i].key());
            i = i + 1;
        }
        r
    }

    /// Look up an entry by key.
    pub fn find(&self, key: &str) -> (r: Option<&MetaDataEntry>)
        ensures
            match r {
                Some(e) => first_with_key(self@, key@) == Some(e@),
                None => first_with_key(self@, key@) is None,
            },
    {
        let wanted = String::from_str(key);
        let mut i: usize = 0;
        assert(self@.skip(0) =~= self@);
        while i < self.entries.len()
            invariant
                i <= self.entries@.len(),
                wanted@ == key@,
                first_with_key(self@, key@) == first_with_key(self@.skip(i as int), key@),
            decreases self.entries@.len() - i,
        {
            proof {
                assert(self@.skip(i as int)[0] == self@[i as int]);
                assert(self@.skip(i as int).skip(1) =~= self@.skip(i + 1));
            }
            if self.entries[i].key == wanted {
                return Some(&self.entries[i]);
            }
            i = i + 1;
        }
        None
    }

    /// Look up a string value by key.
    pub fn get_string(&self, key: &str) -> (r: Option<&str>)
        ensures
            match r {
                Some(s) => first_with_key(self@, key@) is Some && first_with_key(
                    self@,
                    key@,
                )->0.spec_as_str() == Some(s@),
                None => first_with_key(self@, key@) is Some ==> first_with_key(
                    self@,
                    key@,
                )->0.spec_as_str() is None,
            },
    {
        match self.find(key) {
            Some(e) => e.as_str(),
            None => None,
        }
    }

    /// Look up an i8 array value by key.
    pub fn get_i8(&self, key: &str) -> (r: Option<Vec<i8>>)
        ensures
            match r {
                Some(v) => first_with_key(self@, key@) is Some && first_with_key(
                    self@,
                    key@,
                )->0.spec_as_i8() == Some(v@),
                None => first_with_key(self@, key@) is Some ==> first_with_key(
                    self@,
                    key@,
                )->0.spec_as_i8() is None,
            },
    {
        match self.find(key) {
            Some(e) => e.as_i8(),
            None => None,
        }
    }

    /// Look up an i16 array value by key.
    pub fn get_i16(&self, key: &str) -> (r: Option<Vec<i16>>)
        ensures
            match r {
                Some(v) => first_with_key(self@, key@) is Some && first_with_key(
                    self@,
                    key@,
                )->0.spec_as_i16() == Some(v@),
                None => first_with_key(self@, key@) is Some ==> first_with_key(
                    self@,
                    key@,
                )->0.spec_as_i16() is None,
            },
    {
        match self.find(key) {
            Some(e) => e.as_i16(),
            None => None,
        }
    }

    /// Look up an i32 array value by key.
    pub fn get_i32(&self, key: &str) -> (r: Option<Vec<i32>>)
        ensures
            match r {
                Some(v) => first_with_key(self@, key@) is Some && first_with_key(
                    self@,
                    key@,
                )->0.spec_as_i32() == Some(v@),
                None => first_with_key(self@, key@) is Some ==> first_with_key(
                    self@,
                    key@,
                )->0.spec_as_i32() is None,
            },
    {
        match self.find(key) {
            Some(e) => e.as_i32(),
            None => None,
        }
    }

    /// Look up the bit patterns of an f32 array value by key.
    pub fn get_f32_bits(&self, key: &str) -> (r: Option<Vec<u32>>)
        ensures
            match r {
                Some(v) => first_with_key(self@, key@) is Some && first_with_key(
                    self@,
                    key@,
                )->0.spec_as_f32_bits() == Some(v@),
                None => first_with_key(self@, key@) is Some ==> first_with_key(
                    self@,
                    key@,
                )->0.spec_as_f32_bits() is None,
            },
    {
        match self.find(key) {
            Some(e) => e.as_f32_bits(),
            None => None,
        }
    }

    /// Look up the bit patterns of an f64 array value by key.
    pub fn get_f64_bits(&self, key: &str) -> (r: Option<Vec<u64>>)
        ensures
            match r {
                Some(v) => first_with_key(self@, key@) is Some && first_with_key(
                    self@,
                    key@,
                )->0.spec_as_f64_bits() == Some(v@),
                None => first_with_key(self@, key@) is Some ==> first_with_key(
                    self@,
                    key@,
                )->0.spec_as_f64_bits() is None,
            },
    {
        match self.find(key) {
            Some(e) => e.as_f64_bits(),
            None => None,
        }
    }

    /// Parse a decompressed primary meta data block and append its entries.
    ///
    /// The entries before a fault are appended as well.
    pub fn parse_block(&mut self, buf: &[u8]) -> (r: Result<(), Error>)
        ensures
            final(self)@ == old(self)@ + block_entries(buf@, 0).0,
            view_result(r) == match block_entries(buf@, 0).1 {
                Some(e) => Err::<(), ErrorView>(e),
                None => Ok::<(), ErrorView>(()),
            },
            r is Err ==> !(r->Err_0 is Io),
    {
        let ghost before = self@;
        let ghost all = block_entries(buf@, 0);
        let mut ptr: usize = 0;
        assert(self@ + all.0 =~= before + all.0);
        assert(buf@.len() == buf.len());
        while ptr < buf.len()
            invariant
                ptr <= buf@.len(),
                buf@.len() <= usize::MAX,
                before == old(self)@,
                all == block_entries(buf@, 0),
                all.1 == block_entries(buf@, ptr as int).1,
                self@ + block_entries(buf@, ptr as int).0 == before + all.0,
            decreases buf@.len() - ptr,
        {
            let ghost here = self@;
            let ghost rest = block_entries(buf@, ptr as int);
            let head = match parse_entry_header(buf, ptr) {
                Ok(h) => h,
                Err(e) => {
                    assert(rest.0 =~= Seq::empty());
                    assert(here + rest.0 =~= here);
                    return Err(e);
                },
            };
            if head.datasize > buf.len() - head.next {
                assert(here + rest.0 =~= here);
                return Err(corrupt("meta data entry overruns block"));
            }
            let data = vstd::slice::slice_to_vec(
                vstd::slice::slice_subrange(buf, head.next, head.next + head.datasize),
            );
            let next: usize = head.next + head.datasize;
            let ghost view = head@;
            self.add_entry(head.key, head.data_type, data);
            proof {
                let e = EntryView { key: view.key, data_type: view.data_type, data: data@ };
                assert(rest.0 =~= seq![e] + block_entries(buf@, next as int).0);
                assert(self@ + block_entries(buf@, next as int).0 =~= here + rest.0);
            }
            ptr = next;
        }
        assert(self@ + block_entries(buf@, ptr as int).0 =~= self@);
        Ok(())
    }

    pub(crate) fn add_entry(&mut self, key: String, data_type: MetaDataType, data: Vec<u8>)
        ensures
            final(self)@ == old(self)@.push(EntryView { key: key@, data_type, data: data@ }),
    {
        self.entries.push(MetaDataEntry { key, data_type, data });
        assert(self@ =~= old(self)@.push(EntryView { key: key@, data_type, data: data@ }));
    }
}

/// The `[keysize][key][datatype][datasize]` prefix of a meta data entry.
pub(crate) struct EntryHeader {
    pub(crate) key: String,
    pub(crate) data_type: MetaDataType,
    pub(crate) datasize: usize,
    /// Position behind the prefix.
    pub(crate) next: usize,
}

/// An [`EntryHeader`] with its key as characters.
pub struct EntryHeaderView {
    pub key: Seq<char>,
    pub data_type: MetaDataType,
    pub datasize: int,
    pub next: int,
}

impl View for EntryHeader {
    type V = EntryHeaderView;

    open(crate) spec fn view(&self) -> EntryHeaderView {
        EntryHeaderView {
            key: self.key@,
            data_type: self.data_type,
            datasize: self.datasize as int,
            next: self.next as int,
        }
    }
}

/// The prefix of the entry at `ptr`.  The key is stored with a terminating
/// NUL, which its size counts.
pub open spec fn entry_header_at(buf: Seq<u8>, ptr: int) -> Result<EntryHeaderView, ErrorView> {
    let truncated = Err(ErrorView::Corrupt("truncated meta data block"@));
    if ptr >= buf.len() {
        truncated
    } else {
        let keysize = buf[ptr] as int;
        let p = ptr + 1 + keysize;
        if keysize == 0 || p > buf.len() {
            truncated
        } else if p >= buf.len() {
            truncated
        } else {
            match spec_checked_u32_at(buf, p + 1) {
                Ok(datasize) => match MetaDataType::spec_from_u8(buf[p]) {
                    Ok(data_type) => Ok(
                        EntryHeaderView {
                            key: utf8_lossy(buf.subrange(ptr + 1, p - 1)),
                            data_type,
                            datasize: datasize as int,
                            next: p + 5,
                        },
                    ),
                    Err(e) => Err(e),
                },
                Err(e) => Err(e),
            }
        }
    }
}

/// The entries of a meta data block from `ptr` on, up to the first fault if
/// there is one, and that fault.
pub open spec fn block_entries(buf: Seq<u8>, ptr: int) -> (Seq<EntryView>, Option<ErrorView>)
    decreases buf.len() - ptr,
{
    if ptr < 0 || ptr >= buf.len() {
        (Seq::empty(), None)
    } else {
        match entry_header_at(buf, ptr) {
            Ok(h) => if h.next + h.datasize > buf.len() {
                (Seq::empty(), Some(ErrorView::Corrupt("meta data entry overruns block"@)))
            } else {
                let e = EntryView {
                    key: h.key,
                    data_type: h.data_type,
                    data: buf.subrange(h.next, h.next + h.datasize),
                };
                let (rest, fault) = block_entries(buf, h.next + h.datasize);
                (seq![e] + rest, fault)
            },
            Err(e) => (Seq::empty(), Some(e)),
        }
    }
}

/// Parse the `[keysize][key][datatype][datasize]` prefix of a meta data
/// entry.
pub(crate) fn parse_entry_header(buf: &[u8], ptr: usize) -> (r: Result<EntryHeader, Error>)
    ensures
        match r {
            Ok(h) => entry_header_at(buf@, ptr as int) == Ok::<EntryHeaderView, ErrorView>(h@)
                && ptr < h.next <= buf@.len(),
            Err(e) => entry_header_at(buf@, ptr as int) == Err::<EntryHeaderView, ErrorView>(e@),
        },
{
    if ptr >= buf.len() {
        return Err(corrupt("truncated meta data block"));
    }
    let keysize: usize = buf[ptr] as usize;
    let start: usize = ptr + 1;
    if keysize == 0 || keysize > buf.len() - start {
        return Err(corrupt("truncated meta data block"));
    }
    let key = string_from_utf8_lossy(
        vstd::slice::slice_subrange(buf, start, start + keysize - 1),
    );
    let p: usize = start + keysize;
    if p >= buf.len() {
        return Err(corrupt("truncated meta data block"));
    }
    let datasize: usize = match checked_u32_at(buf, p + 1) {
        Ok(n) => n as usize,
        Err(e) => {
            return Err(e);
        },
    };
    let data_type = match MetaDataType::from_u8(buf[p]) {
        Ok(t) => t,
        Err(e) => {
            return Err(e);
        },
    };
    Ok(EntryHeader { key, data_type, datasize, next: p + 5 })
}

} // verus!
