//! The emitter: an append-only list of entries that refer to each other, two
//! blobs for bulk data, and the source text that declares the lot.
//!
//! Bulk data goes to a blob of bytes and to a blob of 32-bit integers. Small
//! data is written into the source as a list. The blobs are kept in memory;
//! whoever drives the emitter writes them to their files.

use vstd::prelude::*;
use vstd::string::StringExecFns;
use crate::aligned::{le_bytes_u32s, push_le_u32};
use crate::builder::text::{bytes_literal, byte_decimals, decimal, decimals, list_of};
use crate::builder::text::{bytes_texts, decimal_text, decimal_texts, list_text, texts};
use crate::builder::{MapKind, MapOutput};
use crate::seq::{ends, packed};

verus! {

/// Name under which the generated source refers to this library.
pub const CRATE_NAME: &'static str = "precomputed_map";

/// Integer sequences longer than this go to the blob of integers.
pub const INLINE_U32_MAX: usize = 1024;

/// Sequences of byte strings longer than this go to the blob of bytes.
pub const INLINE_BYTES_MAX: usize = 16;

/// Pilot tables longer than this go to the blob of bytes.
pub const INLINE_PILOTS_MAX: usize = 1024;

/// The number of an entry of the emitter.
#[derive(Clone, Copy, Debug)]
pub struct ReferenceId(pub usize);

/// What an entry declares.
pub enum OutputKind {
    /// A type that is declared elsewhere.
    Custom { name: String },
    /// A part of the blob of bytes.
    U8Seq { offset: usize, len: usize },
    /// Byte strings in the blob of bytes, with the entry of their end offsets.
    BytesPositionSeq { offset: usize, len: usize, index: ReferenceId },
    /// A part of the blob of integers, offset and length in bytes.
    U32Seq { offset: usize, len: usize },
    /// A list that is written out in the source.
    List { item_type: String, value: String, len: usize, searchable: bool },
    /// Keys and values.
    Pair { keys: ReferenceId, values: ReferenceId },
    /// A sorted map over the data.
    Tiny(ReferenceId),
    /// A single-level map over the data.
    Small { seed: u64, data: ReferenceId },
    /// A bucketed map over the data.
    Medium { seed: u64, slots: u32, pilots: ReferenceId, remap: ReferenceId, data: ReferenceId },
}

/// One entry of the emitter: what it declares, and under which name.
pub struct OutputEntry {
    pub name: Option<String>,
    pub kind: OutputKind,
}

/// The blob of bytes: packed keys and long pilot tables.
pub struct U8SeqWriter {
    pub entry: String,
    pub file: String,
    pub bytes: Vec<u8>,
    pub opened: bool,
}

/// The blob of 32-bit integers, each as four little-endian bytes.
pub struct U32SeqWriter {
    pub entry: String,
    pub file: String,
    pub bytes: Vec<u8>,
    pub opened: bool,
}

/// Collects the entries of one generated source file.
pub struct CodeBuilder {
    pub name: String,
    pub hash: String,
    pub vis: Option<String>,
    pub list: Vec<OutputEntry>,
    pub u8seq_writer: U8SeqWriter,
    pub u32seq_writer: U32SeqWriter,
}

/// The entry refers to earlier entries only, and has a name where its
/// declaration needs one.
pub open spec fn entry_wf(e: OutputEntry, at: int) -> bool {
    match e.kind {
        OutputKind::Custom { .. } => true,
        OutputKind::U8Seq { .. } => true,
        OutputKind::U32Seq { .. } => true,
        OutputKind::List { .. } => true,
        OutputKind::BytesPositionSeq { index, .. } => index.0 < at && e.name is Some,
        OutputKind::Pair { keys, values } => keys.0 < at && values.0 < at,
        OutputKind::Tiny(data) => data.0 < at && e.name is Some,
        OutputKind::Small { data, .. } => data.0 < at && e.name is Some,
        OutputKind::Medium { pilots, remap, data, .. } => pilots.0 < at && remap.0 < at && data.0 < at
            && e.name is Some,
    }
}

/// Every entry refers to earlier entries only.
pub open spec fn entries_wf(list: Seq<OutputEntry>) -> bool {
    forall|i: int| 0 <= i < list.len() ==> entry_wf(#[trigger] list[i], i)
}

/// The include line of a blob: its name, its size and its file.
pub open spec fn include_text(entry: Seq<char>, unit: Seq<char>, count: nat, file: Seq<char>) -> Seq<char> {
    CRATE_NAME@ + "::define!(const "@ + entry + ": &[u8"@ + unit + "; "@ + decimal_text(count) + "] = include \""@
        + file + "\");\n"@
}

/// Writes the line that includes a blob.
fn include_line(entry: &String, unit: &str, count: usize, file: &String) -> (r: String)
    ensures
        r@ == include_text(entry@, unit@, count as nat, file@),
{
    let mut s = String::from_str(CRATE_NAME);
    s.append("::define!(const ");
    s.append(entry.as_str());
    s.append(": &[u8");
    s.append(unit);
    s.append("; ");
    s.append(decimal(count as u64).as_str());
    s.append("] = include \"");
    s.append(file.as_str());
    s.append("\");\n");
    s
}

impl U8SeqWriter {
    /// A blob that the source will know as `entry` and include from `file`.
    pub fn new(entry: String, file: String) -> (r: Self)
        ensures
            r.entry == entry,
            r.file == file,
            r.bytes@.len() == 0,
            !r.opened,
    {
        U8SeqWriter { entry, file, bytes: Vec::new(), opened: false }
    }

    /// Appends `seq` to the blob.
    pub fn write_u8seq(&mut self, seq: &[u8])
        ensures
            final(self).bytes@ == old(self).bytes@ + seq@,
            final(self).opened,
            final(self).entry == old(self).entry,
            final(self).file == old(self).file,
    {
        self.opened = true;
        self.bytes.extend_from_slice(seq);
    }

    /// Number of bytes in the blob.
    pub fn count(&self) -> (n: usize)
        ensures
            n == self.bytes@.len(),
    {
        self.bytes.len()
    }

    /// The line that includes the blob, or nothing where nothing was ever
    /// written to it.
    pub fn write_to(&self) -> (r: String)
        ensures
            r@ == (if self.opened {
                include_text(self.entry@, ""@, self.bytes@.len(), self.file@)
            } else {
                ""@
            }),
    {
        if self.opened {
            include_line(&self.entry, "", self.bytes.len(), &self.file)
        } else {
            String::from_str("")
        }
    }
}

impl U32SeqWriter {
    /// A blob that the source will know as `entry` and include from `file`.
    pub fn new(entry: String, file: String) -> (r: Self)
        ensures
            r.entry == entry,
            r.file == file,
            r.bytes@.len() == 0,
            !r.opened,
    {
        U32SeqWriter { entry, file, bytes: Vec::new(), opened: false }
    }

    /// Appends `n` to the blob, as four little-endian bytes.
    pub fn write_u32(&mut self, n: u32)
        ensures
            final(self).bytes@ == old(self).bytes@ + crate::aligned::le_bytes_u32(n),
            final(self).opened,
            final(self).entry == old(self).entry,
            final(self).file == old(self).file,
    {
        self.opened = true;
        push_le_u32(&mut self.bytes, n);
    }

    /// Number of bytes in the blob.
    pub fn count(&self) -> (n: usize)
        ensures
            n == self.bytes@.len(),
    {
        self.bytes.len()
    }

    /// The line that includes the blob, aligned for 32-bit integers, or
    /// nothing where nothing was ever written to it.
    pub fn write_to(&self) -> (r: String)
        ensures
            r@ == (if self.opened {
                include_text(self.entry@, " align u32"@, self.bytes@.len(), self.file@)
            } else {
                ""@
            }),
    {
        if self.opened {
            include_line(&self.entry, " align u32", self.bytes.len(), &self.file)
        } else {
            String::from_str("")
        }
    }
}

/// The text of a name, where there is one.
pub open spec fn name_text(name: Option<String>) -> Option<Seq<char>> {
    match name {
        Some(n) => Some(n@),
        None => None,
    }
}

/// `after` is `before` with `by` more entries at the end.
pub open spec fn extends(before: Seq<OutputEntry>, after: Seq<OutputEntry>, by: nat) -> bool {
    &&& after.len() == before.len() + by
    &&& forall|i: int| 0 <= i < before.len() ==> #[trigger] after[i] == before[i]
}

/// The entry is a list of `items` in the source.
pub open spec fn is_list(
    e: OutputEntry,
    name: Option<Seq<char>>,
    item_type: Seq<char>,
    searchable: bool,
    items: Seq<Seq<char>>,
) -> bool {
    &&& name_text(e.name) == name
    &&& e.kind matches OutputKind::List { item_type: t, value, len, searchable: s }
    &&& t@ == item_type
    &&& value@ == list_text(items)
    &&& len == items.len()
    &&& s == searchable
}

/// The byte strings by their views.
pub open spec fn byte_strings(items: Seq<Vec<u8>>) -> Seq<Seq<u8>> {
    items.map_values(|v: Vec<u8>| v@)
}

/// The two blobs are as before.
pub open spec fn same_blobs(before: CodeBuilder, after: CodeBuilder) -> bool {
    after.u8seq_writer == before.u8seq_writer && after.u32seq_writer == before.u32seq_writer
}

/// Name, hash function and visibility are as before.
pub open spec fn same_head(before: CodeBuilder, after: CodeBuilder) -> bool {
    after.name == before.name && after.hash == before.hash && after.vis == before.vis
}

/// The writer has the name and the file of before, and `more` bytes at its
/// end.
pub open spec fn u8_grown(before: U8SeqWriter, after: U8SeqWriter, more: Seq<u8>) -> bool {
    after.entry == before.entry && after.file == before.file && after.bytes@ == before.bytes@ + more
}

/// The writer has the name and the file of before, and `more` bytes at its
/// end.
pub open spec fn u32_grown(before: U32SeqWriter, after: U32SeqWriter, more: Seq<u8>) -> bool {
    after.entry == before.entry && after.file == before.file && after.bytes@ == before.bytes@ + more
}

/// The integers went where integers of their number go: into the source as
/// a list of up to [`INLINE_U32_MAX`], else to the blob of integers.
pub open spec fn holds_u32s(
    before: CodeBuilder,
    after: CodeBuilder,
    e: OutputEntry,
    name: Option<Seq<char>>,
    values: Seq<u32>,
) -> bool {
    if values.len() > INLINE_U32_MAX {
        &&& name_text(e.name) == name
        &&& e.kind matches OutputKind::U32Seq { offset, len }
        &&& offset == before.u32seq_writer.bytes@.len()
        &&& len == 4 * values.len()
        &&& u32_grown(before.u32seq_writer, after.u32seq_writer, le_bytes_u32s(values))
        &&& after.u32seq_writer.opened
    } else {
        &&& is_list(e, name, "u32"@, false, decimal_texts(values))
        &&& after.u32seq_writer == before.u32seq_writer
    }
}

impl CodeBuilder {
    /// An emitter without entries. `hash` is the path of the hash function
    /// that the generated maps name; it has to be the one the maps were
    /// built with.
    pub fn new(name: String, hash: String, u8seq_writer: U8SeqWriter, u32seq_writer: U32SeqWriter) -> (r: Self)
        ensures
            r.name == name,
            r.hash == hash,
            r.vis is None,
            r.list@.len() == 0,
            r.u8seq_writer == u8seq_writer,
            r.u32seq_writer == u32seq_writer,
            r.wf(),
    {
        CodeBuilder { name, hash, vis: None, list: Vec::new(), u8seq_writer, u32seq_writer }
    }

    /// Every entry refers to earlier entries only.
    pub open spec fn wf(&self) -> bool {
        entries_wf(self.list@)
    }

    /// Makes the generated items visible in `vis`, or private.
    pub fn set_visibility(&mut self, vis: Option<String>)
        ensures
            final(self).vis == vis,
            final(self).name == old(self).name,
            final(self).hash == old(self).hash,
            final(self).list == old(self).list,
            same_blobs(*old(self), *final(self)),
    {
        self.vis = vis;
    }

    /// Appends `entry`.
    fn push_entry(&mut self, entry: OutputEntry) -> (id: ReferenceId)
        requires
            old(self).wf(),
            entry_wf(entry, old(self).list@.len() as int),
        ensures
            id.0 == old(self).list@.len(),
            final(self).list@ == old(self).list@.push(entry),
            extends(old(self).list@, final(self).list@, 1),
            final(self).wf(),
            same_head(*old(self), *final(self)),
            same_blobs(*old(self), *final(self)),
    {
        let id = self.list.len();
        self.list.push(entry);
        ReferenceId(id)
    }

    /// Adds a type that is declared elsewhere.
    pub fn create_custom(&mut self, name: String) -> (id: ReferenceId)
        requires
            old(self).wf(),
        ensures
            id.0 == old(self).list@.len(),
            extends(old(self).list@, final(self).list@, 1),
            final(self).list@.last().name is None,
            final(self).list@.last().kind matches OutputKind::Custom { name: n } && n == name,
            final(self).wf(),
            same_head(*old(self), *final(self)),
            same_blobs(*old(self), *final(self)),
    {
        self.push_entry(OutputEntry { name: None, kind: OutputKind::Custom { name } })
    }

    /// Adds a list of items that are already written out.
    pub fn create_list_raw(
        &mut self,
        name: Option<String>,
        item_type: String,
        searchable: bool,
        items: &Vec<String>,
    ) -> (id: ReferenceId)
        requires
            old(self).wf(),
        ensures
            id.0 == old(self).list@.len(),
            extends(old(self).list@, final(self).list@, 1),
            is_list(final(self).list@.last(), name_text(name), item_type@, searchable, texts(items@)),
            final(self).wf(),
            same_head(*old(self), *final(self)),
            same_blobs(*old(self), *final(self)),
    {
        let value = list_of(items);
        let len = items.len();
        self.push_entry(OutputEntry { name, kind: OutputKind::List { item_type, len, value, searchable } })
    }

    /// Adds the keys of a map as a list. The keys of a sorted map can be
    /// searched.
    pub fn create_keys(&mut self, name: String, item_type: String, mapout: &MapOutput, items: &Vec<String>) -> (id:
        ReferenceId)
        requires
            old(self).wf(),
        ensures
            id.0 == old(self).list@.len(),
            extends(old(self).list@, final(self).list@, 1),
            is_list(final(self).list@.last(), Some(name@), item_type@, mapout.kind is Tiny, texts(items@)),
            final(self).wf(),
            same_head(*old(self), *final(self)),
            same_blobs(*old(self), *final(self)),
    {
        let searchable = match &mapout.kind {
            MapKind::Tiny => true,
            _ => false,
        };
        self.create_list_raw(Some(name), item_type, searchable, items)
    }

    /// Adds a list.
    pub fn create_list(&mut self, name: String, item_type: String, items: &Vec<String>) -> (id: ReferenceId)
        requires
            old(self).wf(),
        ensures
            id.0 == old(self).list@.len(),
            extends(old(self).list@, final(self).list@, 1),
            is_list(final(self).list@.last(), Some(name@), item_type@, false, texts(items@)),
            final(self).wf(),
            same_head(*old(self), *final(self)),
            same_blobs(*old(self), *final(self)),
    {
        self.create_list_raw(Some(name), item_type, false, items)
    }

    /// Adds the pairing of a sequence of keys with a sequence of values.
    pub fn create_pair(&mut self, keys: ReferenceId, values: ReferenceId) -> (id: ReferenceId)
        requires
            old(self).wf(),
            keys.0 < old(self).list@.len(),
            values.0 < old(self).list@.len(),
        ensures
            id.0 == old(self).list@.len(),
            extends(old(self).list@, final(self).list@, 1),
            final(self).list@.last().name is None,
            final(self).list@.last().kind matches OutputKind::Pair { keys: k, values: v } && k == keys && v
                == values,
            final(self).wf(),
            same_head(*old(self), *final(self)),
            same_blobs(*old(self), *final(self)),
    {
        self.push_entry(OutputEntry { name: None, kind: OutputKind::Pair { keys, values } })
    }

    /// Adds a sequence of integers: as a list in the source where it has up
    /// to [`INLINE_U32_MAX`] items, else in the blob of integers.
    pub fn create_u32_seq_raw(&mut self, name: Option<String>, values: &Vec<u32>) -> (id: ReferenceId)
        requires
            old(self).wf(),
        ensures
            id.0 == old(self).list@.len(),
            extends(old(self).list@, final(self).list@, 1),
            holds_u32s(*old(self), *final(self), final(self).list@.last(), name_text(name), values@),
            final(self).u8seq_writer == old(self).u8seq_writer,
            final(self).wf(),
            same_head(*old(self), *final(self)),
    {
        if values.len() > INLINE_U32_MAX {
            let offset = self.u32seq_writer.count();
            let ghost start = self.u32seq_writer.bytes@;
            let mut i: usize = 0;
            while i < values.len()
                invariant
                    i <= values@.len(),
                    self.wf(),
                    self.list == old(self).list,
                    same_head(*old(self), *self),
                    self.u8seq_writer == old(self).u8seq_writer,
                    start == old(self).u32seq_writer.bytes@,
                    u32_grown(old(self).u32seq_writer, self.u32seq_writer, le_bytes_u32s(values@.take(i as int))),
                    i > 0 ==> self.u32seq_writer.opened,
                decreases values@.len() - i,
            {
                self.u32seq_writer.write_u32(values[i]);
                proof {
                    assert(values@.take(i + 1).drop_last() =~= values@.take(i as int));
                    assert(values@.take(i + 1).last() == values@[i as int]);
                    assert(start + le_bytes_u32s(values@.take(i as int)) + crate::aligned::le_bytes_u32(values@[i as int])
                        =~= start + le_bytes_u32s(values@.take(i + 1)));
                }
                i += 1;
            }
            proof {
                assert(values@.take(values@.len() as int) =~= values@);
                crate::aligned::lemma_le_bytes_len(values@);
            }
            let len = self.u32seq_writer.count() - offset;
            self.push_entry(OutputEntry { name, kind: OutputKind::U32Seq { offset, len } })
        } else {
            let items = decimals(values);
            self.create_list_raw(name, String::from_str("u32"), false, &items)
        }
    }

    /// Adds a named sequence of integers.
    pub fn create_u32_seq(&mut self, name: String, values: &Vec<u32>) -> (id: ReferenceId)
        requires
            old(self).wf(),
        ensures
            id.0 == old(self).list@.len(),
            extends(old(self).list@, final(self).list@, 1),
            holds_u32s(*old(self), *final(self), final(self).list@.last(), Some(name@), values@),
            final(self).u8seq_writer == old(self).u8seq_writer,
            final(self).wf(),
            same_head(*old(self), *final(self)),
    {
        self.create_u32_seq_raw(Some(name), values)
    }
}

/// The byte strings went where byte strings of their number go: into the
/// source as a list of up to [`INLINE_BYTES_MAX`]; else packed into the blob
/// of bytes, with an entry for their end offsets before the entry for the
/// byte strings themselves.
pub open spec fn holds_byte_strings(
    before: CodeBuilder,
    after: CodeBuilder,
    name: Seq<char>,
    searchable: bool,
    items: Seq<Vec<u8>>,
) -> bool {
    let all = byte_strings(items);
    if items.len() > INLINE_BYTES_MAX {
        let positions = after.list@[before.list@.len() as int];
        let e = after.list@[before.list@.len() as int + 1];
        &&& extends(before.list@, after.list@, 2)
        &&& u8_grown(before.u8seq_writer, after.u8seq_writer, packed(all))
        &&& after.u8seq_writer.opened
        &&& holds_u32s(before, after, positions, None, ends(all))
        &&& name_text(e.name) == Some(name)
        &&& e.kind matches OutputKind::BytesPositionSeq { offset, len, index }
        &&& offset == before.u8seq_writer.bytes@.len()
        &&& len == packed(all).len()
        &&& index.0 == before.list@.len()
    } else {
        &&& extends(before.list@, after.list@, 1)
        &&& is_list(after.list@.last(), Some(name), "&'static [u8]"@, searchable, bytes_texts(items))
        &&& same_blobs(before, after)
    }
}

/// The map went into the last entry, after its pilots and its remap table
/// where it has them.
pub open spec fn holds_map(
    before: CodeBuilder,
    after: CodeBuilder,
    name: Seq<char>,
    data: ReferenceId,
    out: MapOutput,
) -> bool {
    let e = after.list@.last();
    &&& name_text(e.name) == Some(name)
    &&& match out.kind {
        MapKind::Tiny => {
            &&& extends(before.list@, after.list@, 1)
            &&& e.kind matches OutputKind::Tiny(d)
            &&& d == data
            &&& same_blobs(before, after)
        },
        MapKind::Small(seed) => {
            &&& extends(before.list@, after.list@, 1)
            &&& e.kind matches OutputKind::Small { seed: s, data: d }
            &&& s == seed
            &&& d == data
            &&& same_blobs(before, after)
        },
        MapKind::Medium { seed, slots, pilots, remap } => {
            let first = before.list@.len() as int;
            &&& extends(before.list@, after.list@, 3)
            &&& e.kind matches OutputKind::Medium { seed: s, slots: n, pilots: p, remap: r, data: d }
            &&& s == seed
            &&& n == slots
            &&& p.0 == first
            &&& r.0 == first + 1
            &&& d == data
            &&& if pilots@.len() > INLINE_PILOTS_MAX {
                &&& after.list@[first].name is None
                &&& after.list@[first].kind matches OutputKind::U8Seq { offset, len }
                &&& offset == before.u8seq_writer.bytes@.len()
                &&& len == pilots@.len()
                &&& u8_grown(before.u8seq_writer, after.u8seq_writer, pilots@)
                &&& after.u8seq_writer.opened
            } else {
                &&& is_list(
                    after.list@[first],
                    None,
                    "u8"@,
                    false,
                    pilots@.map_values(|b: u8| decimal_text(b as nat)),
                )
                &&& after.u8seq_writer == before.u8seq_writer
            }
            &&& holds_u32s(before, after, after.list@[first + 1], None, remap@)
        },
    }
}

impl CodeBuilder {
    /// Adds a sequence of byte strings: as a list in the source where it has up
    /// to [`INLINE_BYTES_MAX`] items; else packed into the blob of bytes, with
    /// the end offsets as a sequence of integers.
    pub fn create_bytes_position_seq_raw(&mut self, name: String, is_sorted_keys: bool, items: &Vec<Vec<u8>>) -> (id:
        ReferenceId)
        requires
            old(self).wf(),
            items@.len() > INLINE_BYTES_MAX ==> packed(byte_strings(items@)).len() <= u32::MAX,
        ensures
            id.0 == final(self).list@.len() - 1,
            holds_byte_strings(*old(self), *final(self), name@, is_sorted_keys, items@),
            items@.len() <= INLINE_BYTES_MAX ==> final(self).u32seq_writer == old(self).u32seq_writer,
            final(self).wf(),
            same_head(*old(self), *final(self)),
    {
        let ghost all = byte_strings(items@);
        if items.len() > INLINE_BYTES_MAX {
            let offset = self.u8seq_writer.count();
            let ghost start = self.u8seq_writer.bytes@;
            let mut count: u32 = 0;
            let mut list: Vec<u32> = Vec::new();
            let mut i: usize = 0;
            while i < items.len()
                invariant
                    i <= items@.len(),
                    all == byte_strings(items@),
                    packed(all).len() <= u32::MAX,
                    self.wf(),
                    self.list == old(self).list,
                    same_head(*old(self), *self),
                    self.u32seq_writer == old(self).u32seq_writer,
                    start == old(self).u8seq_writer.bytes@,
                    u8_grown(old(self).u8seq_writer, self.u8seq_writer, packed(all.take(i as int))),
                    i > 0 ==> self.u8seq_writer.opened,
                    count == packed(all.take(i as int)).len(),
                    list@.len() == i,
                    forall|k: int| 0 <= k < i ==> #[trigger] list@[k] == ends(all)[k],
                decreases items@.len() - i,
            {
                proof {
                    crate::seq::lemma_packed_prefix(all, i + 1);
                    assert(all.take(i + 1).drop_last() =~= all.take(i as int));
                    assert(all.take(i + 1).last() == items@[i as int]@);
                    assert(start + packed(all.take(i as int)) + items@[i as int]@ =~= start + packed(all.take(i + 1)));
                }
                let buf = &items[i];
                self.u8seq_writer.write_u8seq(buf.as_slice());
                let len = buf.len() as u32;
                count += len;
                list.push(count);
                i += 1;
            }
            proof {
                assert(all.take(items@.len() as int) =~= all);
                assert(list@ =~= ends(all));
            }
            let len = self.u8seq_writer.count() - offset;
            let ghost mid = *self;
            let index = self.create_u32_seq_raw(None, &list);
            let ghost positions = self.list@.last();
            let id = self.push_entry(
                OutputEntry { name: Some(name), kind: OutputKind::BytesPositionSeq { offset, len, index } },
            );
            proof {
                assert(self.list@[old(self).list@.len() as int] == positions);
                assert(holds_u32s(*old(self), *self, positions, None, ends(all))) by {
                    assert(holds_u32s(mid, *self, positions, None, ends(all)));
                }
            }
            id
        } else {
            let mut rendered: Vec<String> = Vec::new();
            let mut i: usize = 0;
            while i < items.len()
                invariant
                    i <= items@.len(),
                    rendered@.len() == i,
                    forall|k: int| 0 <= k < i ==> (#[trigger] rendered@[k])@ == bytes_texts(items@)[k],
                decreases items@.len() - i,
            {
                rendered.push(bytes_literal(&items[i]));
                i += 1;
            }
            assert(texts(rendered@) =~= bytes_texts(items@));
            self.create_list_raw(Some(name), String::from_str("&'static [u8]"), is_sorted_keys, &rendered)
        }
    }

    /// Adds the keys of a map as a sequence of byte strings. The keys of a
    /// sorted map can be searched.
    pub fn create_bytes_position_keys(&mut self, name: String, mapout: &MapOutput, items: &Vec<Vec<u8>>) -> (id:
        ReferenceId)
        requires
            old(self).wf(),
            items@.len() > INLINE_BYTES_MAX ==> packed(byte_strings(items@)).len() <= u32::MAX,
        ensures
            id.0 == final(self).list@.len() - 1,
            holds_byte_strings(*old(self), *final(self), name@, mapout.kind is Tiny, items@),
            items@.len() <= INLINE_BYTES_MAX ==> final(self).u32seq_writer == old(self).u32seq_writer,
            final(self).wf(),
            same_head(*old(self), *final(self)),
    {
        let searchable = match &mapout.kind {
            MapKind::Tiny => true,
            _ => false,
        };
        self.create_bytes_position_seq_raw(name, searchable, items)
    }

    /// Adds a sequence of byte strings.
    pub fn create_bytes_position_seq(&mut self, name: String, items: &Vec<Vec<u8>>) -> (id: ReferenceId)
        requires
            old(self).wf(),
            items@.len() > INLINE_BYTES_MAX ==> packed(byte_strings(items@)).len() <= u32::MAX,
        ensures
            id.0 == final(self).list@.len() - 1,
            holds_byte_strings(*old(self), *final(self), name@, false, items@),
            items@.len() <= INLINE_BYTES_MAX ==> final(self).u32seq_writer == old(self).u32seq_writer,
            final(self).wf(),
            same_head(*old(self), *final(self)),
    {
        self.create_bytes_position_seq_raw(name, false, items)
    }
}

impl MapOutput {
    /// Adds the map over the entry `data`, which must hold the keys, or the
    /// keys and values, in the order of this map. A bucketed map brings its
    /// pilots and its remap table as entries of their own.
    pub fn create_map(&self, name: String, data: ReferenceId, builder: &mut CodeBuilder) -> (id: ReferenceId)
        requires
            old(builder).wf(),
            data.0 < old(builder).list@.len(),
        ensures
            id.0 == final(builder).list@.len() - 1,
            holds_map(*old(builder), *final(builder), name@, data, *self),
            final(builder).wf(),
            same_head(*old(builder), *final(builder)),
    {
        match &self.kind {
            MapKind::Tiny => builder.push_entry(OutputEntry { name: Some(name), kind: OutputKind::Tiny(data) }),
            MapKind::Small(seed) => builder.push_entry(
                OutputEntry { name: Some(name), kind: OutputKind::Small { seed: *seed, data } },
            ),
            MapKind::Medium { seed, slots, pilots, remap } => {
                let ghost first = builder.list@.len() as int;
                let pilots_id = if pilots.len() > INLINE_PILOTS_MAX {
                    let offset = builder.u8seq_writer.count();
                    builder.u8seq_writer.write_u8seq(pilots.as_slice());
                    let len = builder.u8seq_writer.count() - offset;
                    builder.push_entry(OutputEntry { name: None, kind: OutputKind::U8Seq { offset, len } })
                } else {
                    let items = byte_decimals(pilots);
                    builder.create_list_raw(None, String::from_str("u8"), false, &items)
                };
                let ghost mid = *builder;
                let ghost pilots_entry = builder.list@.last();
                let remap_id = builder.create_u32_seq_raw(None, remap);
                let ghost remap_entry = builder.list@.last();
                let id = builder.push_entry(
                    OutputEntry {
                        name: Some(name),
                        kind: OutputKind::Medium {
                            seed: *seed,
                            slots: *slots,
                            pilots: pilots_id,
                            remap: remap_id,
                            data,
                        },
                    },
                );
                proof {
                    assert(builder.list@[first] == pilots_entry);
                    assert(builder.list@[first + 1] == remap_entry);
                    assert(holds_u32s(*old(builder), *builder, remap_entry, None, remap@)) by {
                        assert(holds_u32s(mid, *builder, remap_entry, None, remap@));
                    }
                }
                id
            },
        }
    }
}

/// The visibility as it stands before an item: `pub(..) `, or nothing.
pub open spec fn vis_text(vis: Option<String>) -> Seq<char> {
    match vis {
        Some(v) => "pub("@ + v@ + ") "@,
        None => ""@,
    }
}

/// The type of a part of a blob.
pub open spec fn slice_text(offset: nat, len: nat, blob: Seq<char>) -> Seq<char> {
    CRATE_NAME@ + "::store::SliceData<"@ + decimal_text(offset) + ", "@ + decimal_text(len) + ", "@ + blob + ">"@
}

/// The type of a part of the blob of integers, read as integers.
pub open spec fn aligned_text(offset: nat, len: nat, blob: Seq<char>) -> Seq<char> {
    CRATE_NAME@ + "::aligned::AlignedArray<"@ + decimal_text(len) + ", u32, "@ + slice_text(offset, len, blob) + ">"@
}

/// The type of byte strings that are cut out of a part of the blob of bytes.
pub open spec fn position_seq_text(index: Seq<char>, offset: nat, len: nat, blob: Seq<char>) -> Seq<char> {
    CRATE_NAME@ + "::seq::PositionSeq<"@ + index + ", "@ + slice_text(offset, len, blob) + ">"@
}

/// The type of a pair.
pub open spec fn pair_text(keys: Seq<char>, values: Seq<char>) -> Seq<char> {
    "("@ + keys + ", "@ + values + ")"@
}

/// The name of a list that was given none.
pub open spec fn list_name_text(name: Seq<char>, at: nat) -> Seq<char> {
    "PrecomputedList"@ + name + decimal_text(at)
}

/// A type alias.
pub open spec fn type_line(vis: Seq<char>, name: Seq<char>, ty: Seq<char>) -> Seq<char> {
    vis + "type "@ + name + " = "@ + ty + ";\n"@
}

/// A constant.
pub open spec fn const_line(vis: Seq<char>, name: Seq<char>, ty: Seq<char>, value: Seq<char>) -> Seq<char> {
    vis + "const "@ + name + ": "@ + ty + " = "@ + value + ";\n"@
}

/// The definition of a list.
pub open spec fn list_line(
    searchable: bool,
    name: Seq<char>,
    item_type: Seq<char>,
    len: nat,
    value: Seq<char>,
) -> Seq<char> {
    CRATE_NAME@ + "::define!(const "@ + (if searchable {
        "searchable "@
    } else {
        ""@
    }) + name + ": &["@ + item_type + "; "@ + decimal_text(len) + "] = "@ + value + ");\n"@
}

/// The type of a sorted map.
pub open spec fn tiny_type_text(data: Seq<char>) -> Seq<char> {
    CRATE_NAME@ + "::TinyMap<"@ + data + ">"@
}

/// The value of a sorted map.
pub open spec fn tiny_value_text() -> Seq<char> {
    CRATE_NAME@ + "::TinyMap::new()"@
}

/// The type of a single-level map.
pub open spec fn small_type_text(data: Seq<char>, hash: Seq<char>) -> Seq<char> {
    CRATE_NAME@ + "::SmallMap<"@ + data + ", "@ + hash + ">"@
}

/// The value of a single-level map.
pub open spec fn small_value_text(seed: u64) -> Seq<char> {
    CRATE_NAME@ + "::SmallMap::new("@ + decimal_text(seed as nat) + ")"@
}

/// The type of a bucketed map.
pub open spec fn medium_type_text(pilots: Seq<char>, remap: Seq<char>, data: Seq<char>, hash: Seq<char>) -> Seq<
    char,
> {
    CRATE_NAME@ + "::MediumMap<"@ + pilots + ", "@ + remap + ", "@ + data + ", "@ + hash + ">"@
}

/// The value of a bucketed map.
pub open spec fn medium_value_text(seed: u64, slots: u32) -> Seq<char> {
    CRATE_NAME@ + "::MediumMap::new("@ + decimal_text(seed as nat) + ", "@ + decimal_text(slots as nat) + ")"@
}

/// An entry that has a name is declared under it and referred to by it; one
/// without is referred to by its type.
pub open spec fn named_or(name: Option<String>, vis: Seq<char>, ty: Seq<char>) -> (Seq<char>, Seq<char>) {
    match name {
        Some(n) => (type_line(vis, n@, ty), n@),
        None => (""@, ty),
    }
}

impl CodeBuilder {
    /// The line that declares entry `at`, which may be empty, and the text by
    /// which later entries refer to it. `names` holds these texts for the
    /// entries before it.
    pub open spec fn entry_text(&self, names: Seq<Seq<char>>, at: int) -> (Seq<char>, Seq<char>) {
        let e = self.list@[at];
        let vis = vis_text(self.vis);
        match e.kind {
            OutputKind::Custom { name } => (""@, name@),
            OutputKind::U8Seq { offset, len } => named_or(
                e.name,
                vis,
                slice_text(offset as nat, len as nat, self.u8seq_writer.entry@),
            ),
            OutputKind::U32Seq { offset, len } => named_or(
                e.name,
                vis,
                aligned_text(offset as nat, len as nat, self.u32seq_writer.entry@),
            ),
            OutputKind::BytesPositionSeq { offset, len, index } => (
                type_line(
                    vis,
                    e.name->0@,
                    position_seq_text(names[index.0 as int], offset as nat, len as nat, self.u8seq_writer.entry@),
                ),
                e.name->0@,
            ),
            OutputKind::List { item_type, value, len, searchable } => {
                let name = match e.name {
                    Some(n) => n@,
                    None => list_name_text(self.name@, at as nat),
                };
                (list_line(searchable, name, item_type@, len as nat, value@), name)
            },
            OutputKind::Pair { keys, values } => (""@, pair_text(names[keys.0 as int], names[values.0 as int])),
            OutputKind::Tiny(data) => (
                const_line(vis, e.name->0@, tiny_type_text(names[data.0 as int]), tiny_value_text()),
                e.name->0@,
            ),
            OutputKind::Small { seed, data } => (
                const_line(
                    vis,
                    e.name->0@,
                    small_type_text(names[data.0 as int], self.hash@),
                    small_value_text(seed),
                ),
                e.name->0@,
            ),
            OutputKind::Medium { seed, slots, pilots, remap, data } => (
                const_line(
                    vis,
                    e.name->0@,
                    medium_type_text(
                        names[pilots.0 as int],
                        names[remap.0 as int],
                        names[data.0 as int],
                        self.hash@,
                    ),
                    medium_value_text(seed, slots),
                ),
                e.name->0@,
            ),
        }
    }

    /// The texts by which the first `upto` entries are referred to.
    pub open spec fn names_upto(&self, upto: int) -> Seq<Seq<char>>
        decreases upto,
    {
        if upto <= 0 {
            Seq::empty()
        } else {
            let before = self.names_upto(upto - 1);
            before.push(self.entry_text(before, upto - 1).1)
        }
    }

    /// The lines that declare the first `upto` entries.
    pub open spec fn source_upto(&self, upto: int) -> Seq<char>
        decreases upto,
    {
        if upto <= 0 {
            Seq::empty()
        } else {
            self.source_upto(upto - 1) + self.entry_text(self.names_upto(upto - 1), upto - 1).0
        }
    }

    /// The generated source: one line for each entry that needs one, in the
    /// order of the entries.
    pub open spec fn source(&self) -> Seq<char> {
        self.source_upto(self.list@.len() as int)
    }
}

/// Writes the visibility as it stands before an item.
fn vis_prefix(vis: &Option<String>) -> (r: String)
    ensures
        r@ == vis_text(*vis),
{
    match vis {
        Some(v) => {
            let mut s = String::from_str("pub(");
            s.append(v.as_str());
            s.append(") ");
            s
        },
        None => String::from_str(""),
    }
}

/// Writes the type of a part of a blob.
fn slice_type(offset: usize, len: usize, blob: &String) -> (r: String)
    ensures
        r@ == slice_text(offset as nat, len as nat, blob@),
{
    let mut s = String::from_str(CRATE_NAME);
    s.append("::store::SliceData<");
    s.append(decimal(offset as u64).as_str());
    s.append(", ");
    s.append(decimal(len as u64).as_str());
    s.append(", ");
    s.append(blob.as_str());
    s.append(">");
    s
}

/// Writes the type of a part of the blob of integers, read as integers.
fn aligned_type(offset: usize, len: usize, blob: &String) -> (r: String)
    ensures
        r@ == aligned_text(offset as nat, len as nat, blob@),
{
    let mut s = String::from_str(CRATE_NAME);
    s.append("::aligned::AlignedArray<");
    s.append(decimal(len as u64).as_str());
    s.append(", u32, ");
    s.append(slice_type(offset, len, blob).as_str());
    s.append(">");
    s
}

/// Writes the type of byte strings that are cut out of a part of the blob
/// of bytes.
fn position_seq_type(index: &String, offset: usize, len: usize, blob: &String) -> (r: String)
    ensures
        r@ == position_seq_text(index@, offset as nat, len as nat, blob@),
{
    let mut s = String::from_str(CRATE_NAME);
    s.append("::seq::PositionSeq<");
    s.append(index.as_str());
    s.append(", ");
    s.append(slice_type(offset, len, blob).as_str());
    s.append(">");
    s
}

/// Writes a type alias.
fn write_type_line(vis: &String, name: &String, ty: &String) -> (r: String)
    ensures
        r@ == type_line(vis@, name@, ty@),
{
    let mut s = vis.clone();
    s.append("type ");
    s.append(name.as_str());
    s.append(" = ");
    s.append(ty.as_str());
    s.append(";\n");
    s
}

/// Writes a constant.
fn write_const_line(vis: &String, name: &String, ty: &String, value: &String) -> (r: String)
    ensures
        r@ == const_line(vis@, name@, ty@, value@),
{
    let mut s = vis.clone();
    s.append("const ");
    s.append(name.as_str());
    s.append(": ");
    s.append(ty.as_str());
    s.append(" = ");
    s.append(value.as_str());
    s.append(";\n");
    s
}

/// Writes the definition of a list.
fn write_list_line(searchable: bool, name: &String, item_type: &String, len: usize, value: &String) -> (r: String)
    ensures
        r@ == list_line(searchable, name@, item_type@, len as nat, value@),
{
    let mut s = String::from_str(CRATE_NAME);
    s.append("::define!(const ");
    if searchable {
        s.append("searchable ");
    } else {
        s.append("");
    }
    s.append(name.as_str());
    s.append(": &[");
    s.append(item_type.as_str());
    s.append("; ");
    s.append(decimal(len as u64).as_str());
    s.append("] = ");
    s.append(value.as_str());
    s.append(");\n");
    s
}

/// Writes the declaration of an entry that may have a name, and the text by
/// which it is referred to.
fn write_named_or(name: &Option<String>, vis: &String, ty: String) -> (r: (String, String))
    ensures
        (r.0@, r.1@) == named_or(*name, vis@, ty@),
{
    match name {
        Some(n) => (write_type_line(vis, n, &ty), n.clone()),
        None => (String::from_str(""), ty),
    }
}

impl CodeBuilder {
    /// Writes the line that declares entry `at` and the text by which later
    /// entries refer to it.
    fn write_entry(&self, names: &Vec<String>, vis: &String, at: usize) -> (r: (String, String))
        requires
            self.wf(),
            at < self.list@.len(),
            names@.len() == at,
            vis@ == vis_text(self.vis),
        ensures
            (r.0@, r.1@) == self.entry_text(texts(names@), at as int),
    {
        let e = &self.list[at];
        assert(entry_wf(*e, at as int));
        let ghost all = texts(names@);
        match &e.kind {
            OutputKind::Custom { name } => (String::from_str(""), name.clone()),
            OutputKind::U8Seq { offset, len } => write_named_or(
                &e.name,
                vis,
                slice_type(*offset, *len, &self.u8seq_writer.entry),
            ),
            OutputKind::U32Seq { offset, len } => write_named_or(
                &e.name,
                vis,
                aligned_type(*offset, *len, &self.u32seq_writer.entry),
            ),
            OutputKind::BytesPositionSeq { offset, len, index } => {
                assert(all[index.0 as int] == names@[index.0 as int]@);
                let ty = position_seq_type(&names[index.0], *offset, *len, &self.u8seq_writer.entry);
                match &e.name {
                    Some(n) => (write_type_line(vis, n, &ty), n.clone()),
                    None => (String::from_str(""), String::from_str("")),
                }
            },
            OutputKind::List { item_type, value, len, searchable } => {
                let name = match &e.name {
                    Some(n) => n.clone(),
                    None => {
                        let mut s = String::from_str("PrecomputedList");
                        s.append(self.name.as_str());
                        s.append(decimal(at as u64).as_str());
                        s
                    },
                };
                (write_list_line(*searchable, &name, item_type, *len, value), name)
            },
            OutputKind::Pair { keys, values } => {
                assert(all[keys.0 as int] == names@[keys.0 as int]@);
                assert(all[values.0 as int] == names@[values.0 as int]@);
                let mut s = String::from_str("(");
                s.append(names[keys.0].as_str());
                s.append(", ");
                s.append(names[values.0].as_str());
                s.append(")");
                (String::from_str(""), s)
            },
            OutputKind::Tiny(data) => {
                assert(all[data.0 as int] == names@[data.0 as int]@);
                let mut ty = String::from_str(CRATE_NAME);
                ty.append("::TinyMap<");
                ty.append(names[data.0].as_str());
                ty.append(">");
                let mut value = String::from_str(CRATE_NAME);
                value.append("::TinyMap::new()");
                match &e.name {
                    Some(n) => (write_const_line(vis, n, &ty, &value), n.clone()),
                    None => (String::from_str(""), String::from_str("")),
                }
            },
            OutputKind::Small { seed, data } => {
                assert(all[data.0 as int] == names@[data.0 as int]@);
                let mut ty = String::from_str(CRATE_NAME);
                ty.append("::SmallMap<");
                ty.append(names[data.0].as_str());
                ty.append(", ");
                ty.append(self.hash.as_str());
                ty.append(">");
                let mut value = String::from_str(CRATE_NAME);
                value.append("::SmallMap::new(");
                value.append(decimal(*seed).as_str());
                value.append(")");
                match &e.name {
                    Some(n) => (write_const_line(vis, n, &ty, &value), n.clone()),
                    None => (String::from_str(""), String::from_str("")),
                }
            },
            OutputKind::Medium { seed, slots, pilots, remap, data } => {
                assert(all[pilots.0 as int] == names@[pilots.0 as int]@);
                assert(all[remap.0 as int] == names@[remap.0 as int]@);
                assert(all[data.0 as int] == names@[data.0 as int]@);
                let mut ty = String::from_str(CRATE_NAME);
                ty.append("::MediumMap<");
                ty.append(names[pilots.0].as_str());
                ty.append(", ");
                ty.append(names[remap.0].as_str());
                ty.append(", ");
                ty.append(names[data.0].as_str());
                ty.append(", ");
                ty.append(self.hash.as_str());
                ty.append(">");
                let mut value = String::from_str(CRATE_NAME);
                value.append("::MediumMap::new(");
                value.append(decimal(*seed).as_str());
                value.append(", ");
                value.append(decimal(*slots as u64).as_str());
                value.append(")");
                match &e.name {
                    Some(n) => (write_const_line(vis, n, &ty, &value), n.clone()),
                    None => (String::from_str(""), String::from_str("")),
                }
            },
        }
    }

    /// Writes the generated source and hands the two blobs back.
    pub fn write_to(self) -> (r: (String, U8SeqWriter, U32SeqWriter))
        requires
            self.wf(),
        ensures
            r.0@ == self.source(),
            r.1 == self.u8seq_writer,
            r.2 == self.u32seq_writer,
    {
        let vis = vis_prefix(&self.vis);
        let mut names: Vec<String> = Vec::new();
        let mut text = String::new();
        let mut at: usize = 0;
        assert(text@ =~= self.source_upto(0));
        assert(texts(names@) =~= self.names_upto(0));
        while at < self.list.len()
            invariant
                self.wf(),
                at <= self.list@.len(),
                vis@ == vis_text(self.vis),
                names@.len() == at,
                texts(names@) == self.names_upto(at as int),
                text@ == self.source_upto(at as int),
            decreases self.list@.len() - at,
        {
            let ghost before = texts(names@);
            let (line, name) = self.write_entry(&names, &vis, at);
            text.append(line.as_str());
            names.push(name);
            proof {
                assert(texts(names@) =~= before.push(name@));
            }
            at += 1;
        }
        (text, self.u8seq_writer, self.u32seq_writer)
    }
}

} // verus!
