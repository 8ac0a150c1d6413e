//! Codec for the packed 32-byte FAT directory slot.
//!
//! A slot is either a short-file-name (SFN) record or, when its attribute
//! byte holds the marker value, a long-file-name (LFN) record.  The byte
//! layout of both variants is stated by spec functions (`sfn_bytes`,
//! `lfn_bytes`, `parse_slot`) and the executable codec is proved to follow
//! them bit-exactly; serialization and parsing are mutual inverses.
use vstd::prelude::*;
use crate::FatType;

verus! {

/// Size of one directory slot in bytes.
pub const DIR_ENTRY_SIZE: usize = 32;

/// Number of UTF-16 code units carried by one LFN slot.
pub const LFN_PART_LEN: usize = 13;

/// High bit of the LFN order byte: marks the logical-last slot, which is
/// stored physically first.
pub const LFN_ENTRY_LAST_FLAG: u8 = 0x40;

/// Attribute value that classifies a slot as an LFN record.
pub const ATTR_LFN: u8 = 0x0F;

pub const ATTR_READ_ONLY: u8 = 0x01;

pub const ATTR_HIDDEN: u8 = 0x02;

pub const ATTR_SYSTEM: u8 = 0x04;

pub const ATTR_VOLUME_ID: u8 = 0x08;

pub const ATTR_DIRECTORY: u8 = 0x10;

pub const ATTR_ARCHIVE: u8 = 0x20;

/// First byte value that terminates a directory: no used slot follows.
pub const SLOT_END: u8 = 0x00;

/// First byte value that marks a slot free for reuse.
pub const SLOT_FREE: u8 = 0xE5;

/// Low byte of a 16-bit value, little-endian.
pub open spec fn lo8(x: u16) -> u8 {
    (x % 256) as u8
}

/// High byte of a 16-bit value, little-endian.
pub open spec fn hi8(x: u16) -> u8 {
    (x / 256) as u8
}

/// 16-bit value read little-endian from two bytes.
pub open spec fn le16(b0: u8, b1: u8) -> u16 {
    (b0 + 256 * b1) as u16
}

/// Byte `i` (0 = least significant) of a 32-bit value, little-endian.
pub open spec fn byte32(x: u32, i: int) -> u8 {
    if i == 0 {
        (x % 256) as u8
    } else if i == 1 {
        ((x / 256) % 256) as u8
    } else if i == 2 {
        ((x / 65536) % 256) as u8
    } else {
        ((x / 16777216) % 256) as u8
    }
}

/// 32-bit value read little-endian from four bytes.
pub open spec fn le32(b0: u8, b1: u8, b2: u8, b3: u8) -> u32 {
    (b0 + 256 * b1 + 65536 * b2 + 16777216 * b3) as u32
}

/// One SFN directory record: the legacy 8.3 name plus attributes,
/// timestamps, first cluster and size.
#[derive(Debug)]
pub struct DirFileEntryData {
    /// The 11-byte space-padded 8.3 name; always length 11.
    pub name: Vec<u8>,
    pub attrs: u8,
    pub reserved_0: u8,
    /// Creation time, tenths of a second part.
    pub create_time_0: u8,
    /// Creation time, FAT time part.
    pub create_time_1: u16,
    pub create_date: u16,
    pub access_date: u16,
    pub first_cluster_hi: u16,
    pub modify_time: u16,
    pub modify_date: u16,
    pub first_cluster_lo: u16,
    pub size: u32,
}

/// Mathematical model of an SFN record.
pub ghost struct SfnView {
    pub name: Seq<u8>,
    pub attrs: u8,
    pub reserved_0: u8,
    pub create_time_0: u8,
    pub create_time_1: u16,
    pub create_date: u16,
    pub access_date: u16,
    pub first_cluster_hi: u16,
    pub modify_time: u16,
    pub modify_date: u16,
    pub first_cluster_lo: u16,
    pub size: u32,
}

impl View for DirFileEntryData {
    type V = SfnView;

    open spec fn view(&self) -> SfnView {
        SfnView {
            name: self.name@,
            attrs: self.attrs,
            reserved_0: self.reserved_0,
            create_time_0: self.create_time_0,
            create_time_1: self.create_time_1,
            create_date: self.create_date,
            access_date: self.access_date,
            first_cluster_hi: self.first_cluster_hi,
            modify_time: self.modify_time,
            modify_date: self.modify_date,
            first_cluster_lo: self.first_cluster_lo,
            size: self.size,
        }
    }
}

/// Well-formed SFN record: the name is 11 bytes and the attribute byte does
/// not carry the LFN marker (which would flip the slot's classification).
pub open spec fn sfn_wf(v: SfnView) -> bool {
    &&& v.name.len() == 11
    &&& v.attrs != ATTR_LFN
}

/// One LFN directory record: 13 UTF-16 code units of the long name, the
/// sequence order byte, and the checksum binding the run to its SFN.
#[derive(Debug)]
pub struct DirLfnEntryData {
    /// Order byte: sequence index 1..=20, optionally with
    /// `LFN_ENTRY_LAST_FLAG`; or a liveness sentinel.
    pub order: u8,
    /// The 13 UTF-16 code units; always length 13.
    pub units: Vec<u16>,
    /// Type byte; zero on every slot this crate synthesizes.
    pub entry_type: u8,
    /// Checksum of the 11-byte short name this run belongs to.
    pub checksum: u8,
    /// The first-cluster-low field; zero on every LFN slot.
    pub reserved_0: u16,
}

/// Mathematical model of an LFN record.
pub ghost struct LfnView {
    pub order: u8,
    pub units: Seq<u16>,
    pub entry_type: u8,
    pub checksum: u8,
    pub reserved_0: u16,
}

impl View for DirLfnEntryData {
    type V = LfnView;

    open spec fn view(&self) -> LfnView {
        LfnView {
            order: self.order,
            units: self.units@,
            entry_type: self.entry_type,
            checksum: self.checksum,
            reserved_0: self.reserved_0,
        }
    }
}

/// Well-formed LFN record: exactly 13 code units.
pub open spec fn lfn_wf(v: LfnView) -> bool {
    v.units.len() == 13
}

/// A directory slot, classified by the attribute byte.
#[derive(Debug)]
pub enum DirEntryData {
    File(DirFileEntryData),
    Lfn(DirLfnEntryData),
}

/// Mathematical model of a classified slot.
pub ghost enum SlotView {
    File(SfnView),
    Lfn(LfnView),
}

impl View for DirEntryData {
    type V = SlotView;

    open spec fn view(&self) -> SlotView {
        match self {
            DirEntryData::File(e) => SlotView::File(e@),
            DirEntryData::Lfn(e) => SlotView::Lfn(e@),
        }
    }
}

/// Well-formed slot of either variant.
pub open spec fn slot_wf(v: SlotView) -> bool {
    match v {
        SlotView::File(e) => sfn_wf(e),
        SlotView::Lfn(e) => lfn_wf(e),
    }
}

/// The 32-byte little-endian layout of an SFN record.
pub open spec fn sfn_bytes(e: SfnView) -> Seq<u8> {
    e.name + seq![
        e.attrs,
        e.reserved_0,
        e.create_time_0,
        lo8(e.create_time_1),
        hi8(e.create_time_1),
        lo8(e.create_date),
        hi8(e.create_date),
        lo8(e.access_date),
        hi8(e.access_date),
        lo8(e.first_cluster_hi),
        hi8(e.first_cluster_hi),
        lo8(e.modify_time),
        hi8(e.modify_time),
        lo8(e.modify_date),
        hi8(e.modify_date),
        lo8(e.first_cluster_lo),
        hi8(e.first_cluster_lo),
        byte32(e.size, 0),
        byte32(e.size, 1),
        byte32(e.size, 2),
        byte32(e.size, 3),
    ]
}

/// The 32-byte layout of an LFN record: the 13 code units are split 5+6+2
/// around the fixed attribute, type, checksum and cluster fields.
pub open spec fn lfn_bytes(e: LfnView) -> Seq<u8> {
    seq![
        e.order,
        lo8(e.units[0]),
        hi8(e.units[0]),
        lo8(e.units[1]),
        hi8(e.units[1]),
        lo8(e.units[2]),
        hi8(e.units[2]),
        lo8(e.units[3]),
        hi8(e.units[3]),
        lo8(e.units[4]),
        hi8(e.units[4]),
        ATTR_LFN,
        e.entry_type,
        e.checksum,
        lo8(e.units[5]),
        hi8(e.units[5]),
        lo8(e.units[6]),
        hi8(e.units[6]),
        lo8(e.units[7]),
        hi8(e.units[7]),
        lo8(e.units[8]),
        hi8(e.units[8]),
        lo8(e.units[9]),
        hi8(e.units[9]),
        lo8(e.units[10]),
        hi8(e.units[10]),
        lo8(e.reserved_0),
        hi8(e.reserved_0),
        lo8(e.units[11]),
        hi8(e.units[11]),
        lo8(e.units[12]),
        hi8(e.units[12]),
    ]
}

/// The 32-byte layout of a classified slot.
pub open spec fn slot_bytes(v: SlotView) -> Seq<u8> {
    match v {
        SlotView::File(e) => sfn_bytes(e),
        SlotView::Lfn(e) => lfn_bytes(e),
    }
}

/// Parse 32 bytes as an SFN record.
pub open spec fn parse_sfn(b: Seq<u8>) -> SfnView {
    SfnView {
        name: b.subrange(0, 11),
        attrs: b[11],
        reserved_0: b[12],
        create_time_0: b[13],
        create_time_1: le16(b[14], b[15]),
        create_date: le16(b[16], b[17]),
        access_date: le16(b[18], b[19]),
        first_cluster_hi: le16(b[20], b[21]),
        modify_time: le16(b[22], b[23]),
        modify_date: le16(b[24], b[25]),
        first_cluster_lo: le16(b[26], b[27]),
        size: le32(b[28], b[29], b[30], b[31]),
    }
}

/// Parse 32 bytes as an LFN record.
pub open spec fn parse_lfn(b: Seq<u8>) -> LfnView {
    LfnView {
        order: b[0],
        units: seq![
            le16(b[1], b[2]),
            le16(b[3], b[4]),
            le16(b[5], b[6]),
            le16(b[7], b[8]),
            le16(b[9], b[10]),
            le16(b[14], b[15]),
            le16(b[16], b[17]),
            le16(b[18], b[19]),
            le16(b[20], b[21]),
            le16(b[22], b[23]),
            le16(b[24], b[25]),
            le16(b[28], b[29]),
            le16(b[30], b[31]),
        ],
        entry_type: b[12],
        checksum: b[13],
        reserved_0: le16(b[26], b[27]),
    }
}

/// Classify and parse one 32-byte slot: the attribute byte decides the
/// variant.
pub open spec fn parse_slot(b: Seq<u8>) -> SlotView {
    if b[11] == ATTR_LFN {
        SlotView::Lfn(parse_lfn(b))
    } else {
        SlotView::File(parse_sfn(b))
    }
}

/// First byte of a slot's on-disk form: the liveness marker.
pub open spec fn slot_first_byte(v: SlotView) -> u8 {
    match v {
        SlotView::File(e) => e.name[0],
        SlotView::Lfn(e) => e.order,
    }
}

/// The slot is the end-of-directory sentinel.
pub open spec fn slot_is_end(v: SlotView) -> bool {
    slot_first_byte(v) == SLOT_END
}

/// The slot is free for reuse.
pub open spec fn slot_is_free(v: SlotView) -> bool {
    slot_first_byte(v) == SLOT_FREE
}

/// The slot is a volume-label record.
pub open spec fn slot_is_volume(v: SlotView) -> bool {
    match v {
        SlotView::File(e) => e.attrs & ATTR_VOLUME_ID != 0,
        SlotView::Lfn(_) => false,
    }
}

/// The slot after its first byte is overwritten with the free marker.
pub open spec fn slot_freed(v: SlotView) -> SlotView {
    match v {
        SlotView::File(e) => SlotView::File(SfnView { name: e.name.update(0, SLOT_FREE), ..e }),
        SlotView::Lfn(e) => SlotView::Lfn(LfnView { order: SLOT_FREE, ..e }),
    }
}

/// The first-cluster number of an SFN record under the given FAT variant:
/// on FAT32 the high half participates, on FAT12/16 it is ignored.
pub open spec fn sfn_first_cluster(e: SfnView, fat_type: FatType) -> Option<u32> {
    let n: u32 = if fat_type is Fat32 {
        (65536 * e.first_cluster_hi + e.first_cluster_lo) as u32
    } else {
        e.first_cluster_lo as u32
    };
    if n == 0 {
        None
    } else {
        Some(n)
    }
}

impl DirFileEntryData {
    /// A fresh SFN record with the given name and attributes; every other
    /// field zero.
    pub fn new(name: Vec<u8>, attrs: u8) -> (r: Self)
        ensures
            r@ == (SfnView {
                name: name@,
                attrs: attrs,
                reserved_0: 0,
                create_time_0: 0,
                create_time_1: 0,
                create_date: 0,
                access_date: 0,
                first_cluster_hi: 0,
                modify_time: 0,
                modify_date: 0,
                first_cluster_lo: 0,
                size: 0,
            }),
    {
        DirFileEntryData {
            name,
            attrs,
            reserved_0: 0,
            create_time_0: 0,
            create_time_1: 0,
            create_date: 0,
            access_date: 0,
            first_cluster_hi: 0,
            modify_time: 0,
            modify_date: 0,
            first_cluster_lo: 0,
            size: 0,
        }
    }

    /// The record describes a subdirectory.
    pub fn is_dir(&self) -> (r: bool)
        ensures
            r == (self@.attrs & ATTR_DIRECTORY != 0),
    {
        self.attrs & ATTR_DIRECTORY != 0
    }

    /// The record is a volume label.
    pub fn is_volume(&self) -> (r: bool)
        ensures
            r == slot_is_volume(SlotView::File(self@)),
    {
        self.attrs & ATTR_VOLUME_ID != 0
    }

    /// First cluster of the record's data under the given FAT variant;
    /// `None` when the field is zero (no data allocated).
    pub fn first_cluster(&self, fat_type: FatType) -> (r: Option<u32>)
        ensures
            r == sfn_first_cluster(self@, fat_type),
    {
        let n: u32 = match fat_type {
            FatType::Fat32 => 65536 * (self.first_cluster_hi as u32) + (self.first_cluster_lo
                as u32),
            _ => self.first_cluster_lo as u32,
        };
        if n == 0 {
            None
        } else {
            Some(n)
        }
    }

    /// Store a first-cluster number: the low half always, the high half only
    /// on FAT32.
    pub fn set_first_cluster(&mut self, cluster: Option<u32>, fat_type: FatType)
        ensures
            final(self)@ == (SfnView {
                first_cluster_lo: ((cluster.unwrap_or(0) as int) % 65536) as u16,
                first_cluster_hi: if fat_type is Fat32 {
                    ((cluster.unwrap_or(0) as int) / 65536) as u16
                } else {
                    old(self)@.first_cluster_hi
                },
                ..old(self)@
            }),
    {
        let n: u32 = match cluster {
            Some(c) => c,
            None => 0,
        };
        self.first_cluster_lo = (n % 65536) as u16;
        if let FatType::Fat32 = fat_type {
            self.first_cluster_hi = (n / 65536) as u16;
        }
    }

    /// Serialize to the 32-byte on-disk form.
    pub fn serialize(&self) -> (out: Vec<u8>)
        requires
            self@.name.len() == 11,
        ensures
            out@ == sfn_bytes(self@),
            out@.len() == 32,
    {
        let mut out: Vec<u8> = Vec::new();
        let mut i: usize = 0;
        while i < 11
            invariant
                i <= 11,
                self@.name.len() == 11,
                out@ == self@.name.subrange(0, i as int),
            decreases 11 - i,
        {
            out.push(self.name[i]);
            i = i + 1;
        }
        assert(out@ == self@.name);
        out.push(self.attrs);
        out.push(self.reserved_0);
        out.push(self.create_time_0);
        push_u16_le(&mut out, self.create_time_1);
        push_u16_le(&mut out, self.create_date);
        push_u16_le(&mut out, self.access_date);
        push_u16_le(&mut out, self.first_cluster_hi);
        push_u16_le(&mut out, self.modify_time);
        push_u16_le(&mut out, self.modify_date);
        push_u16_le(&mut out, self.first_cluster_lo);
        push_u32_le(&mut out, self.size);
        proof {
            assert(out@ =~= sfn_bytes(self@));
        }
        out
    }
}

impl DirLfnEntryData {
    /// A fresh LFN record with the given order byte and checksum; the code
    /// units start zeroed.
    pub fn new(order: u8, checksum: u8) -> (r: Self)
        ensures
            r@ == (LfnView {
                order: order,
                units: Seq::new(13, |i: int| 0u16),
                entry_type: 0,
                checksum: checksum,
                reserved_0: 0,
            }),
    {
        let mut units: Vec<u16> = Vec::new();
        let mut i: usize = 0;
        while i < 13
            invariant
                i <= 13,
                units@ =~= Seq::new(i as nat, |j: int| 0u16),
            decreases 13 - i,
        {
            units.push(0);
            i = i + 1;
        }
        proof {
            assert(units@ =~= Seq::new(13, |i: int| 0u16));
        }
        DirLfnEntryData { order, units, entry_type: 0, checksum, reserved_0: 0 }
    }

    /// Serialize to the 32-byte on-disk form.
    pub fn serialize(&self) -> (out: Vec<u8>)
        requires
            self@.units.len() == 13,
        ensures
            out@ == lfn_bytes(self@),
            out@.len() == 32,
    {
        let mut out: Vec<u8> = Vec::new();
        out.push(self.order);
        push_u16_le(&mut out, self.units[0]);
        push_u16_le(&mut out, self.units[1]);
        push_u16_le(&mut out, self.units[2]);
        push_u16_le(&mut out, self.units[3]);
        push_u16_le(&mut out, self.units[4]);
        out.push(ATTR_LFN);
        out.push(self.entry_type);
        out.push(self.checksum);
        push_u16_le(&mut out, self.units[5]);
        push_u16_le(&mut out, self.units[6]);
        push_u16_le(&mut out, self.units[7]);
        push_u16_le(&mut out, self.units[8]);
        push_u16_le(&mut out, self.units[9]);
        push_u16_le(&mut out, self.units[10]);
        push_u16_le(&mut out, self.reserved_0);
        push_u16_le(&mut out, self.units[11]);
        push_u16_le(&mut out, self.units[12]);
        proof {
            assert(out@ =~= lfn_bytes(self@));
        }
        out
    }
}

/// Append a 16-bit value little-endian.
fn push_u16_le(out: &mut Vec<u8>, x: u16)
    ensures
        final(out)@ == old(out)@ + seq![lo8(x), hi8(x)],
{
    out.push((x % 256) as u8);
    out.push((x / 256) as u8);
}

/// Append a 32-bit value little-endian.
fn push_u32_le(out: &mut Vec<u8>, x: u32)
    ensures
        final(out)@ == old(out)@ + seq![byte32(x, 0), byte32(x, 1), byte32(x, 2), byte32(x, 3)],
{
    out.push((x % 256) as u8);
    out.push(((x / 256) % 256) as u8);
    out.push(((x / 65536) % 256) as u8);
    out.push((x / 16777216) as u8);
    proof {
        assert(x / 16777216 < 256) by (nonlinear_arith)
            requires
                x < 4294967296,
        ;
    }
}

impl DirEntryData {
    /// Well-formed slot.
    pub open spec fn wf(&self) -> bool {
        slot_wf(self@)
    }

    /// Parse one slot from the directory bytes at byte offset `off`.
    pub fn deserialize(v: &Vec<u8>, off: usize) -> (r: DirEntryData)
        requires
            off + 32 <= v@.len(),
        ensures
            r@ == parse_slot(v@.subrange(off as int, off + 32)),
            r.wf(),
    {
        let ghost b = v@.subrange(off as int, off + 32);
        let vlen = v.len();
        if v[off + 11] == ATTR_LFN {
            let mut units: Vec<u16> = Vec::new();
            units.push(read_u16_le(v, off + 1));
            units.push(read_u16_le(v, off + 3));
            units.push(read_u16_le(v, off + 5));
            units.push(read_u16_le(v, off + 7));
            units.push(read_u16_le(v, off + 9));
            units.push(read_u16_le(v, off + 14));
            units.push(read_u16_le(v, off + 16));
            units.push(read_u16_le(v, off + 18));
            units.push(read_u16_le(v, off + 20));
            units.push(read_u16_le(v, off + 22));
            units.push(read_u16_le(v, off + 24));
            units.push(read_u16_le(v, off + 28));
            units.push(read_u16_le(v, off + 30));
            let r = DirEntryData::Lfn(
                DirLfnEntryData {
                    order: v[off],
                    units,
                    entry_type: v[off + 12],
                    checksum: v[off + 13],
                    reserved_0: read_u16_le(v, off + 26),
                },
            );
            proof {
                assert(r@->Lfn_0.units =~= parse_lfn(b).units);
                assert(r@ == parse_slot(b));
            }
            r
        } else {
            let mut name: Vec<u8> = Vec::new();
            let mut i: usize = 0;
            while i < 11
                invariant
                    i <= 11,
                    off + 32 <= v@.len(),
                    v@.len() <= usize::MAX,
                    name@ == v@.subrange(off as int, off + i),
                decreases 11 - i,
            {
                name.push(v[off + i]);
                i = i + 1;
            }
            let r = DirEntryData::File(
                DirFileEntryData {
                    name,
                    attrs: v[off + 11],
                    reserved_0: v[off + 12],
                    create_time_0: v[off + 13],
                    create_time_1: read_u16_le(v, off + 14),
                    create_date: read_u16_le(v, off + 16),
                    access_date: read_u16_le(v, off + 18),
                    first_cluster_hi: read_u16_le(v, off + 20),
                    modify_time: read_u16_le(v, off + 22),
                    modify_date: read_u16_le(v, off + 24),
                    first_cluster_lo: read_u16_le(v, off + 26),
                    size: read_u32_le(v, off + 28),
                },
            );
            proof {
                assert(r@->File_0.name =~= parse_sfn(b).name);
                assert(r@ == parse_slot(b));
            }
            r
        }
    }

    /// Serialize to the 32-byte on-disk form.
    pub fn serialize(&self) -> (out: Vec<u8>)
        requires
            self.wf(),
        ensures
            out@ == slot_bytes(self@),
            out@.len() == 32,
    {
        match self {
            DirEntryData::File(e) => e.serialize(),
            DirEntryData::Lfn(e) => e.serialize(),
        }
    }

    /// The slot is the end-of-directory sentinel.
    pub fn is_end(&self) -> (r: bool)
        requires
            self.wf(),
        ensures
            r == slot_is_end(self@),
    {
        match self {
            DirEntryData::File(e) => e.name[0] == SLOT_END,
            DirEntryData::Lfn(e) => e.order == SLOT_END,
        }
    }

    /// The slot is free for reuse.
    pub fn is_free(&self) -> (r: bool)
        requires
            self.wf(),
        ensures
            r == slot_is_free(self@),
    {
        match self {
            DirEntryData::File(e) => e.name[0] == SLOT_FREE,
            DirEntryData::Lfn(e) => e.order == SLOT_FREE,
        }
    }

    /// Mark the slot free: overwrite the first byte with the free marker and
    /// keep everything else.
    pub fn set_free(&mut self)
        requires
            old(self).wf(),
        ensures
            final(self)@ == slot_freed(old(self)@),
            final(self).wf(),
    {
        match self {
            DirEntryData::File(e) => {
                e.name.set(0, SLOT_FREE);
            },
            DirEntryData::Lfn(e) => {
                e.order = SLOT_FREE;
            },
        }
    }
}

/// Read a 16-bit value little-endian at byte offset `off`.
fn read_u16_le(v: &Vec<u8>, off: usize) -> (r: u16)
    requires
        off + 2 <= v@.len(),
    ensures
        r == le16(v@[off as int], v@[off + 1]),
{
    let vlen = v.len();
    (v[off] as u16) + 256 * (v[off + 1] as u16)
}

/// Read a 32-bit value little-endian at byte offset `off`.
fn read_u32_le(v: &Vec<u8>, off: usize) -> (r: u32)
    requires
        off + 4 <= v@.len(),
    ensures
        r == le32(v@[off as int], v@[off + 1], v@[off + 2], v@[off + 3]),
{
    let vlen = v.len();
    (v[off] as u32) + 256 * (v[off + 1] as u32) + 65536 * (v[off + 2] as u32) + 16777216 * (v[off
        + 3] as u32)
}

/// Parsing inverts serialization: every well-formed slot survives the trip
/// to its 32-byte form and back unchanged.
pub proof fn lemma_parse_slot_bytes(v: SlotView)
    requires
        slot_wf(v),
    ensures
        parse_slot(slot_bytes(v)) == v,
{
    match v {
        SlotView::File(e) => {
            let b = sfn_bytes(e);
            assert(b[11] == e.attrs);
            lemma_le16_lo_hi(e.create_time_1);
            lemma_le16_lo_hi(e.create_date);
            lemma_le16_lo_hi(e.access_date);
            lemma_le16_lo_hi(e.first_cluster_hi);
            lemma_le16_lo_hi(e.modify_time);
            lemma_le16_lo_hi(e.modify_date);
            lemma_le16_lo_hi(e.first_cluster_lo);
            lemma_le32_bytes(e.size);
            assert(parse_sfn(b).name =~= e.name);
            assert(parse_slot(b) == v);
        },
        SlotView::Lfn(e) => {
            let b = lfn_bytes(e);
            assert(b[11] == ATTR_LFN);
            assert forall|i: int| 0 <= i < 13 implies le16(lo8(e.units[i]), hi8(e.units[i]))
                == e.units[i] by {
                lemma_le16_lo_hi(e.units[i]);
            }
            lemma_le16_lo_hi(e.reserved_0);
            assert(parse_lfn(b).units =~= e.units);
            assert(parse_slot(b) == v);
        },
    }
}

/// Serialization inverts parsing: any 32 bytes equal the serialization of
/// the slot they parse to.
pub proof fn lemma_slot_bytes_parse(b: Seq<u8>)
    requires
        b.len() == 32,
    ensures
        slot_bytes(parse_slot(b)) == b,
        slot_wf(parse_slot(b)),
{
    if b[11] == ATTR_LFN {
        let e = parse_lfn(b);
        assert forall|i: int| 0 <= i < 32 implies #[trigger] lfn_bytes(e)[i] == b[i] by {
            if i == 26 || i == 27 {
                lemma_lo_hi_le16(b[26], b[27]);
            } else if i >= 1 && i != 11 && i != 12 && i != 13 {
                lemma_lo_hi_le16(b[if i % 2 == 1 { i } else { i - 1 }], b[if i % 2 == 1 {
                    i + 1
                } else {
                    i
                }]);
            }
        }
        assert(lfn_bytes(e) =~= b);
    } else {
        let e = parse_sfn(b);
        lemma_lo_hi_le16(b[14], b[15]);
        lemma_lo_hi_le16(b[16], b[17]);
        lemma_lo_hi_le16(b[18], b[19]);
        lemma_lo_hi_le16(b[20], b[21]);
        lemma_lo_hi_le16(b[22], b[23]);
        lemma_lo_hi_le16(b[24], b[25]);
        lemma_lo_hi_le16(b[26], b[27]);
        lemma_bytes_le32(b[28], b[29], b[30], b[31]);
        assert(sfn_bytes(e) =~= b);
    }
}

/// Freeing the slot a 32-byte string parses to changes exactly its first
/// byte to the free marker.
pub proof fn lemma_freed_bytes(x: Seq<u8>)
    requires
        x.len() == 32,
    ensures
        slot_bytes(slot_freed(parse_slot(x))) == x.update(0, SLOT_FREE),
{
    lemma_slot_bytes_parse(x);
    lemma_slot_bytes_parse(x.update(0, SLOT_FREE));
    if x[11] == ATTR_LFN {
        assert(parse_lfn(x.update(0, SLOT_FREE)).units =~= parse_lfn(x).units);
        assert(parse_slot(x.update(0, SLOT_FREE)) == slot_freed(parse_slot(x)));
    } else {
        assert(parse_sfn(x.update(0, SLOT_FREE)).name =~= parse_sfn(x).name.update(
            0,
            SLOT_FREE,
        ));
        assert(parse_slot(x.update(0, SLOT_FREE)) == slot_freed(parse_slot(x)));
    }
}

impl DirFileEntryData {
    /// The same payload under a new short name: attributes, timestamps,
    /// first cluster and size all carry over.
    pub fn renamed(&self, new_name: Vec<u8>) -> (r: DirFileEntryData)
        ensures
            r@ == (SfnView { name: new_name@, ..self@ }),
    {
        DirFileEntryData {
            name: new_name,
            attrs: self.attrs,
            reserved_0: self.reserved_0,
            create_time_0: self.create_time_0,
            create_time_1: self.create_time_1,
            create_date: self.create_date,
            access_date: self.access_date,
            first_cluster_hi: self.first_cluster_hi,
            modify_time: self.modify_time,
            modify_date: self.modify_date,
            first_cluster_lo: self.first_cluster_lo,
            size: self.size,
        }
    }
}

/// Splitting a 16-bit value into its little-endian bytes and reading them
/// back is the identity.
proof fn lemma_le16_lo_hi(x: u16)
    ensures
        le16(lo8(x), hi8(x)) == x,
{
    assert(x % 256 + 256 * (x / 256) == x) by (nonlinear_arith);
}

/// Reading two bytes as a 16-bit value and splitting it again returns the
/// same bytes.
proof fn lemma_lo_hi_le16(b0: u8, b1: u8)
    ensures
        lo8(le16(b0, b1)) == b0,
        hi8(le16(b0, b1)) == b1,
{
    assert((b0 + 256 * b1) % 256 == b0 && (b0 + 256 * b1) / 256 == b1) by (nonlinear_arith)
        requires
            0 <= b0 < 256 && 0 <= b1 < 256,
    ;
}

/// Splitting a 32-bit value into its little-endian bytes and reading them
/// back is the identity.
proof fn lemma_le32_bytes(x: u32)
    ensures
        le32(byte32(x, 0), byte32(x, 1), byte32(x, 2), byte32(x, 3)) == x,
{
    assert(x % 256 + 256 * ((x / 256) % 256) + 65536 * ((x / 65536) % 256) + 16777216 * (x
        / 16777216) == x) by (nonlinear_arith)
        requires
            x < 4294967296,
    ;
}

/// Reading four bytes as a 32-bit value and splitting it again returns the
/// same bytes.
proof fn lemma_bytes_le32(b0: u8, b1: u8, b2: u8, b3: u8)
    ensures
        byte32(le32(b0, b1, b2, b3), 0) == b0,
        byte32(le32(b0, b1, b2, b3), 1) == b1,
        byte32(le32(b0, b1, b2, b3), 2) == b2,
        byte32(le32(b0, b1, b2, b3), 3) == b3,
{
    let x = b0 + 256 * b1 + 65536 * b2 + 16777216 * b3;
    assert(x % 256 == b0 && (x / 256) % 256 == b1 && (x / 65536) % 256 == b2 && x / 16777216
        == b3) by (nonlinear_arith)
        requires
            x == b0 + 256 * b1 + 65536 * b2 + 16777216 * b3 && 0 <= b0 < 256 && 0 <= b1 < 256 && 0
                <= b2 < 256 && 0 <= b3 < 256,
    ;
}

} // verus!
